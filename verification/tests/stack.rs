use hyperion::mem_slab::WordMemory;
use hyperion::stack::{push_slot, spawn_frame, StackPlan, Stacks, MAIN_STACK_GUARD_BOTTOM, MAIN_STACK_SIZE, STACK_GUARD_SIZE};

#[test]
fn fresh_stacks_go_down() {
    let mem = WordMemory::new();
    let mut stacks = Stacks::new();
    let a = stacks.alloc_stack(&mem);
    assert_eq!(
        a,
        StackPlan::Fresh {
            guard_bottom: MAIN_STACK_GUARD_BOTTOM - STACK_GUARD_SIZE - MAIN_STACK_SIZE,
            top: MAIN_STACK_GUARD_BOTTOM,
        }
    );
    let b = stacks.alloc_stack(&mem);
    assert_eq!(b.top(), MAIN_STACK_GUARD_BOTTOM - STACK_GUARD_SIZE - MAIN_STACK_SIZE);
}

#[test]
fn freed_stacks_are_handed_out_first() {
    let mut mem = WordMemory::new();
    let mut stacks = Stacks::new();
    let a = stacks.alloc_stack(&mem).top();
    let b = stacks.alloc_stack(&mem).top();
    stacks.free_stack(&mut mem, a);
    stacks.free_stack(&mut mem, b);
    // the last freed first; its top is where its chain link was plus a stack size
    assert_eq!(
        stacks.alloc_stack(&mem),
        StackPlan::Cached { top: b - STACK_GUARD_SIZE + MAIN_STACK_SIZE }
    );
    assert_eq!(
        stacks.alloc_stack(&mem),
        StackPlan::Cached { top: a - STACK_GUARD_SIZE + MAIN_STACK_SIZE }
    );
    // then fresh ones again
    assert!(matches!(stacks.alloc_stack(&mem), StackPlan::Fresh { .. }));
}

#[test]
fn thread_start_frame() {
    assert_eq!(push_slot(0x1000, 3, 1), 0xFFD);
    assert_eq!(push_slot(0x1000, 3, 8), 0xFF8);
    let f = spawn_frame(0x10_0000, 24, 8);
    assert_eq!(f.data_ptr, 0xF_FFE8);
    assert_eq!(f.meta_ptr, 0xF_FFE0);
    assert_eq!(f.data_ptr_at, 0xF_FFD8);
    assert_eq!(f.sp, 0xF_FFD0);
    // a 16-byte aligned closure is placed on a 16-byte boundary
    assert_eq!(spawn_frame(0x10_0008, 4, 16).data_ptr, 0x10_0000);
}
