//! Thread stacks of a user process: fresh stacks are carved downwards below the main
//! thread's stack, each under a guard area; freed stacks are chained through their
//! first word and handed out again first.

use vstd::prelude::*;

use crate::mem_slab::WordMemory;

verus! {

/// First address above user space.
pub const USER_SPACE_TOP: u64 = 0x8000_0000_0000;

/// Size of the unmapped guard below each stack.
pub const STACK_GUARD_SIZE: u64 = 0x20_0000;

/// Size of a thread stack.
pub const MAIN_STACK_SIZE: u64 = 0x1E0_0000;

/// Bottom of the main thread's stack guard: thread stacks are carved below it.
pub const MAIN_STACK_GUARD_BOTTOM: u64 = 0x7FFF_FE00_0000;

/// What [`Stacks::alloc_stack`] decided: a cached stack, or a fresh one that the
/// caller maps (stack and guard from `guard_bottom` on, then the guard alone).
#[derive(Debug, Clone, Copy, PartialEq, Eq, Structural)]
pub enum StackPlan {
    Cached { top: u64 },
    Fresh { guard_bottom: u64, top: u64 },
}

impl StackPlan {
    /// The top of the stack to use.
    pub fn top(self) -> (r: u64)
        ensures
            r == match self {
                StackPlan::Cached { top } => top,
                StackPlan::Fresh { top, .. } => top,
            },
    {
        match self {
            StackPlan::Cached { top } => top,
            StackPlan::Fresh { top, .. } => top,
        }
    }
}

/// The stacks of a process: where the next fresh stack ends, and the chain of freed
/// stacks (0 when empty).
pub struct Stacks {
    next_stack_top: u64,
    chain: u64,
}

impl Stacks {
    pub closed spec fn spec_next_top(&self) -> u64 {
        self.next_stack_top
    }

    /// Bottom of the first freed stack, 0 when none is cached.
    pub closed spec fn spec_chain(&self) -> u64 {
        self.chain
    }

    /// No stack handed out yet.
    pub fn new() -> (r: Self)
        ensures
            r.spec_next_top() == MAIN_STACK_GUARD_BOTTOM,
            r.spec_chain() == 0,
    {
        Stacks { next_stack_top: MAIN_STACK_GUARD_BOTTOM, chain: 0 }
    }

    /// A stack for a new thread: the last freed one, else a fresh one below the last
    /// fresh one. Running out of address space is a panic, left out by `requires`.
    pub fn alloc_stack(&mut self, mem: &WordMemory) -> (r: StackPlan)
        requires
            old(self).spec_chain() != 0 ==> old(self).spec_chain() + MAIN_STACK_SIZE <= u64::MAX,
            old(self).spec_chain() == 0 ==> old(self).spec_next_top() > 0x1000 + MAIN_STACK_SIZE
                + STACK_GUARD_SIZE,
        ensures
            old(self).spec_chain() != 0 ==> {
                &&& r == StackPlan::Cached { top: (old(self).spec_chain() + MAIN_STACK_SIZE) as u64 }
                &&& final(self).spec_chain() == mem.word(old(self).spec_chain())
                &&& final(self).spec_next_top() == old(self).spec_next_top()
            },
            old(self).spec_chain() == 0 ==> {
                let top = old(self).spec_next_top();
                &&& r == StackPlan::Fresh {
                    guard_bottom: (top - STACK_GUARD_SIZE - MAIN_STACK_SIZE) as u64,
                    top,
                }
                &&& final(self).spec_chain() == 0
                &&& final(self).spec_next_top() == top - MAIN_STACK_SIZE - STACK_GUARD_SIZE
            },
    {
        if self.chain != 0 {
            // a cached stack
            let next = self.chain;
            self.chain = mem.read(next);
            return StackPlan::Cached { top: next + MAIN_STACK_SIZE };
        }
        // a fresh stack
        let stack_ptr = self.next_stack_top;
        self.next_stack_top = self.next_stack_top.wrapping_sub(MAIN_STACK_SIZE + STACK_GUARD_SIZE);
        let guard_bottom = stack_ptr - STACK_GUARD_SIZE - MAIN_STACK_SIZE;
        StackPlan::Fresh { guard_bottom, top: stack_ptr }
    }

    /// Cache the stack with top `top` for the next thread: its bottom is chained first.
    pub fn free_stack(&mut self, mem: &mut WordMemory, top: u64)
        requires
            top >= STACK_GUARD_SIZE,
        ensures
            final(self).spec_chain() == top - STACK_GUARD_SIZE,
            final(self).spec_next_top() == old(self).spec_next_top(),
            final(mem).word((top - STACK_GUARD_SIZE) as u64) == old(self).spec_chain(),
            forall|a: u64| a != top - STACK_GUARD_SIZE ==> #[trigger] final(mem).word(a) == old(mem).word(a),
    {
        let stack_bottom = top - STACK_GUARD_SIZE;
        mem.write(stack_bottom, self.chain);
        self.chain = stack_bottom;
    }
}

/// Where a value of `size` bytes aligned to `align` goes when it is pushed on a stack
/// whose top is `sp`: below it, rounded down to the alignment.
pub open spec fn pushed_at(sp: u64, size: u64, align: u64) -> u64 {
    ((sp - size) as u64) & !((align - 1) as u64)
}

/// Push a value of `size` bytes aligned to `align`: the new top of the stack, where
/// the value is written.
pub fn push_slot(sp: u64, size: u64, align: u64) -> (r: u64)
    requires
        size <= sp,
        align >= 1,
    ensures
        r == pushed_at(sp, size, align),
{
    (sp - size) & !(align - 1)
}

/// The start frame of a new thread on the stack whose top is `sp`: the closure (of
/// `f_size` bytes aligned to `f_align`), the metadata of its call (a word), the
/// address of the closure, then the address of the metadata, each pushed below the
/// one before.
#[derive(Debug, Clone, Copy, PartialEq, Eq, Structural)]
pub struct SpawnFrame {
    /// where the closure is written
    pub data_ptr: u64,
    /// where the metadata is written
    pub meta_ptr: u64,
    /// where the address of the closure is written
    pub data_ptr_at: u64,
    /// where the address of the metadata is written, the stack pointer of the thread
    pub sp: u64,
}

/// The start frame of a thread that runs a closure of `f_size` bytes aligned to
/// `f_align`, on the stack whose top is `sp`.
pub fn spawn_frame(sp: u64, f_size: u64, f_align: u64) -> (r: SpawnFrame)
    requires
        f_align >= 1,
        f_size <= sp,
        8 <= pushed_at(sp, f_size, f_align),
        8 <= pushed_at(pushed_at(sp, f_size, f_align), 8, 8),
        8 <= pushed_at(pushed_at(pushed_at(sp, f_size, f_align), 8, 8), 8, 8),
    ensures
        r.data_ptr == pushed_at(sp, f_size, f_align),
        r.meta_ptr == pushed_at(r.data_ptr, 8, 8),
        r.data_ptr_at == pushed_at(r.meta_ptr, 8, 8),
        r.sp == pushed_at(r.data_ptr_at, 8, 8),
{
    let data_ptr = push_slot(sp, f_size, f_align);
    let meta_ptr = push_slot(data_ptr, 8, 8);
    let data_ptr_at = push_slot(meta_ptr, 8, 8);
    let top = push_slot(data_ptr_at, 8, 8);
    SpawnFrame { data_ptr, meta_ptr, data_ptr_at, sp: top }
}

} // verus!
