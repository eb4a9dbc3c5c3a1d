use hyperion::addr::PhysAddr;
use hyperion::frame_alloc::{self, Frame, FrameAllocator, PageInfo, UsableRegion};

#[test]
fn page_info_counts_owners() {
    let mut p = PageInfo::with_refs(0);
    assert!(p.allocate());
    assert!(!p.allocate());
    assert!(p.copy().is_ok());
    assert!(!p.free());
    assert!(p.free());
    let mut full = PageInfo::with_refs(u16::MAX);
    assert!(full.copy().is_err());
}

#[test]
fn frames_and_page_indices() {
    let f = Frame::from_idx(0x12);
    assert_eq!(f.addr().as_u64(), 0x12000);
    assert_eq!(Frame::new(PhysAddr::new(0x5fff)).page_index(), 5);
}

#[test]
fn allocate_probes_from_the_counter() {
    let mut a = FrameAllocator::from_parts(vec![1, 0, 0, 2], 0x100, 0x4000, 0x1000, 0x5000);
    assert_eq!(a.allocate().page_index(), 0x101);
    assert_eq!(a.allocate().page_index(), 0x102);
    // each allocated page counts as used
    assert_eq!(a.used_mem(), 0x3000);
    assert_eq!(a.free_mem(), 0x1000);
    assert_eq!(a.reserved_mem(), 0x1000);
}

#[test]
fn fork_shares_then_copies() {
    let mut a = FrameAllocator::from_parts(vec![1, 0, u16::MAX, 0], 0x100, 0x4000, 0x1000, 0x4000);
    let f = Frame::from_idx(0x100);
    assert_eq!(a.fork(f).page_index(), 0x100);
    // a page at the limit of owners is copied to a fresh one
    let g = a.fork(Frame::from_idx(0x102));
    assert_eq!(g.page_index(), 0x101);
}

#[test]
fn fork_page_fault_copies_shared_pages_only() {
    let mut a = FrameAllocator::from_parts(vec![1, 2, 0, 0], 0x100, 0x4000, 0x1000, 0x4000);
    assert_eq!(a.fork_page_fault(Frame::from_idx(0x100)).page_index(), 0x100);
    let copy = a.fork_page_fault(Frame::from_idx(0x101));
    assert_eq!(copy.page_index(), 0x102);
    // the shared page lost one owner: a second fault on it keeps it
    assert_eq!(a.fork_page_fault(Frame::from_idx(0x101)).page_index(), 0x101);
}

#[test]
fn free_no_overwrite_counts_the_last_owner() {
    let mut a = FrameAllocator::from_parts(vec![2, 1], 0x100, 0x2000, 0x2000, 0x2000);
    a.free_no_overwrite(Frame::from_idx(0x100));
    assert_eq!(a.used_mem(), 0x2000);
    a.free_no_overwrite(Frame::from_idx(0x101));
    assert_eq!(a.used_mem(), 0x1000);
}

#[test]
fn init_frees_the_usable_pages() {
    let regions = vec![UsableRegion { addr: 0x1000, size: 0x8000 }];
    let mut a = FrameAllocator::init(&regions);
    assert_eq!(a.total_mem(), 0x9000);
    assert_eq!(a.usable_mem(), 0x7000);
    assert_eq!(a.used_mem(), 0);
    // the first page holds the bookkeeping
    assert_eq!(a.allocate().page_index(), 2);
    assert_eq!(a.used_mem(), 0x1000);
    assert_eq!(a.free_mem(), 0x6000);
    assert_eq!(frame_alloc::total_mem(Some(&a)), 0x9000);
    assert_eq!(frame_alloc::total_mem(None), 0);
    assert_eq!(frame_alloc::reserved_mem(Some(&a)), 0x2000);
}

#[test]
fn freeing_an_allocated_frame_makes_it_free_again() {
    let mut a = FrameAllocator::from_parts(vec![0], 0x100, 0x1000, 0x1000, 0x1000);
    let f = a.allocate();
    assert_eq!(f.page_index(), 0x100);
    a.free_no_overwrite(f);
    assert_eq!(a.allocate().page_index(), 0x100);
}

#[test]
fn share_then_write_fault_gives_back_one_owner() {
    let mut a = FrameAllocator::from_parts(vec![1, 0], 0x100, 0x2000, 0x2000, 0x2000);
    assert_eq!(a.fork(Frame::from_idx(0x100)).page_index(), 0x100);
    assert_eq!(a.fork_page_fault(Frame::from_idx(0x100)).page_index(), 0x101);
    // one owner again: the page is kept on the next write
    assert_eq!(a.fork_page_fault(Frame::from_idx(0x100)).page_index(), 0x100);
}

#[test]
fn used_memory_follows_allocations_and_frees() {
    let regions = vec![UsableRegion { addr: 0x1000, size: 0x4000 }];
    let mut a = FrameAllocator::init(&regions);
    let used = a.used_mem();
    let f = a.allocate();
    assert_eq!(a.used_mem(), used + 0x1000);
    // a shared page that is written to costs one more page for the copy
    a.fork(Frame::from_idx(f.page_index()));
    let copy = a.fork_page_fault(Frame::from_idx(f.page_index()));
    assert_ne!(copy.page_index(), f.page_index());
    assert_eq!(a.used_mem(), used + 0x2000);
    a.free_no_overwrite(copy);
    a.free_no_overwrite(f);
    assert_eq!(a.used_mem(), used);
    assert_eq!(a.free_mem(), a.usable_mem() - used);
}

#[test]
fn owner_counts_and_room_to_allocate() {
    let mut a = FrameAllocator::from_parts(vec![1, 0], 0x100, 0x2000, 0x1000, 0x2000);
    assert_eq!(a.refs_of(&Frame::from_idx(0x100)), Some(1));
    assert_eq!(a.refs_of(&Frame::from_idx(0x102)), None);
    assert_eq!(a.refs_of(&Frame::from_idx(0x99)), None);
    assert!(a.can_allocate());
    a.allocate();
    assert!(!a.can_allocate());
}
