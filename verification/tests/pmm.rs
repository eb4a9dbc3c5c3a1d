use hyperion::pmm::{Memmap, PageFrame, PageFrameAllocator};

fn memmap() -> Vec<Memmap> {
    vec![
        Memmap { base: 0x1000, len: 0x1F000, usable: true },
        Memmap { base: 0x10_0000, len: 0x10_0000, usable: false },
        Memmap { base: 0x20_0000, len: 0x10_0000, usable: true },
    ]
}

#[test]
fn init_sizes_the_bitmap_and_statistics() {
    let pfa = PageFrameAllocator::init(&memmap());
    // usable memory ends at 0x30_0000: 768 pages, one bit each, rounded up to a page
    assert_eq!(pfa.bitmap_len(), 0x1000 * 8);
    assert_eq!(pfa.usable_mem(), 0x1F000 + 0x10_0000);
    assert_eq!(pfa.total_mem(), 0x1F000 + 0x20_0000);
    assert_eq!(pfa.used_mem(), 0x1000);
    assert_eq!(pfa.reserved_mem(), 0x10_0000);
}

#[test]
fn allocations_follow_each_other() {
    let mut pfa = PageFrameAllocator::init(&memmap());
    // the bitmap sits in the first page of the first usable entry
    let a = pfa.allocate(1);
    assert_eq!((a.physical_addr(), a.len()), (0x2000, 1));
    let b = pfa.allocate(2);
    assert_eq!((b.physical_addr(), b.len()), (0x3000, 2));
    assert_eq!(pfa.used_mem(), 0x1000 + 3 * 0x1000);
    pfa.free(a);
    assert_eq!(pfa.used_mem(), 0x1000 + 2 * 0x1000);
    // the search goes on from the end of the last allocation
    let c = pfa.allocate(1);
    assert_eq!(c.physical_addr(), 0x5000);
}

#[test]
fn allocation_skips_used_pages_and_wraps_around() {
    let mut pfa = PageFrameAllocator::init(&memmap());
    // 30 pages are free in the first entry: take 29 of them, then the 30th
    let a = pfa.allocate(29);
    assert_eq!(a.physical_addr(), 0x2000);
    // a run of 2 does not fit in the one page left: it comes from the second entry
    let b = pfa.allocate(2);
    assert_eq!(b.physical_addr(), 0x20_0000);
    pfa.free(a);
    // from the last allocation's end onwards first
    let c = pfa.allocate(1);
    assert_eq!(c.physical_addr(), 0x20_2000);
}

#[test]
fn no_pages_is_the_empty_frame() {
    let mut pfa = PageFrameAllocator::init(&memmap());
    let z = pfa.allocate(0);
    assert_eq!((z.physical_addr(), z.len()), (0, 0));
    assert!(z.is_empty());
    pfa.free(z);
    assert_eq!(pfa.used_mem(), 0x1000);
}

#[test]
fn free_then_allocate_gives_back_the_same_bitmap() {
    let mut pfa = PageFrameAllocator::from_parts(vec![true, false, false, true], 0x4000, 0x1000, 0x4000);
    let a = pfa.allocate(2);
    assert_eq!(a.physical_addr(), 0x1000);
    assert_eq!(pfa.used_mem(), 0x3000);
    pfa.free(a);
    assert_eq!(pfa.used_mem(), 0x1000);
    // the freed run is found again once the search wraps around
    let b = pfa.allocate(2);
    assert_eq!(b.physical_addr(), 0x1000);
}

#[test]
fn page_frame_sizes() {
    let f = PageFrame::new(0x3000, 4);
    assert_eq!(f.byte_len(), 0x4000);
    assert_eq!(f.len(), 4);
}

#[test]
fn byte_layouts_in_the_direct_map() {
    let mut pfa = PageFrameAllocator::init(&memmap());
    // 0x2fff bytes round down to two pages
    let (addr, len) = pfa.allocate_layout(0x2fff);
    assert_eq!((addr, len), (0xFFFF_8000_0000_2000, 0x2000));
    assert_eq!(pfa.used_mem(), 0x3000);
    assert_eq!(PageFrame::new(0x5000, 1).virtual_addr(), 0xFFFF_8000_0000_5000);
    pfa.deallocate_layout(addr, len);
    assert_eq!(pfa.used_mem(), 0x1000);
    // less than a page takes nothing
    assert_eq!(pfa.allocate_layout(0x800), (0xFFFF_8000_0000_0000, 0));
    assert_eq!(pfa.used_mem(), 0x1000);
}

#[test]
fn room_to_allocate_and_free() {
    let mut pfa = PageFrameAllocator::init(&memmap());
    assert!(pfa.can_allocate(0));
    assert!(pfa.can_allocate(2));
    assert!(!pfa.can_allocate(0x10_0000));
    let f = pfa.allocate(2);
    assert!(pfa.can_free(&f));
    pfa.free(PageFrame::new(f.physical_addr(), 2));
    assert!(!pfa.can_free(&f));
    assert!(pfa.can_free(&PageFrame::new(0, 3)));
}
