use std::sync::atomic::{AtomicU64, Ordering};

use hyperion::mem_slab::WordMemory;
use hyperion::slab::{BigAllocMetadata, PageAlloc, Pages, Slab, SlabAllocator, SlabAllocatorStats};

static NEXT: AtomicU64 = AtomicU64::new(0x100_0000);

struct TestPages;

impl PageAlloc for TestPages {
    fn alloc_pages(pages: usize) -> Pages {
        let first = NEXT.fetch_add(pages as u64 * 0x1000, Ordering::SeqCst);
        Pages::new(first, pages)
    }

    fn dealloc_pages(_frames: Pages) {}
}

#[test]
fn get_slab_gives_index_and_size() {
    let a: SlabAllocator<TestPages> = SlabAllocator::new();
    assert_eq!(a.get_slab(1), Some((0, 8)));
    assert_eq!(a.get_slab(33), Some((3, 48)));
    assert_eq!(a.get_slab(768), Some((11, 768)));
    assert_eq!(a.get_slab(1025), None);
}

#[test]
fn slab_pops_and_pushes_blocks() {
    let mut mem = WordMemory::new();
    let mut stats = SlabAllocatorStats::new();
    let mut slab: Slab<TestPages> = Slab::new(256);
    let a = slab.allocate(8, &mut stats, &mut mem);
    assert_eq!(a % 0x1000, 256);
    let page = a - 256;
    assert_eq!(stats.allocated, 1);
    assert_eq!(stats.used, 256);
    let b = slab.allocate(8, &mut stats, &mut mem);
    assert_eq!(b, page + 512);
    slab.free(&mut stats, &mut mem, a);
    assert_eq!(stats.used, 256);
    assert_eq!(slab.allocate(8, &mut stats, &mut mem), a);
    assert_eq!(slab.allocate(8, &mut stats, &mut mem), page + 768);
}

#[test]
fn allocator_round_trip() {
    let mut mem = WordMemory::new();
    let mut a: SlabAllocator<TestPages> = SlabAllocator::new();
    let small = a.allocate(20, &mut mem);
    assert_eq!(small % 0x1000, 32);
    assert_eq!(a.size(small, &mem), 32);
    let big = a.allocate(0x1800, &mut mem);
    assert_eq!(big % 0x1000, 0);
    // two pages for the bytes, one for the header
    assert_eq!(a.size(big, &mem), 3 * 0x1000);
    a.free(big, &mut mem);
    a.free(small, &mut mem);
    assert_eq!(a.allocate(20, &mut mem), small);
}

#[test]
fn big_header_counts_pages() {
    let m = BigAllocMetadata::new(3);
    assert_eq!(m.size(), Some(3));
    assert_eq!(BigAllocMetadata::from_fields(0, 3).size(), None);
}

#[test]
fn pages_sizes() {
    let p = Pages::new(0x4000, 3);
    assert_eq!(p.len(), 3);
    assert_eq!(p.byte_len(), 0x3000);
    assert!(!p.is_empty());
    assert_eq!(p.as_addr(), 0x4000);
}

#[test]
fn fresh_allocations_are_aligned_to_the_request() {
    let mut mem = WordMemory::new();
    let mut a: SlabAllocator<TestPages> = SlabAllocator::new();
    let b64 = a.allocate(64, &mut mem);
    assert_eq!(b64 % 64, 0);
    let b200 = a.allocate(200, &mut mem);
    assert_eq!(b200 % 256, 0);
    let big = a.allocate(3000, &mut mem);
    assert_eq!(big % 0x1000, 0);
    // a 48 byte block is only aligned to 16
    let b40 = a.allocate(40, &mut mem);
    assert_eq!(b40 % 0x1000, 48);
}

#[test]
fn test_stack() {
    let mut stats = SlabAllocatorStats::new();
    let mut mem = WordMemory::new();
    let mut slab: Slab<TestPages> = Slab::new(32);
    let a = slab.allocate(2, &mut stats, &mut mem);
    let b = slab.allocate(2, &mut stats, &mut mem);
    assert_ne!(a, b);
    assert_eq!(stats.used, 64);
}
