use hyperion::addr::HHDM;
use hyperion::mem_slab::{BigAllocMetadata, Slab, SlabAllocator, SlabAllocatorStats, WordMemory};
use hyperion::pmm::PageFrameAllocator;
use hyperion::slab::{AllocMetadata, BIG_ALLOC_MAGIC};

fn pfa(pages: usize) -> PageFrameAllocator {
    let mut bits = vec![false; pages];
    bits[0] = true;
    PageFrameAllocator::from_parts(bits, pages * 0x1000, 0x1000, pages * 0x1000)
}

#[test]
fn word_memory_reads_back_the_last_write() {
    let mut mem = WordMemory::new();
    assert_eq!(mem.read(0x10), 0);
    mem.write(0x10, 5);
    mem.write(0x18, 6);
    mem.write(0x10, 7);
    assert_eq!(mem.read(0x10), 7);
    assert_eq!(mem.read(0x18), 6);
}

#[test]
fn header_word_roundtrip() {
    let h = AllocMetadata::new(7);
    let w = h.to_word();
    assert_eq!(w, 0x0743_980e_8221_eefa);
    let back = AllocMetadata::from_word(w);
    assert_eq!(back.idx(), Some(7));
    assert_eq!(AllocMetadata::from_word(0x0743_0000_8221_eefa).idx(), Some(7));
    assert_eq!(AllocMetadata::from_word(0x0700_0000_8221_eefa).idx(), None);
}

#[test]
fn slab_chains_a_new_page() {
    let mut p = pfa(16);
    let mut mem = WordMemory::new();
    let mut stats = SlabAllocatorStats { used: 0, allocated: 0 };
    let mut slab = Slab::new(4, 64);
    let base = 0x1000 + HHDM;
    let a = slab.allocate(&mut p, &mut mem, &mut stats);
    assert_eq!(a, base + 64);
    assert_eq!(mem.read(base), AllocMetadata::new(4).to_word());
    assert_eq!(mem.read(a), 0);
    assert_eq!(stats.used, 64);
    assert_eq!(stats.allocated, 1);
    let b = slab.allocate(&mut p, &mut mem, &mut stats);
    assert_eq!(b, base + 128);
    // the last block of the page points to none
    assert_eq!(mem.read(base + 63 * 64), 0);
    assert_eq!(mem.read(base + 62 * 64), base + 63 * 64);
}

#[test]
fn slab_hands_out_the_freed_block_first() {
    let mut p = pfa(16);
    let mut mem = WordMemory::new();
    let mut stats = SlabAllocatorStats { used: 0, allocated: 0 };
    let mut slab = Slab::new(0, 32);
    let a = slab.allocate(&mut p, &mut mem, &mut stats);
    let b = slab.allocate(&mut p, &mut mem, &mut stats);
    mem.write(a + 8, 0xdead);
    slab.free(&mut mem, &mut stats, a);
    // the freed block is cleared and linked in front
    assert_eq!(mem.read(a + 8), 0);
    assert_eq!(stats.used, 32);
    let c = slab.allocate(&mut p, &mut mem, &mut stats);
    assert_eq!(c, a);
    let d = slab.allocate(&mut p, &mut mem, &mut stats);
    assert_eq!(d, b + 32);
}

#[test]
fn allocator_picks_the_smallest_slab() {
    let a = SlabAllocator::new();
    assert_eq!(a.get_slab(1), Some(0));
    assert_eq!(a.get_slab(8), Some(0));
    assert_eq!(a.get_slab(9), Some(1));
    assert_eq!(a.get_slab(100), Some(6));
    assert_eq!(a.get_slab(1024), Some(12));
    assert_eq!(a.get_slab(1025), None);
}

#[test]
fn allocator_small_and_big_allocations() {
    let mut p = pfa(32);
    let mut mem = WordMemory::new();
    let mut a = SlabAllocator::new();
    let small = a.allocate(&mut p, &mut mem, 24);
    // slab 2 (32 bytes) took page 1
    assert_eq!(small, 0x1000 + HHDM + 32);
    let big = a.allocate(&mut p, &mut mem, 5000);
    // two pages for the bytes and one for the header: pages 2..5
    assert_eq!(big, 0x2000 + HHDM + 0x1000);
    assert_eq!(mem.read(0x2000 + HHDM), BIG_ALLOC_MAGIC);
    assert_eq!(mem.read(0x2000 + HHDM + 8), 5000);
    a.free(&mut p, &mut mem, big);
    // the three pages are free again: 28 pages do not fit after page 5, so the
    // search starts over and finds them from page 2 on
    let again = p.allocate(28);
    assert_eq!(again.physical_addr(), 0x2000);
    a.free(&mut p, &mut mem, small);
    a.free(&mut p, &mut mem, 0);
}

#[test]
fn big_header_size() {
    let m = BigAllocMetadata::new(10);
    assert_eq!(m.size(), Some(10));
    assert_eq!(BigAllocMetadata::from_words(1, 10).size(), None);
}
