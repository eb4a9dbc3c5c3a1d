//! The kernel's slab allocator: pages from the page frame allocator cut into blocks
//! of one size; the first block of a page holds a header naming the slab, the free
//! blocks are chained through their first word. Larger allocations take whole pages
//! behind a page that records their size.

use vstd::prelude::*;

use crate::addr::HHDM;
use crate::pmm::{first_window, set_range, PageFrame, PageFrameAllocator};
use crate::slab::{AllocMetadata, ALLOC_MAGIC0, ALLOC_MAGIC1, ALLOC_MAGIC2, BIG_ALLOC_MAGIC};

verus! {

/// Size of a page.
pub const PAGE_SIZE: u64 = 0x1000;

/// The words of the higher half memory that the allocator wrote, most recent last.
/// A word never written reads as zero: the page frame allocator hands out cleared
/// pages.
pub struct WordMemory {
    cells: Vec<(u64, u64)>,
}

/// The word at `addr` after the writes `cells`.
pub open spec fn word_after(cells: Seq<(u64, u64)>, addr: u64) -> u64
    decreases cells.len(),
{
    if cells.len() == 0 {
        0
    } else if cells.last().0 == addr {
        cells.last().1
    } else {
        word_after(cells.drop_last(), addr)
    }
}

impl WordMemory {
    /// The word at `addr`.
    pub closed spec fn word(&self, addr: u64) -> u64 {
        word_after(self.cells@, addr)
    }

    /// Memory that was never written.
    pub fn new() -> (r: Self)
        ensures
            forall|a: u64| #[trigger] r.word(a) == 0,
    {
        WordMemory { cells: Vec::new() }
    }

    /// Read the word at `addr`.
    pub fn read(&self, addr: u64) -> (r: u64)
        ensures
            r == self.word(addr),
    {
        let mut i = self.cells.len();
        assert(self.cells@.subrange(0, i as int) =~= self.cells@);
        while i > 0
            invariant
                i <= self.cells@.len(),
                word_after(self.cells@.subrange(0, i as int), addr) == self.word(addr),
            decreases i,
        {
            let c = self.cells[i - 1];
            proof {
                let s = self.cells@.subrange(0, i as int);
                assert(s.drop_last() =~= self.cells@.subrange(0, i - 1));
            }
            if c.0 == addr {
                return c.1;
            }
            i = i - 1;
        }
        0
    }

    /// Write `value` to the word at `addr`.
    pub fn write(&mut self, addr: u64, value: u64)
        ensures
            final(self).word(addr) == value,
            forall|a: u64| a != addr ==> #[trigger] final(self).word(a) == old(self).word(a),
    {
        self.cells.push((addr, value));
        proof {
            assert(self.cells@.drop_last() =~= old(self).cells@);
        }
    }
}

/// The first word of a slab page header: the bytes of the magic numbers and the index,
/// in memory order.
pub open spec fn header_word(m: AllocMetadata) -> u64 {
    (m.spec_magic().0 as u64) | ((m.spec_magic().1 as u64) << 32u64) | ((m.spec_magic().2 as u64)
        << 48u64) | ((m.spec_idx() as u64) << 56u64)
}

/// The header word of a page of the slab at `idx`.
pub open spec fn slab_header_word(idx: u8) -> u64 {
    (ALLOC_MAGIC0 as u64) | ((ALLOC_MAGIC1 as u64) << 32u64) | ((ALLOC_MAGIC2 as u64) << 48u64) | ((
    idx as u64) << 56u64)
}

impl AllocMetadata {
    /// The header as the word stored at the start of a slab page.
    pub fn to_word(self) -> (r: u64)
        ensures
            r == header_word(self),
    {
        let (m0, m1, m2, idx) = self.fields();
        (m0 as u64) | ((m1 as u64) << 32) | ((m2 as u64) << 48) | ((idx as u64) << 56)
    }

    /// The header stored as the word `w` at the start of a slab page.
    pub fn from_word(w: u64) -> (r: Self)
        ensures
            header_word(r) == w,
            r.spec_magic() == (
                (w & 0xFFFF_FFFF) as u32,
                ((w >> 32u64) & 0xFFFF) as u16,
                ((w >> 48u64) & 0xFF) as u8,
            ),
            r.spec_idx() == (w >> 56u64) as u8,
    {
        let m0 = (w & 0xFFFF_FFFF) as u32;
        let m1 = ((w >> 32) & 0xFFFF) as u16;
        let m2 = ((w >> 48) & 0xFF) as u8;
        let idx = (w >> 56) as u8;
        let r = AllocMetadata::from_fields(m0, m1, m2, idx);
        assert(((w & 0xFFFF_FFFF) as u32 as u64) | ((((w >> 32u64) & 0xFFFF) as u16 as u64) << 32u64) | ((
        ((w >> 48u64) & 0xFF) as u8 as u64) << 48u64) | (((w >> 56u64) as u8 as u64) << 56u64) == w)
            by (bit_vector);
        r
    }
}

/// Writing a header and reading it back gives the same header.
pub proof fn lemma_header_word_roundtrip(a: AllocMetadata, b: AllocMetadata)
    requires
        header_word(a) == header_word(b),
    ensures
        a.spec_magic() == b.spec_magic(),
        a.spec_idx() == b.spec_idx(),
{
    let (a0, a1, a2, ai) = (a.spec_magic().0, a.spec_magic().1, a.spec_magic().2, a.spec_idx());
    let (b0, b1, b2, bi) = (b.spec_magic().0, b.spec_magic().1, b.spec_magic().2, b.spec_idx());
    assert((a0 as u64) | ((a1 as u64) << 32u64) | ((a2 as u64) << 48u64) | ((ai as u64) << 56u64) == (
    b0 as u64) | ((b1 as u64) << 32u64) | ((b2 as u64) << 48u64) | ((bi as u64) << 56u64) ==> a0 == b0
        && a1 == b1 && a2 == b2 && ai == bi) by (bit_vector);
}

/// Header in the page before a big allocation: a magic number and the size in bytes.
#[derive(Debug, Clone, Copy)]
pub struct BigAllocMetadata {
    magic: u64,
    size: u64,
}

impl BigAllocMetadata {
    pub closed spec fn spec_magic(self) -> u64 {
        self.magic
    }

    pub closed spec fn spec_size(self) -> u64 {
        self.size
    }

    pub fn new(size: u64) -> (r: Self)
        ensures
            r.spec_magic() == BIG_ALLOC_MAGIC,
            r.spec_size() == size,
    {
        Self { magic: BIG_ALLOC_MAGIC, size }
    }

    /// The magic number as stored.
    pub fn magic_word(self) -> (r: u64)
        ensures
            r == self.spec_magic(),
    {
        self.magic
    }

    /// The size as stored.
    pub fn size_word(self) -> (r: u64)
        ensures
            r == self.spec_size(),
    {
        self.size
    }

    /// The header as read back from memory.
    pub fn from_words(magic: u64, size: u64) -> (r: Self)
        ensures
            r.spec_magic() == magic,
            r.spec_size() == size,
    {
        Self { magic, size }
    }

    /// The recorded size, if the magic number is intact.
    pub fn size(self) -> (r: Option<u64>)
        ensures
            r == if self.spec_magic() == BIG_ALLOC_MAGIC {
                Some(self.spec_size())
            } else {
                None::<u64>
            },
    {
        if BIG_ALLOC_MAGIC != self.magic {
            return None;
        }
        Some(self.size)
    }
}

/// Memory given out by the allocator in bytes, and pages it took.
#[derive(Debug)]
pub struct SlabAllocatorStats {
    pub used: usize,
    pub allocated: usize,
}

/// A slab: blocks of `size` bytes, the free ones chained from `next`.
#[derive(Clone, Copy)]
pub struct Slab {
    idx: u8,
    size: usize,
    next: u64,
}

/// Blocks of `size` bytes in a page.
pub open spec fn blocks_per_page(size: int) -> int {
    PAGE_SIZE as int / size
}

/// The slab sizes the allocator can be built with: whole words, at least two blocks
/// a page.
pub open spec fn valid_slab_size(size: int) -> bool {
    8 <= size <= 2048 && size % 8 == 0
}

/// The page that the next new page of a slab comes from: where the page frame
/// allocator places one page.
pub open spec fn page_for_slab(pfa: PageFrameAllocator) -> int {
    pfa.alloc_start(1)
}

/// The page frame allocator can hand out one more page.
pub open spec fn can_take_page(pfa: PageFrameAllocator) -> bool {
    &&& pfa.next_from() + 1 <= usize::MAX
    &&& first_window(pfa.bits(), 0, 1) is Some
    &&& pfa.alloc_start(1) * 0x1000 <= usize::MAX
    &&& pfa.alloc_start(1) * 0x1000 + HHDM + 0x1000 <= u64::MAX
}

/// Address of block `i` of a page at `base` with blocks of `size` bytes.
pub open spec fn block_addr(base: int, size: int, i: int) -> int {
    base + i * size
}

/// The chain that a fresh page at higher half address `base` holds for blocks of
/// `size` bytes: each block after the header points to the next, the last to none.
pub open spec fn chain_word(base: int, size: int, a: int) -> Option<u64> {
    let n = blocks_per_page(size);
    if a == base {
        None
    } else if exists|i: int| 1 <= i < n && a == #[trigger] block_addr(base, size, i) {
        let i = choose|i: int| 1 <= i < n && a == #[trigger] block_addr(base, size, i);
        if i + 1 < n {
            Some((base + (i + 1) * size) as u64)
        } else {
            Some(0)
        }
    } else {
        None
    }
}

impl Slab {
    pub closed spec fn spec_idx(&self) -> u8 {
        self.idx
    }

    pub closed spec fn spec_size(&self) -> usize {
        self.size
    }

    /// The first free block, or 0 when none is chained.
    pub closed spec fn spec_next(&self) -> u64 {
        self.next
    }

    /// An empty slab of blocks of `size` bytes, the slab at `idx` of its allocator.
    /// A size that is not a whole number of words is a panic, left out by `requires`.
    pub fn new(idx: u8, size: usize) -> (r: Self)
        requires
            size >= 8,
            size % 8 == 0,
        ensures
            r.spec_idx() == idx,
            r.spec_size() == size,
            r.spec_next() == 0,
    {
        Slab { idx, size, next: 0 }
    }

    /// The first free block; when there is none, a new page is taken from `pfa`: its
    /// first block gets the slab header and the others are chained in order, the last
    /// to none. The chain is not linked in; the caller does that.
    pub fn next_block(
        &mut self,
        pfa: &mut PageFrameAllocator,
        mem: &mut WordMemory,
        stats: &mut SlabAllocatorStats,
    ) -> (r: u64)
        requires
            valid_slab_size(old(self).spec_size() as int),
            old(self).spec_next() == 0 ==> can_take_page(*old(pfa)),
        ensures
            *final(self) == *old(self),
            old(self).spec_next() != 0 ==> {
                &&& r == old(self).spec_next()
                &&& *final(pfa) == *old(pfa)
                &&& *final(mem) == *old(mem)
                &&& *final(stats) == *old(stats)
            },
            old(self).spec_next() == 0 ==> {
                let f = page_for_slab(*old(pfa));
                let base = f * 0x1000 + HHDM;
                let size = old(self).spec_size() as int;
                &&& r == base + size
                &&& final(pfa).bits() == set_range(old(pfa).bits(), f, 1, true)
                &&& final(pfa).next_from() == f + 1
                &&& final(pfa).spec_used() == vstd::wrapping::usize_specs::wrapping_add(
                    old(pfa).spec_used(),
                    0x1000,
                )
                &&& final(pfa).spec_usable() == old(pfa).spec_usable()
                &&& final(pfa).spec_total() == old(pfa).spec_total()
                &&& final(stats).allocated == vstd::wrapping::usize_specs::wrapping_add(
                    old(stats).allocated,
                    1,
                )
                &&& final(stats).used == old(stats).used
                &&& final(mem).word(base as u64) == slab_header_word(old(self).spec_idx())
                &&& forall|a: u64|
                    #![trigger final(mem).word(a)]
                    a != base ==> final(mem).word(a) == match chain_word(base, size, a as int) {
                        Some(w) => w,
                        None => old(mem).word(a),
                    }
            },
    {
        if self.next != 0 {
            return self.next;
        }
        let page = pfa.allocate(1);
        stats.allocated = stats.allocated.wrapping_add(1);
        let ghost f = page_for_slab(*old(pfa));
        let base = page.physical_addr() + HHDM;
        let size = self.size as u64;
        // write the header
        mem.write(base, AllocMetadata::new(self.idx).to_word());
        let ghost mem0 = *mem;
        // chain the other blocks
        write_chain(mem, base, size);
        proof {
            assert forall|a: u64| a != base implies #[trigger] mem.word(a) == match chain_word(
                base as int,
                size as int,
                a as int,
            ) {
                Some(w) => w,
                None => old(mem).word(a),
            } by {
                assert(mem0.word(a) == old(mem).word(a));
            }
        }
        base + (size as u64)
    }
}

impl Slab {
    /// The block that [`Self::allocate`] hands out.
    pub open spec fn block_to_hand_out(&self, pfa: PageFrameAllocator) -> u64 {
        if self.spec_next() != 0 {
            self.spec_next()
        } else {
            (page_for_slab(pfa) * 0x1000 + HHDM + self.spec_size()) as u64
        }
    }

    /// The free block chained after the one [`Self::allocate`] hands out.
    pub open spec fn next_after_alloc(&self, pfa: PageFrameAllocator, mem: WordMemory) -> u64 {
        if self.spec_next() != 0 {
            mem.word(self.spec_next())
        } else {
            let base = page_for_slab(pfa) * 0x1000 + HHDM;
            match chain_word(base, self.spec_size() as int, base + self.spec_size()) {
                Some(w) => w,
                None => 0,
            }
        }
    }

    /// Hand out the first free block (taking a new page when none is free), unchain
    /// it and clear its link word.
    pub fn allocate(
        &mut self,
        pfa: &mut PageFrameAllocator,
        mem: &mut WordMemory,
        stats: &mut SlabAllocatorStats,
    ) -> (r: u64)
        requires
            valid_slab_size(old(self).spec_size() as int),
            old(self).spec_next() == 0 ==> can_take_page(*old(pfa)),
            old(self).spec_next() != 0 ==> crate::addr::is_virt_canonical(
                old(mem).word(old(self).spec_next()),
            ),
        ensures
            r == old(self).block_to_hand_out(*old(pfa)),
            final(self).spec_next() == old(self).next_after_alloc(*old(pfa), *old(mem)),
            final(self).spec_idx() == old(self).spec_idx(),
            final(self).spec_size() == old(self).spec_size(),
            final(mem).word(r) == 0,
            old(self).spec_next() != 0 ==> {
                &&& *final(pfa) == *old(pfa)
                &&& forall|a: u64| a != r ==> #[trigger] final(mem).word(a) == old(mem).word(a)
                &&& final(stats).allocated == old(stats).allocated
            },
            old(self).spec_next() == 0 ==> {
                let f = page_for_slab(*old(pfa));
                let base = f * 0x1000 + HHDM;
                &&& final(pfa).bits() == set_range(old(pfa).bits(), f, 1, true)
                &&& final(pfa).next_from() == f + 1
                &&& final(stats).allocated == vstd::wrapping::usize_specs::wrapping_add(
                    old(stats).allocated,
                    1,
                )
                &&& final(mem).word(base as u64) == slab_header_word(old(self).spec_idx())
                &&& forall|a: u64|
                    #![trigger final(mem).word(a)]
                    a != base && a != r ==> final(mem).word(a) == match chain_word(
                        base,
                        old(self).spec_size() as int,
                        a as int,
                    ) {
                        Some(w) => w,
                        None => old(mem).word(a),
                    }
            },
            final(stats).used == vstd::wrapping::usize_specs::wrapping_add(
                old(stats).used,
                old(self).spec_size(),
            ),
    {
        proof {
            if old(self).spec_next() == 0 {
                let base = page_for_slab(*old(pfa)) * 0x1000 + HHDM;
                lemma_first_block_chained(base, self.size as int);
            }
        }
        let block = self.next_block(pfa, mem, stats);
        let next = mem.read(block);
        self.next = next;
        mem.write(block, 0);
        stats.used = stats.used.wrapping_add(self.size);
        block
    }

    /// Take back `block`: clear it and chain it first.
    pub fn free(&mut self, mem: &mut WordMemory, stats: &mut SlabAllocatorStats, block: u64)
        requires
            old(self).spec_size() % 8 == 0,
            block + old(self).spec_size() <= u64::MAX,
        ensures
            final(self).spec_next() == block,
            final(self).spec_idx() == old(self).spec_idx(),
            final(self).spec_size() == old(self).spec_size(),
            final(mem).word(block) == old(self).spec_next(),
            forall|a: u64|
                #![trigger final(mem).word(a)]
                a != block ==> final(mem).word(a) == if block < a < block + old(self).spec_size() && (a
                    - block) % 8 == 0 {
                    0
                } else {
                    old(mem).word(a)
                },
            final(stats).used == vstd::wrapping::usize_specs::wrapping_sub(
                old(stats).used,
                old(self).spec_size(),
            ),
            final(stats).allocated == old(stats).allocated,
    {
        let size = self.size as u64;
        let mut off: u64 = 0;
        while off < size
            invariant
                off <= size,
                off % 8 == 0,
                size % 8 == 0,
                size == old(self).spec_size(),
                block + size <= u64::MAX,
                forall|a: u64|
                    #![trigger mem.word(a)]
                    mem.word(a) == if block <= a < block + off && (a - block) % 8 == 0 {
                        0
                    } else {
                        old(mem).word(a)
                    },
            decreases size - off,
        {
            mem.write(block + off, 0);
            off = off + 8;
        }
        mem.write(block, self.next);
        self.next = block;
        stats.used = stats.used.wrapping_sub(self.size);
    }
}

/// Pages of a big allocation of `size` bytes: whole pages for the bytes, and one for
/// the header.
pub open spec fn big_pages(size: int) -> int {
    (size + 0xFFF) / 0x1000 + 1
}

/// The page frame allocator can hand out `count` more pages, and their higher half
/// addresses fit.
pub open spec fn can_take_pages(pfa: PageFrameAllocator, count: int) -> bool {
    &&& pfa.next_from() + count <= usize::MAX
    &&& first_window(pfa.bits(), 0, count) is Some
    &&& pfa.alloc_start(count) * 0x1000 <= usize::MAX
    &&& count * 0x1000 <= usize::MAX
    &&& pfa.alloc_start(count) * 0x1000 + HHDM + 0x1000 <= u64::MAX
}

/// The page of a block: its address rounded down to a page.
pub open spec fn page_of(v: u64) -> u64 {
    v & !0xFFFu64
}

/// Is the header word `w` of a slab page accepted: its first magic number matches,
/// and one of the other two.
pub open spec fn header_accepted(w: u64) -> bool {
    &&& ((w & 0xFFFF_FFFF) as u32) == ALLOC_MAGIC0
    &&& (((w >> 32u64) & 0xFFFF) as u16 == ALLOC_MAGIC1 || ((w >> 48u64) & 0xFF) as u8 == ALLOC_MAGIC2)
}

/// The slab index in the header word `w` of a slab page.
pub open spec fn header_idx(w: u64) -> u8 {
    (w >> 56u64) as u8
}

/// Freeing the big allocation at `v` runs without a panic: its header page lies in
/// the higher half with an intact header, and its pages are in use in `pfa`.
pub open spec fn big_free_ok(pfa: PageFrameAllocator, mem: WordMemory, v: u64) -> bool {
    let h = v - 0x1000;
    let size = mem.word((h + 8) as u64);
    let pages = big_pages(size as int);
    let first = h - HHDM;
    &&& v >= HHDM + 0x1000
    &&& mem.word(h as u64) == BIG_ALLOC_MAGIC
    &&& pages * 0x1000 <= usize::MAX
    &&& first != 0 ==> {
        &&& first / 0x1000 + pages <= pfa.bits().len()
        &&& forall|p: int| first / 0x1000 <= p < first / 0x1000 + pages ==> #[trigger] pfa.bits()[p]
    }
}

/// The slabs of the kernel, one per size class, and their statistics.
pub struct SlabAllocator {
    slabs: Vec<Slab>,
    stats: SlabAllocatorStats,
}

impl SlabAllocator {
    pub closed spec fn slabs(&self) -> Seq<Slab> {
        self.slabs@
    }

    pub closed spec fn spec_used(&self) -> usize {
        self.stats.used
    }

    pub closed spec fn spec_allocated(&self) -> usize {
        self.stats.allocated
    }

    /// Slab `i` is of size class `i` and knows its index.
    pub open spec fn wf(&self) -> bool {
        &&& self.slabs().len() == 13
        &&& forall|i: int|
            0 <= i < 13 ==> (#[trigger] self.slabs()[i]).spec_idx() == i && self.slabs()[i].spec_size()
                == crate::slab::slab_sizes()[i]
    }

    /// Empty slabs of the thirteen size classes.
    pub fn new() -> (r: Self)
        ensures
            r.wf(),
            forall|i: int| 0 <= i < 13 ==> (#[trigger] r.slabs()[i]).spec_next() == 0,
            r.spec_used() == 0,
            r.spec_allocated() == 0,
    {
        let sizes = crate::slab::new_slab_sizes();
        let mut slabs: Vec<Slab> = Vec::new();
        let mut i: usize = 0;
        while i < 13
            invariant
                i <= 13,
                sizes@ == crate::slab::slab_sizes(),
                slabs@.len() == i,
                forall|j: int|
                    0 <= j < i ==> (#[trigger] slabs@[j]).spec_idx() == j && slabs@[j].spec_size()
                        == crate::slab::slab_sizes()[j] && slabs@[j].spec_next() == 0,
            decreases 13 - i,
        {
            proof {
                assert(crate::slab::slab_sizes()[i as int] >= 8 && crate::slab::slab_sizes()[i as int]
                    % 8 == 0);
            }
            slabs.push(Slab::new(i as u8, sizes[i]));
            i = i + 1;
        }
        SlabAllocator { slabs, stats: SlabAllocatorStats { used: 0, allocated: 0 } }
    }

    /// The smallest slab whose blocks hold `size` bytes.
    pub fn get_slab(&self, size: usize) -> (r: Option<usize>)
        requires
            self.wf(),
        ensures
            r == match crate::slab::slab_for(size) {
                Some(i) => Some(i as usize),
                None => None::<usize>,
            },
    {
        let mut i: usize = 0;
        while i < 13
            invariant
                self.wf(),
                i <= 13,
                forall|j: int| 0 <= j < i ==> crate::slab::slab_sizes()[j] < size,
            decreases 13 - i,
        {
            if self.slabs[i].size >= size {
                proof {
                    crate::slab::lemma_slab_for_first(size, i as int);
                }
                return Some(i);
            }
            i = i + 1;
        }
        proof {
            assert(!exists|k: int| 0 <= k < 13 && crate::slab::slab_sizes()[k] >= size);
        }
        None
    }

    /// A block of the smallest slab that holds `size` bytes, or whole pages behind a
    /// header page for anything larger.
    pub fn allocate(&mut self, pfa: &mut PageFrameAllocator, mem: &mut WordMemory, size: usize) -> (r: u64)
        requires
            old(self).wf(),
            match crate::slab::slab_for(size) {
                Some(i) => {
                    &&& old(self).slabs()[i].spec_next() == 0 ==> can_take_page(*old(pfa))
                    &&& old(self).slabs()[i].spec_next() != 0 ==> crate::addr::is_virt_canonical(
                        old(mem).word(old(self).slabs()[i].spec_next()),
                    )
                },
                None => can_take_pages(*old(pfa), big_pages(size as int)),
            },
        ensures
            final(self).wf(),
            match crate::slab::slab_for(size) {
                Some(i) => {
                    &&& r == old(self).slabs()[i].block_to_hand_out(*old(pfa))
                    &&& final(self).slabs() == old(self).slabs().update(i, final(self).slabs()[i])
                    &&& final(self).slabs()[i].spec_next() == old(self).slabs()[i].next_after_alloc(
                        *old(pfa),
                        *old(mem),
                    )
                    &&& final(mem).word(r) == 0
                    &&& final(self).spec_used() == vstd::wrapping::usize_specs::wrapping_add(
                        old(self).spec_used(),
                        crate::slab::slab_sizes()[i],
                    )
                },
                None => {
                    let pages = big_pages(size as int);
                    let f = old(pfa).alloc_start(pages);
                    let header = (f * 0x1000 + HHDM) as u64;
                    &&& r == header + 0x1000
                    &&& final(self).slabs() == old(self).slabs()
                    &&& final(pfa).bits() == set_range(old(pfa).bits(), f, pages, true)
                    &&& final(mem).word(header) == BIG_ALLOC_MAGIC
                    &&& final(mem).word((header + 8) as u64) == size
                    &&& forall|a: u64|
                        a != header && a != header + 8 ==> #[trigger] final(mem).word(a) == old(
                            mem,
                        ).word(a)
                    &&& final(self).spec_allocated() == vstd::wrapping::usize_specs::wrapping_add(
                        old(self).spec_allocated(),
                        pages as usize,
                    )
                    &&& final(self).spec_used() == vstd::wrapping::usize_specs::wrapping_add(
                        old(self).spec_used(),
                        (pages * 0x1000) as usize,
                    )
                },
            },
    {
        match self.get_slab(size) {
            Some(i) => self.alloc_in_slab(i, pfa, mem),
            None => self.big_alloc(pfa, mem, size),
        }
    }

    /// Give back the allocation at `v_addr`; address 0 is ignored. A page aligned
    /// address is a big allocation: its pages, header page included, go back to the
    /// page frame allocator. Any other address is a block, which goes back to the slab
    /// that the header of its page names.
    pub fn free(&mut self, pfa: &mut PageFrameAllocator, mem: &mut WordMemory, v_addr: u64)
        requires
            old(self).wf(),
            v_addr != 0 && v_addr % 0x1000 == 0 ==> big_free_ok(*old(pfa), *old(mem), v_addr),
            v_addr != 0 && v_addr % 0x1000 != 0 ==> {
                let w = old(mem).word(page_of(v_addr));
                &&& header_accepted(w)
                &&& header_idx(w) < 13
                &&& v_addr + crate::slab::slab_sizes()[header_idx(w) as int] <= u64::MAX
            },
        ensures
            final(self).wf(),
            v_addr == 0 ==> *final(self) == *old(self) && *final(pfa) == *old(pfa) && *final(mem) == *old(mem),
            v_addr != 0 && v_addr % 0x1000 == 0 ==> {
                let h = (v_addr - 0x1000) as u64;
                let pages = big_pages(old(mem).word((h + 8) as u64) as int);
                let first = h - HHDM;
                &&& final(self).slabs() == old(self).slabs()
                &&& *final(mem) == *old(mem)
                &&& final(pfa).bits() == if first != 0 {
                    set_range(old(pfa).bits(), first / 0x1000, pages, false)
                } else {
                    old(pfa).bits()
                }
                &&& final(self).spec_allocated() == vstd::wrapping::usize_specs::wrapping_sub(
                    old(self).spec_allocated(),
                    pages as usize,
                )
                &&& final(self).spec_used() == vstd::wrapping::usize_specs::wrapping_sub(
                    old(self).spec_used(),
                    (pages * 0x1000) as usize,
                )
            },
            v_addr != 0 && v_addr % 0x1000 != 0 ==> {
                let i = header_idx(old(mem).word(page_of(v_addr))) as int;
                let size = crate::slab::slab_sizes()[i];
                &&& *final(pfa) == *old(pfa)
                &&& final(self).slabs() == old(self).slabs().update(i, final(self).slabs()[i])
                &&& final(self).slabs()[i].spec_next() == v_addr
                &&& final(mem).word(v_addr) == old(self).slabs()[i].spec_next()
                &&& forall|a: u64|
                    #![trigger final(mem).word(a)]
                    a != v_addr ==> final(mem).word(a) == if v_addr < a < v_addr + size && (a - v_addr) % 8
                        == 0 {
                        0
                    } else {
                        old(mem).word(a)
                    }
                &&& final(self).spec_used() == vstd::wrapping::usize_specs::wrapping_sub(
                    old(self).spec_used(),
                    size,
                )
                &&& final(self).spec_allocated() == old(self).spec_allocated()
            },
    {
        if v_addr == 0 {
            return;
        }
        if v_addr % 0x1000 == 0 {
            self.big_free(pfa, mem, v_addr);
            return;
        }
        let page = v_addr & !0xFFFu64;
        assert(page == page_of(v_addr));
        let header = AllocMetadata::from_word(mem.read(page));
        let i = match header.idx() {
            Some(i) => i as usize,
            None => {
                proof {
                    assert(false);
                }
                0
            },
        };
        let mut slab = self.slabs[i];
        slab.free(mem, &mut self.stats, v_addr);
        self.slabs.set(i, slab);
        proof {
            assert forall|j: int| 0 <= j < 13 implies (#[trigger] self.slabs()[j]).spec_idx() == j
                && self.slabs()[j].spec_size() == crate::slab::slab_sizes()[j] by {
                if j != i {
                    assert(self.slabs()[j] == old(self).slabs()[j]);
                }
            }
            assert(self.slabs() =~= old(self).slabs().update(i as int, self.slabs()[i as int]));
        }
    }

    fn big_free(&mut self, pfa: &mut PageFrameAllocator, mem: &WordMemory, v_addr: u64)
        requires
            v_addr != 0,
            v_addr % 0x1000 == 0,
            big_free_ok(*old(pfa), *mem, v_addr),
        ensures
            ({
                let h = (v_addr - 0x1000) as u64;
                let pages = big_pages(mem.word((h + 8) as u64) as int);
                let first = h - HHDM;
                &&& final(self).slabs() == old(self).slabs()
                &&& final(pfa).bits() == if first != 0 {
                    set_range(old(pfa).bits(), first / 0x1000, pages, false)
                } else {
                    old(pfa).bits()
                }
                &&& final(self).spec_allocated() == vstd::wrapping::usize_specs::wrapping_sub(
                    old(self).spec_allocated(),
                    pages as usize,
                )
                &&& final(self).spec_used() == vstd::wrapping::usize_specs::wrapping_sub(
                    old(self).spec_used(),
                    (pages * 0x1000) as usize,
                )
            }),
    {
        let h = v_addr - 0x1000;
        let metadata = BigAllocMetadata::from_words(mem.read(h), mem.read(h + 8));
        let size = match metadata.size() {
            Some(s) => s,
            None => {
                proof {
                    assert(false);
                }
                0
            },
        };
        let pages = (size / 0x1000 + if size % 0x1000 != 0 { 1u64 } else { 0u64 } + 1) as usize;
        let frame = PageFrame::new(h - HHDM, pages);
        self.stats.allocated = self.stats.allocated.wrapping_sub(frame.len());
        self.stats.used = self.stats.used.wrapping_sub(frame.byte_len());
        pfa.free(frame);
    }

    fn alloc_in_slab(&mut self, i: usize, pfa: &mut PageFrameAllocator, mem: &mut WordMemory) -> (r: u64)
        requires
            old(self).wf(),
            i < 13,
            old(self).slabs()[i as int].spec_next() == 0 ==> can_take_page(*old(pfa)),
            old(self).slabs()[i as int].spec_next() != 0 ==> crate::addr::is_virt_canonical(
                old(mem).word(old(self).slabs()[i as int].spec_next()),
            ),
        ensures
            final(self).wf(),
            r == old(self).slabs()[i as int].block_to_hand_out(*old(pfa)),
            final(self).slabs() == old(self).slabs().update(i as int, final(self).slabs()[i as int]),
            final(self).slabs()[i as int].spec_next() == old(self).slabs()[i as int].next_after_alloc(
                *old(pfa),
                *old(mem),
            ),
            final(mem).word(r) == 0,
            final(self).spec_used() == vstd::wrapping::usize_specs::wrapping_add(
                old(self).spec_used(),
                crate::slab::slab_sizes()[i as int],
            ),
    {
        let mut slab = self.slabs[i];
        proof {
            assert(crate::slab::slab_sizes()[i as int] <= 1024);
            assert(crate::slab::slab_sizes()[i as int] % 8 == 0);
        }
        let r = slab.allocate(pfa, mem, &mut self.stats);
        self.slabs.set(i, slab);
        proof {
            assert forall|j: int| 0 <= j < 13 implies (#[trigger] self.slabs()[j]).spec_idx() == j
                && self.slabs()[j].spec_size() == crate::slab::slab_sizes()[j] by {
                if j != i {
                    assert(self.slabs()[j] == old(self).slabs()[j]);
                }
            }
            assert(self.slabs() =~= old(self).slabs().update(i as int, self.slabs()[i as int]));
        }
        r
    }

    fn big_alloc(&mut self, pfa: &mut PageFrameAllocator, mem: &mut WordMemory, size: usize) -> (r: u64)
        requires
            can_take_pages(*old(pfa), big_pages(size as int)),
        ensures
            ({
                let pages = big_pages(size as int);
                let f = old(pfa).alloc_start(pages);
                let header = (f * 0x1000 + HHDM) as u64;
                &&& r == header + 0x1000
                &&& final(self).slabs() == old(self).slabs()
                &&& final(pfa).bits() == set_range(old(pfa).bits(), f, pages, true)
                &&& final(mem).word(header) == BIG_ALLOC_MAGIC
                &&& final(mem).word((header + 8) as u64) == size
                &&& forall|a: u64|
                    a != header && a != header + 8 ==> #[trigger] final(mem).word(a) == old(mem).word(a)
                &&& final(self).spec_allocated() == vstd::wrapping::usize_specs::wrapping_add(
                    old(self).spec_allocated(),
                    pages as usize,
                )
                &&& final(self).spec_used() == vstd::wrapping::usize_specs::wrapping_add(
                    old(self).spec_used(),
                    (pages * 0x1000) as usize,
                )
            }),
    {
        // whole pages for the allocation, and one for its header
        let pages = size / 0x1000 + if size % 0x1000 != 0 { 1usize } else { 0usize } + 1;
        assert(pages == big_pages(size as int));
        let frame = pfa.allocate(pages);
        self.stats.allocated = self.stats.allocated.wrapping_add(frame.len());
        self.stats.used = self.stats.used.wrapping_add(frame.byte_len());
        let header = frame.physical_addr() + HHDM;
        let m = BigAllocMetadata::new(size as u64);
        mem.write(header, m.magic_word());
        mem.write(header + 8, m.size_word());
        header + 0x1000
    }
}

/// Chain the blocks of a fresh page at `base` after its header: each points to the
/// next, the last to none.
fn write_chain(mem: &mut WordMemory, base: u64, size: u64)
    requires
        valid_slab_size(size as int),
        base + 0x1000 <= u64::MAX,
    ensures
        final(mem).word(base) == old(mem).word(base),
        forall|a: u64|
            #![trigger final(mem).word(a)]
            a != base ==> final(mem).word(a) == match chain_word(base as int, size as int, a as int) {
                Some(w) => w,
                None => old(mem).word(a),
            },
{
    let n: u64 = PAGE_SIZE / size;
    proof {
        assert(2 <= n <= 512) by (nonlinear_arith)
            requires
                n == 0x1000u64 / size,
                8 <= size <= 2048,
        ;
        assert(n * size <= 0x1000) by (nonlinear_arith)
            requires
                n == 0x1000u64 / size,
                8 <= size,
        ;
    }
    let ghost mem0 = *mem;
    let mut i: u64 = 1;
    while i + 1 < n
        invariant
            1 <= i < n,
            2 <= n <= 512,
            n == blocks_per_page(size as int),
            n * size <= 0x1000,
            base + 0x1000 <= u64::MAX,
            valid_slab_size(size as int),
            mem.word(base) == mem0.word(base),
            mem0 == *old(mem),
            forall|a: u64|
                #![trigger mem.word(a)]
                a != base ==> mem.word(a) == if exists|j: int|
                    1 <= j < i && a == #[trigger] block_addr(base as int, size as int, j) {
                    let j = choose|j: int| 1 <= j < i && a == #[trigger] block_addr(base as int, size as int, j);
                    (base + (j + 1) * size) as u64
                } else {
                    mem0.word(a)
                },
        decreases n - i,
    {
        proof {
            assert(i * size + size <= n * size) by (nonlinear_arith)
                requires
                    i + 1 < n,
            ;
            assert(i * size >= size) by (nonlinear_arith)
                requires
                    i >= 1,
            ;
        }
        let at = base + i * size;
        let to = at + size;
        mem.write(at, to);
        proof {
            assert forall|a: u64| a != base implies #[trigger] mem.word(a) == if exists|j: int|
                1 <= j < i + 1 && a == #[trigger] block_addr(base as int, size as int, j) {
                let j = choose|j: int| 1 <= j < i + 1 && a == #[trigger] block_addr(base as int, size as int, j);
                (base + (j + 1) * size) as u64
            } else {
                mem0.word(a)
            } by {
                lemma_block_unique(base as int, size as int, n as int);
                if a == at {
                    assert(1 <= i < i + 1 && a == block_addr(base as int, size as int, i as int));
                    assert((i + 1) * size == i * size + size) by (nonlinear_arith);
                } else if exists|j: int| 1 <= j < i + 1 && a == #[trigger] block_addr(base as int, size as int, j) {
                    let j = choose|j: int| 1 <= j < i + 1 && a == #[trigger] block_addr(base as int, size as int, j);
                    assert(j != i);
                    assert(1 <= j < i && a == block_addr(base as int, size as int, j));
                }
            }
        }
        i = i + 1;
    }
    proof {
        assert(i * size <= n * size) by (nonlinear_arith)
            requires
                i < n,
        ;
        assert(i * size >= size) by (nonlinear_arith)
            requires
                i >= 1,
        ;
    }
    let last = base + i * size;
    mem.write(last, 0);
    proof {
        assert forall|a: u64| a != base implies #[trigger] mem.word(a) == match chain_word(
            base as int,
            size as int,
            a as int,
        ) {
            Some(w) => w,
            None => mem0.word(a),
        } by {
            lemma_block_unique(base as int, size as int, n as int);
            if a == last {
                assert(1 <= i < n && a == block_addr(base as int, size as int, i as int));
            } else if exists|j: int| 1 <= j < n && a == #[trigger] block_addr(base as int, size as int, j) {
                let j = choose|j: int| 1 <= j < n && a == #[trigger] block_addr(base as int, size as int, j);
                assert(j != i);
                assert(1 <= j < i && a == block_addr(base as int, size as int, j));
            }
        }
    }
}

/// The first block after the header of a fresh page is chained.
proof fn lemma_first_block_chained(base: int, size: int)
    requires
        valid_slab_size(size),
    ensures
        chain_word(base, size, base + size) is Some,
{
    assert(blocks_per_page(size) >= 2) by (nonlinear_arith)
        requires
            8 <= size <= 2048,
            blocks_per_page(size) == 0x1000int / size,
    ;
    assert(block_addr(base, size, 1) == base + size);
}

/// Blocks at different positions of a page start at different addresses.
pub proof fn lemma_block_unique(base: int, size: int, n: int)
    requires
        size > 0,
    ensures
        forall|i: int, j: int|
            #![trigger block_addr(base, size, i), block_addr(base, size, j)]
            block_addr(base, size, i) == block_addr(base, size, j) ==> i == j,
{
    assert forall|i: int, j: int| #![trigger block_addr(base, size, i), block_addr(base, size, j)]
        block_addr(base, size, i) == block_addr(base, size, j) implies i == j by {
        if i < j {
            assert(i * size < j * size) by (nonlinear_arith)
                requires
                    i < j,
                    size > 0,
            ;
        } else if j < i {
            assert(j * size < i * size) by (nonlinear_arith)
                requires
                    j < i,
                    size > 0,
            ;
        }
    }
}

/// A block that is freed into a slab is the next block that the slab hands out, and
/// once it is handed out the slab's free list is the one from before the free.
pub proof fn lemma_free_then_allocate(
    before: Slab,
    freed: Slab,
    mem: WordMemory,
    block: u64,
    pfa: PageFrameAllocator,
)
    requires
        block != 0,
        freed.spec_next() == block,
        mem.word(block) == before.spec_next(),
    ensures
        freed.block_to_hand_out(pfa) == block,
        freed.next_after_alloc(pfa, mem) == before.spec_next(),
{
}

} // verus!
