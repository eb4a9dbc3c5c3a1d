//! Slab allocator bookkeeping: the headers written at the start of slab and big
//! allocation pages, the size classes, and the statistics.

use vstd::prelude::*;

use crate::mem_slab::{slab_header_word, WordMemory};

verus! {

/// Size of a page handed to the slab allocator.
pub const PAGE_SIZE: usize = 0x1000;

/// Magic number of a big allocation header.
pub const BIG_ALLOC_MAGIC: u64 = 0xb424_a780_e2a1_5870;

/// Magic numbers of a slab page header.
pub const ALLOC_MAGIC0: u32 = 0x8221_eefa;
pub const ALLOC_MAGIC1: u16 = 0x980e;
pub const ALLOC_MAGIC2: u8 = 0x43;

/// Header in the page before a big allocation: a magic number and the number of pages.
#[derive(Debug, Clone, Copy, PartialEq, Eq, Structural)]
pub struct BigAllocMetadata {
    magic: u64,
    size: usize,
}

impl BigAllocMetadata {
    pub closed spec fn spec_magic(self) -> u64 {
        self.magic
    }

    pub closed spec fn spec_size(self) -> usize {
        self.size
    }

    pub fn new(size: usize) -> (r: Self)
        ensures
            r.spec_magic() == BIG_ALLOC_MAGIC,
            r.spec_size() == size,
    {
        Self { magic: BIG_ALLOC_MAGIC, size }
    }

    /// The magic number as stored.
    pub fn magic_word(self) -> (r: u64)
        ensures
            r == self.spec_magic(),
    {
        self.magic
    }

    /// The number of pages as stored.
    pub fn size_word(self) -> (r: usize)
        ensures
            r == self.spec_size(),
    {
        self.size
    }

    /// A header as read back from memory.
    pub fn from_fields(magic: u64, size: usize) -> (r: Self)
        ensures
            r.spec_magic() == magic,
            r.spec_size() == size,
    {
        Self { magic, size }
    }

    /// The recorded size, if the magic number is intact.
    pub fn size(self) -> (r: Option<usize>)
        ensures
            r == if self.spec_magic() == BIG_ALLOC_MAGIC {
                Some(self.spec_size())
            } else {
                None::<usize>
            },
    {
        if BIG_ALLOC_MAGIC != self.magic {
            return None;
        }
        Some(self.size)
    }
}

/// Header in the first block of a slab page: magic numbers and the slab index.
#[derive(Debug, Clone, Copy, PartialEq, Eq, Structural)]
pub struct AllocMetadata {
    magic0: u32,
    magic1: u16,
    magic2: u8,
    idx: u8,
}

impl AllocMetadata {
    pub closed spec fn spec_magic(self) -> (u32, u16, u8) {
        (self.magic0, self.magic1, self.magic2)
    }

    pub closed spec fn spec_idx(self) -> u8 {
        self.idx
    }

    /// Is the header accepted: the first magic number must match, and of the other two
    /// at least one.
    pub open spec fn accepted(self) -> bool {
        &&& self.spec_magic().0 == ALLOC_MAGIC0
        &&& (self.spec_magic().1 == ALLOC_MAGIC1 || self.spec_magic().2 == ALLOC_MAGIC2)
    }

    pub fn new(idx: u8) -> (r: Self)
        ensures
            r.spec_magic() == (ALLOC_MAGIC0, ALLOC_MAGIC1, ALLOC_MAGIC2),
            r.spec_idx() == idx,
    {
        Self { magic0: ALLOC_MAGIC0, magic1: ALLOC_MAGIC1, magic2: ALLOC_MAGIC2, idx }
    }

    /// A header as read back from memory.
    pub fn from_fields(magic0: u32, magic1: u16, magic2: u8, idx: u8) -> (r: Self)
        ensures
            r.spec_magic() == (magic0, magic1, magic2),
            r.spec_idx() == idx,
    {
        Self { magic0, magic1, magic2, idx }
    }

    /// The magic numbers and the index, as stored.
    pub fn fields(self) -> (r: (u32, u16, u8, u8))
        ensures
            r == (self.spec_magic().0, self.spec_magic().1, self.spec_magic().2, self.spec_idx()),
    {
        (self.magic0, self.magic1, self.magic2, self.idx)
    }

    /// The recorded slab index, if the header is accepted.
    pub fn idx(self) -> (r: Option<u8>)
        ensures
            r == if self.accepted() {
                Some(self.spec_idx())
            } else {
                None::<u8>
            },
    {
        if ALLOC_MAGIC0 != self.magic0 || ALLOC_MAGIC1 != self.magic1 && ALLOC_MAGIC2 != self.magic2 {
            return None;
        }
        Some(self.idx)
    }
}

/// A run of whole pages from a page allocator.
pub struct Pages {
    first: u64,
    len: usize,
}

impl Pages {
    pub closed spec fn spec_first(&self) -> u64 {
        self.first
    }

    pub closed spec fn spec_len(&self) -> usize {
        self.len
    }

    /// `len` pages from address `first` on.
    pub fn new(first: u64, len: usize) -> (r: Self)
        ensures
            r.spec_first() == first,
            r.spec_len() == len,
    {
        Self { first, len }
    }

    pub fn len(&self) -> (r: usize)
        ensures
            r == self.spec_len(),
    {
        self.len
    }

    pub fn is_empty(&self) -> (r: bool)
        ensures
            r == (self.spec_len() == 0),
    {
        self.len() == 0
    }

    /// Number of bytes.
    pub fn byte_len(&self) -> (r: usize)
        requires
            self.spec_len() * PAGE_SIZE <= usize::MAX,
        ensures
            r == self.spec_len() * PAGE_SIZE,
    {
        self.len() * PAGE_SIZE
    }

    /// Address of the first page.
    pub fn as_addr(&self) -> (r: u64)
        ensures
            r == self.spec_first(),
    {
        self.first
    }
}

/// A source of whole pages for the slab allocator, supplied by its user.
pub trait PageAlloc {
    /// `pages` pages, aligned to a page, owned by the slab allocator until they are
    /// given back. The address range does not wrap, so no more pages than the address
    /// space holds are asked for.
    fn alloc_pages(pages: usize) -> (r: Pages)
        requires
            pages * 0x1000 <= u64::MAX,
        ensures
            r.spec_len() == pages,
            r.spec_first() % 0x1000 == 0,
            r.spec_first() + pages * 0x1000 <= u64::MAX,
    ;

    /// Take back pages; their contents are undefined from now on.
    fn dealloc_pages(frames: Pages);
}

/// A slab of the slab allocator: blocks of `size` bytes, the free ones chained from
/// `head` through their first word.
pub struct Slab<P> {
    pub size: usize,
    head: u64,
    _p: core::marker::PhantomData<P>,
}

/// The chain of a fresh page at `page` with blocks of `size` bytes: each block after
/// the header points to the next. The last block's word is not written.
pub open spec fn fresh_chain_word(page: int, size: int, a: int) -> Option<u64> {
    let n = 0x1000int / size;
    if exists|i: int| 1 <= i < n - 1 && a == #[trigger] crate::mem_slab::block_addr(page, size, i) {
        let i = choose|i: int| 1 <= i < n - 1 && a == #[trigger] crate::mem_slab::block_addr(page, size, i);
        Some((page + (i + 1) * size) as u64)
    } else {
        None
    }
}

impl<P: PageAlloc> Slab<P> {
    pub closed spec fn spec_head(&self) -> u64 {
        self.head
    }

    pub closed spec fn spec_size(&self) -> usize {
        self.size
    }

    /// An empty slab of blocks of `size` bytes. A size that is not a whole number of
    /// words is a panic, left out by `requires`.
    pub fn new(size: usize) -> (r: Self)
        requires
            size >= 8,
            size % 8 == 0,
        ensures
            r.spec_size() == size,
            r.spec_head() == 0,
    {
        Slab { size, head: 0, _p: core::marker::PhantomData }
    }

    /// Hand out the first free block of slab `idx`, taking a new page when none is
    /// free.
    pub fn allocate(&mut self, idx: u8, stats: &mut SlabAllocatorStats, mem: &mut WordMemory) -> (r: u64)
        requires
            crate::mem_slab::valid_slab_size(old(self).spec_size() as int),
        ensures
            final(self).spec_size() == old(self).spec_size(),
            final(stats).used == vstd::wrapping::usize_specs::wrapping_add(old(stats).used, old(self).spec_size()),
            old(self).spec_head() != 0 ==> {
                &&& r == old(self).spec_head()
                &&& final(self).spec_head() == old(mem).word(r)
                &&& *final(mem) == *old(mem)
                &&& final(stats).allocated == old(stats).allocated
            },
            old(self).spec_head() == 0 ==> {
                let page = (r - old(self).spec_size()) as u64;
                &&& r == page + old(self).spec_size()
                &&& page % 0x1000 == 0
                &&& final(stats).allocated == vstd::wrapping::usize_specs::wrapping_add(
                    old(stats).allocated,
                    1,
                )
                &&& final(mem).word(page) == slab_header_word(idx)
                &&& final(self).spec_head() == final(mem).word(r)
                &&& forall|a: u64|
                    #![trigger final(mem).word(a)]
                    a != page ==> final(mem).word(a) == match fresh_chain_word(
                        page as int,
                        old(self).spec_size() as int,
                        a as int,
                    ) {
                        Some(w) => w,
                        None => old(mem).word(a),
                    }
            },
    {
        stats.used = stats.used.wrapping_add(self.size);
        self.pop(idx, stats, mem)
    }

    /// Take back `block` and chain it first.
    pub fn free(&mut self, stats: &mut SlabAllocatorStats, mem: &mut WordMemory, block: u64)
        ensures
            final(self).spec_size() == old(self).spec_size(),
            final(self).spec_head() == block,
            final(mem).word(block) == old(self).spec_head(),
            forall|a: u64| a != block ==> #[trigger] final(mem).word(a) == old(mem).word(a),
            final(stats).used == vstd::wrapping::usize_specs::wrapping_sub(old(stats).used, old(self).spec_size()),
            final(stats).allocated == old(stats).allocated,
    {
        stats.used = stats.used.wrapping_sub(self.size);
        self.push(block, mem);
    }

    fn pop(&mut self, idx: u8, stats: &mut SlabAllocatorStats, mem: &mut WordMemory) -> (r: u64)
        requires
            crate::mem_slab::valid_slab_size(old(self).spec_size() as int),
        ensures
            final(self).spec_size() == old(self).spec_size(),
            final(stats).used == old(stats).used,
            old(self).spec_head() != 0 ==> {
                &&& r == old(self).spec_head()
                &&& final(self).spec_head() == old(mem).word(r)
                &&& *final(mem) == *old(mem)
                &&& final(stats).allocated == old(stats).allocated
            },
            old(self).spec_head() == 0 ==> {
                let page = (r - old(self).spec_size()) as u64;
                &&& r == page + old(self).spec_size()
                &&& page % 0x1000 == 0
                &&& final(stats).allocated == vstd::wrapping::usize_specs::wrapping_add(
                    old(stats).allocated,
                    1,
                )
                &&& final(mem).word(page) == slab_header_word(idx)
                &&& final(self).spec_head() == final(mem).word(r)
                &&& forall|a: u64|
                    #![trigger final(mem).word(a)]
                    a != page ==> final(mem).word(a) == match fresh_chain_word(
                        page as int,
                        old(self).spec_size() as int,
                        a as int,
                    ) {
                        Some(w) => w,
                        None => old(mem).word(a),
                    }
            },
    {
        if self.head == 0 {
            // no free block left: chain a new page
            self.head = Self::allocate_chain(idx, self.size, stats, mem);
        }
        let head = self.head;
        self.head = mem.read(head);
        head
    }

    fn push(&mut self, block: u64, mem: &mut WordMemory)
        ensures
            final(self).spec_size() == old(self).spec_size(),
            final(self).spec_head() == block,
            final(mem).word(block) == old(self).spec_head(),
            forall|a: u64| a != block ==> #[trigger] final(mem).word(a) == old(mem).word(a),
    {
        mem.write(block, self.head);
        self.head = block;
    }

    /// Take a page, write the slab header in its first block and chain the others;
    /// the first chained block is returned.
    fn allocate_chain(idx: u8, size: usize, stats: &mut SlabAllocatorStats, mem: &mut WordMemory) -> (r: u64)
        requires
            crate::mem_slab::valid_slab_size(size as int),
        ensures
            ({
                let page = (r - size) as u64;
                &&& r == page + size
                &&& r != 0
                &&& page % 0x1000 == 0
                &&& final(stats).allocated == vstd::wrapping::usize_specs::wrapping_add(
                    old(stats).allocated,
                    1,
                )
                &&& final(stats).used == old(stats).used
                &&& final(mem).word(page) == slab_header_word(idx)
                &&& forall|a: u64|
                    #![trigger final(mem).word(a)]
                    a != page ==> final(mem).word(a) == match fresh_chain_word(page as int, size as int, a as int) {
                        Some(w) => w,
                        None => old(mem).word(a),
                    }
            }),
    {
        let page = P::alloc_pages(1);
        stats.allocated = stats.allocated.wrapping_add(1);
        let first = page.as_addr();
        let size = size as u64;
        let n: u64 = 0x1000 / size;
        proof {
            assert(2 <= n <= 512) by (nonlinear_arith)
                requires
                    n == 0x1000u64 / size,
                    8 <= size <= 2048,
            ;
            assert(n * size <= 0x1000) by (nonlinear_arith)
                requires
                    n == 0x1000u64 / size,
                    8 <= size,
            ;
        }
        // the first block is the page header
        mem.write(first, AllocMetadata::new(idx).to_word());
        let ghost mem0 = *mem;
        // each block points to the next one
        let mut i: u64 = 1;
        while i + 1 < n
            invariant
                1 <= i < n,
                2 <= n <= 512,
                n == 0x1000int / (size as int),
                n * size <= 0x1000,
                first + 0x1000 <= u64::MAX,
                crate::mem_slab::valid_slab_size(size as int),
                mem.word(first) == mem0.word(first),
                forall|a: u64| a != first ==> #[trigger] mem0.word(a) == old(mem).word(a),
                forall|a: u64|
                    #![trigger mem.word(a)]
                    a != first ==> mem.word(a) == if exists|j: int|
                        1 <= j < i && a == #[trigger] crate::mem_slab::block_addr(first as int, size as int, j) {
                        let j = choose|j: int|
                            1 <= j < i && a == #[trigger] crate::mem_slab::block_addr(first as int, size as int, j);
                        (first + (j + 1) * size) as u64
                    } else {
                        old(mem).word(a)
                    },
            decreases n - i,
        {
            proof {
                assert(i * size + size <= n * size) by (nonlinear_arith)
                    requires
                        i + 1 < n,
                ;
                assert(i * size >= size) by (nonlinear_arith)
                    requires
                        i >= 1,
                ;
            }
            let at = first + i * size;
            let to = at + size;
            mem.write(at, to);
            proof {
                assert forall|a: u64| a != first implies #[trigger] mem.word(a) == if exists|j: int|
                    1 <= j < i + 1 && a == #[trigger] crate::mem_slab::block_addr(first as int, size as int, j) {
                    let j = choose|j: int|
                        1 <= j < i + 1 && a == #[trigger] crate::mem_slab::block_addr(first as int, size as int, j);
                    (first + (j + 1) * size) as u64
                } else {
                    old(mem).word(a)
                } by {
                    crate::mem_slab::lemma_block_unique(first as int, size as int, n as int);
                    if a == at {
                        assert(1 <= i < i + 1 && a == crate::mem_slab::block_addr(first as int, size as int, i as int));
                        assert((i + 1) * size == i * size + size) by (nonlinear_arith);
                    } else if exists|j: int|
                        1 <= j < i + 1 && a == #[trigger] crate::mem_slab::block_addr(first as int, size as int, j) {
                        let j = choose|j: int|
                            1 <= j < i + 1 && a == #[trigger] crate::mem_slab::block_addr(first as int, size as int, j);
                        assert(j != i);
                        assert(1 <= j < i && a == crate::mem_slab::block_addr(first as int, size as int, j));
                    }
                }
            }
            i = i + 1;
        }
        proof {
            assert forall|a: u64| a != first implies #[trigger] mem.word(a) == match fresh_chain_word(
                first as int,
                size as int,
                a as int,
            ) {
                Some(w) => w,
                None => old(mem).word(a),
            } by {
                crate::mem_slab::lemma_block_unique(first as int, size as int, n as int);
            }
        }
        first + size
    }
}

/// Pages of a big allocation of `size` bytes: whole pages for the bytes, and one for
/// the header.
pub open spec fn big_page_count(size: int) -> int {
    (size + 0xFFF) / 0x1000 + 1
}

/// The slab allocator: one slab per size class, whole pages for larger allocations.
pub struct SlabAllocator<P> {
    slabs: Vec<Slab<P>>,
    stats: SlabAllocatorStats,
}

impl<P: PageAlloc> SlabAllocator<P> {
    pub closed spec fn slabs(&self) -> Seq<Slab<P>> {
        self.slabs@
    }

    pub closed spec fn spec_used(&self) -> usize {
        self.stats.used
    }

    pub closed spec fn spec_allocated(&self) -> usize {
        self.stats.allocated
    }

    /// Slab `i` is of size class `i`.
    pub open spec fn wf(&self) -> bool {
        &&& self.slabs().len() == 13
        &&& forall|i: int| 0 <= i < 13 ==> (#[trigger] self.slabs()[i]).spec_size() == slab_sizes()[i]
    }

    /// Empty slabs of the thirteen size classes.
    pub fn new() -> (r: Self)
        ensures
            r.wf(),
            forall|i: int| 0 <= i < 13 ==> (#[trigger] r.slabs()[i]).spec_head() == 0,
            r.spec_used() == 0,
            r.spec_allocated() == 0,
    {
        let sizes = new_slab_sizes();
        let mut slabs: Vec<Slab<P>> = Vec::new();
        let mut i: usize = 0;
        while i < 13
            invariant
                i <= 13,
                sizes@ == slab_sizes(),
                slabs@.len() == i,
                forall|j: int|
                    0 <= j < i ==> (#[trigger] slabs@[j]).spec_size() == slab_sizes()[j]
                        && slabs@[j].spec_head() == 0,
            decreases 13 - i,
        {
            proof {
                assert(slab_sizes()[i as int] >= 8 && slab_sizes()[i as int] % 8 == 0);
            }
            slabs.push(Slab::new(sizes[i]));
            i = i + 1;
        }
        SlabAllocator { slabs, stats: SlabAllocatorStats::new() }
    }

    /// The smallest slab whose blocks hold `size` bytes: its index and block size.
    pub fn get_slab(&self, size: usize) -> (r: Option<(u8, usize)>)
        requires
            self.wf(),
        ensures
            r == match slab_for(size) {
                Some(i) => Some((i as u8, slab_sizes()[i])),
                None => None::<(u8, usize)>,
            },
    {
        let mut i: usize = 0;
        while i < 13
            invariant
                self.wf(),
                i <= 13,
                forall|j: int| 0 <= j < i ==> slab_sizes()[j] < size,
            decreases 13 - i,
        {
            if self.slabs[i].size >= size {
                proof {
                    lemma_slab_for_first(size, i as int);
                }
                return Some((i as u8, self.slabs[i].size));
            }
            i = i + 1;
        }
        proof {
            assert(!exists|k: int| 0 <= k < 13 && slab_sizes()[k] >= size);
        }
        None
    }

    /// A block of the smallest slab that holds `size` bytes, or whole pages behind a
    /// header page for anything larger.
    pub fn allocate(&mut self, size: usize, mem: &mut WordMemory) -> (r: u64)
        requires
            old(self).wf(),
            slab_for(size) is None ==> big_page_count(size as int) * 0x1000 <= usize::MAX,
        ensures
            final(self).wf(),
            match slab_for(size) {
                Some(i) => {
                    let slab = old(self).slabs()[i];
                    &&& final(self).slabs() == old(self).slabs().update(i, final(self).slabs()[i])
                    &&& final(self).spec_used() == vstd::wrapping::usize_specs::wrapping_add(
                        old(self).spec_used(),
                        slab_sizes()[i],
                    )
                    &&& slab.spec_head() != 0 ==> {
                        &&& r == slab.spec_head()
                        &&& final(self).slabs()[i].spec_head() == old(mem).word(r)
                        &&& *final(mem) == *old(mem)
                    }
                    &&& slab.spec_head() == 0 ==> {
                        let page = (r - slab_sizes()[i]) as u64;
                        &&& r == page + slab_sizes()[i]
                        &&& page % 0x1000 == 0
                        &&& final(mem).word(page) == slab_header_word(i as u8)
                        &&& final(self).slabs()[i].spec_head() == final(mem).word(r)
                    }
                },
                None => {
                    let pages = big_page_count(size as int);
                    let header = (r - 0x1000) as u64;
                    &&& r >= 0x1000
                    &&& header % 0x1000 == 0
                    &&& final(self).slabs() == old(self).slabs()
                    &&& final(mem).word(header) == BIG_ALLOC_MAGIC
                    &&& final(mem).word((header + 8) as u64) == pages
                    &&& forall|a: u64|
                        a != header && a != header + 8 ==> #[trigger] final(mem).word(a) == old(mem).word(a)
                    &&& final(self).spec_allocated() == vstd::wrapping::usize_specs::wrapping_add(
                        old(self).spec_allocated(),
                        pages as usize,
                    )
                    &&& final(self).spec_used() == vstd::wrapping::usize_specs::wrapping_add(
                        old(self).spec_used(),
                        (pages * 0x1000) as usize,
                    )
                },
            },
    {
        match self.get_slab(size) {
            Some((idx, _)) => {
                let i = idx as usize;
                let mut slab = Slab { size: self.slabs[i].size, head: self.slabs[i].head, _p: core::marker::PhantomData };
                proof {
                    assert(slab_sizes()[i as int] <= 1024);
                }
                let r = slab.allocate(idx, &mut self.stats, mem);
                self.slabs.set(i, slab);
                proof {
                    assert forall|j: int| 0 <= j < 13 implies (#[trigger] self.slabs()[j]).spec_size() == slab_sizes()[j] by {
                        if j != i {
                            assert(self.slabs()[j] == old(self).slabs()[j]);
                        }
                    }
                    assert(self.slabs() =~= old(self).slabs().update(i as int, self.slabs()[i as int]));
                }
                r
            },
            None => self.big_alloc(size, mem),
        }
    }

    /// Give back the allocation at `alloc`: a page aligned address is a big
    /// allocation, any other a block of the slab that its page header names.
    pub fn free(&mut self, alloc: u64, mem: &mut WordMemory)
        requires
            old(self).wf(),
            alloc != 0,
            alloc % 0x1000 == 0 ==> big_alloc_readable(*old(mem), alloc),
            alloc % 0x1000 != 0 ==> slab_page_readable(*old(mem), alloc),
        ensures
            final(self).wf(),
            alloc % 0x1000 == 0 ==> {
                let pages = old(mem).word((alloc - 0x1000 + 8) as u64);
                &&& final(self).slabs() == old(self).slabs()
                &&& *final(mem) == *old(mem)
                &&& final(self).spec_allocated() == vstd::wrapping::usize_specs::wrapping_sub(
                    old(self).spec_allocated(),
                    pages as usize,
                )
                &&& final(self).spec_used() == vstd::wrapping::usize_specs::wrapping_sub(
                    old(self).spec_used(),
                    (pages * 0x1000) as usize,
                )
            },
            alloc % 0x1000 != 0 ==> {
                let i = crate::mem_slab::header_idx(old(mem).word(alloc & 0xFFFF_FFFF_FFFF_F000)) as int;
                &&& final(self).slabs() == old(self).slabs().update(i, final(self).slabs()[i])
                &&& final(self).slabs()[i].spec_head() == alloc
                &&& final(mem).word(alloc) == old(self).slabs()[i].spec_head()
                &&& forall|a: u64| a != alloc ==> #[trigger] final(mem).word(a) == old(mem).word(a)
                &&& final(self).spec_used() == vstd::wrapping::usize_specs::wrapping_sub(
                    old(self).spec_used(),
                    slab_sizes()[i],
                )
                &&& final(self).spec_allocated() == old(self).spec_allocated()
            },
    {
        if alloc % 0x1000 == 0 {
            self.big_free(alloc, mem);
            return;
        }
        let i = self.slab_of(alloc, mem);
        let mut slab = Slab { size: self.slabs[i].size, head: self.slabs[i].head, _p: core::marker::PhantomData };
        slab.free(&mut self.stats, mem, alloc);
        self.slabs.set(i, slab);
        proof {
            assert forall|j: int| 0 <= j < 13 implies (#[trigger] self.slabs()[j]).spec_size() == slab_sizes()[j] by {
                if j != i {
                    assert(self.slabs()[j] == old(self).slabs()[j]);
                }
            }
            assert(self.slabs() =~= old(self).slabs().update(i as int, self.slabs()[i as int]));
        }
    }

    /// Bytes of the allocation at `alloc`: the pages of a big allocation, header page
    /// included, or the block size of its slab.
    pub fn size(&self, alloc: u64, mem: &WordMemory) -> (r: usize)
        requires
            self.wf(),
            alloc != 0,
            alloc % 0x1000 == 0 ==> big_alloc_readable(*mem, alloc) && mem.word((alloc - 0x1000 + 8) as u64) * 0x1000 <= usize::MAX,
            alloc % 0x1000 != 0 ==> slab_page_readable(*mem, alloc),
        ensures
            alloc % 0x1000 == 0 ==> r == mem.word((alloc - 0x1000 + 8) as u64) * 0x1000,
            alloc % 0x1000 != 0 ==> r == slab_sizes()[crate::mem_slab::header_idx(mem.word(alloc & 0xFFFF_FFFF_FFFF_F000)) as int],
    {
        if alloc % 0x1000 == 0 {
            let (_, pages) = self.big_pages(alloc, mem);
            return pages * 0x1000;
        }
        let i = self.slab_of(alloc, mem);
        self.slabs[i].size
    }

    /// The slab that the header of the page of `alloc` names.
    fn slab_of(&self, alloc: u64, mem: &WordMemory) -> (r: usize)
        requires
            self.wf(),
            slab_page_readable(*mem, alloc),
        ensures
            r == crate::mem_slab::header_idx(mem.word(alloc & 0xFFFF_FFFF_FFFF_F000)),
            r < 13,
    {
        let page = alloc & 0xFFFF_FFFF_FFFF_F000;
        let header = AllocMetadata::from_word(mem.read(page));
        match header.idx() {
            Some(i) if (i as usize) < self.slabs.len() => i as usize,
            _ => {
                proof {
                    assert(false);
                }
                0
            },
        }
    }

    fn big_alloc(&mut self, size: usize, mem: &mut WordMemory) -> (r: u64)
        requires
            big_page_count(size as int) * 0x1000 <= usize::MAX,
        ensures
            ({
                let pages = big_page_count(size as int);
                let header = (r - 0x1000) as u64;
                &&& r >= 0x1000
                &&& header % 0x1000 == 0
                &&& final(self).slabs() == old(self).slabs()
                &&& final(mem).word(header) == BIG_ALLOC_MAGIC
                &&& final(mem).word((header + 8) as u64) == pages
                &&& forall|a: u64|
                    a != header && a != header + 8 ==> #[trigger] final(mem).word(a) == old(mem).word(a)
                &&& final(self).spec_allocated() == vstd::wrapping::usize_specs::wrapping_add(
                    old(self).spec_allocated(),
                    pages as usize,
                )
                &&& final(self).spec_used() == vstd::wrapping::usize_specs::wrapping_add(
                    old(self).spec_used(),
                    (pages * 0x1000) as usize,
                )
            }),
    {
        // whole pages for the allocation, and one for its header
        let page_count = size / 0x1000 + if size % 0x1000 != 0 { 1usize } else { 0usize } + 1;
        assert(page_count == big_page_count(size as int));
        let pages = P::alloc_pages(page_count);
        self.stats.allocated = self.stats.allocated.wrapping_add(page_count);
        self.stats.used = self.stats.used.wrapping_add(pages.byte_len());
        let first = pages.as_addr();
        let m = BigAllocMetadata::new(page_count);
        mem.write(first, m.magic_word());
        mem.write(first + 8, m.size_word() as u64);
        first + 0x1000
    }

    fn big_free(&mut self, alloc: u64, mem: &WordMemory)
        requires
            alloc % 0x1000 == 0,
            big_alloc_readable(*mem, alloc),
        ensures
            ({
                let pages = mem.word((alloc - 0x1000 + 8) as u64);
                &&& final(self).slabs() == old(self).slabs()
                &&& final(self).spec_allocated() == vstd::wrapping::usize_specs::wrapping_sub(
                    old(self).spec_allocated(),
                    pages as usize,
                )
                &&& final(self).spec_used() == vstd::wrapping::usize_specs::wrapping_sub(
                    old(self).spec_used(),
                    (pages * 0x1000) as usize,
                )
            }),
    {
        let (first, count) = self.big_pages(alloc, mem);
        let pages = Pages::new(first, count);
        self.stats.allocated = self.stats.allocated.wrapping_sub(pages.len());
        self.stats.used = self.stats.used.wrapping_sub(pages.byte_len());
        P::dealloc_pages(pages);
    }

    /// The header page of the big allocation at `alloc` and its number of pages.
    fn big_pages(&self, alloc: u64, mem: &WordMemory) -> (r: (u64, usize))
        requires
            big_alloc_readable(*mem, alloc),
        ensures
            r.0 == alloc - 0x1000,
            r.1 == mem.word((alloc - 0x1000 + 8) as u64),
    {
        let first = alloc - 0x1000;
        let metadata = BigAllocMetadata::from_fields(mem.read(first), mem.read(first + 8) as usize);
        match metadata.size() {
            Some(pages) => (first, pages),
            None => {
                proof {
                    assert(false);
                }
                (first, 0)
            },
        }
    }
}

/// The header of the big allocation at `alloc` can be read and is intact.
pub open spec fn big_alloc_readable(mem: WordMemory, alloc: u64) -> bool {
    &&& alloc >= 0x1000
    &&& mem.word((alloc - 0x1000) as u64) == BIG_ALLOC_MAGIC
    &&& mem.word((alloc - 0x1000 + 8) as u64) <= usize::MAX
    &&& mem.word((alloc - 0x1000 + 8) as u64) * 0x1000 <= usize::MAX
}

/// The header of the slab page of `alloc` is accepted and names a slab.
pub open spec fn slab_page_readable(mem: WordMemory, alloc: u64) -> bool {
    let w = mem.word(alloc & 0xFFFF_FFFF_FFFF_F000);
    &&& crate::mem_slab::header_accepted(w)
    &&& crate::mem_slab::header_idx(w) < 13
}

/// The statistics of a slab allocator.
#[derive(Debug)]
pub struct SlabAllocatorStats {
    /// memory given out by this slab allocator, in bytes
    pub used: usize,
    /// physical memory allocated by this slab allocator, in pages
    pub allocated: usize,
}

impl SlabAllocatorStats {
    pub fn new() -> (r: Self)
        ensures
            r.used == 0,
            r.allocated == 0,
    {
        Self { used: 0, allocated: 0 }
    }
}

/// Block sizes of the slabs, smallest first.
pub open spec fn slab_sizes() -> Seq<usize> {
    seq![8usize, 16, 32, 48, 64, 96, 128, 192, 256, 384, 512, 768, 1024]
}

/// The index of the smallest slab whose blocks hold `size` bytes, if any.
pub open spec fn slab_for(size: usize) -> Option<int> {
    if exists|i: int| 0 <= i < 13 && slab_sizes()[i] >= size {
        Some(choose|i: int| 0 <= i < 13 && slab_sizes()[i] >= size && forall|j: int| 0 <= j < i ==> slab_sizes()[j] < size)
    } else {
        None
    }
}

/// The asked size rounded up to a power of two, at most a page.
pub open spec fn request_align(size: usize) -> int {
    if size <= 8 {
        8
    } else if size <= 16 {
        16
    } else if size <= 32 {
        32
    } else if size <= 64 {
        64
    } else if size <= 128 {
        128
    } else if size <= 256 {
        256
    } else if size <= 512 {
        512
    } else if size <= 1024 {
        1024
    } else if size <= 2048 {
        2048
    } else {
        4096
    }
}

proof fn lemma_aligned_sum(page: int, s: int, a: int)
    requires
        0 <= page,
        0 <= s,
        page % 4096 == 0,
        a == 8 || a == 16 || a == 32 || a == 64 || a == 128 || a == 256 || a == 512 || a == 1024
            || a == 2048 || a == 4096,
        s % a == 0,
    ensures
        (page + s) % a == 0,
{
    assert((page + s) % a == 0) by (nonlinear_arith)
        requires
            0 <= page,
            0 <= s,
            page % 4096 == 0,
            a == 8 || a == 16 || a == 32 || a == 64 || a == 128 || a == 256 || a == 512 || a == 1024
                || a == 2048 || a == 4096,
            s % a == 0,
    ;
}

/// An allocation of `size` bytes that comes from a new page of its slab (the first
/// block after the page header) or that is a big allocation (the page after its header
/// page) is aligned to `size` rounded up to a power of two, at most a page. The block
/// sizes 48, 96, 192, 384 and 768 are no powers of two and do not give that alignment,
/// so the asked sizes that they serve are left out.
pub proof fn lemma_fresh_allocation_aligned(size: usize, page: u64)
    requires
        page % 0x1000 == 0,
        !(32 < size <= 48 || 64 < size <= 96 || 128 < size <= 192 || 256 < size <= 384 || 512 < size
            <= 768),
    ensures
        match slab_for(size) {
            Some(i) => (page + slab_sizes()[i]) % request_align(size) == 0,
            None => (page + 0x1000) % request_align(size) == 0,
        },
{
    let i: int = if size <= 8 {
        0
    } else if size <= 16 {
        1
    } else if size <= 32 {
        2
    } else if size <= 64 {
        4
    } else if size <= 128 {
        6
    } else if size <= 256 {
        8
    } else if size <= 512 {
        10
    } else if size <= 1024 {
        12
    } else {
        13
    };
    if i < 13 {
        lemma_slab_for_first(size, i);
        lemma_aligned_sum(page as int, slab_sizes()[i] as int, request_align(size));
    } else {
        assert(!exists|k: int| 0 <= k < 13 && slab_sizes()[k] >= size);
        lemma_aligned_sum(page as int, 0x1000, request_align(size));
    }
}

/// The block sizes of the slabs, smallest first.
pub fn new_slab_sizes() -> (r: Vec<usize>)
    ensures
        r@ == slab_sizes(),
{
    let r = vec![8usize, 16, 32, 48, 64, 96, 128, 192, 256, 384, 512, 768, 1024];
    assert(r@ =~= slab_sizes());
    r
}

pub proof fn lemma_slab_for_first(size: usize, i: int)
    requires
        0 <= i < 13,
        slab_sizes()[i] >= size,
        forall|j: int| 0 <= j < i ==> slab_sizes()[j] < size,
    ensures
        slab_for(size) == Some(i),
{
    let c = choose|c: int| 0 <= c < 13 && slab_sizes()[c] >= size && forall|j: int| 0 <= j < c ==> slab_sizes()[j] < size;
    assert(0 <= c < 13 && slab_sizes()[c] >= size && forall|j: int| 0 <= j < c ==> slab_sizes()[j] < size);
    if c < i {
        assert(slab_sizes()[c] < size);
    } else if c > i {
        assert(slab_sizes()[i] < size);
    }
}

} // verus!
