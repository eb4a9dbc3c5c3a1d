//! Physical memory manager: a bitmap page frame allocator (one bit per page, set
//! when the page is in use).

use vstd::prelude::*;

verus! {

/// Size of a page.
pub const PAGE_SIZE: usize = 0x1000;

/// Pages `first..first + count` of physical memory.
#[derive(Debug)]
pub struct PageFrame {
    first: u64,
    count: usize,
}

impl PageFrame {
    pub closed spec fn spec_first(&self) -> u64 {
        self.first
    }

    pub closed spec fn spec_count(&self) -> usize {
        self.count
    }

    /// `count` pages from physical address `first` on.
    pub fn new(first: u64, count: usize) -> (r: Self)
        ensures
            r.spec_first() == first,
            r.spec_count() == count,
    {
        PageFrame { first, count }
    }

    /// Physical address of the first page.
    pub fn physical_addr(&self) -> (r: u64)
        ensures
            r == self.spec_first(),
    {
        self.first
    }

    /// Address of the first page in the higher half direct map.
    pub fn virtual_addr(&self) -> (r: u64)
        requires
            self.spec_first() < 0x8000_0000_0000,
        ensures
            r == crate::addr::HHDM + self.spec_first(),
    {
        crate::addr::HHDM + self.first
    }

    /// Number of pages.
    pub fn len(&self) -> (r: usize)
        ensures
            r == self.spec_count(),
    {
        self.count
    }

    pub fn is_empty(&self) -> (r: bool)
        ensures
            r == (self.spec_count() == 0),
    {
        self.len() == 0
    }

    /// Number of bytes.
    pub fn byte_len(&self) -> (r: usize)
        requires
            self.spec_count() * PAGE_SIZE <= usize::MAX,
        ensures
            r == self.spec_count() * PAGE_SIZE,
    {
        self.count * PAGE_SIZE
    }
}

/// Is every page of `count` pages from page `first` on free in `bits`?
pub open spec fn window_free(bits: Seq<bool>, first: int, count: int) -> bool {
    forall|i: int| 0 <= i < count ==> !#[trigger] bits[first + i]
}

/// The lowest page from `from` on that starts `count` free pages, if any.
pub open spec fn first_window(bits: Seq<bool>, from: int, count: int) -> Option<int> {
    if exists|f: int| from <= f && f + count <= bits.len() && #[trigger] window_free(bits, f, count) {
        Some(
            choose|f: int|
                from <= f && f + count <= bits.len() && #[trigger] window_free(bits, f, count) && forall|
                    g: int,
                | from <= g < f ==> !#[trigger] window_free(bits, g, count),
        )
    } else {
        None
    }
}

/// `bits` with pages `first..first + count` set to `value`.
pub open spec fn set_range(bits: Seq<bool>, first: int, count: int, value: bool) -> Seq<bool> {
    Seq::new(bits.len(), |i: int| if first <= i < first + count { value } else { bits[i] })
}

/// The bitmap page frame allocator.
pub struct PageFrameAllocator {
    bitmap: Vec<bool>,
    usable: usize,
    used: usize,
    total: usize,
    last_alloc_index: usize,
}

impl PageFrameAllocator {
    /// Which pages are in use.
    pub closed spec fn bits(&self) -> Seq<bool> {
        self.bitmap@
    }

    pub closed spec fn spec_usable(&self) -> usize {
        self.usable
    }

    pub closed spec fn spec_used(&self) -> usize {
        self.used
    }

    pub closed spec fn spec_total(&self) -> usize {
        self.total
    }

    pub closed spec fn next_from(&self) -> usize {
        self.last_alloc_index
    }

    /// An allocator over `bitmap` with the given statistics.
    pub fn from_parts(bitmap: Vec<bool>, usable: usize, used: usize, total: usize) -> (r: Self)
        ensures
            r.bits() == bitmap@,
            r.spec_usable() == usable,
            r.spec_used() == used,
            r.spec_total() == total,
            r.next_from() == 0,
    {
        PageFrameAllocator { bitmap, usable, used, total, last_alloc_index: 0 }
    }

    /// System total memory in bytes.
    pub fn total_mem(&self) -> (r: usize)
        ensures
            r == self.spec_total(),
    {
        self.total
    }

    /// System usable memory in bytes.
    pub fn usable_mem(&self) -> (r: usize)
        ensures
            r == self.spec_usable(),
    {
        self.usable
    }

    /// Currently used usable memory in bytes.
    pub fn used_mem(&self) -> (r: usize)
        ensures
            r == self.spec_used(),
    {
        self.used
    }

    /// Currently free usable memory in bytes.
    pub fn free_mem(&self) -> (r: usize)
        requires
            self.spec_used() <= self.spec_usable(),
        ensures
            r == self.spec_usable() - self.spec_used(),
    {
        self.usable_mem() - self.used_mem()
    }

    /// Reserved memory in bytes.
    pub fn reserved_mem(&self) -> (r: usize)
        requires
            self.spec_usable() <= self.spec_total(),
        ensures
            r == self.spec_total() - self.spec_usable(),
    {
        self.total_mem() - self.usable_mem()
    }

    /// Number of pages the bitmap covers.
    pub fn bitmap_len(&self) -> (r: usize)
        ensures
            r == self.bits().len(),
    {
        self.bitmap.len()
    }

    /// Free the pages of `frame`; a frame at address 0 or of no pages is ignored.
    /// Panics on a page that is already free or outside the bitmap. The caller clears
    /// the bytes of the freed pages.
    pub fn free(&mut self, frame: PageFrame)
        requires
            frame.spec_first() != 0 && frame.spec_count() != 0 ==> {
                let p = frame.spec_first() as int / PAGE_SIZE as int;
                &&& p + frame.spec_count() <= old(self).bits().len()
                &&& forall|i: int| p <= i < p + frame.spec_count() ==> #[trigger] old(self).bits()[i]
                &&& frame.spec_count() * PAGE_SIZE <= usize::MAX
            },
        ensures
            frame.spec_first() == 0 || frame.spec_count() == 0 ==> *final(self) == *old(self),
            frame.spec_first() != 0 && frame.spec_count() != 0 ==> {
                &&& final(self).bits() == set_range(
                    old(self).bits(),
                    frame.spec_first() as int / PAGE_SIZE as int,
                    frame.spec_count() as int,
                    false,
                )
                &&& final(self).spec_used() == vstd::wrapping::usize_specs::wrapping_sub(
                    old(self).spec_used(),
                    (frame.spec_count() * PAGE_SIZE) as usize,
                )
                &&& final(self).spec_usable() == old(self).spec_usable()
                &&& final(self).spec_total() == old(self).spec_total()
                &&& final(self).next_from() == old(self).next_from()
            },
    {
        if frame.first == 0 || frame.count == 0 {
            return;
        }
        let page64 = frame.first / (PAGE_SIZE as u64);
        let len = self.bitmap.len();
        assert(page64 + frame.count <= len);
        let page = page64 as usize;
        let ghost old_bits = self.bitmap@;
        let mut p = page;
        while p < page + frame.count
            invariant
                page <= p <= page + frame.count,
                page + frame.count <= len,
                len == self.bitmap@.len(),
                self.used == old(self).used,
                self.usable == old(self).usable,
                self.total == old(self).total,
                self.last_alloc_index == old(self).last_alloc_index,
                page == frame.spec_first() as int / PAGE_SIZE as int,
                self.bitmap@ == set_range(old_bits, page as int, p - page, false),
                forall|i: int| page <= i < page + frame.count ==> #[trigger] old_bits[i],
            decreases page + frame.count - p,
        {
            self.bitmap.set(p, false);
            p = p + 1;
            proof {
                assert(self.bitmap@ =~= set_range(old_bits, page as int, p - page, false));
            }
        }
        self.used = self.used.wrapping_sub(frame.count * PAGE_SIZE);
    }

    /// The first page that [`Self::allocate`] hands out for `count` pages: the lowest free
    /// run from where the last allocation ended, else the lowest free run at all.
    pub open spec fn alloc_start(&self, count: int) -> int {
        match first_window(self.bits(), self.next_from() as int, count) {
            Some(f) => f,
            None => match first_window(self.bits(), 0, count) {
                Some(f) => f,
                None => 0,
            },
        }
    }

    /// Allocate `count` contiguous pages: the lowest free run from where the last
    /// allocation ended, else the lowest free run from page 0. No pages give an empty
    /// frame at address 0. Out of memory is a panic, left out by `requires`. The
    /// caller clears the bytes of the allocated pages.
    pub fn allocate(&mut self, count: usize) -> (r: PageFrame)
        requires
            count > 0 ==> {
                &&& old(self).next_from() + count <= usize::MAX
                &&& first_window(old(self).bits(), 0, count as int) is Some
                &&& old(self).alloc_start(count as int) * PAGE_SIZE <= usize::MAX
                &&& count * PAGE_SIZE <= usize::MAX
            },
        ensures
            count == 0 ==> r.spec_first() == 0 && r.spec_count() == 0 && *final(self) == *old(self),
            count > 0 ==> {
                let f = old(self).alloc_start(count as int);
                &&& r.spec_first() == f * PAGE_SIZE
                &&& r.spec_count() == count
                &&& f + count <= old(self).bits().len()
                &&& window_free(old(self).bits(), f, count as int)
                &&& final(self).bits() == set_range(old(self).bits(), f, count as int, true)
                &&& final(self).next_from() == f + count
                &&& final(self).spec_used() == vstd::wrapping::usize_specs::wrapping_add(
                    old(self).spec_used(),
                    (count * PAGE_SIZE) as usize,
                )
                &&& final(self).spec_usable() == old(self).spec_usable()
                &&& final(self).spec_total() == old(self).spec_total()
            },
    {
        if count == 0 {
            return PageFrame { first: 0, count: 0 };
        }
        let ghost bits = self.bits();
        proof {
            lemma_first_window_some(bits, 0, count as int);
            lemma_first_window_some(bits, self.last_alloc_index as int, count as int);
        }
        let from = self.last_alloc_index;
        let first_page = match self.alloc_at(from, count) {
            Some(f) => f,
            None => {
                self.last_alloc_index = 0;
                match self.alloc_at(0, count) {
                    Some(f) => f,
                    None => {
                        proof {
                            assert(false);
                        }
                        0
                    },
                }
            },
        };
        self.last_alloc_index = first_page + count;
        let addr = (first_page * PAGE_SIZE) as u64;
        self.used = self.used.wrapping_add(count * PAGE_SIZE);
        PageFrame { first: addr, count }
    }

    /// Can [`Self::free`] take back `frame`: are all its pages in the bitmap and in use?
    /// When they are not, freeing panics.
    pub fn can_free(&self, frame: &PageFrame) -> (r: bool)
        ensures
            r == (frame.spec_first() != 0 && frame.spec_count() != 0 ==> {
                let p = frame.spec_first() as int / PAGE_SIZE as int;
                &&& p + frame.spec_count() <= self.bits().len()
                &&& forall|i: int| p <= i < p + frame.spec_count() ==> #[trigger] self.bits()[i]
                &&& frame.spec_count() * PAGE_SIZE <= usize::MAX
            }),
    {
        if frame.first == 0 || frame.count == 0 {
            return true;
        }
        if frame.count > usize::MAX / PAGE_SIZE {
            proof {
                assert(frame.spec_count() * PAGE_SIZE > usize::MAX) by (nonlinear_arith)
                    requires
                        frame.spec_count() > usize::MAX / PAGE_SIZE,
                        PAGE_SIZE == 0x1000,
                ;
            }
            return false;
        }
        proof {
            assert(frame.spec_count() * PAGE_SIZE <= usize::MAX) by (nonlinear_arith)
                requires
                    frame.spec_count() <= usize::MAX / PAGE_SIZE,
                    PAGE_SIZE == 0x1000,
            ;
        }
        let page = frame.first / (PAGE_SIZE as u64);
        let len = self.bitmap.len();
        if page > len as u64 || frame.count > len - page as usize {
            return false;
        }
        let p = page as usize;
        let mut i: usize = p;
        while i < p + frame.count
            invariant
                p <= i <= p + frame.count,
                p + frame.count <= len,
                len == self.bitmap@.len(),
                p == frame.spec_first() as int / PAGE_SIZE as int,
                frame.spec_first() != 0 && frame.spec_count() != 0,
                frame.spec_count() * PAGE_SIZE <= usize::MAX,
                forall|k: int| p <= k < i ==> #[trigger] self.bits()[k],
            decreases p + frame.count - i,
        {
            if !self.bitmap[i] {
                proof {
                    let q = frame.spec_first() as int / PAGE_SIZE as int;
                    assert(q <= i < q + frame.spec_count() && !self.bits()[i as int]);
                    assert(!(forall|k: int| q <= k < q + frame.spec_count() ==> #[trigger] self.bits()[k]));
                }
                return false;
            }
            i = i + 1;
        }
        true
    }

    /// Can [`Self::allocate`] take `count` pages: is there a free run of them, and does
    /// the run's address fit? When it cannot, allocating panics.
    pub fn can_allocate(&self, count: usize) -> (r: bool)
        ensures
            r == (count > 0 ==> {
                &&& self.next_from() + count <= usize::MAX
                &&& first_window(self.bits(), 0, count as int) is Some
                &&& self.alloc_start(count as int) * PAGE_SIZE <= usize::MAX
                &&& count * PAGE_SIZE <= usize::MAX
            }),
    {
        if count == 0 {
            return true;
        }
        if self.last_alloc_index > usize::MAX - count || count > usize::MAX / PAGE_SIZE {
            return false;
        }
        let ghost bits = self.bits();
        let f = match self.scratch().alloc_at(self.last_alloc_index, count) {
            Some(f) => {
                proof {
                    lemma_first_window_some(bits, self.last_alloc_index as int, count as int);
                    assert(window_free(bits, f as int, count as int));
                    assert(first_window(bits, 0, count as int) is Some);
                }
                f
            },
            None => match self.scratch().alloc_at(0, count) {
                Some(f) => f,
                None => {
                    return false;
                },
            },
        };
        assert(f == self.alloc_start(count as int));
        proof {
            assert(count * PAGE_SIZE <= usize::MAX) by (nonlinear_arith)
                requires
                    count <= usize::MAX / PAGE_SIZE,
                    PAGE_SIZE == 0x1000,
            ;
            assert((f * PAGE_SIZE <= usize::MAX) == (f <= usize::MAX / PAGE_SIZE)) by (nonlinear_arith)
                requires
                    PAGE_SIZE == 0x1000,
            ;
        }
        f <= usize::MAX / PAGE_SIZE
    }

    /// An allocator over a copy of the bitmap, to search without taking pages.
    fn scratch(&self) -> (r: Self)
        ensures
            r.bits() == self.bits(),
    {
        let mut bits: Vec<bool> = Vec::new();
        let mut i: usize = 0;
        while i < self.bitmap.len()
            invariant
                i <= self.bitmap@.len(),
                bits@ == self.bitmap@.subrange(0, i as int),
            decreases self.bitmap@.len() - i,
        {
            bits.push(self.bitmap[i]);
            i = i + 1;
            proof {
                assert(bits@ =~= self.bitmap@.subrange(0, i as int));
            }
        }
        proof {
            assert(bits@ =~= self.bitmap@);
        }
        Self::from_parts(bits, self.usable, self.used, self.total)
    }

    /// Pages for `size` bytes, whole pages rounded down, as their address in the higher
    /// half direct map and their length in bytes; the request is never refused (out of
    /// memory is a panic, left out by `requires`).
    pub fn allocate_layout(&mut self, size: usize) -> (r: (u64, usize))
        requires
            size / PAGE_SIZE > 0 ==> {
                let count = size / PAGE_SIZE;
                &&& old(self).next_from() + count <= usize::MAX
                &&& first_window(old(self).bits(), 0, count as int) is Some
                &&& old(self).alloc_start(count as int) * PAGE_SIZE <= usize::MAX
                &&& old(self).alloc_start(count as int) * PAGE_SIZE < 0x8000_0000_0000
            },
        ensures
            size / PAGE_SIZE == 0 ==> r == (crate::addr::HHDM, 0usize) && *final(self) == *old(self),
            size / PAGE_SIZE > 0 ==> {
                let count = size / PAGE_SIZE;
                let f = old(self).alloc_start(count as int);
                &&& r.0 == crate::addr::HHDM + f * PAGE_SIZE
                &&& r.1 == count * PAGE_SIZE
                &&& f + count <= old(self).bits().len()
                &&& window_free(old(self).bits(), f, count as int)
                &&& final(self).bits() == set_range(old(self).bits(), f, count as int, true)
                &&& final(self).next_from() == f + count
                &&& final(self).spec_used() == vstd::wrapping::usize_specs::wrapping_add(
                    old(self).spec_used(),
                    (count * PAGE_SIZE) as usize,
                )
                &&& final(self).spec_usable() == old(self).spec_usable()
                &&& final(self).spec_total() == old(self).spec_total()
            },
    {
        let count = size / PAGE_SIZE;
        proof {
            if count > 0 {
                assert(count * PAGE_SIZE <= size) by (nonlinear_arith)
                    requires
                        count == size / PAGE_SIZE,
                        PAGE_SIZE == 0x1000,
                ;
                lemma_first_window_some(old(self).bits(), 0, count as int);
                lemma_first_window_some(old(self).bits(), old(self).next_from() as int, count as int);
            }
        }
        let frame = self.allocate(count);
        (frame.virtual_addr(), frame.byte_len())
    }

    /// Give back the pages for `size` bytes, whole pages rounded down, at `virt` in the
    /// higher half direct map.
    pub fn deallocate_layout(&mut self, virt: u64, size: usize)
        requires
            virt >= crate::addr::HHDM,
            virt - crate::addr::HHDM != 0 && size / PAGE_SIZE != 0 ==> {
                let p = (virt - crate::addr::HHDM) / PAGE_SIZE as int;
                &&& p + size / PAGE_SIZE <= old(self).bits().len()
                &&& forall|i: int| p <= i < p + size / PAGE_SIZE ==> #[trigger] old(self).bits()[i]
            },
        ensures
            virt - crate::addr::HHDM == 0 || size / PAGE_SIZE == 0 ==> *final(self) == *old(self),
            virt - crate::addr::HHDM != 0 && size / PAGE_SIZE != 0 ==> {
                &&& final(self).bits() == set_range(
                    old(self).bits(),
                    (virt - crate::addr::HHDM) / PAGE_SIZE as int,
                    (size / PAGE_SIZE) as int,
                    false,
                )
                &&& final(self).spec_used() == vstd::wrapping::usize_specs::wrapping_sub(
                    old(self).spec_used(),
                    ((size / PAGE_SIZE) * PAGE_SIZE) as usize,
                )
                &&& final(self).spec_usable() == old(self).spec_usable()
                &&& final(self).spec_total() == old(self).spec_total()
                &&& final(self).next_from() == old(self).next_from()
            },
    {
        let count = size / PAGE_SIZE;
        assert(count * PAGE_SIZE <= size) by (nonlinear_arith)
            requires
                count == size / PAGE_SIZE,
                PAGE_SIZE == 0x1000,
        ;
        self.free(PageFrame { first: virt - crate::addr::HHDM, count })
    }

    /// Build the allocator from the memory map: one bit per page up to the end of
    /// usable memory, stored in the first usable entry large enough, every page in use
    /// but the pages of usable entries past the bitmap: from the page that holds the
    /// entry's first free byte (even when that page begins before it) up to, not
    /// including, the page that holds the entry's end. The bitmap's bytes count as used.
    /// The caller places the bitmap in memory.
    pub fn init(memmap: &Vec<Memmap>) -> (r: PageFrameAllocator)
        requires
            init_admissible(memmap@),
        ensures
            r.bits().len() == bitmap_bytes(memmap@) * 8,
            forall|p: int|
                0 <= p < r.bits().len() ==> #[trigger] r.bits()[p] == !freed_by(
                    memmap@,
                    memmap@.len() as int,
                    p,
                ),
            r.spec_usable() == usable_bytes(memmap@, memmap@.len() as int),
            r.spec_total() == total_bytes(memmap@, memmap@.len() as int),
            r.spec_used() == bitmap_bytes(memmap@),
            r.next_from() == 0,
    {
        let n = memmap.len();
        let ghost ms = memmap@;
        // usable and total memory, and the end of usable memory
        let mut usable: usize = 0;
        let mut total: usize = 0;
        let mut top: usize = 0;
        let mut i: usize = 0;
        while i < n
            invariant
                n == ms.len(),
                ms == memmap@,
                i <= n,
                init_admissible(ms),
                usable == usable_bytes(ms, i as int),
                total == total_bytes(ms, i as int),
                top == usable_end(ms, i as int),
            decreases n - i,
        {
            proof {
                lemma_bytes_mono(ms, i as int + 1, n as int);
            }
            let e = memmap[i];
            total = total + e.len;
            if e.is_usable() {
                assert(ms[i as int].usable);
                usable = usable + e.len;
                if e.base + e.len > top {
                    top = e.base + e.len;
                }
            }
            i = i + 1;
        }
        // size of the bitmap in bytes
        let q = top / PAGE_SIZE / 8;
        proof {
            let ps: u64 = 0x1000;
            assert(ps & ((ps - 1) as u64) == 0) by (bit_vector)
                requires
                    ps == 0x1000u64,
            ;
            assert(q as u64 + 0x1000u64 - 1 <= u64::MAX);
        }
        let bitmap_size_u64 = x86_align_up(q as u64, PAGE_SIZE as u64);
        proof {
            crate::addr::lemma_align_up_props(q as int, PAGE_SIZE as int);
            assert(q * 8 <= top as int / 0x1000);
            assert(top as int / 0x1000 * 0x1000 <= top);
            assert(bitmap_size_u64 * 8 <= usize::MAX) by (nonlinear_arith)
                requires
                    bitmap_size_u64 < q + 0x1000,
                    q * 8 <= top as int / 0x1000,
                    top as int / 0x1000 * 0x1000 <= top,
                    top <= usize::MAX,
                    usize::MAX >= 0xffff_ffff,
            ;
        }
        let bitmap_size = bitmap_size_u64 as usize;
        let bits_len = bitmap_size * 8;
        assert(bitmap_size == bitmap_bytes(ms));
        // the first usable entry with room for the bitmap
        let mut m: usize = 0;
        while m < n && !(memmap[m].usable && memmap[m].len >= bitmap_size)
            invariant
                n == ms.len(),
                ms == memmap@,
                m <= n,
                bitmap_size == bitmap_bytes(ms),
                first_holder(ms, bitmap_size as int, 0) == first_holder(ms, bitmap_size as int, m as int),
                first_holder(ms, bitmap_size as int, 0) >= 0,
            decreases n - m,
        {
            m = m + 1;
        }
        proof {
            if m == n {
                assert(first_holder(ms, bitmap_size as int, m as int) == -1);
            }
            assert(first_holder(ms, bitmap_size as int, m as int) == m);
        }
        let bitmap_data = memmap[m].base;
        assert(bitmap_data == bitmap_base(ms));
        // every page in use
        let mut bitmap: Vec<bool> = Vec::new();
        let mut k: usize = 0;
        while k < bits_len
            invariant
                k <= bits_len,
                bitmap@.len() == k,
                forall|j: int| 0 <= j < k ==> #[trigger] bitmap@[j],
            decreases bits_len - k,
        {
            bitmap.push(true);
            k = k + 1;
        }
        // free up the whole pages of usable memory
        let mut i: usize = 0;
        while i < n
            invariant
                n == ms.len(),
                ms == memmap@,
                i <= n,
                init_admissible(ms),
                bitmap_size == bitmap_bytes(ms),
                bitmap_data == bitmap_base(ms),
                bits_len == bitmap_size * 8,
                bitmap@.len() == bits_len,
                forall|p: int| 0 <= p < bits_len ==> #[trigger] bitmap@[p] == !freed_by(ms, i as int, p),
            decreases n - i,
        {
            let e = memmap[i];
            if e.usable {
                assert(ms[i as int].usable);
                let mut base = e.base;
                let mut len = e.len;
                if base == bitmap_data {
                    base = base + bitmap_size;
                    len = len - bitmap_size;
                }
                let bottom = base / PAGE_SIZE;
                let end = (base + len) / PAGE_SIZE;
                assert(bottom == entry_bottom(ms, i as int));
                assert(end == entry_top(ms, i as int));
                let mut page = bottom;
                while page < end
                    invariant
                        bottom <= page,
                        bottom < end ==> page <= end && end <= bits_len,
                        bottom >= end ==> page == bottom,
                        bitmap@.len() == bits_len,
                        forall|p: int|
                            0 <= p < bits_len ==> #[trigger] bitmap@[p] == !(freed_by(ms, i as int, p)
                                || bottom <= p < page),
                    decreases end - page,
                {
                    bitmap.set(page, false);
                    page = page + 1;
                }
                proof {
                    assert forall|p: int| #[trigger] freed_by(ms, i + 1, p) == (freed_by(ms, i as int, p)
                        || bottom <= p < end) by {
                        if bottom <= p < end {
                            assert(entry_frees(ms, i as int, p));
                        }
                        if freed_by(ms, i + 1, p) && !freed_by(ms, i as int, p) {
                            let x = choose|x: int| 0 <= x < i + 1 && #[trigger] entry_frees(ms, x, p);
                            assert(x == i);
                        }
                    }
                    assert forall|p: int| 0 <= p < bits_len implies #[trigger] bitmap@[p] == !freed_by(
                        ms,
                        i + 1,
                        p,
                    ) by {
                        assert(freed_by(ms, i + 1, p) == (freed_by(ms, i as int, p) || bottom <= p < end));
                    }
                }
            } else {
                proof {
                    assert forall|p: int| #[trigger] freed_by(ms, i + 1, p) == freed_by(ms, i as int, p) by {
                        if freed_by(ms, i + 1, p) && !freed_by(ms, i as int, p) {
                            let x = choose|x: int| 0 <= x < i + 1 && #[trigger] entry_frees(ms, x, p);
                            assert(x == i);
                        }
                    }
                }
            }
            i = i + 1;
        }
        PageFrameAllocator { bitmap, usable, used: bitmap_size, total, last_alloc_index: 0 }
    }

    /// The first page of the lowest run of `count` free pages from page `from` on, now
    /// in use; `None` when there is none.
    pub fn alloc_at(&mut self, from: usize, count: usize) -> (r: Option<usize>)
        requires
            count > 0,
            from + count <= usize::MAX,
        ensures
            r is Some <==> first_window(old(self).bits(), from as int, count as int) is Some,
            r matches Some(f) ==> first_window(old(self).bits(), from as int, count as int) == Some(f as int),
            r matches Some(f) ==> final(self).bits() == set_range(old(self).bits(), f as int, count as int, true),
            r matches Some(f) ==> from <= f && f + count <= old(self).bits().len(),
            r is None ==> final(self).bits() == old(self).bits(),
            final(self).spec_used() == old(self).spec_used(),
            final(self).spec_usable() == old(self).spec_usable(),
            final(self).spec_total() == old(self).spec_total(),
            final(self).next_from() == old(self).next_from(),
    {
        let ghost bits = self.bitmap@;
        let len = self.bitmap.len();
        let mut first = from;
        loop
            invariant
                from <= first,
                len == bits.len(),
                count > 0,
                from + count <= usize::MAX,
                self.bitmap@ == bits,
                self.used == old(self).used,
                self.usable == old(self).usable,
                self.total == old(self).total,
                self.last_alloc_index == old(self).last_alloc_index,
                bits == old(self).bits(),
                forall|g: int| from <= g < first ==> !#[trigger] window_free(bits, g, count as int),
            decreases len + 1 - first,
        {
            if first > len || len - first < count {
                proof {
                    if exists|f: int| from <= f && f + count <= bits.len() && #[trigger] window_free(bits, f, count as int) {
                        let f = choose|f: int| from <= f && f + count <= bits.len() && #[trigger] window_free(bits, f, count as int);
                        assert(!window_free(bits, f, count as int));
                    }
                }
                return None;
            }
            let mut offs: usize = 0;
            let mut blocked = false;
            while offs < count && !blocked
                invariant
                    first + count <= len,
                    len == bits.len(),
                    offs <= count,
                    self.used == old(self).used,
                    self.usable == old(self).usable,
                    self.total == old(self).total,
                    self.last_alloc_index == old(self).last_alloc_index,
                    self.bitmap@.len() == len,
                    forall|i: int| 0 <= i < offs ==> !#[trigger] bits[first + i],
                    blocked ==> self.bitmap@ == bits && offs < count && bits[first + offs],
                    !blocked ==> self.bitmap@ == set_range(bits, first as int, offs as int, true),
                decreases count - offs + (if blocked { 0int } else { 1int }),
            {
                let page = first + offs;
                let was_used = self.bitmap[page];
                proof {
                    assert(self.bitmap@[page as int] == bits[page as int]);
                }
                self.bitmap.set(page, true);
                if was_used {
                    // give back the pages of the window taken so far
                    let mut o: usize = 0;
                    while o < offs
                        invariant
                            o <= offs < count,
                            self.used == old(self).used,
                            self.usable == old(self).usable,
                            self.total == old(self).total,
                            self.last_alloc_index == old(self).last_alloc_index,
                            page == first + offs,
                            first + count <= len,
                            len == bits.len(),
                            self.bitmap@.len() == len,
                            forall|i: int| 0 <= i < offs ==> !#[trigger] bits[first + i],
                            bits[page as int],
                            forall|i: int|
                                0 <= i < len ==> #[trigger] self.bitmap@[i] == if first <= i < first + o {
                                    false
                                } else if first + o <= i <= first + offs {
                                    true
                                } else {
                                    bits[i]
                                },
                        decreases offs - o,
                    {
                        self.bitmap.set(first + o, false);
                        o = o + 1;
                    }
                    proof {
                        assert forall|i: int| 0 <= i < len implies #[trigger] self.bitmap@[i] == bits[i] by {
                            if first <= i < first + offs {
                                assert(!bits[first + (i - first)]);
                            }
                        }
                        assert(self.bitmap@ =~= bits);
                    }
                    blocked = true;
                } else {
                    offs = offs + 1;
                    proof {
                        assert forall|i: int| 0 <= i < offs implies !#[trigger] bits[first + i] by {
                            if i == offs - 1 {
                                assert(bits[page as int] == false);
                            }
                        }
                        assert(self.bitmap@ =~= set_range(bits, first as int, offs as int, true));
                    }
                }
            }
            if !blocked {
                proof {
                    assert(window_free(bits, first as int, count as int));
                    lemma_first_window_is(bits, from as int, count as int, first as int);
                }
                return Some(first);
            }
            proof {
                assert forall|g: int| from <= g < first + offs + 1 implies !#[trigger] window_free(bits, g, count as int) by {
                    if g >= first {
                        assert(bits[g + (first + offs - g)]);
                    }
                }
            }
            first = first + offs + 1;
        }
    }
}

/// An entry of the boot loader's memory map.
#[derive(Debug, Clone, Copy)]
pub struct Memmap {
    pub base: usize,
    pub len: usize,
    pub usable: bool,
}

impl Memmap {
    /// Is this memory free for the kernel to use?
    pub fn is_usable(&self) -> (r: bool)
        ensures
            r == self.usable,
    {
        self.usable
    }
}

/// Bytes of usable memory in the first `n` entries.
pub open spec fn usable_bytes(ms: Seq<Memmap>, n: int) -> int
    decreases n,
{
    if n <= 0 {
        0
    } else {
        usable_bytes(ms, n - 1) + if ms[n - 1].usable {
            ms[n - 1].len as int
        } else {
            0
        }
    }
}

/// Bytes of memory in the first `n` entries.
pub open spec fn total_bytes(ms: Seq<Memmap>, n: int) -> int
    decreases n,
{
    if n <= 0 {
        0
    } else {
        total_bytes(ms, n - 1) + ms[n - 1].len
    }
}

/// The highest end of a usable entry among the first `n` (0 when there is none).
pub open spec fn usable_end(ms: Seq<Memmap>, n: int) -> int
    decreases n,
{
    if n <= 0 {
        0
    } else {
        let m = usable_end(ms, n - 1);
        if ms[n - 1].usable && ms[n - 1].base + ms[n - 1].len > m {
            ms[n - 1].base + ms[n - 1].len
        } else {
            m
        }
    }
}

/// The first usable entry from `from` on with at least `size` bytes, or `-1`.
pub open spec fn first_holder(ms: Seq<Memmap>, size: int, from: int) -> int
    decreases ms.len() - from,
{
    if from < 0 || from >= ms.len() {
        -1
    } else if ms[from].usable && ms[from].len >= size {
        from
    } else {
        first_holder(ms, size, from + 1)
    }
}

/// Bytes of the bitmap: one bit per page up to the end of usable memory, rounded
/// up to whole pages.
pub open spec fn bitmap_bytes(ms: Seq<Memmap>) -> int {
    crate::addr::spec_align_up(usable_end(ms, ms.len() as int) / PAGE_SIZE as int / 8, PAGE_SIZE as int)
}

/// Where the bitmap is stored: the start of the first usable entry large enough.
pub open spec fn bitmap_base(ms: Seq<Memmap>) -> int {
    ms[first_holder(ms, bitmap_bytes(ms), 0)].base as int
}

/// First page that entry `e` frees: its start, past the bitmap where the bitmap lies.
pub open spec fn entry_bottom(ms: Seq<Memmap>, e: int) -> int {
    if ms[e].base == bitmap_base(ms) {
        (ms[e].base + bitmap_bytes(ms)) / PAGE_SIZE as int
    } else {
        ms[e].base as int / PAGE_SIZE as int
    }
}

/// The page past the last page that entry `e` frees.
pub open spec fn entry_top(ms: Seq<Memmap>, e: int) -> int {
    (ms[e].base + ms[e].len) / PAGE_SIZE as int
}

/// Does usable entry `e` free page `p`?
pub open spec fn entry_frees(ms: Seq<Memmap>, e: int, p: int) -> bool {
    ms[e].usable && entry_bottom(ms, e) <= p < entry_top(ms, e)
}

/// Does one of the first `n` entries free page `p`?
pub open spec fn freed_by(ms: Seq<Memmap>, n: int, p: int) -> bool {
    exists|e: int| 0 <= e < n && #[trigger] entry_frees(ms, e, p)
}

/// The memory maps on which [`PageFrameAllocator::init`] runs without a panic: some
/// memory is usable, the sums and ends fit, an entry holds the bitmap, and every freed
/// page lies inside the bitmap.
pub open spec fn init_admissible(ms: Seq<Memmap>) -> bool {
    let bb = bitmap_bytes(ms);
    &&& exists|e: int| 0 <= e < ms.len() && (#[trigger] ms[e]).usable
    &&& forall|e: int| 0 <= e < ms.len() && (#[trigger] ms[e]).usable ==> ms[e].base + ms[e].len <= usize::MAX
    &&& usable_bytes(ms, ms.len() as int) <= usize::MAX
    &&& total_bytes(ms, ms.len() as int) <= usize::MAX
    &&& first_holder(ms, bb, 0) >= 0
    &&& forall|e: int|
        0 <= e < ms.len() && (#[trigger] ms[e]).usable && ms[e].base == bitmap_base(ms) ==> ms[e].len >= bb
    &&& forall|e: int|
        0 <= e < ms.len() && (#[trigger] ms[e]).usable && entry_bottom(ms, e) < entry_top(ms, e) ==> entry_top(
            ms,
            e,
        ) <= bb * 8
}

/// `x86_64::align_up`: the smallest multiple of `align` at or above `addr`. The crate
/// panics when `align` is no power of two or the result does not fit.
#[verifier::external_body]
fn x86_align_up(addr: u64, align: u64) -> (r: u64)
    requires
        crate::vmm::is_power_of_two(align),
        addr + align - 1 <= u64::MAX,
    ensures
        r == crate::addr::spec_align_up(addr as int, align as int),
{
    x86_64::align_up(addr, align)
}

/// Freeing the pages that an allocation took gives back the bitmap and the used
/// byte count from before the allocation.
pub proof fn lemma_free_undoes_allocate(bits: Seq<bool>, used: usize, f: int, count: int)
    requires
        0 <= f,
        count > 0,
        f + count <= bits.len(),
        window_free(bits, f, count),
        count * PAGE_SIZE <= usize::MAX,
    ensures
        set_range(set_range(bits, f, count, true), f, count, false) == bits,
        vstd::wrapping::usize_specs::wrapping_sub(
            vstd::wrapping::usize_specs::wrapping_add(used, (count * PAGE_SIZE) as usize),
            (count * PAGE_SIZE) as usize,
        ) == used,
{
    let back = set_range(set_range(bits, f, count, true), f, count, false);
    assert forall|i: int| 0 <= i < bits.len() implies back[i] == bits[i] by {
        if f <= i < f + count {
            assert(!bits[f + (i - f)]);
        }
    }
    assert(back =~= bits);
}

proof fn lemma_bytes_mono(ms: Seq<Memmap>, a: int, b: int)
    requires
        0 <= a <= b <= ms.len(),
    ensures
        usable_bytes(ms, a) <= usable_bytes(ms, b),
        total_bytes(ms, a) <= total_bytes(ms, b),
    decreases b - a,
{
    if a < b {
        lemma_bytes_mono(ms, a, b - 1);
    }
}

/// A run of free pages from `from` on has a lowest one, which is the window found.
proof fn lemma_first_window_some(bits: Seq<bool>, from: int, count: int)
    ensures
        first_window(bits, from, count) matches Some(f) ==> {
            &&& from <= f
            &&& f + count <= bits.len()
            &&& window_free(bits, f, count)
        },
{
    if exists|f: int| from <= f && f + count <= bits.len() && #[trigger] window_free(bits, f, count) {
        let f = choose|f: int| from <= f && f + count <= bits.len() && #[trigger] window_free(bits, f, count);
        lemma_lowest_window(bits, from, count, f);
    }
}

proof fn lemma_lowest_window(bits: Seq<bool>, from: int, count: int, f: int)
    requires
        from <= f,
        f + count <= bits.len(),
        window_free(bits, f, count),
    ensures
        exists|m: int|
            from <= m && m + count <= bits.len() && #[trigger] window_free(bits, m, count) && forall|g: int|
                from <= g < m ==> !#[trigger] window_free(bits, g, count),
    decreases f - from,
{
    if exists|g: int| from <= g < f && #[trigger] window_free(bits, g, count) {
        let g = choose|g: int| from <= g < f && #[trigger] window_free(bits, g, count);
        lemma_lowest_window(bits, from, count, g);
    } else {
        assert(forall|g: int| from <= g < f ==> !#[trigger] window_free(bits, g, count));
    }
}

proof fn lemma_first_window_is(bits: Seq<bool>, from: int, count: int, f: int)
    requires
        from <= f,
        f + count <= bits.len(),
        window_free(bits, f, count),
        forall|g: int| from <= g < f ==> !#[trigger] window_free(bits, g, count),
    ensures
        first_window(bits, from, count) == Some(f),
{
    assert(window_free(bits, f, count));
    let c = choose|c: int|
        from <= c && c + count <= bits.len() && #[trigger] window_free(bits, c, count) && forall|g: int|
            from <= g < c ==> !#[trigger] window_free(bits, g, count);
    assert(from <= c && c + count <= bits.len() && window_free(bits, c, count) && forall|g: int|
        from <= g < c ==> !#[trigger] window_free(bits, g, count));
    if c < f {
        assert(!window_free(bits, c, count));
    } else if c > f {
        assert(!window_free(bits, f, count));
    }
}

} // verus!
