//! Physical page frame allocator with reference counts for copy on write sharing.

use vstd::prelude::*;

use crate::addr::{PhysAddr, PHYS_LIMIT};

verus! {

/// Size of one page frame in bytes.
pub const PAGE_SIZE: u64 = 0x1000;

/// One physical page frame.
pub struct Frame {
    addr: PhysAddr,
}

impl Frame {
    pub closed spec fn spec_addr(&self) -> PhysAddr {
        self.addr
    }

    /// The frame at `addr`.
    pub fn new(addr: PhysAddr) -> (r: Self)
        ensures
            r.spec_addr() == addr,
    {
        Self { addr }
    }

    /// The frame with page index `idx`.
    pub fn from_idx(idx: u64) -> (r: Self)
        requires
            idx * 0x1000 < PHYS_LIMIT,
        ensures
            r.spec_addr()@ == idx * 0x1000,
            r.page_index() == idx,
    {
        Self::new(PhysAddr::new(idx * 0x1000))
    }

    pub open spec fn spec_page_index(&self) -> u64 {
        (self.spec_addr()@ / 0x1000) as u64
    }

    #[verifier::when_used_as_spec(spec_page_index)]
    pub fn page_index(&self) -> (r: u64)
        ensures
            r == self.spec_page_index(),
    {
        self.addr.as_u64() / 0x1000
    }

    pub fn addr(&self) -> (r: PhysAddr)
        ensures
            r == self.spec_addr(),
    {
        self.addr
    }
}

/// A page that could not be shared once more.
#[derive(Debug, Clone, Copy)]
pub struct TooManyRefs;

/// Bookkeeping of one page: how many owners it has, 0 when it is free.
pub struct PageInfo {
    ref_count: u16,
}

impl PageInfo {
    pub closed spec fn refs(&self) -> u16 {
        self.ref_count
    }

    /// Info of a page with `ref_count` owners.
    pub fn with_refs(ref_count: u16) -> (r: Self)
        ensures
            r.refs() == ref_count,
    {
        PageInfo { ref_count }
    }

    /// Take a free page; `true` when the page was free and is now owned once.
    pub fn allocate(&mut self) -> (r: bool)
        ensures
            r == (old(self).refs() == 0),
            r ==> final(self).refs() == 1,
            !r ==> final(self).refs() == old(self).refs(),
    {
        if self.ref_count == 0 {
            self.ref_count = 1;
            true
        } else {
            false
        }
    }

    /// Add one more owner, unless the count is at its limit.
    pub fn copy(&mut self) -> (r: Result<(), TooManyRefs>)
        ensures
            r is Ok <==> old(self).refs() < u16::MAX,
            r is Ok ==> final(self).refs() == old(self).refs() + 1,
            r is Err ==> final(self).refs() == old(self).refs(),
    {
        match self.ref_count.checked_add(1) {
            Some(n) => {
                self.ref_count = n;
                Ok(())
            },
            None => Err(TooManyRefs),
        }
    }

    /// Drop one owner; `true` when the page is free now. Panics on a page that is
    /// already free.
    pub fn free(&mut self) -> (r: bool)
        requires
            old(self).refs() != 0,
        ensures
            final(self).refs() == old(self).refs() - 1,
            r == (old(self).refs() == 1),
    {
        let old = self.ref_count;
        self.ref_count = old - 1;
        old == 1
    }
}

/// `x - y`, wrapping around below 0.
pub open spec fn wrapping_sub_u64(x: u64, y: u64) -> u64 {
    if x >= y {
        (x - y) as u64
    } else {
        (x - y + u64::MAX + 1) as u64
    }
}

/// Number of free pages (pages without an owner) in `refs`.
pub open spec fn free_pages(refs: Seq<u16>) -> int
    decreases refs.len(),
{
    if refs.len() == 0 {
        0
    } else {
        free_pages(refs.drop_last()) + if refs.last() == 0 {
            1int
        } else {
            0int
        }
    }
}

proof fn lemma_free_pages_bounds(refs: Seq<u16>)
    ensures
        0 <= free_pages(refs) <= refs.len(),
    decreases refs.len(),
{
    if refs.len() > 0 {
        lemma_free_pages_bounds(refs.drop_last());
    }
}

/// Setting one count to `v` changes the number of free pages by what the page was
/// and what it becomes.
proof fn lemma_free_pages_update(refs: Seq<u16>, i: int, v: u16)
    requires
        0 <= i < refs.len(),
    ensures
        free_pages(refs.update(i, v)) == free_pages(refs) - (if refs[i] == 0 {
            1int
        } else {
            0int
        }) + (if v == 0 {
            1int
        } else {
            0int
        }),
    decreases refs.len(),
{
    let u = refs.update(i, v);
    if i == refs.len() - 1 {
        assert(u.drop_last() =~= refs.drop_last());
    } else {
        assert(u.drop_last() =~= refs.drop_last().update(i, v));
        lemma_free_pages_update(refs.drop_last(), i, v);
    }
}

/// The position probed by the `j`-th try of an allocation that starts at counter `start`.
pub open spec fn probe(start: u64, j: int, len: int) -> int {
    ((start as int + j) % 0x1_0000_0000_0000_0000) % len
}

/// The frame allocator: one [`PageInfo`] per page from `first_page` on, and statistics.
pub struct FrameAllocator {
    pages: Vec<PageInfo>,
    first_page: u64,
    usable: u64,
    used: u64,
    total: u64,
    last_alloc_index: u64,
}

impl FrameAllocator {
    pub closed spec fn wf(&self) -> bool {
        (self.first_page + self.pages@.len()) * 0x1000 <= PHYS_LIMIT
    }

    /// Reference counts of the tracked pages, from `first_page` on.
    pub closed spec fn refs(&self) -> Seq<u16> {
        self.pages@.map_values(|p: PageInfo| p.refs())
    }

    pub closed spec fn first_page(&self) -> u64 {
        self.first_page
    }

    pub closed spec fn spec_total(&self) -> u64 {
        self.total
    }

    pub closed spec fn spec_usable(&self) -> u64 {
        self.usable
    }

    pub closed spec fn spec_used(&self) -> u64 {
        self.used
    }

    pub closed spec fn next_probe(&self) -> u64 {
        self.last_alloc_index
    }

    /// The statistics agree with the pages: the usable bytes are the used bytes and
    /// the bytes of the free pages.
    pub open spec fn accounts(&self) -> bool {
        self.spec_used() + PAGE_SIZE * free_pages(self.refs()) == self.spec_usable()
    }

    /// An allocator over pages `first_page..first_page + refs.len()` with the given
    /// reference counts and statistics.
    pub fn from_parts(
        refs: Vec<u16>,
        first_page: u64,
        usable: u64,
        used: u64,
        total: u64,
    ) -> (r: Self)
        requires
            (first_page + refs@.len()) * 0x1000 <= PHYS_LIMIT,
        ensures
            r.wf(),
            r.refs() == refs@,
            r.first_page() == first_page,
            r.spec_usable() == usable,
            r.spec_used() == used,
            r.spec_total() == total,
            r.next_probe() == 0,
    {
        let mut pages: Vec<PageInfo> = Vec::new();
        let mut i: usize = 0;
        while i < refs.len()
            invariant
                i <= refs@.len(),
                pages@.len() == i,
                forall|j: int| 0 <= j < i ==> (#[trigger] pages@[j]).refs() == refs@[j],
            decreases refs@.len() - i,
        {
            pages.push(PageInfo::with_refs(refs[i]));
            i = i + 1;
        }
        let r = FrameAllocator { pages, first_page, usable, used, total, last_alloc_index: 0 };
        assert(r.refs() =~= refs@);
        r
    }

    /// System total memory in bytes.
    pub fn total_mem(&self) -> (r: u64)
        ensures
            r == self.spec_total(),
    {
        self.total
    }

    /// System usable memory in bytes.
    pub fn usable_mem(&self) -> (r: u64)
        ensures
            r == self.spec_usable(),
    {
        self.usable
    }

    /// Currently used usable memory in bytes.
    pub fn used_mem(&self) -> (r: u64)
        ensures
            r == self.spec_used(),
    {
        self.used
    }

    /// Currently free usable memory in bytes.
    pub fn free_mem(&self) -> (r: u64)
        requires
            self.spec_used() <= self.spec_usable(),
        ensures
            r == self.spec_usable() - self.spec_used(),
    {
        self.usable_mem() - self.used_mem()
    }

    /// Reserved memory in bytes.
    pub fn reserved_mem(&self) -> (r: u64)
        requires
            self.spec_usable() <= self.spec_total(),
        ensures
            r == self.spec_total() - self.spec_usable(),
    {
        self.total_mem() - self.usable_mem()
    }

    /// The page probed by the `j`-th try of the next allocation.
    pub open spec fn probe_at(&self, j: int) -> int {
        probe(self.next_probe(), j, self.refs().len() as int)
    }

    /// The `j`-th try of the next allocation finds the first free page.
    pub open spec fn first_free_probe(&self, j: int) -> bool {
        &&& 0 <= j < self.refs().len()
        &&& self.refs()[self.probe_at(j)] == 0
        &&& forall|k: int| 0 <= k < j ==> self.refs()[#[trigger] self.probe_at(k)] != 0
    }

    /// Is `frame` one of the tracked pages?
    pub open spec fn tracks(&self, frame: &Frame) -> bool {
        self.first_page() <= frame.page_index() < self.first_page() + self.refs().len()
    }

    /// The position of `frame` among the tracked pages.
    pub open spec fn slot_of(&self, frame: &Frame) -> int {
        frame.page_index() - self.first_page()
    }

    /// The number of owners of `frame`, if it is one of the tracked pages.
    pub fn refs_of(&self, frame: &Frame) -> (r: Option<u16>)
        ensures
            r == if self.tracks(frame) {
                Some(self.refs()[self.slot_of(frame)])
            } else {
                None::<u16>
            },
    {
        let idx = frame.page_index();
        if idx < self.first_page {
            return None;
        }
        let diff = idx - self.first_page;
        if diff >= self.pages.len() as u64 {
            return None;
        }
        let slot = diff as usize;
        assert(self.pages@[slot as int].refs() == self.refs()[slot as int]);
        Some(self.pages[slot].ref_count)
    }

    /// Does the next allocation find a free page among the pages it probes? When it
    /// does not, allocating panics.
    pub fn can_allocate(&self) -> (r: bool)
        ensures
            r == exists|j: int| 0 <= j < self.refs().len() && self.refs()[#[trigger] self.probe_at(j)] == 0,
    {
        let len = self.pages.len();
        let mut j: usize = 0;
        while j < len
            invariant
                j <= len,
                len == self.refs().len(),
                forall|k: int| 0 <= k < j ==> self.refs()[#[trigger] self.probe_at(k)] != 0,
            decreases len - j,
        {
            let idx = (self.last_alloc_index.wrapping_add(j as u64) % (len as u64)) as usize;
            proof {
                assert(idx as int == self.probe_at(j as int));
                assert(self.pages@[idx as int].refs() == self.refs()[idx as int]);
            }
            if self.pages[idx].ref_count == 0 {
                return true;
            }
            j = j + 1;
        }
        false
    }

    /// Drop one owner of `frame` without touching its bytes; panics on a free page.
    /// The statistics keep agreeing with the pages except when the last owner of a
    /// page is dropped while fewer than a page's bytes count as used: in a state that
    /// `init` and the other calls reach, that is the free of a page that was never
    /// handed out (one that holds the bookkeeping, or lies outside the usable
    /// regions), and the used count then wraps below zero.
    pub fn free_no_overwrite(&mut self, frame: Frame)
        requires
            old(self).tracks(&frame),
            old(self).refs()[old(self).slot_of(&frame)] != 0,
        ensures
            final(self).wf() == old(self).wf(),
            final(self).refs() == old(self).refs().update(
                old(self).slot_of(&frame),
                (old(self).refs()[old(self).slot_of(&frame)] - 1) as u16,
            ),
            final(self).spec_used() == if old(self).refs()[old(self).slot_of(&frame)] == 1 {
                wrapping_sub_u64(old(self).spec_used(), PAGE_SIZE) as int
            } else {
                old(self).spec_used() as int
            },
            final(self).first_page() == old(self).first_page(),
            final(self).spec_usable() == old(self).spec_usable(),
            final(self).spec_total() == old(self).spec_total(),
            final(self).next_probe() == old(self).next_probe(),
            old(self).accounts() && (old(self).refs()[old(self).slot_of(&frame)] >= 2
                || old(self).spec_used() >= PAGE_SIZE) ==> final(self).accounts(),
    {
        let diff = frame.page_index() - self.first_page;
        let len = self.pages.len();
        assert(diff < len as u64);
        let page = diff as usize;
        assert(page as int == old(self).slot_of(&frame));
        let ghost old_pages = self.pages@;
        assert(old_pages[page as int].refs() == old(self).refs()[page as int]);
        let mut info = PageInfo::with_refs(0);
        std::mem::swap(&mut info, &mut self.pages[page]);
        let now_free = info.free();
        self.pages.set(page, info);
        if now_free {
            self.used = self.used.wrapping_sub(PAGE_SIZE);
        }
        proof {
            assert(self.refs() =~= old(self).refs().update(page as int, (old(self).refs()[page as int] - 1) as u16));
            lemma_free_pages_update(old(self).refs(), page as int, (old(self).refs()[page as int] - 1) as u16);
        }
    }

    /// Share `frame` once more, or when it already has the most owners a count can
    /// hold, allocate a fresh frame for a copy (the caller copies the bytes of `frame`
    /// into it).
    pub fn fork(&mut self, frame: Frame) -> (r: Frame)
        requires
            old(self).wf(),
            old(self).tracks(&frame),
            old(self).refs()[old(self).slot_of(&frame)] == u16::MAX ==> exists|j: int|
                0 <= j < old(self).refs().len() && old(self).refs()[#[trigger] old(self).probe_at(j)]
                    == 0,
        ensures
            final(self).wf(),
            final(self).first_page() == old(self).first_page(),
            final(self).spec_usable() == old(self).spec_usable(),
            final(self).spec_used() == if old(self).refs()[old(self).slot_of(&frame)] < u16::MAX {
                old(self).spec_used() as int
            } else {
                (old(self).spec_used() + PAGE_SIZE) % 0x1_0000_0000_0000_0000
            },
            final(self).spec_total() == old(self).spec_total(),
            old(self).accounts() && old(self).refs()[old(self).slot_of(&frame)] != 0 ==> final(self).accounts(),
            old(self).refs()[old(self).slot_of(&frame)] < u16::MAX ==> r.page_index() == frame.page_index()
                && final(self).refs() == old(self).refs().update(
                old(self).slot_of(&frame),
                (old(self).refs()[old(self).slot_of(&frame)] + 1) as u16,
            ) && final(self).next_probe() == old(self).next_probe(),
            old(self).refs()[old(self).slot_of(&frame)] == u16::MAX ==> exists|j: int|
                #[trigger] old(self).first_free_probe(j) && r.page_index() == old(self).first_page()
                    + old(self).probe_at(j) && final(self).refs() == old(self).refs().update(
                    old(self).probe_at(j),
                    1,
                ) && final(self).next_probe() == (old(self).next_probe() + j + 1)
                    % 0x1_0000_0000_0000_0000,
    {
        let page = self.slot(&frame);
        let mut info = PageInfo::with_refs(0);
        std::mem::swap(&mut info, &mut self.pages[page]);
        let shared = info.copy();
        self.pages.set(page, info);
        match shared {
            Ok(()) => {
                proof {
                    assert(self.refs() =~= old(self).refs().update(
                        page as int,
                        (old(self).refs()[page as int] + 1) as u16,
                    ));
                    lemma_free_pages_update(old(self).refs(), page as int, (old(self).refs()[page as int] + 1) as u16);
                }
                frame
            },
            Err(TooManyRefs) => {
                let ghost mid = *self;
                proof {
                    assert(self.refs() =~= old(self).refs());
                    let j = choose|j: int|
                        0 <= j < old(self).refs().len() && old(self).refs()[#[trigger] old(
                            self,
                        ).probe_at(j)] == 0;
                    assert(self.probe_at(j) == old(self).probe_at(j));
                }
                let r = self.allocate();
                proof {
                    let j = choose|j: int|
                        #[trigger] mid.first_free_probe(j) && r.page_index() == mid.first_page()
                            + mid.probe_at(j) && self.refs() == mid.refs().update(mid.probe_at(j), 1)
                            && self.next_probe() == (mid.next_probe() + j + 1) % 0x1_0000_0000_0000_0000;
                    assert(mid.refs() == old(self).refs());
                    assert(mid.next_probe() == old(self).next_probe());
                    assert forall|k: int| #[trigger] mid.probe_at(k) == old(self).probe_at(k) by {}
                    assert forall|k: int| 0 <= k < j implies old(self).refs()[#[trigger] old(
                        self,
                    ).probe_at(k)] != 0 by {
                        assert(mid.refs()[mid.probe_at(k)] != 0);
                    }
                    assert(old(self).first_free_probe(j));
                }
                r
            },
        }
    }

    /// Resolve a write to the shared page `frame`: a page with one owner stays as it
    /// is, a page with more owners gives up one owner to a fresh frame for a copy (the
    /// caller copies the bytes of `frame` into it). Panics on a free page.
    pub fn fork_page_fault(&mut self, frame: Frame) -> (r: Frame)
        requires
            old(self).wf(),
            old(self).tracks(&frame),
            old(self).refs()[old(self).slot_of(&frame)] != 0,
            old(self).refs()[old(self).slot_of(&frame)] >= 2 ==> exists|j: int|
                0 <= j < old(self).refs().len() && old(self).refs()[#[trigger] old(self).probe_at(j)]
                    == 0,
        ensures
            final(self).wf(),
            final(self).first_page() == old(self).first_page(),
            final(self).spec_usable() == old(self).spec_usable(),
            final(self).spec_used() == if old(self).refs()[old(self).slot_of(&frame)] == 1 {
                old(self).spec_used() as int
            } else {
                (old(self).spec_used() + PAGE_SIZE) % 0x1_0000_0000_0000_0000
            },
            final(self).spec_total() == old(self).spec_total(),
            old(self).accounts() ==> final(self).accounts(),
            old(self).refs()[old(self).slot_of(&frame)] == 1 ==> r.page_index() == frame.page_index()
                && final(self).refs() == old(self).refs() && final(self).next_probe() == old(
                self,
            ).next_probe(),
            old(self).refs()[old(self).slot_of(&frame)] >= 2 ==> exists|j: int|
                #[trigger] old(self).first_free_probe(j) && r.page_index() == old(self).first_page()
                    + old(self).probe_at(j) && final(self).refs() == old(self).refs().update(
                    old(self).probe_at(j),
                    1,
                ).update(
                    old(self).slot_of(&frame),
                    (old(self).refs()[old(self).slot_of(&frame)] - 1) as u16,
                ) && final(self).next_probe() == (old(self).next_probe() + j + 1)
                    % 0x1_0000_0000_0000_0000,
    {
        let page = self.slot(&frame);
        let count = self.pages[page].ref_count;
        if count == 1 {
            return frame;
        }
        let copy = self.allocate();
        proof {
            let j = choose|j: int|
                #[trigger] old(self).first_free_probe(j) && copy.page_index() == old(self).first_page()
                    + old(self).probe_at(j) && self.refs() == old(self).refs().update(
                    old(self).probe_at(j),
                    1,
                ) && self.next_probe() == (old(self).next_probe() + j + 1) % 0x1_0000_0000_0000_0000;
            assert(old(self).probe_at(j) != page as int);
            assert(self.refs()[page as int] == count);
            assert(self.pages@.len() == self.refs().len());
            assert(self.pages@[page as int].refs() == self.refs()[page as int]);
        }
        let ghost mid = self.refs();
        let mut info = PageInfo::with_refs(0);
        std::mem::swap(&mut info, &mut self.pages[page]);
        let now_free = info.free();
        self.pages.set(page, info);
        if now_free {
            self.used = self.used.wrapping_sub(PAGE_SIZE);
        }
        proof {
            assert(self.refs() =~= mid.update(page as int, (count - 1) as u16));
            lemma_free_pages_update(mid, page as int, (count - 1) as u16);
        }
        copy
    }

    /// The position of a tracked `frame` among the tracked pages.
    fn slot(&self, frame: &Frame) -> (r: usize)
        requires
            self.tracks(frame),
        ensures
            r as int == self.slot_of(frame),
            r < self.pages@.len(),
            self.pages@[r as int].refs() == self.refs()[r as int],
    {
        let diff = frame.page_index() - self.first_page;
        let len = self.pages.len();
        assert(diff < len as u64);
        diff as usize
    }

    /// Allocate a free page; the first free page probed from the allocation counter
    /// on. Panics when none of the probed pages is free.
    pub fn allocate(&mut self) -> (r: Frame)
        requires
            old(self).wf(),
            exists|j: int|
                0 <= j < old(self).refs().len() && old(self).refs()[#[trigger] old(self).probe_at(j)]
                    == 0,
        ensures
            final(self).wf(),
            exists|j: int|
                #[trigger] old(self).first_free_probe(j) && r.page_index() == old(self).first_page()
                    + old(self).probe_at(j) && final(self).refs() == old(self).refs().update(
                    old(self).probe_at(j),
                    1,
                ) && final(self).next_probe() == (old(self).next_probe() + j + 1)
                    % 0x1_0000_0000_0000_0000,
            final(self).first_page() == old(self).first_page(),
            final(self).spec_usable() == old(self).spec_usable(),
            final(self).spec_used() == (old(self).spec_used() + PAGE_SIZE) % 0x1_0000_0000_0000_0000,
            final(self).spec_total() == old(self).spec_total(),
            old(self).accounts() ==> final(self).accounts(),
    {
        let len = self.pages.len();
        let ghost start = self.last_alloc_index;
        let ghost old_refs = self.refs();
        let mut tries: usize = 0;
        while tries < len
            invariant
                tries <= len,
                len == self.pages@.len(),
                len == old_refs.len(),
                self.refs() == old_refs,
                self.wf(),
                self.first_page == old(self).first_page,
                self.usable == old(self).usable,
                self.used == old(self).used,
                self.total == old(self).total,
                old_refs == old(self).refs(),
                start == old(self).last_alloc_index,
                self.last_alloc_index == (start + tries) % 0x1_0000_0000_0000_0000,
                forall|k: int| 0 <= k < tries ==> old_refs[#[trigger] old(self).probe_at(k)] != 0,
                exists|j: int| 0 <= j < len && old_refs[#[trigger] old(self).probe_at(j)] == 0,
            decreases len - tries,
        {
            let at = self.last_alloc_index;
            self.last_alloc_index = at.wrapping_add(1);
            let idx = (at % (len as u64)) as usize;
            proof {
                assert(idx as int == old(self).probe_at(tries as int));
                assert(self.last_alloc_index == (start + tries + 1) % 0x1_0000_0000_0000_0000) by {
                    vstd::arithmetic::div_mod::lemma_add_mod_noop(start + tries, 1, 0x1_0000_0000_0000_0000);
                    vstd::arithmetic::div_mod::lemma_mod_twice(start + tries, 0x1_0000_0000_0000_0000);
                }
            }
            let mut info = PageInfo::with_refs(0);
            std::mem::swap(&mut info, &mut self.pages[idx]);
            let taken = info.allocate();
            self.pages.set(idx, info);
            if taken {
                proof {
                    assert(self.refs() =~= old_refs.update(idx as int, 1));
                    assert(old(self).first_free_probe(tries as int));
                    lemma_free_pages_update(old_refs, idx as int, 1);
                    lemma_free_pages_bounds(self.refs());
                }
                self.used = self.used.wrapping_add(PAGE_SIZE);
                return Frame::from_idx(self.first_page + idx as u64);
            }
            proof {
                assert(self.refs() =~= old_refs);
            }
            tries = tries + 1;
        }
        proof {
            let j = choose|j: int| 0 <= j < len && old_refs[#[trigger] old(self).probe_at(j)] == 0;
            assert(old_refs[old(self).probe_at(j)] != 0);
        }
        Frame::from_idx(0)
    }
}

/// System total memory in bytes, 0 before the allocator is set up.
pub fn total_mem(allocator: Option<&FrameAllocator>) -> (r: u64)
    ensures
        r == match allocator {
            Some(a) => a.spec_total(),
            None => 0,
        },
{
    match allocator {
        Some(a) => a.total_mem(),
        None => 0,
    }
}

/// System usable memory in bytes, 0 before the allocator is set up.
pub fn usable_mem(allocator: Option<&FrameAllocator>) -> (r: u64)
    ensures
        r == match allocator {
            Some(a) => a.spec_usable(),
            None => 0,
        },
{
    match allocator {
        Some(a) => a.usable_mem(),
        None => 0,
    }
}

/// Currently used usable memory in bytes, 0 before the allocator is set up.
pub fn used_mem(allocator: Option<&FrameAllocator>) -> (r: u64)
    ensures
        r == match allocator {
            Some(a) => a.spec_used(),
            None => 0,
        },
{
    match allocator {
        Some(a) => a.used_mem(),
        None => 0,
    }
}

/// Currently free usable memory in bytes, 0 before the allocator is set up.
pub fn free_mem(allocator: Option<&FrameAllocator>) -> (r: u64)
    requires
        allocator matches Some(a) ==> a.spec_used() <= a.spec_usable(),
    ensures
        r == match allocator {
            Some(a) => a.spec_usable() - a.spec_used(),
            None => 0,
        },
{
    match allocator {
        Some(a) => a.free_mem(),
        None => 0,
    }
}

/// Reserved memory in bytes, 0 before the allocator is set up.
pub fn reserved_mem(allocator: Option<&FrameAllocator>) -> (r: u64)
    requires
        allocator matches Some(a) ==> a.spec_usable() <= a.spec_total(),
    ensures
        r == match allocator {
            Some(a) => a.spec_total() - a.spec_usable(),
            None => 0,
        },
{
    match allocator {
        Some(a) => a.reserved_mem(),
        None => 0,
    }
}

/// A run of usable physical memory.
#[derive(Debug, Clone, Copy)]
pub struct UsableRegion {
    pub addr: u64,
    pub size: u64,
}

/// Lowest start of the first `n` regions.
pub open spec fn min_addr_upto(regs: Seq<UsableRegion>, n: int) -> int
    decreases n,
{
    if n <= 1 {
        regs[0].addr as int
    } else {
        let m = min_addr_upto(regs, n - 1);
        if regs[n - 1].addr < m {
            regs[n - 1].addr as int
        } else {
            m
        }
    }
}

/// Highest end of the first `n` regions.
pub open spec fn max_end_upto(regs: Seq<UsableRegion>, n: int) -> int
    decreases n,
{
    if n <= 1 {
        regs[0].addr + regs[0].size
    } else {
        let m = max_end_upto(regs, n - 1);
        if regs[n - 1].addr + regs[n - 1].size > m {
            regs[n - 1].addr + regs[n - 1].size
        } else {
            m
        }
    }
}

/// Total size of the first `n` regions.
pub open spec fn size_upto(regs: Seq<UsableRegion>, n: int) -> int
    decreases n,
{
    if n <= 0 {
        0
    } else {
        size_upto(regs, n - 1) + regs[n - 1].size
    }
}

/// Position of the first region from `from` on with room for `bytes`, or `-1`.
pub open spec fn first_fit(regs: Seq<UsableRegion>, bytes: int, from: int) -> int
    decreases regs.len() - from,
{
    if from < 0 || from >= regs.len() {
        -1
    } else if regs[from].size >= bytes {
        from
    } else {
        first_fit(regs, bytes, from + 1)
    }
}

/// The layout that [`FrameAllocator::init`] gives to `regs`.
pub struct InitLayout {
    /// lowest usable address
    pub min: int,
    /// highest usable end, also the total memory
    pub max: int,
    /// number of tracked pages
    pub pages: int,
    /// bytes taken by the page bookkeeping
    pub meta_size: int,
    /// start of the region that holds the page bookkeeping
    pub meta_addr: int,
}

pub open spec fn init_layout(regs: Seq<UsableRegion>) -> InitLayout {
    let min = min_addr_upto(regs, regs.len() as int);
    let max = max_end_upto(regs, regs.len() as int);
    let pages = (max - min) / 0x1000;
    let meta_size = crate::addr::spec_align_up(pages * 2, 0x1000);
    let fit = first_fit(regs, meta_size, 0);
    InitLayout { min, max, pages, meta_size, meta_addr: if fit >= 0 { regs[fit].addr as int } else { -1 } }
}

/// First freed page of region `r` once the bookkeeping is cut off its region.
pub open spec fn region_first_page(regs: Seq<UsableRegion>, r: int) -> int {
    let l = init_layout(regs);
    if regs[r].addr == l.meta_addr {
        (regs[r].addr + l.meta_size) / 0x1000
    } else {
        regs[r].addr as int / 0x1000
    }
}

/// Number of pages that region `r` frees once the bookkeeping is cut off its region.
pub open spec fn region_page_count(regs: Seq<UsableRegion>, r: int) -> int {
    let l = init_layout(regs);
    if regs[r].addr == l.meta_addr {
        (regs[r].size - l.meta_size) / 0x1000
    } else {
        regs[r].size as int / 0x1000
    }
}

/// Is page index `p` freed by region `r`?
pub open spec fn region_frees(regs: Seq<UsableRegion>, r: int, p: int) -> bool {
    region_first_page(regs, r) <= p < region_first_page(regs, r) + region_page_count(regs, r)
}

/// Is page index `p` freed by one of the first `n` regions?
pub open spec fn freed_upto(regs: Seq<UsableRegion>, n: int, p: int) -> bool {
    exists|r: int| 0 <= r < n && #[trigger] region_frees(regs, r, p)
}

/// Pages freed by the first `n` regions.
pub open spec fn freed_count_upto(regs: Seq<UsableRegion>, n: int) -> int
    decreases n,
{
    if n <= 0 {
        0
    } else {
        freed_count_upto(regs, n - 1) + region_page_count(regs, n - 1)
    }
}

/// The inputs on which [`FrameAllocator::init`] runs without a panic: the sums fit,
/// some region holds the bookkeeping, and each usable page is tracked and freed once.
pub open spec fn init_admissible(regs: Seq<UsableRegion>) -> bool {
    let l = init_layout(regs);
    &&& regs.len() > 0
    &&& forall|r: int| 0 <= r < regs.len() ==> (#[trigger] regs[r]).addr + regs[r].size <= u64::MAX
    &&& size_upto(regs, regs.len() as int) <= u64::MAX
    &&& l.meta_size <= size_upto(regs, regs.len() as int)
    &&& first_fit(regs, l.meta_size, 0) >= 0
    &&& (l.min / 0x1000 + l.pages) * 0x1000 <= PHYS_LIMIT
    &&& forall|r: int|
        0 <= r < regs.len() && (#[trigger] regs[r]).addr == l.meta_addr ==> regs[r].size >= l.meta_size
    &&& forall|r: int|
        0 <= r < regs.len() && #[trigger] region_page_count(regs, r) > 0 ==> l.min / 0x1000
            <= region_first_page(regs, r) && region_first_page(regs, r) + region_page_count(regs, r)
            <= l.min / 0x1000 + l.pages
    &&& forall|r1: int, r2: int, p: int|
        0 <= r1 < r2 < regs.len() && #[trigger] region_frees(regs, r1, p) ==> !#[trigger] region_frees(
            regs,
            r2,
            p,
        )
}

impl FrameAllocator {
    /// Track the pages between the lowest and the highest usable address, all owned,
    /// then free every whole usable page except those that hold the bookkeeping. The
    /// caller clears the bytes of the freed pages.
    pub fn init(regions: &Vec<UsableRegion>) -> (r: FrameAllocator)
        requires
            init_admissible(regions@),
        ensures
            r.wf(),
            r.first_page() == init_layout(regions@).min / 0x1000,
            r.refs().len() == init_layout(regions@).pages,
            forall|k: int|
                0 <= k < r.refs().len() ==> #[trigger] r.refs()[k] == if freed_upto(
                    regions@,
                    regions@.len() as int,
                    r.first_page() + k,
                ) {
                    0u16
                } else {
                    1u16
                },
            r.spec_total() == init_layout(regions@).max,
            r.spec_usable() == size_upto(regions@, regions@.len() as int) - init_layout(
                regions@,
            ).meta_size,
            r.spec_used() == (r.spec_usable() - PAGE_SIZE * freed_count_upto(
                regions@,
                regions@.len() as int,
            )) % (u64::MAX + 1),
            r.next_probe() == 0,
            r.accounts(),
    {
        let n = regions.len();
        let ghost regs = regions@;
        let ghost l = init_layout(regs);
        // usable system memory, lowest and highest usable address
        let mut usable: u64 = 0;
        let mut min: u64 = regions[0].addr;
        let mut max: u64 = regions[0].addr + regions[0].size;
        let mut i: usize = 0;
        while i < n
            invariant
                n == regs.len(),
                regs == regions@,
                0 <= i <= n,
                n > 0,
                init_admissible(regs),
                usable == size_upto(regs, i as int),
                i >= 1 ==> min == min_addr_upto(regs, i as int),
                i >= 1 ==> max == max_end_upto(regs, i as int),
                i == 0 ==> min == regs[0].addr && max == regs[0].addr + regs[0].size,
            decreases n - i,
        {
            proof {
                lemma_size_upto_mono(regs, i as int + 1, n as int);
                assert(regs[i as int].addr + regs[i as int].size <= u64::MAX);
            }
            let reg = regions[i];
            usable = usable + reg.size;
            if reg.addr < min {
                min = reg.addr;
            }
            if reg.addr + reg.size > max {
                max = reg.addr + reg.size;
            }
            i = i + 1;
        }
        assert(min == l.min && max == l.max);
        proof {
            lemma_min_max(regs, n as int);
        }
        // total system memory
        let total = max;
        let usable_pages = (max - min) / PAGE_SIZE;
        proof {
            assert(usable_pages as int * 0x1000 <= l.pages * 0x1000 + 0x1000);
            assert(usable_pages == l.pages);
            assert(usable_pages * 2 <= u64::MAX - 0x1000) by {
                assert(usable_pages <= 0x100_0000_0000);
            }
        }
        let meta_size = crate::addr::align_up(usable_pages * 2, PAGE_SIZE);
        usable = usable - meta_size;
        // the first region with room for the bookkeeping
        let mut m: usize = 0;
        while m < n && regions[m].size < meta_size
            invariant
                n == regs.len(),
                regs == regions@,
                m <= n,
                meta_size == l.meta_size,
                first_fit(regs, l.meta_size, 0) == first_fit(regs, l.meta_size, m as int),
                first_fit(regs, l.meta_size, 0) >= 0,
            decreases n - m,
        {
            m = m + 1;
        }
        proof {
            if m == n {
                assert(first_fit(regs, l.meta_size, m as int) == -1);
            }
            assert(first_fit(regs, l.meta_size, m as int) == m);
        }
        let meta_addr = regions[m].addr;
        assert(meta_addr == l.meta_addr);
        // all pages owned
        let mut refs: Vec<u16> = Vec::new();
        let mut k: u64 = 0;
        while k < usable_pages
            invariant
                k <= usable_pages,
                refs@.len() == k,
                forall|j: int| 0 <= j < k ==> #[trigger] refs@[j] == 1u16,
            decreases usable_pages - k,
        {
            refs.push(1);
            k = k + 1;
        }
        let first_page = min / PAGE_SIZE;
        let mut pfa = FrameAllocator::from_parts(refs, first_page, usable, usable, total);
        proof {
            lemma_no_free_pages(pfa.refs());
        }
        // free up the usable pages
        let mut i: usize = 0;
        while i < n
            invariant
                n == regs.len(),
                regs == regions@,
                0 <= i <= n,
                init_admissible(regs),
                l == init_layout(regs),
                meta_addr == l.meta_addr,
                meta_size == l.meta_size,
                pfa.wf(),
                pfa.first_page() == l.min / 0x1000,
                pfa.refs().len() == l.pages,
                forall|k: int|
                    0 <= k < pfa.refs().len() ==> #[trigger] pfa.refs()[k] == if freed_upto(
                        regs,
                        i as int,
                        pfa.first_page() + k,
                    ) {
                        0u16
                    } else {
                        1u16
                    },
                pfa.spec_total() == l.max,
                pfa.spec_usable() == size_upto(regs, n as int) - l.meta_size,
                pfa.spec_used() == (pfa.spec_usable() - PAGE_SIZE * freed_count_upto(regs, i as int))
                    % (u64::MAX + 1),
                pfa.next_probe() == 0,
                free_pages(pfa.refs()) == freed_count_upto(regs, i as int),
            decreases n - i,
        {
            let reg = regions[i];
            let mut addr = reg.addr;
            let mut size = reg.size;
            if addr == meta_addr {
                addr = addr + meta_size;
                size = size - meta_size;
            }
            let count = size / PAGE_SIZE;
            let base = addr / PAGE_SIZE;
            assert(base == region_first_page(regs, i as int));
            assert(count == region_page_count(regs, i as int));
            let mut idx: u64 = 0;
            while idx < count
                invariant
                    n == regs.len(),
                    regs == regions@,
                    0 <= i < n,
                    idx <= count,
                    base == region_first_page(regs, i as int),
                    count == region_page_count(regs, i as int),
                    init_admissible(regs),
                    l == init_layout(regs),
                    pfa.wf(),
                    pfa.first_page() == l.min / 0x1000,
                    pfa.refs().len() == l.pages,
                    forall|k: int|
                        0 <= k < pfa.refs().len() ==> #[trigger] pfa.refs()[k] == if freed_upto(
                            regs,
                            i as int,
                            pfa.first_page() + k,
                        ) || base <= pfa.first_page() + k < base + idx {
                            0u16
                        } else {
                            1u16
                        },
                    pfa.spec_total() == l.max,
                    pfa.spec_usable() == size_upto(regs, n as int) - l.meta_size,
                    pfa.spec_used() == (pfa.spec_usable() - PAGE_SIZE * (freed_count_upto(
                        regs,
                        i as int,
                    ) + idx)) % (u64::MAX + 1),
                    pfa.next_probe() == 0,
                    free_pages(pfa.refs()) == freed_count_upto(regs, i as int) + idx,
                decreases count - idx,
            {
                let frame = Frame::from_idx(base + idx);
                let ghost before = pfa;
                let ghost slot = (base + idx) - pfa.first_page();
                proof {
                    assert(region_frees(regs, i as int, base + idx));
                    assert(!freed_upto(regs, i as int, base + idx)) by {
                        if freed_upto(regs, i as int, base + idx) {
                            let r = choose|r: int| 0 <= r < i && #[trigger] region_frees(regs, r, base + idx);
                            assert(region_frees(regs, r, base + idx));
                        }
                    }
                    assert(pfa.refs()[slot] == 1u16);
                }
                pfa.free_no_overwrite(frame);
                proof {
                    lemma_free_pages_update(before.refs(), slot, 0);
                    lemma_freed_count_nonneg(regs, i as int);
                    lemma_wrapping_step(before.spec_usable(), freed_count_upto(regs, i as int) + idx);
                }
                idx = idx + 1;
            }
            proof {
                assert forall|p: int| #[trigger] freed_upto(regs, i + 1, p) == (freed_upto(regs, i as int, p)
                    || base <= p < base + count) by {
                    if base <= p < base + count {
                        assert(region_frees(regs, i as int, p));
                    }
                    if freed_upto(regs, i + 1, p) && !freed_upto(regs, i as int, p) {
                        let r = choose|r: int| 0 <= r < i + 1 && #[trigger] region_frees(regs, r, p);
                        assert(r == i);
                    }
                }
            }
            i = i + 1;
        }
        proof {
            lemma_freed_bytes(regs, n as int);
            lemma_first_fit_range(regs, l.meta_size, 0);
            lemma_meta_region_counted(regs, n as int);
            lemma_freed_count_nonneg(regs, n as int);
            let c = meta_regions_upto(regs, n as int);
            assert(l.meta_size * c >= l.meta_size) by (nonlinear_arith)
                requires
                    c >= 1,
                    l.meta_size >= 0,
            ;
            let rest = pfa.spec_usable() - PAGE_SIZE * freed_count_upto(regs, n as int);
            assert(0 <= rest <= pfa.spec_usable());
            vstd::arithmetic::div_mod::lemma_small_mod(rest as nat, (u64::MAX + 1) as nat);
        }
        pfa
    }
}

/// Regions among the first `n` that start where the bookkeeping is placed.
pub open spec fn meta_regions_upto(regs: Seq<UsableRegion>, n: int) -> int
    decreases n,
{
    if n <= 0 {
        0
    } else {
        meta_regions_upto(regs, n - 1) + if regs[n - 1].addr == init_layout(regs).meta_addr {
            1int
        } else {
            0int
        }
    }
}

/// The freed pages of the first `n` regions, and the bookkeeping cut off them, fit in
/// the regions' bytes.
proof fn lemma_freed_bytes(regs: Seq<UsableRegion>, n: int)
    requires
        init_admissible(regs),
        0 <= n <= regs.len(),
    ensures
        PAGE_SIZE * freed_count_upto(regs, n) + init_layout(regs).meta_size * meta_regions_upto(regs, n)
            <= size_upto(regs, n),
        meta_regions_upto(regs, n) >= 0,
    decreases n,
{
    if n > 0 {
        lemma_freed_bytes(regs, n - 1);
        let l = init_layout(regs);
        let r = regs[n - 1];
        let m = if r.addr == l.meta_addr {
            l.meta_size
        } else {
            0
        };
        if r.addr == l.meta_addr {
            assert(r.size >= l.meta_size);
        }
        let x = r.size - m;
        assert(x >= 0);
        assert(region_page_count(regs, n - 1) == x / 0x1000);
        assert((x / 0x1000) * 0x1000 <= x) by (nonlinear_arith)
            requires
                x >= 0,
        ;
        assert(PAGE_SIZE * freed_count_upto(regs, n) == PAGE_SIZE * freed_count_upto(regs, n - 1)
            + PAGE_SIZE * region_page_count(regs, n - 1)) by (nonlinear_arith)
            requires
                freed_count_upto(regs, n) == freed_count_upto(regs, n - 1) + region_page_count(regs, n - 1),
        ;
        assert(l.meta_size * meta_regions_upto(regs, n) == l.meta_size * meta_regions_upto(regs, n - 1)
            + m) by (nonlinear_arith)
            requires
                meta_regions_upto(regs, n) == meta_regions_upto(regs, n - 1) + if r.addr
                    == l.meta_addr {
                    1int
                } else {
                    0int
                },
                m == if r.addr == l.meta_addr {
                    l.meta_size
                } else {
                    0
                },
        ;
    }
}

/// The region that holds the bookkeeping is counted once the regions reach past it.
proof fn lemma_meta_region_counted(regs: Seq<UsableRegion>, n: int)
    requires
        init_admissible(regs),
        first_fit(regs, init_layout(regs).meta_size, 0) < n <= regs.len(),
    ensures
        meta_regions_upto(regs, n) >= 1,
    decreases n,
{
    let fit = first_fit(regs, init_layout(regs).meta_size, 0);
    lemma_first_fit_range(regs, init_layout(regs).meta_size, 0);
    if n - 1 > fit {
        lemma_meta_region_counted(regs, n - 1);
    } else {
        lemma_freed_bytes(regs, n - 1);
        assert(regs[n - 1].addr == init_layout(regs).meta_addr);
    }
}

proof fn lemma_first_fit_range(regs: Seq<UsableRegion>, bytes: int, from: int)
    ensures
        first_fit(regs, bytes, from) == -1 || (from <= first_fit(regs, bytes, from) < regs.len()),
    decreases regs.len() - from,
{
    if 0 <= from < regs.len() && regs[from].size < bytes {
        lemma_first_fit_range(regs, bytes, from + 1);
    }
}

/// A sequence of counts without a zero has no free page.
proof fn lemma_no_free_pages(refs: Seq<u16>)
    requires
        forall|j: int| 0 <= j < refs.len() ==> refs[j] != 0,
    ensures
        free_pages(refs) == 0,
    decreases refs.len(),
{
    if refs.len() > 0 {
        lemma_no_free_pages(refs.drop_last());
    }
}

/// Is byte `x` in region `r`?
pub open spec fn in_region(regs: Seq<UsableRegion>, r: int, x: int) -> bool {
    regs[r].addr <= x < regs[r].addr + regs[r].size
}

/// No two regions share a byte.
pub open spec fn regions_disjoint(regs: Seq<UsableRegion>) -> bool {
    forall|r1: int, r2: int|
        0 <= r1 < r2 < regs.len() ==> #[trigger] regs[r1].addr + regs[r1].size <= #[trigger] regs[r2].addr
            || regs[r2].addr + regs[r2].size <= regs[r1].addr
}

/// The bytes of the first `n` regions.
pub open spec fn region_bytes(regs: Seq<UsableRegion>, n: int) -> Set<int>
    decreases n,
{
    if n <= 0 {
        Set::empty()
    } else {
        region_bytes(regs, n - 1) + vstd::set_lib::set_int_range(
            regs[n - 1].addr as int,
            regs[n - 1].addr + regs[n - 1].size,
        )
    }
}

proof fn lemma_region_bytes(regs: Seq<UsableRegion>, n: int)
    requires
        regions_disjoint(regs),
        0 <= n <= regs.len(),
    ensures
        region_bytes(regs, n).finite(),
        region_bytes(regs, n).len() == size_upto(regs, n),
        forall|x: int|
            #[trigger] region_bytes(regs, n).contains(x) ==> exists|r: int| 0 <= r < n && #[trigger] in_region(regs, r, x),
    decreases n,
{
    if n > 0 {
        lemma_region_bytes(regs, n - 1);
        let a = region_bytes(regs, n - 1);
        let b = vstd::set_lib::set_int_range(regs[n - 1].addr as int, regs[n - 1].addr + regs[n - 1].size);
        vstd::set_lib::lemma_int_range(regs[n - 1].addr as int, regs[n - 1].addr + regs[n - 1].size);
        assert(a.disjoint(b)) by {
            assert forall|x: int| a.contains(x) implies !b.contains(x) by {
                let r = choose|r: int| 0 <= r < n - 1 && #[trigger] in_region(regs, r, x);
                assert(regs[r].addr + regs[r].size <= regs[n - 1].addr || regs[n - 1].addr
                    + regs[n - 1].size <= regs[r].addr);
            }
        }
        vstd::set_lib::lemma_set_disjoint_lens(a, b);
        assert forall|x: int| #[trigger] region_bytes(regs, n).contains(x) implies exists|r: int|
            0 <= r < n && #[trigger] in_region(regs, r, x) by {
            if a.contains(x) {
                let r = choose|r: int| 0 <= r < n - 1 && #[trigger] in_region(regs, r, x);
                assert(0 <= r < n && in_region(regs, r, x));
            } else {
                assert(0 <= n - 1 < n && in_region(regs, n - 1, x));
            }
        }
    }
}

proof fn lemma_regions_within(regs: Seq<UsableRegion>, n: int, r: int)
    requires
        1 <= n <= regs.len(),
        0 <= r < n,
    ensures
        min_addr_upto(regs, n) <= regs[r].addr,
        regs[r].addr + regs[r].size <= max_end_upto(regs, n),
    decreases n,
{
    if n > 1 && r < n - 1 {
        lemma_regions_within(regs, n - 1, r);
    }
}

/// Usable memory never exceeds the total: when the usable regions share no byte, the
/// usable bytes that [`FrameAllocator::init`] counts (the regions' bytes less the
/// bookkeeping) lie between the lowest and the highest usable address, and the total
/// is that highest address. Every later call keeps both counts, so the reserved memory
/// (total less usable) stays what `init` made it.
pub proof fn lemma_usable_within_total(regs: Seq<UsableRegion>)
    requires
        init_admissible(regs),
        regions_disjoint(regs),
    ensures
        0 <= size_upto(regs, regs.len() as int) - init_layout(regs).meta_size <= init_layout(regs).max,
{
    let n = regs.len() as int;
    let l = init_layout(regs);
    lemma_region_bytes(regs, n);
    lemma_min_max(regs, n);
    let all = vstd::set_lib::set_int_range(l.min, l.max);
    vstd::set_lib::lemma_int_range(l.min, l.max);
    assert(region_bytes(regs, n).subset_of(all)) by {
        assert forall|x: int| region_bytes(regs, n).contains(x) implies all.contains(x) by {
            let r = choose|r: int| 0 <= r < n && #[trigger] in_region(regs, r, x);
            lemma_regions_within(regs, n, r);
        }
    }
    vstd::set_lib::lemma_len_subset(region_bytes(regs, n), all);
}

proof fn lemma_size_upto_mono(regs: Seq<UsableRegion>, a: int, b: int)
    requires
        0 <= a <= b <= regs.len(),
    ensures
        size_upto(regs, a) <= size_upto(regs, b),
    decreases b - a,
{
    if a < b {
        lemma_size_upto_mono(regs, a, b - 1);
    }
}

proof fn lemma_freed_count_nonneg(regs: Seq<UsableRegion>, n: int)
    requires
        init_admissible(regs),
        0 <= n <= regs.len(),
    ensures
        freed_count_upto(regs, n) >= 0,
    decreases n,
{
    if n > 0 {
        lemma_freed_count_nonneg(regs, n - 1);
        let l = init_layout(regs);
        if regs[n - 1].addr == l.meta_addr {
            assert(regs[n - 1].size >= l.meta_size);
        }
    }
}

proof fn lemma_min_max(regs: Seq<UsableRegion>, n: int)
    requires
        1 <= n <= regs.len(),
        forall|r: int| 0 <= r < regs.len() ==> (#[trigger] regs[r]).addr + regs[r].size <= u64::MAX,
    ensures
        0 <= min_addr_upto(regs, n) <= max_end_upto(regs, n) <= u64::MAX,
    decreases n,
{
    if n > 1 {
        lemma_min_max(regs, n - 1);
    }
}

proof fn lemma_wrapping_step(u: u64, c: int)
    requires
        c >= 0,
    ensures
        wrapping_sub_u64(((u - PAGE_SIZE * c) % (u64::MAX + 1)) as u64, PAGE_SIZE) == (u - PAGE_SIZE * (c
            + 1)) % (u64::MAX + 1),
{
    let m = u64::MAX + 1;
    let x = (u - PAGE_SIZE * c) % m;
    vstd::arithmetic::div_mod::lemma_mod_bound(u - PAGE_SIZE * c, m);
    vstd::arithmetic::div_mod::lemma_sub_mod_noop(u - PAGE_SIZE * c, PAGE_SIZE as int, m);
    vstd::arithmetic::div_mod::lemma_small_mod(PAGE_SIZE as nat, m as nat);
    vstd::arithmetic::div_mod::lemma_mod_twice(u - PAGE_SIZE * c, m);
    if x >= PAGE_SIZE {
        vstd::arithmetic::div_mod::lemma_small_mod((x - PAGE_SIZE) as nat, m as nat);
    } else {
        vstd::arithmetic::div_mod::lemma_mod_add_multiples_vanish(x - PAGE_SIZE, m);
        vstd::arithmetic::div_mod::lemma_small_mod((x - PAGE_SIZE + m) as nat, m as nat);
    }
}

/// Dropping the one owner that an allocation gave a free page gives back the reference
/// counts from before the allocation.
pub proof fn lemma_free_undoes_frame_allocate(refs: Seq<u16>, slot: int)
    requires
        0 <= slot < refs.len(),
        refs[slot] == 0,
    ensures
        ({
            let taken = refs.update(slot, 1);
            taken.update(slot, (taken[slot] - 1) as u16)
        }) == refs,
{
    let taken = refs.update(slot, 1);
    assert(taken.update(slot, (taken[slot] - 1) as u16) =~= refs);
}

/// Sharing a page once more and then resolving a write to it gives the page its owners
/// from before the share, and the writer a fresh page with one owner.
pub proof fn lemma_share_then_write_fault(refs: Seq<u16>, slot: int, fresh: int)
    requires
        0 <= slot < refs.len(),
        0 <= fresh < refs.len(),
        1 <= refs[slot] < u16::MAX,
        refs[fresh] == 0,
    ensures
        fresh != slot,
        ({
            let shared = refs.update(slot, (refs[slot] + 1) as u16);
            shared.update(fresh, 1).update(slot, (shared[slot] - 1) as u16)
        }) == refs.update(fresh, 1),
{
    let shared = refs.update(slot, (refs[slot] + 1) as u16);
    assert(shared.update(fresh, 1).update(slot, (shared[slot] - 1) as u16) =~= refs.update(fresh, 1));
}

/// While the statistics agree with the pages, the used bytes never exceed the usable
/// ones, so the free memory is the usable minus the used bytes.
pub proof fn lemma_used_within_usable(a: FrameAllocator)
    requires
        a.accounts(),
    ensures
        a.spec_used() <= a.spec_usable(),
{
    lemma_free_pages_bounds(a.refs());
}

/// The statistics along a run of calls: `init` makes them agree with the pages, and
/// each call of `allocate`, `fork` (of a page with an owner), `fork_page_fault` and
/// `free_no_overwrite` (of a page that was handed out) keeps them agreeing and keeps
/// the usable and total counts. Then in every state of the run the used bytes stay
/// within the usable ones, and the usable, total and reserved (total less usable)
/// memory stay what the first state had.
pub proof fn lemma_statistics_along_calls(states: Seq<FrameAllocator>)
    requires
        states.len() > 0,
        states[0].accounts(),
        forall|i: int|
            0 <= i < states.len() - 1 ==> (#[trigger] states[i].accounts() ==> states[i + 1].accounts())
                && states[i + 1].spec_usable() == states[i].spec_usable() && states[i + 1].spec_total()
                == states[i].spec_total(),
    ensures
        forall|i: int|
            0 <= i < states.len() ==> {
                &&& #[trigger] states[i].spec_used() <= states[i].spec_usable()
                &&& states[i].spec_usable() == states[0].spec_usable()
                &&& states[i].spec_total() == states[0].spec_total()
                &&& states[i].spec_total() - states[i].spec_usable() == states[0].spec_total()
                    - states[0].spec_usable()
            },
    decreases states.len(),
{
    if states.len() > 1 {
        let front = states.drop_last();
        assert forall|i: int| 0 <= i < front.len() - 1 implies (#[trigger] front[i].accounts()
            ==> front[i + 1].accounts()) && front[i + 1].spec_usable() == front[i].spec_usable()
            && front[i + 1].spec_total() == front[i].spec_total() by {
            assert(front[i] == states[i] && front[i + 1] == states[i + 1]);
            assert(states[i].accounts() ==> states[i + 1].accounts());
        }
        lemma_statistics_along_calls(front);
        let k = states.len() - 1;
        assert(front[k - 1] == states[k - 1]);
        assert(states[k - 1].accounts() ==> states[k].accounts());
        assert forall|i: int| 0 <= i < states.len() implies {
            &&& #[trigger] states[i].spec_used() <= states[i].spec_usable()
            &&& states[i].spec_usable() == states[0].spec_usable()
            &&& states[i].spec_total() == states[0].spec_total()
            &&& states[i].spec_total() - states[i].spec_usable() == states[0].spec_total()
                - states[0].spec_usable()
        } by {
            if i < k {
                assert(front[i] == states[i]);
                assert(front[i].spec_used() <= front[i].spec_usable());
            } else {
                assert(states[k - 1].accounts()) by {
                    lemma_accounts_along(states, k - 1);
                }
                lemma_used_within_usable(states[k]);
            }
        }
    } else {
        lemma_used_within_usable(states[0]);
    }
}

proof fn lemma_accounts_along(states: Seq<FrameAllocator>, j: int)
    requires
        0 <= j < states.len(),
        states[0].accounts(),
        forall|i: int|
            0 <= i < states.len() - 1 ==> (#[trigger] states[i].accounts() ==> states[i + 1].accounts()),
    ensures
        states[j].accounts(),
    decreases j,
{
    if j > 0 {
        lemma_accounts_along(states, j - 1);
        assert(states[j - 1].accounts() ==> states[j].accounts());
    }
}

} // verus!
