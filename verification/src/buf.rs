//! Byte ranges of virtual memory cut at page boundaries.

use vstd::prelude::*;

use crate::addr::{is_virt_canonical, spec_align_down, spec_align_up, virt_sign_extend};

verus! {

/// `x86_64::VirtAddr::align_up`: the address rounded up to a multiple of `align`,
/// with bits 48..64 then made a sign extension of bit 47. The crate panics on a
/// non-canonical address, on an alignment that is not a power of two, and when the
/// rounded address does not fit in 64 bits.
#[verifier::external_body]
pub(crate) fn x86_virt_align_up(addr: u64, align: u64) -> (r: u64)
    requires
        is_virt_canonical(addr),
        crate::vmm::is_power_of_two(align),
        spec_align_up(addr as int, align as int) <= u64::MAX,
    ensures
        r == virt_sign_extend(spec_align_up(addr as int, align as int) as u64),
{
    x86_64::VirtAddr::new(addr).align_up(align).as_u64()
}

/// `x86_64::VirtAddr::align_down`: the address rounded down to a multiple of
/// `align`, with bits 48..64 then made a sign extension of bit 47. The crate panics
/// on a non-canonical address and on an alignment that is not a power of two.
#[verifier::external_body]
pub(crate) fn x86_virt_align_down(addr: u64, align: u64) -> (r: u64)
    requires
        is_virt_canonical(addr),
        crate::vmm::is_power_of_two(align),
    ensures
        r == virt_sign_extend(spec_align_down(addr as int, align as int) as u64),
{
    x86_64::VirtAddr::new(addr).align_down(align).as_u64()
}

/// `x86_64::VirtAddr + u64`: the sum of a virtual address and a byte count. The
/// crate panics on an overflow and on a sum that is not canonical.
#[verifier::external_body]
pub(crate) fn x86_virt_add(addr: u64, by: u64) -> (r: u64)
    requires
        is_virt_canonical(addr),
        addr + by <= u64::MAX,
        is_virt_canonical((addr + by) as u64),
    ensures
        r == addr + by,
{
    (x86_64::VirtAddr::new(addr) + by).as_u64()
}

/// Where the pages of the bytes `beg..end` lie.
#[derive(Debug, Clone, Copy, PartialEq, Eq, Structural)]
pub struct PtrRangeInfo {
    pub beg: u64,
    pub end: u64,
    /// the first page boundary at or after `beg`
    pub inside_aligned_beg: u64,
    /// the last page boundary at or before `end`
    pub inside_aligned_end: u64,
    /// the start of the page of `beg`
    pub aligned_beg: u64,
    /// the end of the page of the last byte
    pub aligned_end: u64,
    /// bytes from `beg` to `inside_aligned_end`
    pub first_page_size: u64,
    /// bytes from `inside_aligned_end` to `end`
    pub last_page_size: u64,
    /// whole pages between `inside_aligned_beg` and `inside_aligned_end`
    pub n_full_pages: u64,
    /// pages touched, from `aligned_beg` to `aligned_end`
    pub n_pages: u64,
}

/// `addr` rounded to a page, up or down, as a canonical address.
pub open spec fn page_up(addr: u64) -> u64 {
    virt_sign_extend(spec_align_up(addr as int, 0x1000) as u64)
}

pub open spec fn page_down(addr: u64) -> u64 {
    virt_sign_extend(spec_align_down(addr as int, 0x1000) as u64)
}

/// The ranges on which [`ptr_range_info`] runs without a panic: canonical ends that
/// round up within the address space, and the differences it takes are not negative.
pub open spec fn range_info_ok(beg: u64, end: u64) -> bool {
    &&& is_virt_canonical(beg)
    &&& is_virt_canonical(end)
    &&& spec_align_up(beg as int, 0x1000) <= u64::MAX
    &&& spec_align_up(end as int, 0x1000) <= u64::MAX
    &&& beg <= page_down(end)
    &&& page_down(end) <= end
    &&& page_up(beg) <= page_down(end)
    &&& page_down(beg) <= page_up(end)
}

pub(crate) proof fn lemma_page_size_pow2()
    ensures
        crate::vmm::is_power_of_two(0x1000),
{
    let p: u64 = 0x1000;
    assert(p & ((p - 1) as u64) == 0) by (bit_vector)
        requires
            p == 0x1000u64,
    ;
}

/// The page layout of the bytes `beg..end`.
pub fn ptr_range_info(beg: u64, end: u64) -> (r: PtrRangeInfo)
    requires
        range_info_ok(beg, end),
    ensures
        r.beg == beg,
        r.end == end,
        r.inside_aligned_beg == page_up(beg),
        r.inside_aligned_end == page_down(end),
        r.aligned_beg == page_down(beg),
        r.aligned_end == page_up(end),
        r.first_page_size == page_down(end) - beg,
        r.last_page_size == end - page_down(end),
        r.n_full_pages == (page_down(end) - page_up(beg)) / 0x1000,
        r.n_pages == (page_up(end) - page_down(beg)) / 0x1000,
{
    proof {
        lemma_page_size_pow2();
    }
    let inside_aligned_beg = x86_virt_align_up(beg, 0x1000);
    let inside_aligned_end = x86_virt_align_down(end, 0x1000);
    let aligned_beg = x86_virt_align_down(beg, 0x1000);
    let aligned_end = x86_virt_align_up(end, 0x1000);
    let first_page_size = inside_aligned_end - beg;
    let last_page_size = end - inside_aligned_end;
    let n_full_pages = (inside_aligned_end - inside_aligned_beg) / 0x1000;
    let n_pages = (aligned_end - aligned_beg) / 0x1000;
    PtrRangeInfo {
        beg,
        end,
        inside_aligned_beg,
        inside_aligned_end,
        aligned_beg,
        aligned_end,
        first_page_size,
        last_page_size,
        n_full_pages,
        n_pages,
    }
}

/// The pieces of `beg..end` split at page boundaries: the head up to the first
/// boundary (when `beg` is inside a page), the whole pages, and the tail after the
/// last boundary (when not empty).
pub open spec fn page_split(beg: u64, end: u64) -> Seq<(u64, u64)> {
    let head: Seq<(u64, u64)> = if beg % 0x1000 != 0 {
        seq![(beg, page_up(beg))]
    } else {
        seq![]
    };
    let n = (page_down(end) - page_up(beg)) / 0x1000;
    let pages = Seq::new(
        n as nat,
        |i: int| ((page_up(beg) + i * 0x1000) as u64, (page_up(beg) + i * 0x1000 + 0x1000) as u64),
    );
    let tail: Seq<(u64, u64)> = if end - page_down(end) != 0 {
        seq![(page_down(end), end)]
    } else {
        seq![]
    };
    head + pages + tail
}

/// Split `beg..end` at page boundaries, as [`page_split`] describes.
pub fn page_split_iterator(beg: u64, end: u64) -> (r: Vec<(u64, u64)>)
    requires
        range_info_ok(beg, end),
        forall|i: int|
            0 <= i < (page_down(end) - page_up(beg)) / 0x1000 ==> is_virt_canonical(
                #[trigger] ((page_up(beg) + i * 0x1000) as u64),
            ) && is_virt_canonical((page_up(beg) + i * 0x1000 + 0x1000) as u64),
    ensures
        r@ == page_split(beg, end),
{
    let info = ptr_range_info(beg, end);
    let mut out: Vec<(u64, u64)> = Vec::new();
    if beg % 0x1000 != 0 {
        out.push((info.beg, info.inside_aligned_beg));
    }
    let ghost head = out@;
    let mut i: u64 = 0;
    while i < info.n_full_pages
        invariant
            i <= info.n_full_pages,
            info.n_full_pages == (page_down(end) - page_up(beg)) / 0x1000,
            info.inside_aligned_beg == page_up(beg),
            info.inside_aligned_end == page_down(end),
            page_up(beg) <= page_down(end),
            out@.len() == head.len() + i,
            out@.subrange(0, head.len() as int) == head,
            forall|j: int|
                0 <= j < i ==> #[trigger] out@[head.len() + j] == (
                    (page_up(beg) + j * 0x1000) as u64,
                    (page_up(beg) + j * 0x1000 + 0x1000) as u64,
                ),
        decreases info.n_full_pages - i,
    {
        proof {
            assert(i * 0x1000 + 0x1000 <= info.n_full_pages * 0x1000) by (nonlinear_arith)
                requires
                    i < info.n_full_pages,
            ;
            assert(info.n_full_pages * 0x1000 <= page_down(end) - page_up(beg)) by (nonlinear_arith)
                requires
                    info.n_full_pages == (page_down(end) - page_up(beg)) / 0x1000,
                    page_up(beg) <= page_down(end),
            ;
        }
        let page = info.inside_aligned_beg + i * 0x1000;
        out.push((page, page + 0x1000));
        proof {
            assert(out@.subrange(0, head.len() as int) =~= head);
        }
        i = i + 1;
    }
    let ghost mid = out@;
    if info.last_page_size != 0 {
        out.push((info.inside_aligned_end, info.end));
    }
    proof {
        let n = info.n_full_pages as int;
        let pages = Seq::new(
            n as nat,
            |i: int| ((page_up(beg) + i * 0x1000) as u64, (page_up(beg) + i * 0x1000 + 0x1000) as u64),
        );
        assert forall|k: int| 0 <= k < mid.len() implies mid[k] == (head + pages)[k] by {
            if k < head.len() {
                assert(mid.subrange(0, head.len() as int)[k] == head[k]);
            } else {
                assert(mid[head.len() + (k - head.len())] == pages[k - head.len()]);
            }
        }
        assert(mid =~= head + pages);
        assert(out@ =~= page_split(beg, end));
    }
    out
}


/// Where a buffer of another process shows up while it is borrowed: each of its
/// pages that the process has mapped is mapped again in a window of the running
/// address space.
#[derive(Debug, Clone, Copy, PartialEq, Eq, Structural)]
pub struct BufferWindow {
    /// the start of the page of the buffer's first byte
    pub aligned_beg: u64,
    /// where the window starts
    pub window: u64,
    /// how many steps the mapping takes: the bytes from `aligned_beg` to the end of
    /// the page of the buffer's last byte, one step per byte
    pub n_pages: u64,
    /// where the buffer starts in the window
    pub start: u64,
}

/// The buffers of `len` bytes at `ptr` that can be placed in a window at `window`
/// without a panic: canonical ends that round up within 64 bits, and a start in
/// the window that is a canonical address.
pub open spec fn window_ok(ptr: u64, len: u64, window: u64) -> bool {
    &&& is_virt_canonical(ptr)
    &&& ptr + len <= u64::MAX
    &&& is_virt_canonical((ptr + len) as u64)
    &&& spec_align_up(ptr + len, 0x1000) <= u64::MAX
    &&& page_down(ptr) <= page_up((ptr + len) as u64)
    &&& page_down(ptr) <= ptr
    &&& is_virt_canonical(window)
    &&& window + (ptr - page_down(ptr)) <= u64::MAX
    &&& is_virt_canonical((window + (ptr - page_down(ptr))) as u64)
}

/// Place the buffer of `len` bytes at `ptr` in the window at `window`.
pub fn buffer_window(ptr: u64, len: u64, window: u64) -> (r: BufferWindow)
    requires
        window_ok(ptr, len, window),
    ensures
        r.aligned_beg == page_down(ptr),
        r.window == window,
        r.n_pages == page_up((ptr + len) as u64) - page_down(ptr),
        r.start == window + (ptr - page_down(ptr)),
{
    proof {
        lemma_page_size_pow2();
    }
    let end = ptr + len;
    let aligned_beg = x86_virt_align_down(ptr, 0x1000);
    let aligned_end = x86_virt_align_up(end, 0x1000);
    let n_pages = aligned_end - aligned_beg;
    let start = x86_virt_add(window, ptr - aligned_beg);
    BufferWindow { aligned_beg, window, n_pages, start }
}

impl BufferWindow {
    /// The steps of the mapping that run without a panic: the page of the process
    /// and the place in the window are canonical addresses.
    pub open spec fn page_ok(self, i: u64) -> bool {
        &&& i * 0x1000 <= u64::MAX
        &&& self.aligned_beg + i * 0x1000 + 1 <= u64::MAX
        &&& is_virt_canonical((self.aligned_beg + i * 0x1000) as u64)
        &&& is_virt_canonical((self.aligned_beg + i * 0x1000 + 1) as u64)
        &&& self.window + i * 0x1000 <= u64::MAX
        &&& is_virt_canonical((self.window + i * 0x1000) as u64)
        &&& is_virt_canonical(self.aligned_beg)
        &&& is_virt_canonical(self.window)
    }

    /// Step `i` of the mapping: the page of the process that is looked up, the
    /// place in the window where it goes, and the end of the range that is mapped
    /// from there, which is one past the page of the process.
    pub fn page(&self, i: u64) -> (r: (u64, u64, u64))
        requires
            self.page_ok(i),
        ensures
            r == (
                (self.aligned_beg + i * 0x1000) as u64,
                (self.window + i * 0x1000) as u64,
                (self.aligned_beg + i * 0x1000 + 1) as u64,
            ),
    {
        let off = i * 0x1000;
        let src = x86_virt_add(self.aligned_beg, off);
        let dst = x86_virt_add(self.window, off);
        let end = x86_virt_add(src, 1);
        (src, dst, end)
    }
}

/// The pieces of `beg..end` up to each page boundary, one per call of
/// [`PageIter::next`].
pub struct PageIter {
    pub beg: u64,
    pub end: u64,
}

impl PageIter {
    /// The next piece: from where the last one ended to the next page boundary, or to
    /// the end; nothing once the end is reached. A start on a page boundary is its own
    /// next boundary, so from there the pieces are empty and the start stays.
    pub fn next(&mut self) -> (r: Option<(u64, u64)>)
        requires
            is_virt_canonical(old(self).beg),
            spec_align_up(old(self).beg as int, 0x1000) <= u64::MAX,
        ensures
            final(self).end == old(self).end,
            old(self).beg == old(self).end ==> r is None && final(self).beg == old(self).beg,
            old(self).beg != old(self).end ==> {
                let up = page_up(old(self).beg);
                let next = if up <= old(self).end {
                    up
                } else {
                    old(self).end
                };
                r == Some((old(self).beg, next)) && final(self).beg == next
            },
    {
        if self.beg == self.end {
            return None;
        }
        proof {
            lemma_page_size_pow2();
        }
        let next_beg = self.beg;
        let up = x86_virt_align_up(self.beg, 0x1000);
        self.beg = if up <= self.end {
            up
        } else {
            self.end
        };
        Some((next_beg, self.beg))
    }

    /// How many pages the rest of the range touches, as both bounds.
    pub fn size_hint(&self) -> (r: (usize, Option<usize>))
        requires
            is_virt_canonical(self.beg),
            is_virt_canonical(self.end),
            spec_align_up(self.end as int, 0x1000) <= u64::MAX,
            page_down(self.beg) <= page_up(self.end),
            (page_up(self.end) - page_down(self.beg)) / 0x1000 <= usize::MAX,
        ensures
            r.0 == (page_up(self.end) - page_down(self.beg)) / 0x1000,
            r.1 == Some(r.0),
    {
        proof {
            lemma_page_size_pow2();
        }
        let min = x86_virt_align_down(self.beg, 0x1000);
        let max = x86_virt_align_up(self.end, 0x1000);
        let len = ((max - min) / 0x1000) as usize;
        (len, Some(len))
    }
}

} // verus!
