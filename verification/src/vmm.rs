//! Virtual memory bookkeeping: page fault outcomes, memory statistics of an address
//! space and the targets of a mapping.

use vstd::prelude::*;

verus! {

/// Who caused a page fault.
#[derive(Debug, Clone, Copy, PartialEq, Eq, Structural)]
pub enum Privilege {
    User,
    Kernel,
}

/// Whether a page fault was resolved.
#[derive(Debug, Clone, Copy, PartialEq, Eq, Structural)]
pub enum PageFaultResult {
    Handled,
    NotHandled,
}

impl PageFaultResult {
    pub fn is_handled(self) -> (r: bool)
        ensures
            r == (self == PageFaultResult::Handled),
    {
        match self {
            PageFaultResult::Handled => true,
            PageFaultResult::NotHandled => false,
        }
    }
}

/// Marker of a handled page fault.
#[derive(Debug, Clone, Copy, PartialEq, Eq, Structural)]
pub struct Handled;

/// Marker of a page fault that was not handled.
#[derive(Debug, Clone, Copy, PartialEq, Eq, Structural)]
pub struct NotHandled;

/// A source of identifiers: each call of [`IdCounter::next`] hands out the next number.
pub struct IdCounter {
    next: usize,
}

impl IdCounter {
    pub closed spec fn peek(&self) -> usize {
        self.next
    }

    /// A counter whose first number is `start`.
    pub fn new(start: usize) -> (r: Self)
        ensures
            r.peek() == start,
    {
        IdCounter { next: start }
    }

    /// The current number; the counter moves on by one, wrapping at the top.
    pub fn next(&mut self) -> (r: usize)
        ensures
            r == old(self).peek(),
            final(self).peek() == id_step(old(self).peek()),
    {
        let r = self.next;
        self.next = self.next.wrapping_add(1);
        r
    }
}

/// Where a counter at `x` goes after handing `x` out.
pub open spec fn id_step(x: usize) -> usize {
    if x == usize::MAX {
        0
    } else {
        (x + 1) as usize
    }
}

/// What a counter that starts at `start` holds after `k` numbers were handed out, the
/// `k`-th number (from 0) that it hands out.
pub open spec fn id_after(start: usize, k: nat) -> usize
    decreases k,
{
    if k == 0 {
        start
    } else {
        id_step(id_after(start, (k - 1) as nat))
    }
}

/// A counter hands out its numbers one after the other, from its start up, as long as
/// it does not reach the top: no number is handed out twice and each is larger than
/// the ones before.
pub proof fn lemma_ids_count_up(start: usize, j: nat, k: nat)
    requires
        j < k,
        start + k <= usize::MAX,
    ensures
        id_after(start, k) == start + k,
        id_after(start, j) < id_after(start, k),
    decreases k,
{
    if j + 1 < k {
        lemma_ids_count_up(start, j, (k - 1) as nat);
    } else {
        lemma_id_after(start, j);
    }
    lemma_id_after(start, k);
}

proof fn lemma_id_after(start: usize, k: nat)
    requires
        start + k <= usize::MAX,
    ensures
        id_after(start, k) == start + k,
    decreases k,
{
    if k > 0 {
        lemma_id_after(start, (k - 1) as nat);
    }
}

/// Statistics of one address space, in pages of `0x1000` bytes (the higher half
/// excluded).
#[derive(Debug)]
pub struct MemoryInfo {
    /// virtual memory, including memory that is not mapped yet
    pub virt_pages: usize,
    /// physical memory that is mapped
    pub phys_pages: usize,
    pub id: usize,
}

impl MemoryInfo {
    /// The counter of address space identifiers, which starts at 0.
    pub fn counter() -> (r: IdCounter)
        ensures
            r.peek() == 0,
    {
        IdCounter::new(0)
    }

    /// No pages, with the next identifier of `ids`.
    pub fn zero(ids: &mut IdCounter) -> (r: Self)
        ensures
            r.virt_pages == 0,
            r.phys_pages == 0,
            r.id == old(ids).peek(),
            final(ids).peek() == if old(ids).peek() == usize::MAX {
                0
            } else {
                old(ids).peek() + 1
            },
    {
        Self::symmetric(0, ids)
    }

    /// `n` virtual and `n` physical pages, with the next identifier of `ids`.
    pub fn symmetric(n: usize, ids: &mut IdCounter) -> (r: Self)
        ensures
            r.virt_pages == n,
            r.phys_pages == n,
            r.id == old(ids).peek(),
            final(ids).peek() == if old(ids).peek() == usize::MAX {
                0
            } else {
                old(ids).peek() + 1
            },
    {
        let id = ids.next();
        Self { virt_pages: n, phys_pages: n, id }
    }

    pub fn add_virt(&mut self, n_pages: usize)
        ensures
            final(self).virt_pages == (old(self).virt_pages + n_pages) % (usize::MAX + 1),
            final(self).phys_pages == old(self).phys_pages,
            final(self).id == old(self).id,
    {
        self.virt_pages = self.virt_pages.wrapping_add(n_pages);
        proof {
            lemma_wrapping_add_mod(old(self).virt_pages, n_pages);
        }
    }

    pub fn add_phys(&mut self, n_pages: usize)
        ensures
            final(self).phys_pages == (old(self).phys_pages + n_pages) % (usize::MAX + 1),
            final(self).virt_pages == old(self).virt_pages,
            final(self).id == old(self).id,
    {
        self.phys_pages = self.phys_pages.wrapping_add(n_pages);
        proof {
            lemma_wrapping_add_mod(old(self).phys_pages, n_pages);
        }
    }

    /// Panics when no virtual pages are counted.
    pub fn sub_virt(&mut self, n_pages: usize)
        requires
            old(self).virt_pages != 0,
        ensures
            final(self).virt_pages == (old(self).virt_pages - n_pages) % (usize::MAX + 1),
            final(self).phys_pages == old(self).phys_pages,
            final(self).id == old(self).id,
    {
        self.virt_pages = self.virt_pages.wrapping_sub(n_pages);
        proof {
            lemma_wrapping_sub_mod(old(self).virt_pages, n_pages);
        }
    }

    /// Panics when no physical pages are counted.
    pub fn sub_phys(&mut self, n_pages: usize)
        requires
            old(self).phys_pages != 0,
        ensures
            final(self).phys_pages == (old(self).phys_pages - n_pages) % (usize::MAX + 1),
            final(self).virt_pages == old(self).virt_pages,
            final(self).id == old(self).id,
    {
        self.phys_pages = self.phys_pages.wrapping_sub(n_pages);
        proof {
            lemma_wrapping_sub_mod(old(self).phys_pages, n_pages);
        }
    }

    /// Virtual memory in bytes.
    pub fn virt_size(&self) -> (r: usize)
        requires
            self.virt_pages * 0x1000 <= usize::MAX,
        ensures
            r == self.virt_pages * 0x1000,
    {
        self.virt_pages * 0x1000
    }

    /// Physical memory in bytes.
    pub fn phys_size(&self) -> (r: usize)
        requires
            self.phys_pages * 0x1000 <= usize::MAX,
        ensures
            r == self.phys_pages * 0x1000,
    {
        self.phys_pages * 0x1000
    }
}

proof fn lemma_wrapping_add_mod(x: usize, y: usize)
    ensures
        vstd::wrapping::usize_specs::wrapping_add(x, y) == (x + y) % (usize::MAX + 1),
{
    let m = usize::MAX + 1;
    if x + y <= usize::MAX {
        vstd::arithmetic::div_mod::lemma_small_mod((x + y) as nat, m as nat);
    } else {
        vstd::arithmetic::div_mod::lemma_mod_sub_multiples_vanish(x + y, m);
        vstd::arithmetic::div_mod::lemma_small_mod((x + y - m) as nat, m as nat);
    }
}

proof fn lemma_wrapping_sub_mod(x: usize, y: usize)
    ensures
        vstd::wrapping::usize_specs::wrapping_sub(x, y) == (x - y) % (usize::MAX + 1),
{
    let m = usize::MAX + 1;
    if x >= y {
        vstd::arithmetic::div_mod::lemma_small_mod((x - y) as nat, m as nat);
    } else {
        vstd::arithmetic::div_mod::lemma_mod_add_multiples_vanish(x - y, m);
        vstd::arithmetic::div_mod::lemma_small_mod((x - y + m) as nat, m as nat);
    }
}

/// Is `x` a power of two?
pub open spec fn is_power_of_two(x: u64) -> bool {
    x != 0 && x & ((x - 1) as u64) == 0
}

/// `x86_64::PhysAddr::is_aligned`: whether a physical address is a multiple of
/// `align`. The crate panics on an address with bits 52..64 set and on an alignment
/// that is not a power of two; for the others it compares the address with the
/// address rounded down, which is the claim stated here.
#[verifier::external_body]
fn x86_phys_is_aligned(addr: u64, align: u64) -> (r: bool)
    requires
        addr < 0x10_0000_0000_0000,
        is_power_of_two(align),
    ensures
        r == (addr % align == 0),
{
    x86_64::PhysAddr::new(addr).is_aligned(align)
}

/// `x86_64::PhysAddr += u64`: the sum of a physical address and a byte count. The
/// crate panics on an overflow and on a sum with bits 52..64 set; otherwise the sum
/// is the claimed result.
#[verifier::external_body]
fn x86_phys_add(addr: u64, by: u64) -> (r: u64)
    requires
        addr < 0x10_0000_0000_0000,
        addr + by < 0x10_0000_0000_0000,
    ensures
        r == addr + by,
{
    let mut a = x86_64::PhysAddr::new(addr);
    a += by;
    a.as_u64()
}

/// What a range of virtual memory is mapped to.
#[derive(Debug, Clone, Copy)]
pub enum MapTarget {
    /// pages are mapped immediately but the VMM is not allowed to free them
    Borrowed(u64),
    /// pages are mapped immediately and the VMM is allowed to free them
    Preallocated(u64),
    /// pages are allocated and mapped lazily
    LazyAlloc,
    /// pages are set to guard mode
    NeverMap,
}

impl MapTarget {
    /// The physical address that the target holds, if any.
    pub open spec fn phys(self) -> Option<u64> {
        match self {
            MapTarget::Borrowed(a) => Some(a),
            MapTarget::Preallocated(a) => Some(a),
            _ => None,
        }
    }

    /// Move the physical address of the target `by` bytes further. Panics when the sum
    /// leaves the physical address space.
    pub fn inc_addr(&mut self, by: u64)
        requires
            old(self).phys() matches Some(a) ==> a + by < 0x10_0000_0000_0000,
        ensures
            match *old(self) {
                MapTarget::Borrowed(a) => *final(self) == MapTarget::Borrowed((a + by) as u64),
                MapTarget::Preallocated(a) => *final(self) == MapTarget::Preallocated((a + by) as u64),
                other => *final(self) == other,
            },
    {
        match self {
            MapTarget::Borrowed(a) => {
                *a = x86_phys_add(*a, by);
            },
            MapTarget::Preallocated(a) => {
                *a = x86_phys_add(*a, by);
            },
            MapTarget::LazyAlloc => {},
            MapTarget::NeverMap => {},
        }
    }

    /// Is the physical address of the target a multiple of `to`? Targets without one
    /// always are. Panics when `to` is not a power of two.
    pub fn is_aligned(&self, to: u64) -> (r: bool)
        requires
            self.phys() matches Some(a) ==> a < 0x10_0000_0000_0000 && is_power_of_two(to),
        ensures
            r == match self.phys() {
                Some(a) => a % to == 0,
                None => true,
            },
    {
        match self {
            MapTarget::Borrowed(a) => x86_phys_is_aligned(*a, to),
            MapTarget::Preallocated(a) => x86_phys_is_aligned(*a, to),
            MapTarget::LazyAlloc => true,
            MapTarget::NeverMap => true,
        }
    }
}

} // verus!
