//! Physical and virtual addresses of an Sv48 system.

use vstd::prelude::*;

verus! {

/// Size of a base page.
pub const PAGE_SIZE: u64 = 0x1000;

/// First address past the 52-bit physical address space.
pub const PHYS_LIMIT: u64 = 0x10_0000_0000_0000;

/// Start of the higher half direct mapping of physical memory.
pub const HHDM: u64 = 0xFFFF_8000_0000_0000;

/// Start of the kernel image mapping.
pub const KERNEL: u64 = 0xFFFF_FFFF_8000_0000;

/// Mask of the byte offset inside a 4KiB page.
pub const OFFSET_MASK: u64 = 0xFFF;

/// Mask of one 9-bit page table index.
pub const INDEX_MASK: u64 = 0x1FF;

// ---------------------------------------------------------------------------
// alignment helpers

pub open spec fn spec_align_down(x: int, align: int) -> int {
    x - x % align
}

pub open spec fn spec_align_up(x: int, align: int) -> int {
    if x % align == 0 {
        x
    } else {
        x - x % align + align
    }
}

pub proof fn lemma_align_down_props(x: int, align: int)
    requires
        x >= 0,
        align > 0,
    ensures
        0 <= spec_align_down(x, align) <= x,
        spec_align_down(x, align) % align == 0,
        x - spec_align_down(x, align) < align,
{
    vstd::arithmetic::div_mod::lemma_fundamental_div_mod(x, align);
    vstd::arithmetic::div_mod::lemma_mod_bound(x, align);
    vstd::arithmetic::div_mod::lemma_mod_multiples_basic(x / align, align);
    vstd::arithmetic::mul::lemma_mul_is_commutative(x / align, align);
}

pub proof fn lemma_align_up_props(x: int, align: int)
    requires
        x >= 0,
        align > 0,
    ensures
        spec_align_up(x, align) >= x,
        spec_align_up(x, align) % align == 0,
        spec_align_up(x, align) - x < align,
{
    lemma_align_down_props(x, align);
    if x % align != 0 {
        let d = spec_align_down(x, align);
        vstd::arithmetic::div_mod::lemma_mod_add_multiples_vanish(d, align);
        vstd::arithmetic::div_mod::lemma_mod_self_0(align);
        vstd::arithmetic::div_mod::lemma_add_mod_noop(d, align, align);
    }
}

/// Round `value` down to a multiple of `align`.
pub fn align_down(value: u64, align: u64) -> (r: u64)
    requires
        align > 0,
    ensures
        r == spec_align_down(value as int, align as int),
        r <= value,
        r % align == 0,
        value - r < align,
{
    proof {
        lemma_align_down_props(value as int, align as int);
    }
    value - value % align
}

/// Round `value` up to a multiple of `align`.
pub fn align_up(value: u64, align: u64) -> (r: u64)
    requires
        align > 0,
        spec_align_up(value as int, align as int) <= u64::MAX,
    ensures
        r == spec_align_up(value as int, align as int),
        r >= value,
        r % align == 0,
        r - value < align,
{
    proof {
        lemma_align_up_props(value as int, align as int);
    }
    let rem = value % align;
    if rem == 0 {
        value
    } else {
        proof {
            lemma_align_down_props(value as int, align as int);
            assert(value - rem + align == spec_align_up(value as int, align as int));
        }
        value - rem + align
    }
}

/// Is `value` a multiple of `align`?
pub fn is_aligned(value: u64, align: u64) -> (r: bool)
    requires
        align > 0,
    ensures
        r == (value % align == 0),
{
    value % align == 0
}

// ---------------------------------------------------------------------------
// address spaces

/// An address is a valid physical address when it fits in 52 bits.
pub open spec fn is_phys_canonical(addr: u64) -> bool {
    addr < PHYS_LIMIT
}

/// The 48-bit virtual address `addr`, with bit 47 copied into bits 48..64.
pub open spec fn virt_sign_extend(addr: u64) -> u64 {
    let low = addr % 0x1_0000_0000_0000;
    if low >= 0x8000_0000_0000 {
        (low + 0xFFFF_0000_0000_0000) as u64
    } else {
        low as u64
    }
}

/// An address is a valid virtual address when bits 48..64 copy bit 47.
pub open spec fn is_virt_canonical(addr: u64) -> bool {
    addr < 0x8000_0000_0000 || addr >= HHDM
}

pub proof fn lemma_virt_canonical(addr: u64)
    ensures
        is_virt_canonical(addr) <==> virt_sign_extend(addr) == addr,
        is_virt_canonical(virt_sign_extend(addr)),
{
}

/// Error of a checked address constructor.
#[derive(Debug)]
pub struct InvalidAddress;

/// A physical memory address.
#[derive(Clone, Copy, PartialEq, Eq, PartialOrd, Ord)]
pub struct PhysAddr(u64);

impl View for PhysAddr {
    type V = u64;

    closed spec fn view(&self) -> u64 {
        self.0
    }
}

impl PhysAddr {
    pub closed spec fn wf(self) -> bool {
        is_phys_canonical(self.0)
    }

    pub proof fn lemma_wf(self)
        ensures
            self.wf() <==> is_phys_canonical(self@),
    {
    }

    /// A valid physical address; panics on an address wider than 52 bits.
    pub fn new(addr: u64) -> (r: Self)
        requires
            is_phys_canonical(addr),
        ensures
            r@ == addr,
            r.wf(),
    {
        PhysAddr(addr)
    }

    /// The address if it fits in 52 bits.
    pub fn try_from(addr: u64) -> (r: Result<Self, InvalidAddress>)
        ensures
            r is Ok <==> is_phys_canonical(addr),
            r matches Ok(a) ==> a@ == addr && a.wf(),
    {
        if Self::new_truncate(addr).0 == addr {
            Ok(PhysAddr(addr))
        } else {
            Err(InvalidAddress)
        }
    }

    /// The low 52 bits of `addr`.
    pub fn new_truncate(addr: u64) -> (r: Self)
        ensures
            r@ == addr % PHYS_LIMIT,
            r.wf(),
    {
        let r = addr & 0xF_FFFF_FFFF_FFFF;
        assert(addr & 0xF_FFFF_FFFF_FFFF == addr % 0x10_0000_0000_0000) by (bit_vector);
        PhysAddr(r)
    }

    /// The physical address that the direct mapping address `v` stands for, computed
    /// as `v` plus the direct mapping offset. For every direct mapping address that sum
    /// overflows or lands at 2^52 or above, which is no physical address, and any other
    /// `v` is refused: every call panics, so no input meets `requires`, and nothing in
    /// the system calls it.
    pub fn from_hhdm(v: VirtAddr) -> (r: PhysAddr)
        requires
            HHDM <= v@ < KERNEL,
            v@ + HHDM < PHYS_LIMIT,
        ensures
            r@ == v@ + HHDM,
    {
        if HHDM <= v.0 && v.0 < KERNEL {
            PhysAddr::new(v.0 + HHDM)
        } else {
            PhysAddr::new(0)
        }
    }

    /// The direct mapping address of this physical address.
    pub fn to_hhdm(self) -> (r: VirtAddr)
        requires
            self@ < 0x8000_0000_0000,
        ensures
            r@ == self@ + HHDM,
    {
        VirtAddr::new(self.0 + HHDM)
    }

    pub fn abs_diff(self, other: Self) -> (r: u64)
        ensures
            r == if self@ >= other@ { self@ - other@ } else { other@ - self@ },
    {
        if self.0 >= other.0 {
            self.0 - other.0
        } else {
            other.0 - self.0
        }
    }

    /// Align up to a 4KiB page.
    pub fn align_up(self) -> (r: Self)
        requires
            spec_align_up(self@ as int, PAGE_SIZE as int) < PHYS_LIMIT,
        ensures
            r@ == spec_align_up(self@ as int, PAGE_SIZE as int),
    {
        self.align_up_to(PAGE_SIZE)
    }

    /// Align down to a 4KiB page.
    pub fn align_down(self) -> (r: Self)
        requires
            self.wf(),
        ensures
            r@ == spec_align_down(self@ as int, PAGE_SIZE as int),
            r.wf(),
    {
        self.align_down_to(PAGE_SIZE)
    }

    /// Is this address aligned to a 4KiB page?
    pub fn is_aligned(self) -> (r: bool)
        ensures
            r == (self@ % PAGE_SIZE == 0),
    {
        self.is_aligned_to(PAGE_SIZE)
    }

    pub fn align_up_to(self, align: u64) -> (r: Self)
        requires
            align > 0,
            spec_align_up(self@ as int, align as int) < PHYS_LIMIT,
        ensures
            r@ == spec_align_up(self@ as int, align as int),
            r.wf(),
    {
        Self::new(align_up(self.0, align))
    }

    pub fn align_down_to(self, align: u64) -> (r: Self)
        requires
            align > 0,
            self.wf(),
        ensures
            r@ == spec_align_down(self@ as int, align as int),
            r.wf(),
    {
        proof {
            lemma_align_down_props(self.0 as int, align as int);
        }
        Self::new(align_down(self.0, align))
    }

    pub fn is_aligned_to(self, align: u64) -> (r: bool)
        requires
            align > 0,
        ensures
            r == (self@ % align == 0),
    {
        is_aligned(self.0, align)
    }

    pub fn null() -> (r: Self)
        ensures
            r@ == 0,
            r.wf(),
    {
        Self::new_truncate(0)
    }

    pub fn as_u64(self) -> (r: u64)
        ensures
            r == self@,
    {
        self.0
    }

    /// The address as a `usize` (the low bits on a target narrower than 64 bits).
    pub fn as_usize(self) -> (r: usize)
        ensures
            r == self@ as usize,
    {
        self.0 as usize
    }

    /// `self + rhs`; panics on overflow or when the sum leaves the physical address space.
    pub fn add_addr(self, rhs: Self) -> (r: Self)
        requires
            self@ + rhs@ < PHYS_LIMIT,
        ensures
            r@ == self@ + rhs@,
    {
        Self::new(self.0 + rhs.0)
    }

    /// `self + rhs` bytes; panics on overflow or when the sum leaves the physical address space.
    pub fn add_u64(self, rhs: u64) -> (r: Self)
        requires
            self@ + rhs < PHYS_LIMIT,
        ensures
            r@ == self@ + rhs,
    {
        Self::new(self.0 + rhs)
    }
}

/// An Sv48 virtual memory address.
///
/// - `48..=63` : copies of bit 47
/// - `39..=47` : level-3 index
/// - `30..=38` : level-2 index
/// - `21..=29` : level-1 index
/// - `12..=20` : level-0 index
/// - ` 0..=11` : byte offset
#[derive(Clone, Copy, PartialEq, Eq, PartialOrd, Ord)]
pub struct VirtAddr(u64);

impl View for VirtAddr {
    type V = u64;

    closed spec fn view(&self) -> u64 {
        self.0
    }
}

/// The page table index of `addr` at `level` (0 is the root table).
pub open spec fn spec_table_index(addr: u64, level: int) -> int {
    (addr as int / vstd::arithmetic::power2::pow2((39 - 9 * level) as nat) as int) % 512
}

impl VirtAddr {
    pub closed spec fn wf(self) -> bool {
        is_virt_canonical(self.0)
    }

    pub proof fn lemma_wf(self)
        ensures
            self.wf() <==> is_virt_canonical(self@),
    {
    }

    /// A valid virtual address; panics on a non-canonical address.
    pub fn new(addr: u64) -> (r: Self)
        requires
            is_virt_canonical(addr),
        ensures
            r@ == addr,
            r.wf(),
    {
        VirtAddr(addr)
    }

    /// The address if it is canonical.
    pub fn try_from(addr: u64) -> (r: Result<Self, InvalidAddress>)
        ensures
            r is Ok <==> is_virt_canonical(addr),
            r matches Ok(a) ==> a@ == addr && a.wf(),
    {
        if Self::new_truncate(addr).0 == addr {
            Ok(VirtAddr(addr))
        } else {
            Err(InvalidAddress)
        }
    }

    /// Sign extend bit 47 of `addr` into bits 48..64.
    pub fn new_truncate(addr: u64) -> (r: Self)
        ensures
            r@ == virt_sign_extend(addr),
            r.wf(),
    {
        let low = addr & 0xFFFF_FFFF_FFFF;
        assert(addr & 0xFFFF_FFFF_FFFF == addr % 0x1_0000_0000_0000) by (bit_vector);
        assert(low < 0x1_0000_0000_0000) by (bit_vector)
            requires
                low == addr & 0xFFFF_FFFF_FFFF,
        ;
        if low & 0x8000_0000_0000 != 0 {
            assert(low >= 0x8000_0000_0000) by (bit_vector)
                requires
                    low & 0x8000_0000_0000 != 0,
            ;
            assert(low | 0xFFFF_0000_0000_0000 == low + 0xFFFF_0000_0000_0000) by (bit_vector)
                requires
                    low < 0x1_0000_0000_0000,
            ;
            VirtAddr(low | 0xFFFF_0000_0000_0000)
        } else {
            assert(low < 0x8000_0000_0000) by (bit_vector)
                requires
                    low & 0x8000_0000_0000 == 0,
                    low < 0x1_0000_0000_0000,
            ;
            VirtAddr(low)
        }
    }

    pub fn abs_diff(self, other: Self) -> (r: u64)
        ensures
            r == if self@ >= other@ { self@ - other@ } else { other@ - self@ },
    {
        if self.0 >= other.0 {
            self.0 - other.0
        } else {
            other.0 - self.0
        }
    }

    /// Align up to a 4KiB page.
    pub fn align_up(self) -> (r: Self)
        requires
            spec_align_up(self@ as int, PAGE_SIZE as int) <= u64::MAX,
            is_virt_canonical(spec_align_up(self@ as int, PAGE_SIZE as int) as u64),
        ensures
            r@ == spec_align_up(self@ as int, PAGE_SIZE as int),
    {
        self.align_up_to(PAGE_SIZE)
    }

    /// Align down to a 4KiB page.
    pub fn align_down(self) -> (r: Self)
        requires
            self.wf(),
        ensures
            r@ == spec_align_down(self@ as int, PAGE_SIZE as int),
            r.wf(),
    {
        proof {
            lemma_page_align_down_canonical(self.0);
        }
        self.align_down_to(PAGE_SIZE)
    }

    /// Is this address aligned to a 4KiB page?
    pub fn is_aligned(self) -> (r: bool)
        ensures
            r == (self@ % PAGE_SIZE == 0),
    {
        self.is_aligned_to(PAGE_SIZE)
    }

    pub fn align_up_to(self, align: u64) -> (r: Self)
        requires
            align > 0,
            spec_align_up(self@ as int, align as int) <= u64::MAX,
            is_virt_canonical(spec_align_up(self@ as int, align as int) as u64),
        ensures
            r@ == spec_align_up(self@ as int, align as int),
    {
        Self::new(align_up(self.0, align))
    }

    pub fn align_down_to(self, align: u64) -> (r: Self)
        requires
            align > 0,
            is_virt_canonical(spec_align_down(self@ as int, align as int) as u64),
        ensures
            r@ == spec_align_down(self@ as int, align as int),
            r.wf(),
    {
        proof {
            lemma_align_down_props(self.0 as int, align as int);
        }
        Self::new(align_down(self.0, align))
    }

    pub fn is_aligned_to(self, align: u64) -> (r: bool)
        requires
            align > 0,
        ensures
            r == (self@ % align == 0),
    {
        is_aligned(self.0, align)
    }

    pub fn null() -> (r: Self)
        ensures
            r@ == 0,
            r.wf(),
    {
        Self::new_truncate(0)
    }

    pub fn as_u64(self) -> (r: u64)
        ensures
            r == self@,
    {
        self.0
    }

    /// The address as a `usize` (the low bits on a target narrower than 64 bits).
    pub fn as_usize(self) -> (r: usize)
        ensures
            r == self@ as usize,
    {
        self.0 as usize
    }

    /// The byte offset inside the 4KiB page.
    pub fn offset(self) -> (r: u64)
        ensures
            r == self@ % PAGE_SIZE,
    {
        let a = self.0;
        assert(a & 0xFFF == a % 0x1000) by (bit_vector);
        a & OFFSET_MASK
    }

    /// The four page table indices, root table first.
    pub fn table_indices(self) -> (r: [usize; 4])
        ensures
            r@.len() == 4,
            forall|level: int| 0 <= level < 4 ==> #[trigger] r@[level] as int == spec_table_index(self@, level),
            forall|level: int| 0 <= level < 4 ==> #[trigger] r@[level] < 512,
    {
        let a = self.0;
        let m = INDEX_MASK;
        let r = [
            ((a >> 39) & m) as usize,
            ((a >> 30) & m) as usize,
            ((a >> 21) & m) as usize,
            ((a >> 12) & m) as usize,
        ];
        proof {
            lemma_table_index_bits(a);
        }
        r
    }

    /// `self + rhs`; panics on overflow or on a non-canonical sum.
    pub fn add_addr(self, rhs: Self) -> (r: Self)
        requires
            self@ + rhs@ <= u64::MAX,
            is_virt_canonical((self@ + rhs@) as u64),
        ensures
            r@ == self@ + rhs@,
    {
        Self::new(self.0 + rhs.0)
    }

    /// `self + rhs` bytes; panics on overflow or on a non-canonical sum.
    pub fn add_u64(self, rhs: u64) -> (r: Self)
        requires
            self@ + rhs <= u64::MAX,
            is_virt_canonical((self@ + rhs) as u64),
        ensures
            r@ == self@ + rhs,
    {
        Self::new(self.0 + rhs)
    }
}

proof fn lemma_page_align_down_canonical(x: u64)
    requires
        is_virt_canonical(x),
    ensures
        is_virt_canonical((x - x % PAGE_SIZE) as u64),
{
    lemma_align_down_props(x as int, 0x1000);
    if x >= HHDM {
        assert((x - HHDM) as int % 0x1000 == x as int % 0x1000) by {
            vstd::arithmetic::div_mod::lemma_mod_sub_multiples_vanish(x as int, 0x1000);
            assert(HHDM as int == 0x1000 * 0xF_FFF8_0000_0000);
            vstd::arithmetic::div_mod::lemma_mod_multiples_vanish(0xF_FFF8_0000_0000, (x - HHDM) as int, 0x1000);
        }
        vstd::arithmetic::div_mod::lemma_mod_bound((x - HHDM) as int, 0x1000);
        assert((x - HHDM) as int % 0x1000 <= (x - HHDM) as int) by {
            vstd::arithmetic::div_mod::lemma_mod_decreases((x - HHDM) as nat, 0x1000);
        }
    }
}

/// A table index is one of the 512 entries of a table.
pub proof fn lemma_table_index_range(a: u64, level: int)
    ensures
        0 <= spec_table_index(a, level) < 512,
{
    vstd::arithmetic::div_mod::lemma_mod_bound(
        a as int / vstd::arithmetic::power2::pow2((39 - 9 * level) as nat) as int,
        512,
    );
}

pub proof fn lemma_table_index_bits(a: u64)
    ensures
        (a >> 39) & 0x1FF == spec_table_index(a, 0),
        (a >> 30) & 0x1FF == spec_table_index(a, 1),
        (a >> 21) & 0x1FF == spec_table_index(a, 2),
        (a >> 12) & 0x1FF == spec_table_index(a, 3),
        (a >> 39) & 0x1FF < 512,
        (a >> 30) & 0x1FF < 512,
        (a >> 21) & 0x1FF < 512,
        (a >> 12) & 0x1FF < 512,
{
    vstd::arithmetic::power2::lemma2_to64();
    vstd::arithmetic::power2::lemma2_to64_rest();
    assert((a >> 39) & 0x1FF < 512 && (a >> 30) & 0x1FF < 512 && (a >> 21) & 0x1FF < 512 && (a >> 12) & 0x1FF
        < 512 && (a >> 39) & 0x1FF == (a / 0x80_0000_0000) % 512 && (a >> 30) & 0x1FF == (a / 0x4000_0000) % 512
        && (a >> 21) & 0x1FF == (a / 0x20_0000) % 512 && (a >> 12) & 0x1FF == (a / 0x1000) % 512) by (bit_vector);
}

} // verus!
