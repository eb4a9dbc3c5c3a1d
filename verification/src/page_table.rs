//! Sv48 page tables: entries, flags, and walks over the tables of a page table memory.

use vstd::prelude::*;

use crate::addr::{PhysAddr, VirtAddr, HHDM, PHYS_LIMIT, spec_table_index};

verus! {

/// Bits of the page flags that name a flag.
pub const FLAG_BITS: u16 = 0xFF;

pub const FLAG_VALID: u16 = 1;
pub const FLAG_R: u16 = 2;
pub const FLAG_W: u16 = 4;
pub const FLAG_X: u16 = 8;
pub const FLAG_USER: u16 = 0x10;
pub const FLAG_GLOBAL: u16 = 0x20;
pub const FLAG_ACCESSED: u16 = 0x40;
pub const FLAG_DIRTY: u16 = 0x80;
pub const FLAG_RW: u16 = 6;
pub const FLAG_RX: u16 = 0xA;
pub const FLAG_WX: u16 = 0xC;
pub const FLAG_RWX: u16 = 0xE;

/// The flags of a page table entry.
#[derive(Debug, Clone, Copy)]
pub struct PageFlags(u16);

impl View for PageFlags {
    type V = u16;

    closed spec fn view(&self) -> u16 {
        self.0
    }
}

impl PageFlags {
    pub closed spec fn wf(self) -> bool {
        self.0 & !FLAG_BITS == 0
    }

    pub proof fn lemma_wf(self)
        requires
            self.wf(),
        ensures
            self@ <= FLAG_BITS,
            self@ & FLAG_BITS == self@,
    {
        let b = self.0;
        assert(b & !0xFFu16 == 0 ==> b <= 0xFF && b & 0xFF == b) by (bit_vector);
    }

    /// Flags that name only defined flags are well formed.
    pub proof fn lemma_wf_small(self)
        requires
            self@ <= FLAG_BITS,
        ensures
            self.wf(),
    {
        let b = self.0;
        assert(b <= 0xFFu16 ==> b & !0xFFu16 == 0) by (bit_vector);
    }

    /// No flag set.
    pub fn empty() -> (r: Self)
        ensures
            r@ == 0,
            r.wf(),
    {
        assert(0u16 & !0xFFu16 == 0) by (bit_vector);
        PageFlags(0)
    }

    /// The flags named in `bits`; other bits are dropped.
    pub fn from_bits_truncate(bits: u16) -> (r: Self)
        ensures
            r@ == bits & FLAG_BITS,
            r.wf(),
    {
        assert((bits & 0xFF) & !0xFFu16 == 0) by (bit_vector);
        PageFlags(bits & FLAG_BITS)
    }

    pub fn bits(self) -> (r: u16)
        ensures
            r == self@,
    {
        self.0
    }

    pub fn contains(self, other: Self) -> (r: bool)
        ensures
            r == (self@ & other@ == other@),
    {
        self.0 & other.0 == other.0
    }

    pub fn intersection(self, other: Self) -> (r: Self)
        requires
            self.wf(),
        ensures
            r@ == self@ & other@,
            r.wf(),
    {
        let a = self.0;
        let b = other.0;
        assert(a & !0xFFu16 == 0 ==> (a & b) & !0xFFu16 == 0) by (bit_vector);
        PageFlags(a & b)
    }

    pub fn union(self, other: Self) -> (r: Self)
        requires
            self.wf(),
            other.wf(),
        ensures
            r@ == self@ | other@,
            r.wf(),
    {
        let a = self.0;
        let b = other.0;
        assert(a & !0xFFu16 == 0 && b & !0xFFu16 == 0 ==> (a | b) & !0xFFu16 == 0) by (bit_vector);
        PageFlags(a | b)
    }

    pub fn is_empty(self) -> (r: bool)
        ensures
            r == (self@ == 0),
    {
        self.0 == 0
    }

    /// A table pointer: none of read, write and execute is set.
    pub fn is_branch(self) -> (r: bool)
        ensures
            r == (self@ & FLAG_RWX == 0),
    {
        self.0 & FLAG_RWX == 0
    }

    /// A mapping of memory: one of read, write and execute is set.
    pub fn is_leaf(self) -> (r: bool)
        ensures
            r == (self@ & FLAG_RWX != 0),
    {
        !self.is_branch()
    }
}

/// Level of a page table, from the root table (`Lvl0`) to the 4KiB page tables (`Lvl3`).
#[derive(Debug, Clone, Copy, PartialEq, Eq, Structural)]
pub enum Depth {
    Lvl0,
    Lvl1,
    Lvl2,
    Lvl3,
}

impl Depth {
    pub open spec fn spec_level(self) -> usize {
        match self {
            Depth::Lvl0 => 0,
            Depth::Lvl1 => 1,
            Depth::Lvl2 => 2,
            Depth::Lvl3 => 3,
        }
    }

    #[verifier::when_used_as_spec(spec_level)]
    pub fn level(self) -> (r: usize)
        ensures
            r == self.spec_level(),
    {
        match self {
            Depth::Lvl0 => 0,
            Depth::Lvl1 => 1,
            Depth::Lvl2 => 2,
            Depth::Lvl3 => 3,
        }
    }
}

/// The value of an entry mapping `addr` with `flags`.
pub open spec fn spec_entry(addr: u64, flags: u16) -> u64 {
    ((addr >> 12u64) << 10u64) | (flags as u64)
}

/// The physical address that entry value `e` points to.
pub open spec fn spec_entry_addr(e: u64) -> u64 {
    (((e >> 10u64) & 0xFFF_FFFF_FFFFu64) << 12u64) & 0xF_FFFF_FFFF_FFFFu64
}

/// The flags of entry value `e`.
pub open spec fn spec_entry_flags(e: u64) -> u16 {
    ((e & 0x3FFu64) as u16) & FLAG_BITS
}

/// One entry of a page table.
#[derive(Debug, Clone, Copy)]
pub struct PageTableEntry(u64);

impl View for PageTableEntry {
    type V = u64;

    closed spec fn view(&self) -> u64 {
        self.0
    }
}

impl PageTableEntry {
    pub open spec fn spec_addr(self) -> u64 {
        spec_entry_addr(self@)
    }

    pub open spec fn spec_flags(self) -> u16 {
        spec_entry_flags(self@)
    }

    pub open spec fn is_valid(self) -> bool {
        self.spec_flags() & FLAG_VALID == FLAG_VALID
    }

    pub open spec fn is_leaf_entry(self) -> bool {
        self.spec_flags() & FLAG_RWX != 0
    }

    pub fn empty() -> (r: Self)
        ensures
            r@ == 0,
            r.spec_flags() == 0,
            !r.is_valid(),
    {
        assert(((0u64 & 0x3FFu64) as u16) & 0xFFu16 == 0 && 0u16 & 1u16 == 0) by (bit_vector);
        PageTableEntry(0)
    }

    /// An entry pointing to the page of `a`, with flags `f`.
    pub fn new(a: PhysAddr, f: PageFlags) -> (r: Self)
        ensures
            r@ == spec_entry(a@, f@),
    {
        PageTableEntry(((a.as_u64() >> 12) << 10) | (f.bits() as u64))
    }

    /// Point this entry to the page of `a`, keeping its flags.
    pub fn set_addr(&mut self, a: PhysAddr)
        ensures
            final(self)@ == spec_entry(a@, old(self).spec_flags()),
            a.wf() ==> final(self).spec_addr() == a@ - a@ % 0x1000,
            final(self).spec_flags() == old(self).spec_flags(),
    {
        let f = self.flags();
        proof {
            f.lemma_wf();
            lemma_entry_roundtrip(a@, f@);
            a.lemma_wf();
        }
        *self = Self::new(a, f);
    }

    /// Replace the flags of this entry, keeping the address it points to.
    pub fn set_flags(&mut self, f: PageFlags)
        requires
            f.wf(),
        ensures
            final(self).spec_addr() == old(self).spec_addr(),
            final(self).spec_flags() == f@,
    {
        let a = self.addr();
        proof {
            f.lemma_wf();
            lemma_entry_roundtrip(a@, f@);
            lemma_entry_addr_aligned(self.0);
        }
        *self = Self::new(a, f);
    }

    pub fn addr(self) -> (r: PhysAddr)
        ensures
            r@ == self.spec_addr(),
            r.wf(),
    {
        let e = self.0;
        assert((((e >> 10u64) & 0xFFF_FFFF_FFFFu64) << 12u64) & 0xF_FFFF_FFFF_FFFFu64 == (((e
            >> 10u64) & 0xFFF_FFFF_FFFFu64) << 12u64) % 0x10_0000_0000_0000) by (bit_vector);
        PhysAddr::new_truncate(((self.0 >> 10) & 0xFFF_FFFF_FFFF) << 12)
    }

    pub fn flags(self) -> (r: PageFlags)
        ensures
            r@ == self.spec_flags(),
            r.wf(),
    {
        PageFlags::from_bits_truncate((self.0 & 0x3FF) as u16)
    }
}

/// Reading back an entry gives the page of the address and the flags it was made with.
pub proof fn lemma_entry_roundtrip(addr: u64, flags: u16)
    requires
        flags <= FLAG_BITS,
    ensures
        addr < PHYS_LIMIT ==> spec_entry_addr(spec_entry(addr, flags)) == addr - addr % 0x1000,
        spec_entry_flags(spec_entry(addr, flags)) == flags & FLAG_BITS,
{
    assert((flags <= 0xFFu16 && addr < 0x10_0000_0000_0000 ==> ((((((addr >> 12u64) << 10u64) | (
    flags as u64)) >> 10u64) & 0xFFF_FFFF_FFFFu64) << 12u64) & 0xF_FFFF_FFFF_FFFFu64 == addr - addr
        % 0x1000) && (((((addr >> 12u64) << 10u64) | (flags as u64)) & 0x3FFu64) as u16) & 0xFFu16 == flags
        & 0xFFu16) by (bit_vector);
}

/// The address of an entry is page aligned and inside the physical address space.
pub proof fn lemma_entry_addr_aligned(e: u64)
    ensures
        spec_entry_addr(e) < PHYS_LIMIT,
        spec_entry_addr(e) % 0x1000 == 0,
{
    assert((((e >> 10u64) & 0xFFF_FFFF_FFFFu64) << 12u64) & 0xF_FFFF_FFFF_FFFFu64
        < 0x10_0000_0000_0000) by (bit_vector);
    assert(((((e >> 10u64) & 0xFFF_FFFF_FFFFu64) << 12u64) & 0xF_FFFF_FFFF_FFFFu64) % 0x1000 == 0)
        by (bit_vector);
}

/// How page table memory is reached from the running code: the address at which
/// the bytes of a physical address can be accessed.
pub trait PhysAddrAccess: Copy {
    /// Can physical address `phys` be reached at all?
    spec fn reaches(&self, phys: u64) -> bool;

    /// The address at which physical address `phys` is reached.
    spec fn spec_access_addr(&self, phys: u64) -> u64;

    fn phys_to_addr(&self, phys: PhysAddr) -> (r: u64)
        requires
            self.reaches(phys@),
        ensures
            r == self.spec_access_addr(phys@),
    ;
}

/// Physical memory reached through the higher half direct mapping.
#[derive(Clone, Copy)]
pub struct Hhdm;

impl PhysAddrAccess for Hhdm {
    open spec fn reaches(&self, phys: u64) -> bool {
        phys < 0x8000_0000_0000
    }

    open spec fn spec_access_addr(&self, phys: u64) -> u64 {
        (phys + HHDM) as u64
    }

    fn phys_to_addr(&self, phys: PhysAddr) -> (r: u64) {
        phys.to_hhdm().as_u64()
    }
}

/// Physical memory reached directly, before paging is enabled.
#[derive(Clone, Copy)]
pub struct NoPaging;

impl PhysAddrAccess for NoPaging {
    open spec fn reaches(&self, phys: u64) -> bool {
        true
    }

    open spec fn spec_access_addr(&self, phys: u64) -> u64 {
        phys
    }

    fn phys_to_addr(&self, phys: PhysAddr) -> (r: u64) {
        phys.as_u64()
    }
}

/// A table of 512 entries, one per 9-bit index of a virtual address.
#[derive(Clone, Copy)]
pub struct PageTable {
    pub entries: [PageTableEntry; 512],
}

impl PageTable {
    pub open spec fn is_empty_table(&self) -> bool {
        forall|i: int| 0 <= i < 512 ==> #[trigger] self.entries@[i]@ == 0
    }

    /// The root table that a `satp` value selects: its page number shifted back into
    /// an address. A mode other than Sv48 (9) fails an assertion, and so does an
    /// address with bits 52..64 set; neither is taken.
    pub fn active_from_satp(satp: u64) -> (r: PhysAddr)
        requires
            satp >> 60u64 == 9,
            satp << 12u64 < PHYS_LIMIT,
        ensures
            r@ == satp << 12u64,
    {
        let satp_ppn = satp << 12u64;
        PhysAddr::new(satp_ppn)
    }

    /// The `satp` value that makes the table at `this` the root, in Sv48 mode.
    pub fn satp_for(this: PhysAddr) -> (r: u64)
        ensures
            r == (9u64 << 60u64) | (this@ >> 12u64),
    {
        let satp_ppn = this.as_u64() >> 12u64;
        let satp_mode = 9u64 << 60u64;
        satp_mode | satp_ppn
    }

    /// A table with no valid entry.
    pub fn new() -> (r: Self)
        ensures
            r.is_empty_table(),
            forall|i: int| 0 <= i < 512 ==> !(#[trigger] r.entries@[i]).is_valid(),
    {
        let e = PageTableEntry::empty();
        let r = PageTable { entries: [e; 512] };
        assert forall|i: int| 0 <= i < 512 implies !(#[trigger] r.entries@[i]).is_valid() by {
            assert(r.entries@[i] == e);
        }
        r
    }
}

/// The memory that holds the page tables below a root table: each table with the
/// address at which it is reached.
pub struct PageTableMemory {
    pub tables: Vec<(u64, PageTable)>,
}

impl PageTableMemory {
    /// The position of the first table reached at `at`.
    pub open spec fn find(self, at: u64) -> Option<int> {
        if exists|k: int| 0 <= k < self.tables@.len() && (#[trigger] self.tables@[k]).0 == at {
            let k = choose|k: int|
                0 <= k < self.tables@.len() && (#[trigger] self.tables@[k]).0 == at && forall|
                    j: int,
                | 0 <= j < k ==> (#[trigger] self.tables@[j]).0 != at;
            Some(k)
        } else {
            None
        }
    }

    /// The table reached at `at`, if there is one.
    pub open spec fn table_at(self, at: u64) -> Option<PageTable> {
        match self.find(at) {
            Some(k) => Some(self.tables@[k].1),
            None => None,
        }
    }

    /// The position of the table reached at `at`.
    pub fn lookup(&self, at: u64) -> (r: Option<usize>)
        ensures
            r is Some <==> self.find(at) is Some,
            r matches Some(k) ==> Some(k as int) == self.find(at) && k < self.tables@.len(),
    {
        let mut k: usize = 0;
        while k < self.tables.len()
            invariant
                k <= self.tables@.len(),
                forall|j: int| 0 <= j < k ==> (#[trigger] self.tables@[j]).0 != at,
            decreases self.tables@.len() - k,
        {
            if self.tables[k].0 == at {
                proof {
                    lemma_find_first(self, at, k as int);
                }
                return Some(k);
            }
            k = k + 1;
        }
        proof {
            if self.find(at) is Some {
                let k = choose|k: int| 0 <= k < self.tables@.len() && (#[trigger] self.tables@[k]).0 == at;
                assert(self.tables@[k].0 == at);
            }
        }
        None
    }
}

proof fn lemma_find_first(mem: &PageTableMemory, at: u64, k: int)
    requires
        0 <= k < mem.tables@.len(),
        mem.tables@[k].0 == at,
        forall|j: int| 0 <= j < k ==> (#[trigger] mem.tables@[j]).0 != at,
    ensures
        mem.find(at) == Some(k),
{
    assert(mem.tables@[k].0 == at);
    let c = choose|c: int|
        0 <= c < mem.tables@.len() && (#[trigger] mem.tables@[c]).0 == at && forall|j: int|
            0 <= j < c ==> (#[trigger] mem.tables@[j]).0 != at;
    assert(0 <= c < mem.tables@.len() && mem.tables@[c].0 == at && forall|j: int|
        0 <= j < c ==> (#[trigger] mem.tables@[j]).0 != at);
    if c < k {
        assert(mem.tables@[c].0 != at);
    } else if c > k {
        assert(mem.tables@[k].0 != at);
    }
}

/// The result of walking `addr` from `table` at `level`: the mapped page and its flags,
/// or no page with no flags at an invalid entry; `None` where the walk would reach a
/// table that is not there.
pub open spec fn walk_from<A: PhysAddrAccess>(
    table: PageTable,
    mem: PageTableMemory,
    ty: A,
    addr: u64,
    level: nat,
) -> Option<(Option<u64>, u16)>
    decreases 4 - level,
{
    if level >= 4 {
        None
    } else {
        let e = table.entries@[spec_table_index(addr, level as int)];
        if !e.is_valid() {
            Some((None, 0))
        } else if e.is_leaf_entry() {
            Some((Some(e.spec_addr()), e.spec_flags()))
        } else if !ty.reaches(e.spec_addr()) {
            None
        } else {
            match mem.table_at(ty.spec_access_addr(e.spec_addr())) {
                Some(next) => walk_from(next, mem, ty, addr, level + 1),
                None => None,
            }
        }
    }
}

impl PageTable {
    /// The page that `addr` is mapped to and its flags, through the direct mapping.
    pub fn walk(&self, mem: &PageTableMemory, addr: VirtAddr) -> (r: (Option<PhysAddr>, PageFlags))
        requires
            walk_from(*self, *mem, Hhdm, addr@, 0) is Some,
        ensures
            walk_from(*self, *mem, Hhdm, addr@, 0) == Some(
                (
                    match r.0 {
                        Some(p) => Some(p@),
                        None => None,
                    },
                    r.1@,
                ),
            ),
    {
        self._walk(mem, addr, Hhdm)
    }

    /// The page that `addr` is mapped to and its flags, with paging disabled.
    pub fn walk_without_paging(&self, mem: &PageTableMemory, addr: VirtAddr) -> (r: (
        Option<PhysAddr>,
        PageFlags,
    ))
        requires
            walk_from(*self, *mem, NoPaging, addr@, 0) is Some,
        ensures
            walk_from(*self, *mem, NoPaging, addr@, 0) == Some(
                (
                    match r.0 {
                        Some(p) => Some(p@),
                        None => None,
                    },
                    r.1@,
                ),
            ),
    {
        self._walk(mem, addr, NoPaging)
    }

    fn _walk<A: PhysAddrAccess>(&self, mem: &PageTableMemory, addr: VirtAddr, ty: A) -> (r: (
        Option<PhysAddr>,
        PageFlags,
    ))
        requires
            walk_from(*self, *mem, ty, addr@, 0) is Some,
        ensures
            walk_from(*self, *mem, ty, addr@, 0) == Some(
                (
                    match r.0 {
                        Some(p) => Some(p@),
                        None => None,
                    },
                    r.1@,
                ),
            ),
    {
        let indices = addr.table_indices();
        let mut table: &PageTable = self;
        let mut level: usize = 0;
        while level < 4
            invariant
                level <= 4,
                walk_from(*table, *mem, ty, addr@, level as nat) == walk_from(*self, *mem, ty, addr@, 0),
                walk_from(*self, *mem, ty, addr@, 0) is Some,
                forall|l: int| 0 <= l < 4 ==> #[trigger] indices@[l] as int == spec_table_index(addr@, l),
                forall|l: int| 0 <= l < 4 ==> #[trigger] indices@[l] < 512,
            decreases 4 - level,
        {
            let idx = indices[level];
            let entry = table.entries[idx];
            if !entry.flags().contains(PageFlags::from_bits_truncate(FLAG_VALID)) {
                proof {
                    lemma_valid_flag(entry.spec_flags());
                }
                return (None, PageFlags::empty());
            }
            proof {
                lemma_valid_flag(entry.spec_flags());
            }
            if entry.flags().is_leaf() {
                return (Some(entry.addr()), entry.flags());
            }
            let at = ty.phys_to_addr(entry.addr());
            let k = mem.lookup(at);
            match k {
                Some(k) => {
                    table = &mem.tables[k].1;
                },
                None => {
                    return (None, PageFlags::empty());
                },
            }
            level = level + 1;
        }
        (None, PageFlags::empty())
    }
}

pub proof fn lemma_valid_flag(f: u16)
    ensures
        (f & (FLAG_VALID & FLAG_BITS) == (FLAG_VALID & FLAG_BITS)) == (f & FLAG_VALID == FLAG_VALID),
{
    assert((f & (1u16 & 0xFFu16) == (1u16 & 0xFFu16)) == (f & 1u16 == 1u16)) by (bit_vector);
}

} // verus!
