//! Loading an ELF program into a fresh address space: which pages each segment
//! takes, which bytes of the file go where, and the page flags it ends up with.
//!
//! The file is parsed by the `elf` crate. What the loader decides is a list of
//! steps (reserve pages, copy bytes of the file, set the final flags) that the
//! kernel then performs on the process, in order.

use vstd::prelude::*;

use crate::addr::{is_virt_canonical, spec_align_down, spec_align_up, virt_sign_extend, HHDM};
use crate::buf::{x86_virt_add, x86_virt_align_down, x86_virt_align_up};
use crate::vmm::is_power_of_two;

verus! {

/// Segment type of a loadable segment.
pub const PT_LOAD: u32 = 1;

/// Segment type of the thread local storage template.
pub const PT_TLS: u32 = 7;

/// Segment flag: executable.
pub const PF_X: u32 = 1;

/// Segment flag: writable.
pub const PF_W: u32 = 2;

/// Segment flag: readable.
pub const PF_R: u32 = 4;

/// Page table flag of x86_64: the page can be written.
pub const PAGE_WRITABLE: u64 = 0x2;

/// Page table flag of x86_64: the page can be reached from user mode.
pub const PAGE_USER_ACCESSIBLE: u64 = 0x4;

/// Page table flag of x86_64: code on the page cannot run.
pub const PAGE_NO_EXECUTE: u64 = 0x8000_0000_0000_0000;

/// A program header of an ELF file.
#[derive(Debug, Clone, Copy, PartialEq, Eq, Structural)]
pub struct Segment {
    pub p_type: u32,
    pub p_offset: u64,
    pub p_vaddr: u64,
    pub p_paddr: u64,
    pub p_filesz: u64,
    pub p_memsz: u64,
    pub p_flags: u32,
    pub p_align: u64,
}

/// What parsing an ELF file gives: its entry point and its program headers, or
/// nothing when the file is not an ELF file that the parser accepts.
pub uninterp spec fn elf_parse(bytes: Seq<u8>) -> Option<(u64, Seq<Segment>)>;

/// `elf::ElfBytes::minimal_parse` on `bytes`, then the entry point of its file header
/// and each program header that its segment table yields (none when the file has no
/// segment table). The result is named, not stated: it is a function of the bytes.
#[verifier::external_body]
fn parse_elf_file(bytes: &[u8]) -> (r: Option<(u64, Vec<Segment>)>)
    ensures
        r is Some <==> elf_parse(bytes@) is Some,
        r matches Some(p) ==> elf_parse(bytes@) == Some((p.0, p.1@)),
{
    let parser = elf::ElfBytes::<elf::endian::AnyEndian>::minimal_parse(bytes).ok()?;
    let segments = match parser.segments() {
        Some(table) => table.iter().map(|p| Segment {
            p_type: p.p_type,
            p_offset: p.p_offset,
            p_vaddr: p.p_vaddr,
            p_paddr: p.p_paddr,
            p_filesz: p.p_filesz,
            p_memsz: p.p_memsz,
            p_flags: p.p_flags,
            p_align: p.p_align,
        }).collect(),
        None => Vec::new(),
    };
    Some((parser.ehdr.e_entry, segments))
}


/// The names of the symbols of an ELF file: those of its dynamic symbol table, then
/// those of its symbol table, each symbol whose name the string table gives; nothing
/// when the file does not parse or lacks one of the two symbol tables or their string
/// tables.
pub uninterp spec fn elf_symbol_names(bytes: Seq<u8>) -> Option<Seq<Seq<char>>>;

/// `elf::ElfBytes::minimal_parse` on `bytes`, `find_common_data`, then the name that
/// `StringTable::get` gives for each symbol of the dynamic symbol table and then of the
/// symbol table (symbols without a readable name are skipped). The result is named,
/// not stated: it is a function of the bytes.
#[verifier::external_body]
fn find_symbol_names(bytes: &[u8]) -> (r: Option<Vec<String>>)
    ensures
        r is Some <==> elf_symbol_names(bytes@) is Some,
        r matches Some(v) ==> elf_symbol_names(bytes@) == Some(v@.map_values(|s: String| s@)),
{
    let parser = elf::ElfBytes::<elf::endian::AnyEndian>::minimal_parse(bytes).ok()?;
    let common = parser.find_common_data().ok()?;
    let (dyn_symtab, dyn_strtab) = (common.dynsyms?, common.dynsyms_strs?);
    let (symtab, strtab) = (common.symtab?, common.symtab_strs?);
    let dyn_symbols = dyn_symtab.iter().filter_map(|sym| dyn_strtab.get(sym.st_name as usize).ok());
    let symbols = symtab.iter().filter_map(|sym| strtab.get(sym.st_name as usize).ok());
    Some(dyn_symbols.chain(symbols).map(String::from).collect())
}

/// The file is not an ELF file, or one of its segments cannot be loaded.
#[derive(Debug, Clone, Copy, PartialEq, Eq, Structural)]
pub struct InvalidElf;

/// The address space has no room for a segment.
#[derive(Debug, Clone, Copy, PartialEq, Eq, Structural)]
pub struct OutOfVirtMem;

/// The file has no entry point.
#[derive(Debug, Clone, Copy, PartialEq, Eq, Structural)]
pub struct NoEntryPoint;

/// Why a program could not be loaded.
#[derive(Debug, Clone, Copy, PartialEq, Eq, Structural)]
pub enum LoadError {
    InvalidElf(InvalidElf),
    OutOfVirtMem(OutOfVirtMem),
}

/// One thing for the kernel to do on the process being loaded.
#[derive(Debug, Clone, Copy, PartialEq, Eq, Structural)]
pub enum LoadStep {
    /// Reserve `n_pages` pages from `start`, mapped with `flags`; when there is no
    /// room, loading stops with [`LoadError::OutOfVirtMem`].
    Alloc { start: u64, n_pages: u64, flags: u64 },
    /// Loading stops here with [`LoadError::InvalidElf`].
    Invalid,
    /// Copy `len` bytes of the file from `offset` to address `dest`.
    Copy { dest: u64, offset: u64, len: u64 },
    /// Give the pages from `start` to `end` the flags `flags`.
    Remap { start: u64, end: u64, flags: u64 },
}

/// Does `addr` lie in the upper half of the address space, the kernel's?
pub open spec fn is_higher_half(addr: u64) -> bool {
    addr >= HHDM
}

/// Is the segment one whose pages are reserved and filled?
pub open spec fn is_loadable(s: Segment) -> bool {
    s.p_type == PT_LOAD || s.p_type == PT_TLS
}

/// `addr` rounded down to `align` in the virtual address space.
pub open spec fn virt_align_down(addr: u64, align: u64) -> u64 {
    virt_sign_extend(spec_align_down(addr as int, align as int) as u64)
}

/// The first page of a segment: its address rounded down to its alignment, then to
/// a page.
pub open spec fn segment_start(s: Segment) -> u64 {
    virt_align_down(virt_align_down(s.p_vaddr, s.p_align), 0x1000)
}

/// The end of the last page of a segment: the end of its memory rounded up to a
/// page.
pub open spec fn segment_end(s: Segment) -> u64 {
    virt_sign_extend(spec_align_up(s.p_vaddr + s.p_memsz, 0x1000) as u64)
}

/// The segments whose pages can be worked out without a panic: a canonical address,
/// a power of two alignment, an end of memory that is a canonical address and rounds
/// up to a page within 64 bits, and pages that do not end before they start.
pub open spec fn segment_ok(s: Segment) -> bool {
    &&& is_virt_canonical(s.p_vaddr)
    &&& is_power_of_two(s.p_align)
    &&& s.p_vaddr + s.p_memsz <= u64::MAX
    &&& is_virt_canonical((s.p_vaddr + s.p_memsz) as u64)
    &&& spec_align_up(s.p_vaddr + s.p_memsz, 0x1000) <= u64::MAX
    &&& segment_start(s) <= segment_end(s)
}

/// The segments whose data can be copied without a panic: the segment's address
/// lies in its pages and its data lies in the file.
pub open spec fn copy_ok(bytes: Seq<u8>, s: Segment) -> bool {
    &&& segment_start(s) <= s.p_vaddr <= segment_end(s)
    &&& s.p_offset + s.p_filesz <= bytes.len()
}

/// The page flags of a segment with flags `p_flags`: always reachable from user
/// mode, not executable unless `PF_X`, writable with `PF_W`.
pub open spec fn segment_flags(p_flags: u32) -> u64 {
    if p_flags & PF_X == 0 {
        if p_flags & PF_W != 0 {
            PAGE_USER_ACCESSIBLE | PAGE_NO_EXECUTE | PAGE_WRITABLE
        } else {
            PAGE_USER_ACCESSIBLE | PAGE_NO_EXECUTE
        }
    } else if p_flags & PF_W != 0 {
        PAGE_USER_ACCESSIBLE | PAGE_WRITABLE
    } else {
        PAGE_USER_ACCESSIBLE
    }
}

/// The step that reserves the pages of a loadable segment: refused when its pages
/// reach the kernel's half.
pub open spec fn alloc_step(s: Segment) -> LoadStep {
    if is_higher_half(segment_end(s)) {
        LoadStep::Invalid
    } else {
        LoadStep::Alloc {
            start: segment_start(s),
            n_pages: ((segment_end(s) - segment_start(s)) / 0x1000) as u64,
            flags: PAGE_WRITABLE,
        }
    }
}

/// The step that copies the file data of a loadable segment: to the segment's
/// address, as much of the data as the pages hold from there.
pub open spec fn copy_step(s: Segment) -> LoadStep {
    LoadStep::Copy {
        dest: s.p_vaddr,
        offset: s.p_offset,
        len: if segment_end(s) - s.p_vaddr <= s.p_filesz {
            (segment_end(s) - s.p_vaddr) as u64
        } else {
            s.p_filesz
        },
    }
}

/// The step that gives a segment of type `PT_LOAD` its final flags.
pub open spec fn remap_step(s: Segment) -> LoadStep {
    LoadStep::Remap { start: segment_start(s), end: segment_end(s), flags: segment_flags(s.p_flags) }
}

/// Has a list of steps come to a stop?
pub open spec fn stopped(steps: Seq<LoadStep>) -> bool {
    steps.len() > 0 && steps.last() == LoadStep::Invalid
}

/// The reservations of the segments, in order, up to the first refused one.
pub open spec fn alloc_steps(segs: Seq<Segment>) -> Seq<LoadStep>
    decreases segs.len(),
{
    if segs.len() == 0 {
        seq![]
    } else {
        let prev = alloc_steps(segs.drop_last());
        if stopped(prev) || !is_loadable(segs.last()) {
            prev
        } else {
            prev.push(alloc_step(segs.last()))
        }
    }
}

/// The copies of the loadable segments, in order.
pub open spec fn copy_steps(segs: Seq<Segment>) -> Seq<LoadStep>
    decreases segs.len(),
{
    if segs.len() == 0 {
        seq![]
    } else if is_loadable(segs.last()) {
        copy_steps(segs.drop_last()).push(copy_step(segs.last()))
    } else {
        copy_steps(segs.drop_last())
    }
}

/// The final flags of the segments of type `PT_LOAD`, in order.
pub open spec fn remap_steps(segs: Seq<Segment>) -> Seq<LoadStep>
    decreases segs.len(),
{
    if segs.len() == 0 {
        seq![]
    } else if segs.last().p_type == PT_LOAD {
        remap_steps(segs.drop_last()).push(remap_step(segs.last()))
    } else {
        remap_steps(segs.drop_last())
    }
}

/// Loading the segments: all reservations first, then, unless one was refused, all
/// copies, then all final flags.
pub open spec fn load_plan(segs: Seq<Segment>) -> Seq<LoadStep> {
    let a = alloc_steps(segs);
    if stopped(a) {
        a
    } else {
        a + copy_steps(segs) + remap_steps(segs)
    }
}

/// The inputs on which loading runs without a panic: each loadable segment that
/// is reached has pages that can be worked out and, when nothing is refused, the
/// data of each loadable segment can be copied.
pub open spec fn load_admissible(bytes: Seq<u8>, segs: Seq<Segment>) -> bool {
    &&& forall|i: int|
        0 <= i < segs.len() && is_loadable(#[trigger] segs[i]) && !stopped(alloc_steps(segs.take(i)))
            ==> segment_ok(segs[i])
    &&& !stopped(alloc_steps(segs)) ==> forall|i: int|
        0 <= i < segs.len() && is_loadable(#[trigger] segs[i]) ==> copy_ok(bytes, segs[i])
}

/// Once the reservations stop, more segments add nothing.
proof fn lemma_stopped_fixed(segs: Seq<Segment>, i: int)
    requires
        0 <= i <= segs.len(),
        stopped(alloc_steps(segs.take(i))),
    ensures
        alloc_steps(segs) == alloc_steps(segs.take(i)),
    decreases segs.len() - i,
{
    if i < segs.len() {
        assert(segs.take(i + 1).drop_last() =~= segs.take(i));
        lemma_stopped_fixed(segs, i + 1);
    } else {
        assert(segs.take(i) =~= segs);
    }
}

/// The first page and the end of the pages of a segment, when they can be worked
/// out.
fn segment_bounds(s: &Segment) -> (r: Option<(u64, u64)>)
    ensures
        r is Some <==> segment_ok(*s),
        r matches Some(b) ==> b.0 == segment_start(*s) && b.1 == segment_end(*s),
{
    if !(s.p_vaddr < 0x8000_0000_0000 || s.p_vaddr >= HHDM) {
        return None;
    }
    if s.p_align == 0 || s.p_align & (s.p_align - 1) != 0 {
        return None;
    }
    let sum = match s.p_vaddr.checked_add(s.p_memsz) {
        Some(e) => e,
        None => {
            return None;
        },
    };
    if !(sum < 0x8000_0000_0000 || sum >= HHDM) {
        return None;
    }
    if sum % 0x1000 != 0 && sum - sum % 0x1000 > u64::MAX - 0x1000 {
        return None;
    }
    proof {
        crate::buf::lemma_page_size_pow2();
        crate::addr::lemma_virt_canonical(spec_align_down(s.p_vaddr as int, s.p_align as int) as u64);
    }
    let first = x86_virt_align_down(x86_virt_align_down(s.p_vaddr, s.p_align), 0x1000);
    let end = x86_virt_align_up(x86_virt_add(s.p_vaddr, s.p_memsz), 0x1000);
    if end < first {
        return None;
    }
    Some((first, end))
}

/// Exec form of [`is_loadable`].
fn is_loadable_exec(s: &Segment) -> (r: bool)
    ensures
        r == is_loadable(*s),
{
    s.p_type == PT_LOAD || s.p_type == PT_TLS
}

/// An ELF file ready to be loaded.
pub struct Loader<'a> {
    bytes: &'a [u8],
    entry: u64,
    segments: Vec<Segment>,
}

impl<'a> Loader<'a> {
    pub closed spec fn bytes(&self) -> Seq<u8> {
        self.bytes@
    }

    pub closed spec fn entry(&self) -> u64 {
        self.entry
    }

    pub closed spec fn segments(&self) -> Seq<Segment> {
        self.segments@
    }

    /// Parse `elf_bytes`; refused when the parser does not accept them.
    pub fn new(elf_bytes: &'a [u8]) -> (r: Result<Self, InvalidElf>)
        ensures
            r is Ok <==> elf_parse(elf_bytes@) is Some,
            r matches Ok(l) ==> l.bytes() == elf_bytes@ && elf_parse(elf_bytes@) == Some(
                (l.entry(), l.segments()),
            ),
    {
        match parse_elf_file(elf_bytes) {
            Some((entry, segments)) => Ok(Self::from_parts(elf_bytes, entry, segments)),
            None => Err(InvalidElf),
        }
    }

    /// The names of the symbols of the file, dynamic ones first, for printing; nothing
    /// when the file lacks its symbol tables.
    pub fn symbol_names(&self) -> (r: Option<Vec<String>>)
        ensures
            r is Some <==> elf_symbol_names(self.bytes()) is Some,
            r matches Some(v) ==> elf_symbol_names(self.bytes()) == Some(v@.map_values(|s: String| s@)),
    {
        find_symbol_names(self.bytes)
    }

    /// The loader of a file with the given entry point and program headers.
    pub fn from_parts(elf_bytes: &'a [u8], entry: u64, segments: Vec<Segment>) -> (r: Self)
        ensures
            r.bytes() == elf_bytes@,
            r.entry() == entry,
            r.segments() == segments@,
    {
        Self { bytes: elf_bytes, entry, segments }
    }

    /// The bytes of the file.
    pub fn elf_bytes(&self) -> (r: &'a [u8])
        ensures
            r@ == self.bytes(),
    {
        self.bytes
    }

    /// The program headers of the file.
    pub fn program_headers(&self) -> (r: &Vec<Segment>)
        ensures
            r@ == self.segments(),
    {
        &self.segments
    }

    /// Can the file be loaded without a panic? See [`load_admissible`].
    pub fn is_admissible(&self) -> (r: bool)
        ensures
            r == load_admissible(self.bytes(), self.segments()),
    {
        let n = self.segments.len();
        let ghost segs = self.segments@;
        let mut steps: Vec<LoadStep> = Vec::new();
        let mut i: usize = 0;
        while i < n
            invariant
                n == segs.len(),
                segs == self.segments@,
                0 <= i <= n,
                steps@ == alloc_steps(segs.take(i as int)),
                !stopped(steps@),
                forall|j: int| 0 <= j < i && is_loadable(#[trigger] segs[j]) ==> segment_ok(segs[j]),
            decreases n - i,
        {
            let s = self.segments[i];
            assert(segs.take(i + 1).drop_last() =~= segs.take(i as int));
            assert(segs[i as int] == s);
            if is_loadable_exec(&s) && segment_bounds(&s).is_none() {
                assert(!load_admissible(self.bytes(), segs));
                return false;
            }
            match Self::alloc_segment(&s) {
                Some(step) => {
                    steps.push(step);
                    if let LoadStep::Invalid = step {
                        proof {
                            lemma_stopped_fixed(segs, i + 1);
                            assert forall|j: int|
                                0 <= j < n && is_loadable(#[trigger] segs[j]) && !stopped(
                                    alloc_steps(segs.take(j)),
                                ) implies segment_ok(segs[j]) by {
                                if j > i {
                                    assert(segs.take(j).take(i + 1) =~= segs.take(i + 1));
                                    lemma_stopped_fixed(segs.take(j), i + 1);
                                }
                            }
                        }
                        return true;
                    }
                },
                None => {},
            }
            i = i + 1;
        }
        assert(segs.take(n as int) =~= segs);
        let mut k: usize = 0;
        while k < n
            invariant
                n == segs.len(),
                segs == self.segments@,
                0 <= k <= n,
                !stopped(alloc_steps(segs)),
                forall|j: int| 0 <= j < n && is_loadable(#[trigger] segs[j]) ==> segment_ok(segs[j]),
                forall|j: int| 0 <= j < k && is_loadable(#[trigger] segs[j]) ==> copy_ok(self.bytes@, segs[j]),
            decreases n - k,
        {
            let s = self.segments[k];
            assert(segs[k as int] == s);
            if is_loadable_exec(&s) {
                let fits = match segment_bounds(&s) {
                    Some((first, end)) => first <= s.p_vaddr && s.p_vaddr <= end,
                    None => false,
                };
                let blen = self.bytes.len();
                assert(blen == self.bytes@.len());
                let in_file = match s.p_offset.checked_add(s.p_filesz) {
                    Some(e) => e <= blen as u64,
                    None => false,
                };
                if !(fits && in_file) {
                    assert(!copy_ok(self.bytes@, segs[k as int]));
                    return false;
                }
            }
            k = k + 1;
        }
        proof {
            assert forall|j: int|
                0 <= j < n && is_loadable(#[trigger] segs[j]) && !stopped(alloc_steps(segs.take(j)))
                    implies segment_ok(segs[j]) by {}
        }
        true
    }

    /// The page flags of a segment with flags `p_flags`.
    pub fn flags(p_flags: u32) -> (r: u64)
        ensures
            r == segment_flags(p_flags),
    {
        if p_flags & PF_X == 0 {
            if p_flags & PF_W != 0 {
                PAGE_USER_ACCESSIBLE | PAGE_NO_EXECUTE | PAGE_WRITABLE
            } else {
                PAGE_USER_ACCESSIBLE | PAGE_NO_EXECUTE
            }
        } else if p_flags & PF_W != 0 {
            PAGE_USER_ACCESSIBLE | PAGE_WRITABLE
        } else {
            PAGE_USER_ACCESSIBLE
        }
    }

    /// The reservation of a segment's pages; nothing for a segment that is not
    /// loaded.
    fn alloc_segment(s: &Segment) -> (r: Option<LoadStep>)
        requires
            is_loadable(*s) ==> segment_ok(*s),
        ensures
            r == if is_loadable(*s) {
                Some(alloc_step(*s))
            } else {
                None::<LoadStep>
            },
    {
        if !is_loadable_exec(s) {
            return None;
        }
        match segment_bounds(s) {
            Some((first, end)) => {
                if end >= HHDM {
                    Some(LoadStep::Invalid)
                } else {
                    Some(LoadStep::Alloc { start: first, n_pages: (end - first) / 0x1000, flags: PAGE_WRITABLE })
                }
            },
            None => {
                assert(false);
                None
            },
        }
    }

    /// The copy of a segment's file data; nothing for a segment that is not loaded.
    fn load_segment(&self, s: &Segment) -> (r: Option<LoadStep>)
        requires
            is_loadable(*s) ==> segment_ok(*s) && copy_ok(self.bytes(), *s),
        ensures
            r == if is_loadable(*s) {
                Some(copy_step(*s))
            } else {
                None::<LoadStep>
            },
    {
        if !is_loadable_exec(s) {
            return None;
        }
        match segment_bounds(s) {
            Some((first, end)) => {
                let room = end - s.p_vaddr;
                let len = if room <= s.p_filesz {
                    room
                } else {
                    s.p_filesz
                };
                Some(LoadStep::Copy { dest: s.p_vaddr, offset: s.p_offset, len })
            },
            None => {
                assert(false);
                None
            },
        }
    }

    /// The final flags of a segment of type `PT_LOAD`; nothing for the others.
    fn finish_segment(s: &Segment) -> (r: Option<LoadStep>)
        requires
            s.p_type == PT_LOAD ==> segment_ok(*s),
        ensures
            r == if s.p_type == PT_LOAD {
                Some(remap_step(*s))
            } else {
                None::<LoadStep>
            },
    {
        if s.p_type != PT_LOAD {
            return None;
        }
        match segment_bounds(s) {
            Some((first, end)) => Some(LoadStep::Remap { start: first, end, flags: Self::flags(s.p_flags) }),
            None => {
                assert(false);
                None
            },
        }
    }

    /// What loading the file takes: see [`load_plan`]. The kernel performs the
    /// steps in order and stops at a refused one or a failed reservation.
    pub fn load(&self) -> (r: Vec<LoadStep>)
        requires
            load_admissible(self.bytes(), self.segments()),
        ensures
            r@ == load_plan(self.segments()),
    {
        let n = self.segments.len();
        let ghost segs = self.segments@;
        let mut steps: Vec<LoadStep> = Vec::new();
        let mut i: usize = 0;
        while i < n
            invariant
                n == segs.len(),
                segs == self.segments@,
                0 <= i <= n,
                steps@ == alloc_steps(segs.take(i as int)),
                !stopped(steps@),
                load_admissible(self.bytes(), segs),
            decreases n - i,
        {
            let s = self.segments[i];
            assert(segs.take(i + 1).drop_last() =~= segs.take(i as int));
            assert(segs[i as int] == s);
            match Self::alloc_segment(&s) {
                Some(step) => {
                    steps.push(step);
                    if let LoadStep::Invalid = step {
                        proof {
                            lemma_stopped_fixed(segs, i + 1);
                        }
                        return steps;
                    }
                },
                None => {},
            }
            i = i + 1;
        }
        assert(segs.take(n as int) =~= segs);
        proof {
            assert forall|j: int| 0 <= j < n && is_loadable(#[trigger] segs[j]) implies segment_ok(segs[j]) by {
                if stopped(alloc_steps(segs.take(j))) {
                    lemma_stopped_fixed(segs, j);
                }
            }
        }
        let mut k: usize = 0;
        while k < n
            invariant
                n == segs.len(),
                segs == self.segments@,
                0 <= k <= n,
                steps@ == alloc_steps(segs) + copy_steps(segs.take(k as int)),
                forall|j: int| 0 <= j < n && is_loadable(#[trigger] segs[j]) ==> segment_ok(segs[j]),
                !stopped(alloc_steps(segs)),
                load_admissible(self.bytes(), segs),
            decreases n - k,
        {
            let s = self.segments[k];
            assert(segs.take(k + 1).drop_last() =~= segs.take(k as int));
            assert(segs[k as int] == s);
            match self.load_segment(&s) {
                Some(step) => {
                    steps.push(step);
                },
                None => {},
            }
            assert(steps@ =~= alloc_steps(segs) + copy_steps(segs.take(k + 1)));
            k = k + 1;
        }
        assert(segs.take(n as int) =~= segs);
        let mut m: usize = 0;
        while m < n
            invariant
                n == segs.len(),
                segs == self.segments@,
                0 <= m <= n,
                steps@ == alloc_steps(segs) + copy_steps(segs) + remap_steps(segs.take(m as int)),
                forall|j: int| 0 <= j < n && is_loadable(#[trigger] segs[j]) ==> segment_ok(segs[j]),
            decreases n - m,
        {
            let s = self.segments[m];
            assert(segs.take(m + 1).drop_last() =~= segs.take(m as int));
            assert(segs[m as int] == s);
            match Self::finish_segment(&s) {
                Some(step) => {
                    steps.push(step);
                },
                None => {},
            }
            assert(steps@ =~= alloc_steps(segs) + copy_steps(segs) + remap_steps(segs.take(m + 1)));
            m = m + 1;
        }
        assert(segs.take(n as int) =~= segs);
        steps
    }

    /// The entry point of the loaded program; refused when the file gives none.
    pub fn finish(self) -> (r: Result<u64, NoEntryPoint>)
        ensures
            self.entry() == 0 ==> r == Err::<u64, NoEntryPoint>(NoEntryPoint),
            self.entry() != 0 ==> r == Ok::<u64, NoEntryPoint>(self.entry()),
    {
        if self.entry == 0 {
            Err(NoEntryPoint)
        } else {
            Ok(self.entry)
        }
    }
}

} // verus!
