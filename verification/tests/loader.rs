use hyperion::loader::{
    InvalidElf, LoadStep, Loader, NoEntryPoint, Segment, PAGE_NO_EXECUTE, PAGE_USER_ACCESSIBLE, PAGE_WRITABLE,
    PF_R, PF_W, PF_X, PT_LOAD, PT_TLS,
};

fn segment(p_type: u32, p_flags: u32, p_offset: u64, p_vaddr: u64, p_filesz: u64, p_memsz: u64) -> Segment {
    Segment { p_type, p_offset, p_vaddr, p_paddr: p_vaddr, p_filesz, p_memsz, p_flags, p_align: 0x1000 }
}

/// A little-endian ELF64 executable with the given entry point and program headers.
fn elf_file(entry: u64, segments: &[Segment]) -> Vec<u8> {
    let mut b = vec![0x7f, b'E', b'L', b'F', 2, 1, 1, 0, 0, 0, 0, 0, 0, 0, 0, 0];
    b.extend_from_slice(&2u16.to_le_bytes());
    b.extend_from_slice(&0x3eu16.to_le_bytes());
    b.extend_from_slice(&1u32.to_le_bytes());
    b.extend_from_slice(&entry.to_le_bytes());
    b.extend_from_slice(&64u64.to_le_bytes());
    b.extend_from_slice(&0u64.to_le_bytes());
    b.extend_from_slice(&0u32.to_le_bytes());
    b.extend_from_slice(&64u16.to_le_bytes());
    b.extend_from_slice(&56u16.to_le_bytes());
    b.extend_from_slice(&(segments.len() as u16).to_le_bytes());
    b.extend_from_slice(&64u16.to_le_bytes());
    b.extend_from_slice(&0u16.to_le_bytes());
    b.extend_from_slice(&0u16.to_le_bytes());
    for s in segments {
        b.extend_from_slice(&s.p_type.to_le_bytes());
        b.extend_from_slice(&s.p_flags.to_le_bytes());
        b.extend_from_slice(&s.p_offset.to_le_bytes());
        b.extend_from_slice(&s.p_vaddr.to_le_bytes());
        b.extend_from_slice(&s.p_paddr.to_le_bytes());
        b.extend_from_slice(&s.p_filesz.to_le_bytes());
        b.extend_from_slice(&s.p_memsz.to_le_bytes());
        b.extend_from_slice(&s.p_align.to_le_bytes());
    }
    b
}

#[test]
fn parse_and_plan_a_program() {
    let text = segment(PT_LOAD, PF_R | PF_X, 0, 0x40_0000, 120, 0x1800);
    let bytes = elf_file(0x40_1000, &[text]);
    let loader = Loader::new(&bytes).ok().unwrap();
    assert_eq!(loader.program_headers(), &vec![text]);
    assert!(loader.is_admissible());
    assert_eq!(
        loader.load(),
        vec![
            LoadStep::Alloc { start: 0x40_0000, n_pages: 2, flags: PAGE_WRITABLE },
            LoadStep::Copy { dest: 0x40_0000, offset: 0, len: 120 },
            LoadStep::Remap { start: 0x40_0000, end: 0x40_2000, flags: PAGE_USER_ACCESSIBLE },
        ]
    );
    assert_eq!(loader.finish(), Ok(0x40_1000));
}

#[test]
fn bytes_that_are_not_elf_are_refused() {
    let bytes = vec![0u8; 100];
    assert!(matches!(Loader::new(&bytes), Err(InvalidElf)));
    let mut bytes = elf_file(0, &[]);
    bytes.truncate(40);
    assert!(matches!(Loader::new(&bytes), Err(InvalidElf)));
}

#[test]
fn no_entry_point() {
    let bytes = elf_file(0, &[]);
    let loader = Loader::new(&bytes).ok().unwrap();
    assert_eq!(loader.load(), vec![]);
    assert_eq!(loader.finish(), Err(NoEntryPoint));
}

#[test]
fn data_and_tls_segments() {
    let bytes = vec![7u8; 0x3000];
    let data = segment(PT_LOAD, PF_R | PF_W, 0x1000, 0x60_0800, 0x100, 0x2000);
    let tls = segment(PT_TLS, PF_R, 0x2000, 0x70_0000, 0x10, 0x20);
    let note = segment(4, PF_R, 0, 0x80_0000, 0x10, 0x10);
    let loader = Loader::from_parts(&bytes, 0x60_0800, vec![data, note, tls]);
    assert!(loader.is_admissible());
    assert_eq!(
        loader.load(),
        vec![
            LoadStep::Alloc { start: 0x60_0000, n_pages: 3, flags: PAGE_WRITABLE },
            LoadStep::Alloc { start: 0x70_0000, n_pages: 1, flags: PAGE_WRITABLE },
            LoadStep::Copy { dest: 0x60_0800, offset: 0x1000, len: 0x100 },
            LoadStep::Copy { dest: 0x70_0000, offset: 0x2000, len: 0x10 },
            LoadStep::Remap {
                start: 0x60_0000,
                end: 0x60_3000,
                flags: PAGE_USER_ACCESSIBLE | PAGE_NO_EXECUTE | PAGE_WRITABLE,
            },
        ]
    );
}

#[test]
fn copy_stops_at_the_end_of_the_pages() {
    let bytes = vec![0u8; 0x4000];
    // more file data than memory: only what the pages hold is copied
    let s = segment(PT_LOAD, PF_R, 0, 0x40_0f00, 0x3000, 0x80);
    let loader = Loader::from_parts(&bytes, 1, vec![s]);
    assert_eq!(
        loader.load(),
        vec![
            LoadStep::Alloc { start: 0x40_0000, n_pages: 1, flags: PAGE_WRITABLE },
            LoadStep::Copy { dest: 0x40_0f00, offset: 0, len: 0x100 },
            LoadStep::Remap { start: 0x40_0000, end: 0x40_1000, flags: PAGE_USER_ACCESSIBLE | PAGE_NO_EXECUTE },
        ]
    );
}

#[test]
fn segments_in_the_kernel_half_are_refused() {
    let bytes = vec![0u8; 0x100];
    let low = segment(PT_LOAD, PF_R, 0, 0x40_0000, 0x10, 0x10);
    let high = segment(PT_LOAD, PF_R, 0, 0xFFFF_8000_0000_0000, 0x10, 0x10);
    let later = segment(PT_LOAD, PF_R, 0, 0x50_0000, 0x10, 0x10);
    let loader = Loader::from_parts(&bytes, 1, vec![low, high, later]);
    assert!(loader.is_admissible());
    assert_eq!(
        loader.load(),
        vec![LoadStep::Alloc { start: 0x40_0000, n_pages: 1, flags: PAGE_WRITABLE }, LoadStep::Invalid]
    );
    // memory that reaches the top of the lower half rounds up into the kernel half
    let edge = segment(PT_LOAD, PF_R, 0, 0x7FFF_FFFF_F000, 0x10, 0x800);
    let loader = Loader::from_parts(&bytes, 1, vec![edge]);
    assert_eq!(loader.load(), vec![LoadStep::Invalid]);
}

#[test]
fn data_outside_the_file_cannot_be_loaded() {
    let bytes = vec![0u8; 0x100];
    let s = segment(PT_LOAD, PF_R, 0x80, 0x40_0000, 0x100, 0x100);
    let loader = Loader::from_parts(&bytes, 1, vec![s]);
    assert!(!loader.is_admissible());
    let mut bad_align = segment(PT_LOAD, PF_R, 0, 0x40_0000, 0x10, 0x10);
    bad_align.p_align = 3;
    let loader = Loader::from_parts(&bytes, 1, vec![bad_align]);
    assert!(!loader.is_admissible());
}

#[test]
fn segment_flags() {
    assert_eq!(Loader::flags(PF_R), PAGE_USER_ACCESSIBLE | PAGE_NO_EXECUTE);
    assert_eq!(Loader::flags(PF_R | PF_W), PAGE_USER_ACCESSIBLE | PAGE_NO_EXECUTE | PAGE_WRITABLE);
    assert_eq!(Loader::flags(PF_R | PF_X), PAGE_USER_ACCESSIBLE);
    assert_eq!(Loader::flags(PF_X | PF_W), PAGE_USER_ACCESSIBLE | PAGE_WRITABLE);
}

fn shdr(b: &mut Vec<u8>, sh_type: u32, offset: u64, size: u64, link: u32, entsize: u64) {
    b.extend_from_slice(&0u32.to_le_bytes());
    b.extend_from_slice(&sh_type.to_le_bytes());
    b.extend_from_slice(&0u64.to_le_bytes());
    b.extend_from_slice(&0u64.to_le_bytes());
    b.extend_from_slice(&offset.to_le_bytes());
    b.extend_from_slice(&size.to_le_bytes());
    b.extend_from_slice(&link.to_le_bytes());
    b.extend_from_slice(&0u32.to_le_bytes());
    b.extend_from_slice(&1u64.to_le_bytes());
    b.extend_from_slice(&entsize.to_le_bytes());
}

fn symbol(b: &mut Vec<u8>, name: u32) {
    b.extend_from_slice(&name.to_le_bytes());
    b.extend_from_slice(&[0, 0]);
    b.extend_from_slice(&0u16.to_le_bytes());
    b.extend_from_slice(&0u64.to_le_bytes());
    b.extend_from_slice(&0u64.to_le_bytes());
}

/// A little-endian ELF64 file with a dynamic symbol `puts` and the symbols `main` and
/// `_start`, each table led by the null symbol.
fn elf_with_symbols() -> Vec<u8> {
    let mut b = elf_file(0x40_1000, &[]);
    // no program headers, section headers at 208, five of them
    b[32..40].copy_from_slice(&0u64.to_le_bytes());
    b[40..48].copy_from_slice(&208u64.to_le_bytes());
    b[60..62].copy_from_slice(&5u16.to_le_bytes());
    b.extend_from_slice(b"\0puts\0");
    b.extend_from_slice(b"\0main\0_start\0");
    b.resize(88, 0);
    symbol(&mut b, 0);
    symbol(&mut b, 1);
    symbol(&mut b, 0);
    symbol(&mut b, 1);
    symbol(&mut b, 6);
    assert_eq!(b.len(), 208);
    shdr(&mut b, 0, 0, 0, 0, 0);
    shdr(&mut b, 11, 88, 48, 2, 24);
    shdr(&mut b, 3, 64, 6, 0, 0);
    shdr(&mut b, 2, 136, 72, 4, 24);
    shdr(&mut b, 3, 70, 13, 0, 0);
    b
}

#[test]
fn symbol_names_dynamic_first() {
    let bytes = elf_with_symbols();
    let loader = Loader::new(&bytes).ok().unwrap();
    assert_eq!(
        loader.symbol_names(),
        Some(vec![String::new(), "puts".to_string(), String::new(), "main".to_string(), "_start".to_string()])
    );
    // a file without symbol tables has no names
    let plain = elf_file(0x40_1000, &[]);
    assert_eq!(Loader::new(&plain).ok().unwrap().symbol_names(), None);
}
