use hyperion::addr::PhysAddr;
use hyperion::page_table::{
    PageFlags, PageTableEntry, FLAG_DIRTY, FLAG_R, FLAG_RWX, FLAG_USER, FLAG_VALID, FLAG_W,
};

#[test]
fn flags_drop_undefined_bits() {
    assert_eq!(PageFlags::from_bits_truncate(0x1FF).bits(), 0xFF);
    let rw = PageFlags::from_bits_truncate(FLAG_R | FLAG_W);
    assert!(rw.is_leaf());
    assert!(!rw.is_branch());
    assert!(PageFlags::from_bits_truncate(FLAG_VALID).is_branch());
    assert!(rw.contains(PageFlags::from_bits_truncate(FLAG_W)));
    assert_eq!(rw.intersection(PageFlags::from_bits_truncate(FLAG_RWX)).bits(), FLAG_R | FLAG_W);
    assert_eq!(rw.union(PageFlags::from_bits_truncate(FLAG_USER)).bits(), FLAG_R | FLAG_W | FLAG_USER);
    assert!(PageFlags::empty().is_empty());
}

#[test]
fn entry_reads_back_address_and_flags() {
    let f = PageFlags::from_bits_truncate(FLAG_VALID | FLAG_R | FLAG_DIRTY);
    let e = PageTableEntry::new(PhysAddr::new(0x1234_5000), f);
    assert_eq!(e.addr().as_u64(), 0x1234_5000);
    assert_eq!(e.flags().bits(), FLAG_VALID | FLAG_R | FLAG_DIRTY);
}

#[test]
fn entry_setters_keep_the_other_half() {
    let mut e = PageTableEntry::empty();
    e.set_flags(PageFlags::from_bits_truncate(FLAG_VALID));
    e.set_addr(PhysAddr::new(0xABC_D123));
    assert_eq!(e.addr().as_u64(), 0xABC_D000);
    assert_eq!(e.flags().bits(), FLAG_VALID);
    e.set_flags(PageFlags::from_bits_truncate(FLAG_VALID | FLAG_W));
    assert_eq!(e.addr().as_u64(), 0xABC_D000);
}
