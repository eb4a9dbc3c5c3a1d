use hyperion::addr::{align_down, align_up, is_aligned, PhysAddr, VirtAddr, HHDM};

#[test]
fn align_helpers_round_to_the_alignment() {
    assert_eq!(align_down(0x1234, 0x1000), 0x1000);
    assert_eq!(align_up(0x1234, 0x1000), 0x2000);
    assert_eq!(align_up(0x2000, 0x1000), 0x2000);
    assert!(is_aligned(0x3000, 0x1000));
    assert!(!is_aligned(0x3001, 0x1000));
}

#[test]
fn phys_addr_checks_its_width() {
    assert!(PhysAddr::try_from(0x10_0000_0000_0000).is_err());
    assert_eq!(PhysAddr::try_from(0xF_FFFF_FFFF_FFFF).unwrap().as_u64(), 0xF_FFFF_FFFF_FFFF);
    assert_eq!(PhysAddr::new_truncate(0x1F_0000_0000_1234).as_u64(), 0xF_0000_0000_1234);
}

#[test]
fn phys_addr_to_hhdm_adds_the_offset() {
    let p = PhysAddr::new(0x1234);
    assert_eq!(p.to_hhdm().as_u64(), HHDM + 0x1234);
}

#[test]
fn phys_addr_alignment() {
    let p = PhysAddr::new(0x1801);
    assert_eq!(p.align_down().as_u64(), 0x1000);
    assert_eq!(p.align_up().as_u64(), 0x2000);
    assert!(!p.is_aligned());
    assert_eq!(PhysAddr::new(0x10).abs_diff(PhysAddr::new(0x4)), 0xC);
}

#[test]
fn virt_addr_canonical_forms() {
    assert!(VirtAddr::try_from(0x0000_8000_0000_0000).is_err());
    assert_eq!(VirtAddr::new_truncate(0x0000_8000_0000_0000).as_u64(), 0xFFFF_8000_0000_0000);
    assert_eq!(VirtAddr::new_truncate(0x1234_0000_0000_1000).as_u64(), 0x1000);
    assert_eq!(VirtAddr::new(0x1234).offset(), 0x234);
}

#[test]
fn virt_addr_table_indices() {
    let v = VirtAddr::new((3 << 39) | (5 << 30) | (7 << 21) | (9 << 12) | 0x12);
    assert_eq!(v.table_indices(), [3, 5, 7, 9]);
}
