use hyperion::vmm::{IdCounter, MapTarget, MemoryInfo, PageFaultResult};

#[test]
fn ids_count_up() {
    let mut ids = IdCounter::new(5);
    let a = MemoryInfo::zero(&mut ids);
    let b = MemoryInfo::symmetric(3, &mut ids);
    assert_eq!((a.id, a.virt_pages, a.phys_pages), (5, 0, 0));
    assert_eq!((b.id, b.virt_pages, b.phys_pages), (6, 3, 3));
    assert_eq!(ids.next(), 7);
}

#[test]
fn memory_info_sizes() {
    let mut ids = IdCounter::new(0);
    let mut m = MemoryInfo::zero(&mut ids);
    m.add_virt(4);
    m.add_phys(2);
    m.sub_virt(1);
    assert_eq!(m.virt_size(), 3 * 0x1000);
    assert_eq!(m.phys_size(), 2 * 0x1000);
}

#[test]
fn map_target_moves_its_address() {
    let mut t = MapTarget::Borrowed(0x1000);
    t.inc_addr(0x2000);
    assert!(matches!(t, MapTarget::Borrowed(0x3000)));
    let mut l = MapTarget::LazyAlloc;
    l.inc_addr(0x2000);
    assert!(matches!(l, MapTarget::LazyAlloc));
}

#[test]
fn map_target_alignment() {
    assert!(MapTarget::Preallocated(0x4000).is_aligned(0x2000));
    assert!(!MapTarget::Preallocated(0x3000).is_aligned(0x2000));
    assert!(MapTarget::NeverMap.is_aligned(0x1000));
}

#[test]
fn page_fault_results() {
    assert!(PageFaultResult::Handled.is_handled());
    assert!(!PageFaultResult::NotHandled.is_handled());
}

#[test]
fn address_space_ids_start_at_zero() {
    let mut ids = MemoryInfo::counter();
    let a = MemoryInfo::symmetric(2, &mut ids);
    let b = MemoryInfo::zero(&mut ids);
    assert_eq!((a.id, b.id), (0, 1));
    assert_eq!((b.virt_size(), b.phys_size()), (0, 0));
}
