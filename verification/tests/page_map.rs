use hyperion::addr::{PhysAddr, VirtAddr};
use hyperion::page_map::{PageCopy, PageSource};
use hyperion::page_table::{PageFlags, PageTable, PageTableMemory, FLAG_R, FLAG_VALID, FLAG_W, FLAG_X};

fn fresh_pages(n: u64) -> PageSource {
    PageSource::new((0..n).map(|i| 0x100_0000 + i * 0x1000).collect())
}

#[test]
fn map_offset_maps_each_page() {
    let mut root = PageTable::new();
    let mut mem = PageTableMemory { tables: Vec::new() };
    let mut src = fresh_pages(16);
    let flags = PageFlags::from_bits_truncate(FLAG_R | FLAG_W);
    root.map_offset_without_paging(
        &mut mem,
        &mut src,
        VirtAddr::new(0x4000_0000)..VirtAddr::new(0x4000_3000),
        flags,
        PhysAddr::new(0x8000_0000),
    );
    // three tables below the root: levels 1, 2 and 3
    assert_eq!(mem.tables.len(), 3);
    assert_eq!(src.len(), 13);
    for i in 0..3u64 {
        let (phys, f) = root.walk_without_paging(&mem, VirtAddr::new(0x4000_0000 + i * 0x1000));
        assert_eq!(phys.unwrap().as_u64(), 0x8000_0000 + i * 0x1000);
        assert_eq!(f.bits(), FLAG_VALID | FLAG_R | FLAG_W);
    }
    let (phys, f) = root.walk_without_paging(&mem, VirtAddr::new(0x4000_3000));
    assert!(phys.is_none());
    assert_eq!(f.bits(), 0);
}

#[test]
fn map_offset_rounds_the_range_out_to_pages() {
    let mut root = PageTable::new();
    let mut mem = PageTableMemory { tables: Vec::new() };
    let mut src = fresh_pages(8);
    root.map_offset_without_paging(
        &mut mem,
        &mut src,
        VirtAddr::new(0x1_0000_0800)..VirtAddr::new(0x1_0000_1001),
        PageFlags::from_bits_truncate(FLAG_R),
        PhysAddr::new(0x20_0fff),
    );
    let (phys, _) = root.walk_without_paging(&mem, VirtAddr::new(0x1_0000_0000));
    assert_eq!(phys.unwrap().as_u64(), 0x20_0000);
    let (phys, _) = root.walk_without_paging(&mem, VirtAddr::new(0x1_0000_1000));
    assert_eq!(phys.unwrap().as_u64(), 0x20_1000);
}

#[test]
fn map_offset_uses_a_large_page_when_both_sides_are_aligned() {
    let mut root = PageTable::new();
    let mut mem = PageTableMemory { tables: Vec::new() };
    let mut src = fresh_pages(8);
    root.map_offset_without_paging(
        &mut mem,
        &mut src,
        VirtAddr::new(0x4000_0000)..VirtAddr::new(0x4020_0000),
        PageFlags::from_bits_truncate(FLAG_R | FLAG_X),
        PhysAddr::new(0x60_0000),
    );
    // one 2MiB entry: tables at levels 1 and 2 only
    assert_eq!(mem.tables.len(), 2);
    // the walk gives the start of the large page for any address in it
    let (phys, f) = root.walk_without_paging(&mem, VirtAddr::new(0x4012_3456));
    assert_eq!(phys.unwrap().as_u64(), 0x60_0000);
    assert_eq!(f.bits(), FLAG_VALID | FLAG_R | FLAG_X);
}

#[test]
fn map_keeps_existing_mappings() {
    let mut root = PageTable::new();
    let mut mem = PageTableMemory { tables: Vec::new() };
    let mut src = fresh_pages(16);
    let flags = PageFlags::from_bits_truncate(FLAG_R | FLAG_W);
    root.map_offset_without_paging(
        &mut mem,
        &mut src,
        VirtAddr::new(0x5000)..VirtAddr::new(0x6000),
        flags,
        PhysAddr::new(0x9000),
    );
    root.map_offset_without_paging(
        &mut mem,
        &mut src,
        VirtAddr::new(0x6000)..VirtAddr::new(0x8000),
        flags,
        PhysAddr::new(0xA000),
    );
    // the second mapping reused the tables of the first
    assert_eq!(mem.tables.len(), 3);
    let (phys, _) = root.walk_without_paging(&mem, VirtAddr::new(0x5000));
    assert_eq!(phys.unwrap().as_u64(), 0x9000);
    let (phys, _) = root.walk_without_paging(&mem, VirtAddr::new(0x7000));
    assert_eq!(phys.unwrap().as_u64(), 0xB000);
}

#[test]
fn map_identity_maps_to_the_same_address() {
    let mut root = PageTable::new();
    let mut mem = PageTableMemory { tables: Vec::new() };
    let mut src = fresh_pages(8);
    root.map_identity_without_paging(
        &mut mem,
        &mut src,
        VirtAddr::new(0x8000_0000)..VirtAddr::new(0x8000_2000),
        PageFlags::from_bits_truncate(FLAG_R),
    );
    let (phys, _) = root.walk_without_paging(&mem, VirtAddr::new(0x8000_1000));
    assert_eq!(phys.unwrap().as_u64(), 0x8000_1000);
}

#[test]
fn map_data_takes_pages_and_plans_the_copies() {
    let mut root = PageTable::new();
    let mut mem = PageTableMemory { tables: Vec::new() };
    let mut src = fresh_pages(8);
    let data = vec![0xAAu8; 0x1000];
    let plan = root.map_without_paging(
        &mut mem,
        &mut src,
        VirtAddr::new(0x40_0800)..VirtAddr::new(0x40_1000),
        PageFlags::from_bits_truncate(FLAG_R | FLAG_W),
        &data,
    );
    // the bytes start half way into the first page and spill into a second one
    assert_eq!(
        plan,
        vec![
            PageCopy { phys: 0x100_4000, fresh: true, offset: 0x800, src: 0, len: 0x800 },
            PageCopy { phys: 0x100_3000, fresh: true, offset: 0, src: 0x800, len: 0x800 },
        ]
    );
    // three pages for the tables, one per data page
    assert_eq!(src.len(), 3);
    let (phys, f) = root.walk_without_paging(&mem, VirtAddr::new(0x40_0000));
    assert_eq!(phys.unwrap().as_u64(), 0x100_4000);
    assert_eq!(f.bits(), FLAG_VALID | FLAG_R | FLAG_W);
    let (phys, _) = root.walk_without_paging(&mem, VirtAddr::new(0x40_1000));
    assert_eq!(phys.unwrap().as_u64(), 0x100_3000);

    // a second mapping over a page that is mapped already reuses it
    let plan = root.map_without_paging(
        &mut mem,
        &mut src,
        VirtAddr::new(0x40_1800)..VirtAddr::new(0x40_1900),
        PageFlags::from_bits_truncate(FLAG_R | FLAG_X),
        &data[..0x10],
    );
    assert_eq!(plan, vec![PageCopy { phys: 0x100_3000, fresh: false, offset: 0x800, src: 0, len: 0x10 }]);
    assert_eq!(src.len(), 3);
    let (_, f) = root.walk_without_paging(&mem, VirtAddr::new(0x40_1000));
    assert_eq!(f.bits(), FLAG_VALID | FLAG_R | FLAG_W);
}

#[test]
fn map_data_covers_the_range_when_the_bytes_are_few() {
    let mut root = PageTable::new();
    let mut mem = PageTableMemory { tables: Vec::new() };
    let mut src = fresh_pages(16);
    let plan = root.map_without_paging(
        &mut mem,
        &mut src,
        VirtAddr::new(0x40_0000)..VirtAddr::new(0x40_2001),
        PageFlags::from_bits_truncate(FLAG_R),
        &[1, 2, 3],
    );
    assert_eq!(plan.len(), 3);
    assert_eq!((plan[0].offset, plan[0].src, plan[0].len), (0, 0, 3));
    assert_eq!((plan[1].src, plan[1].len), (3, 0));
    assert_eq!((plan[2].src, plan[2].len), (3, 0));
    assert!(plan.iter().all(|c| c.fresh));
}

#[test]
fn satp_values() {
    let satp = PageTable::satp_for(PhysAddr::new(0x8020_1000));
    assert_eq!(satp, (9u64 << 60) | 0x80201);
    assert_eq!(PageTable::active_from_satp(satp).as_u64(), 0x8020_1000);
}
