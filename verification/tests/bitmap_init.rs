use hyperion::bitmap_init::init_frame_allocator;

#[test]
fn bitmap_goes_to_the_first_range_that_holds_it() {
    // 0x8_0001 bytes of address space take 0x1_0001 bytes of bitmap
    let regions = vec![(0x1000, 0x8000), (0x20_0000, 0x1_0000), (0x40_0000, 0x2_0000), (0x80_0000, 0x4_0000)];
    assert_eq!(init_frame_allocator(&regions, 0x1000, 0x8_1001), Some((0x40_0000, 0x1_0001)));
    assert_eq!(init_frame_allocator(&regions, 0, 0x8_0000), Some((0x20_0000, 0x1_0000)));
    assert_eq!(init_frame_allocator(&regions, 0, 0x100_0000), None);
    assert_eq!(init_frame_allocator(&vec![], 5, 5), None);
}
