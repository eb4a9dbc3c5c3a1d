use hyperion::buf::{buffer_window, page_split_iterator, ptr_range_info, PageIter};

#[test]
fn range_info_of_a_buffer_over_pages() {
    let info = ptr_range_info(0x1800, 0x3800);
    assert_eq!(info.inside_aligned_beg, 0x2000);
    assert_eq!(info.inside_aligned_end, 0x3000);
    assert_eq!(info.aligned_beg, 0x1000);
    assert_eq!(info.aligned_end, 0x4000);
    // measured from the start to the last page boundary
    assert_eq!(info.first_page_size, 0x1800);
    assert_eq!(info.last_page_size, 0x800);
    assert_eq!(info.n_full_pages, 1);
    assert_eq!(info.n_pages, 3);
}

#[test]
fn range_info_of_whole_pages() {
    let info = ptr_range_info(0x1000, 0x3000);
    assert_eq!(info.first_page_size, 0x2000);
    assert_eq!(info.last_page_size, 0);
    assert_eq!(info.n_full_pages, 2);
    assert_eq!(info.n_pages, 2);
}

#[test]
fn split_at_page_boundaries() {
    assert_eq!(
        page_split_iterator(0x1800, 0x3800),
        vec![(0x1800, 0x2000), (0x2000, 0x3000), (0x3000, 0x3800)]
    );
    // a start on a page boundary gives no head piece
    assert_eq!(page_split_iterator(0x1000, 0x3000), vec![(0x1000, 0x2000), (0x2000, 0x3000)]);
    assert_eq!(page_split_iterator(0x1000, 0x2800), vec![(0x1000, 0x2000), (0x2000, 0x2800)]);
}

#[test]
fn split_in_the_upper_half() {
    assert_eq!(
        page_split_iterator(0xFFFF_8000_0000_0100, 0xFFFF_8000_0000_1000),
        vec![(0xFFFF_8000_0000_0100, 0xFFFF_8000_0000_1000)]
    );
}

#[test]
fn buffer_window_of_a_process_buffer() {
    let w = buffer_window(0x1234_5800, 0x1000, 0xFFFF_FF00_0000_0000);
    assert_eq!(w.aligned_beg, 0x1234_5000);
    assert_eq!(w.window, 0xFFFF_FF00_0000_0000);
    // the steps are counted in bytes of the touched pages
    assert_eq!(w.n_pages, 0x2000);
    assert_eq!(w.start, 0xFFFF_FF00_0000_0800);
    assert_eq!(w.page(0), (0x1234_5000, 0xFFFF_FF00_0000_0000, 0x1234_5001));
    assert_eq!(w.page(1), (0x1234_6000, 0xFFFF_FF00_0000_1000, 0x1234_6001));
}

#[test]
fn page_pieces_of_a_range() {
    let mut it = PageIter { beg: 0x1800, end: 0x3800 };
    assert_eq!(it.size_hint(), (3, Some(3)));
    assert_eq!(it.next(), Some((0x1800, 0x2000)));
    // from a page boundary the next boundary is the start itself
    assert_eq!(it.next(), Some((0x2000, 0x2000)));
    let mut short = PageIter { beg: 0x1800, end: 0x1900 };
    assert_eq!(short.next(), Some((0x1800, 0x1900)));
    assert_eq!(short.next(), None);
}
