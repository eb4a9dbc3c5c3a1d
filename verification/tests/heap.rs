use hyperion::heap::{PageAllocator, HEAP_START};

#[test]
fn pages_round_up() {
    assert_eq!(PageAllocator::pages_for(0), 0);
    assert_eq!(PageAllocator::pages_for(1), 1);
    assert_eq!(PageAllocator::pages_for(0x1000), 1);
    assert_eq!(PageAllocator::pages_for(0x1001), 2);
}

#[test]
fn heap_grows_upwards() {
    let mut heap = PageAllocator::new();
    assert_eq!(heap.reserve(2), HEAP_START);
    assert_eq!(heap.reserve(1), HEAP_START + 0x2000);
    assert_eq!(heap.reserve(0), HEAP_START + 0x3000);
}
