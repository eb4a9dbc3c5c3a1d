use hyperion::ring::{RingBuf, RingBufMarker, Slot};

#[test]
fn init_empty() {
    let marker = RingBufMarker::new(5);

    assert_eq!(marker.free_space(), 4);
    assert_eq!(marker.used_space(), 0);

    assert_eq!(marker.consume(3), None, "the ring buf should be empty");
}

#[test]
fn fill() {
    let mut marker = RingBufMarker::new(5);

    let slot = marker.acquire(4).unwrap();
    marker.produce(slot);
    assert_eq!(marker.free_space(), 0);
    assert_eq!(marker.used_space(), 4);
}

#[test]
fn fill_offset() {
    let mut marker = RingBufMarker::new(5);

    let slot = marker.acquire(2).unwrap();
    marker.produce(slot);
    assert_eq!(marker.free_space(), 2);
    assert_eq!(marker.used_space(), 2);

    let slot = marker.consume(1).unwrap();
    marker.release(slot);
    assert_eq!(marker.free_space(), 3);
    assert_eq!(marker.used_space(), 1);

    let slot = marker.consume(1).unwrap();
    marker.release(slot);
    assert_eq!(marker.free_space(), 4);
    assert_eq!(marker.used_space(), 0);

    let slot = marker.acquire(4).unwrap();
    marker.produce(slot);
    assert_eq!(marker.free_space(), 0);
    assert_eq!(marker.used_space(), 4);
}

#[test]
fn rw() {
    let mut marker = RingBufMarker::new(255);

    let slot = marker.acquire(63).unwrap();
    marker.produce(slot);
    assert_eq!(marker.free_space(), 191);
    assert_eq!(marker.used_space(), 63);

    let slot = marker.consume(140);
    assert_eq!(slot, None);
}

#[test]
fn acquire_too_much_is_refused() {
    let marker = RingBufMarker::new(5);
    assert_eq!(marker.acquire(5), None);
    assert_eq!(marker.acquire_up_to(9).len(), 4);
}

#[test]
fn wrapped_slot_splits_in_two() {
    let mut marker = RingBufMarker::new(5);
    let slot = marker.acquire(4).unwrap();
    marker.produce(slot);
    let slot = marker.consume(3).unwrap();
    marker.release(slot);
    // read at 3, write at 4: the free positions wrap around
    let slot = marker.uninit_slot();
    assert_eq!(slot.first(), 4);
    assert_eq!(slot.len(), 3);
    let data = [10, 11, 12, 13, 14];
    let (a, b) = slot.slices(&data);
    assert_eq!(a, &[14]);
    assert_eq!(b, &[10, 11]);
}

#[test]
fn slot_take_and_min() {
    let slot = Slot::new(2, 3);
    assert_eq!(slot.take(4), None);
    let taken = Slot::new(2, 3).take(2).unwrap();
    assert_eq!((taken.first(), taken.len()), (2, 2));
    let clipped = Slot::new(2, 3).min(10);
    assert_eq!(clipped.len(), 3);
}

#[test]
fn ring_buf_is_first_in_first_out() {
    let mut ring: RingBuf<u32> = RingBuf::new(4);
    assert_eq!(ring.push(1), Ok(()));
    assert_eq!(ring.push(2), Ok(()));
    assert_eq!(ring.push(3), Ok(()));
    assert_eq!(ring.push(4), Err(4));
    assert_eq!(ring.len(), 3);
    assert_eq!(ring.pop(), Some(1));
    assert_eq!(ring.pop(), Some(2));
    assert_eq!(ring.push(5), Ok(()));
    assert_eq!(ring.pop(), Some(3));
    assert_eq!(ring.pop(), Some(5));
    assert_eq!(ring.pop(), None);
}

#[test]
fn ring_buf_slices_wrap() {
    let mut ring: RingBuf<u8> = RingBuf::new(4);
    assert_eq!(ring.push_slice(&[1, 2, 3, 4, 5]), 3);
    let mut out = [0u8; 2];
    assert_eq!(ring.pop_slice(&mut out), 2);
    assert_eq!(out, [1, 2]);
    assert_eq!(ring.push_slice(&[6, 7]), 2);
    let mut out = [0u8; 5];
    assert_eq!(ring.pop_slice(&mut out), 3);
    assert_eq!(&out[..3], &[3, 6, 7]);
}

#[test]
fn arrays_in_and_out() {
    let mut rb: RingBuf<u8> = RingBuf::new(4);
    assert_eq!(rb.push_arr([1u8]), Ok(()));
    assert_eq!(rb.push_arr([2u8]), Ok(()));
    assert_eq!(rb.push_arr([3u8]), Ok(()));
    assert_eq!(rb.push_arr([4u8]), Err([4u8]));
    assert_eq!(rb.pop_arr::<4>(), None);
    assert_eq!(rb.pop_arr::<2>(), Some(vec![1, 2]));
    assert_eq!(rb.len(), 1);
    assert_eq!(rb.pop_arr::<0>(), Some(vec![]));
}
