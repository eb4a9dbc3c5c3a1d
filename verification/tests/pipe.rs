use hyperion::pipe::{Channel, RecvSliceStep, RecvStep, SendSliceStep, SendStep};

#[test]
fn bytes_come_out_in_order() {
    let mut ch = Channel::new(2);
    assert_eq!(ch.send_round(1), SendStep::Sent);
    assert_eq!(ch.send_round(2), SendStep::Sent);
    assert_eq!(ch.send_round(3), SendStep::Full);
    assert_eq!(ch.recv_round(), RecvStep::Got(1));
    assert_eq!(ch.send_round(3), SendStep::Sent);
    assert_eq!(ch.recv_round(), RecvStep::Got(2));
    assert_eq!(ch.recv_round(), RecvStep::Got(3));
    assert_eq!(ch.recv_round(), RecvStep::Empty);
}

#[test]
fn closed_ends() {
    let mut ch = Channel::new_pipe();
    assert_eq!(ch.send_round(7), SendStep::Sent);
    ch.close_send();
    assert!(ch.send_closed() && !ch.recv_closed());
    // what was sent before the close still comes out
    assert_eq!(ch.recv_round(), RecvStep::Got(7));
    assert_eq!(ch.recv_round(), RecvStep::Closed);
    ch.close_recv();
    assert_eq!(ch.send_round(8), SendStep::Closed);
    assert_eq!(ch.send_slice_round(&[1, 2]), SendSliceStep::Closed);
    assert_eq!(ch.send_slice_round(&[]), SendSliceStep::Done);
}

#[test]
fn slices_through_a_small_pipe() {
    let mut ch = Channel::new(4);
    assert_eq!(ch.send_slice_round(b"abcdef"), SendSliceStep::Partial(4));
    let mut buf = [0u8; 3];
    assert_eq!(ch.recv_slice_round(&mut buf), RecvSliceStep::Got(3));
    assert_eq!(&buf, b"abc");
    assert_eq!(ch.send_slice_round(b"ef"), SendSliceStep::Done);
    let mut buf = [9u8; 5];
    assert_eq!(ch.recv_slice_round(&mut buf), RecvSliceStep::Got(3));
    assert_eq!(&buf, b"def\x09\x09");
    assert_eq!(ch.recv_slice_round(&mut buf), RecvSliceStep::Empty);
    assert_eq!(ch.recv_slice_round(&mut []), RecvSliceStep::Got(0));
    ch.close_send();
    assert_eq!(ch.recv_slice_round(&mut buf), RecvSliceStep::Closed);
}
