//! Byte pipes between processes: a ring buffer of the `ringbuf` crate, and whether
//! each end has been closed.
//!
//! Each round of sending or receiving is one call here; when a round has to wait
//! for the other side, the caller notifies and waits on the pipe's condition
//! variables and makes the next round.

use vstd::prelude::*;

verus! {

/// A ring buffer of bytes of the `ringbuf` crate. Verus does not take the crate's
/// generic ring type, so the ring is held in a field that Verus does not see; what
/// it holds is named by [`ring_items`] and [`ring_capacity`].
#[verifier::external_body]
pub struct ByteRing {
    rb: ringbuf::HeapRb<u8>,
}

/// The bytes a ring holds, oldest first.
pub uninterp spec fn ring_items(rb: ByteRing) -> Seq<u8>;

/// How many bytes a ring can hold: the capacity it was made with.
pub uninterp spec fn ring_capacity(rb: ByteRing) -> nat;

/// `ringbuf::HeapRb::new`: an empty ring with room for `capacity` bytes; the crate
/// panics on a capacity of 0.
#[verifier::external_body]
fn ring_new(capacity: usize) -> (r: ByteRing)
    requires
        capacity > 0,
    ensures
        ring_items(r) == Seq::<u8>::empty(),
        ring_capacity(r) == capacity,
{
    ByteRing { rb: ringbuf::HeapRb::new(capacity) }
}

/// `ringbuf::Producer::push`: appends `item` when the ring is not full, else hands
/// it back.
#[verifier::external_body]
fn ring_push(rb: &mut ByteRing, item: u8) -> (r: Result<(), u8>)
    requires
        ring_items(*old(rb)).len() <= ring_capacity(*old(rb)),
    ensures
        ring_capacity(*final(rb)) == ring_capacity(*old(rb)),
        ring_items(*old(rb)).len() < ring_capacity(*old(rb)) ==> r is Ok && ring_items(*final(rb)) == ring_items(*old(rb)).push(item),
        ring_items(*old(rb)).len() >= ring_capacity(*old(rb)) ==> r is Err && r->Err_0 == item,
        ring_items(*old(rb)).len() >= ring_capacity(*old(rb)) ==> ring_items(*final(rb)) == ring_items(*old(rb)),
{
    let (mut prod, _cons) = rb.rb.split_ref();
    prod.push(item)
}

/// `ringbuf::Consumer::pop`: takes the oldest byte out, if there is one.
#[verifier::external_body]
fn ring_pop(rb: &mut ByteRing) -> (r: Option<u8>)
    ensures
        ring_capacity(*final(rb)) == ring_capacity(*old(rb)),
        ring_items(*old(rb)).len() > 0 ==> r == Some(ring_items(*old(rb))[0]) && ring_items(*final(rb))
            == ring_items(*old(rb)).drop_first(),
        ring_items(*old(rb)).len() == 0 ==> r is None && ring_items(*final(rb)) == ring_items(*old(rb)),
{
    let (_prod, mut cons) = rb.rb.split_ref();
    cons.pop()
}

/// `ringbuf::Producer::push_slice`: appends as many bytes of `data` as there is
/// room for, and says how many.
#[verifier::external_body]
fn ring_push_slice(rb: &mut ByteRing, data: &[u8]) -> (r: usize)
    requires
        ring_items(*old(rb)).len() <= ring_capacity(*old(rb)),
    ensures
        ring_capacity(*final(rb)) == ring_capacity(*old(rb)),
        r == if data@.len() <= ring_capacity(*old(rb)) - ring_items(*old(rb)).len() {
            data@.len() as int
        } else {
            ring_capacity(*old(rb)) - ring_items(*old(rb)).len()
        },
        ring_items(*final(rb)) == ring_items(*old(rb)) + data@.subrange(0, r as int),
{
    let (mut prod, _cons) = rb.rb.split_ref();
    prod.push_slice(data)
}

/// `ringbuf::Consumer::pop_slice`: moves as many of the oldest bytes as fit into the
/// front of `buf`, and says how many.
#[verifier::external_body]
fn ring_pop_slice(rb: &mut ByteRing, buf: &mut [u8]) -> (r: usize)
    ensures
        ring_capacity(*final(rb)) == ring_capacity(*old(rb)),
        r == if old(buf)@.len() <= ring_items(*old(rb)).len() {
            old(buf)@.len() as int
        } else {
            ring_items(*old(rb)).len() as int
        },
        final(buf)@ == ring_items(*old(rb)).subrange(0, r as int) + old(buf)@.subrange(
            r as int,
            old(buf)@.len() as int,
        ),
        ring_items(*final(rb)) == ring_items(*old(rb)).skip(r as int),
{
    let (_prod, mut cons) = rb.rb.split_ref();
    cons.pop_slice(buf)
}

/// The pipe was closed on the other side.
#[derive(Debug, Clone, Copy, PartialEq, Eq, Structural)]
pub struct Closed;

/// What a round of sending one byte comes to.
#[derive(Debug, Clone, Copy, PartialEq, Eq, Structural)]
pub enum SendStep {
    /// The byte is in the pipe.
    Sent,
    /// The pipe is full: wait for the receiver and make another round.
    Full,
    /// The receiving end is closed.
    Closed,
}

/// What a round of receiving one byte comes to.
#[derive(Debug, Clone, Copy, PartialEq, Eq, Structural)]
pub enum RecvStep {
    /// The oldest byte of the pipe.
    Got(u8),
    /// The pipe is empty: wait for the sender and make another round.
    Empty,
    /// The pipe is empty and the sending end is closed.
    Closed,
}

/// What a round of sending bytes comes to.
#[derive(Debug, Clone, Copy, PartialEq, Eq, Structural)]
pub enum SendSliceStep {
    /// All the bytes are in the pipe.
    Done,
    /// This many of the bytes went in: wait for the receiver and send the rest.
    Partial(usize),
    /// The receiving end is closed.
    Closed,
}

/// What a round of receiving bytes comes to.
#[derive(Debug, Clone, Copy, PartialEq, Eq, Structural)]
pub enum RecvSliceStep {
    /// This many bytes were received.
    Got(usize),
    /// The pipe is empty: wait for the sender and make another round.
    Empty,
    /// The pipe is empty and the sending end is closed.
    Closed,
}

/// Room of a pipe made by [`Channel::new_pipe`].
pub const PIPE_CAPACITY: usize = 0x1000;

/// A pipe of bytes.
pub struct Channel {
    ring: ByteRing,
    send_closed: bool,
    recv_closed: bool,
}

impl Channel {
    pub closed spec fn wf(&self) -> bool {
        ring_items(self.ring).len() <= ring_capacity(self.ring)
    }

    /// The bytes in the pipe, oldest first.
    pub closed spec fn items(&self) -> Seq<u8> {
        ring_items(self.ring)
    }

    /// How many bytes the pipe holds at most.
    pub closed spec fn capacity(&self) -> nat {
        ring_capacity(self.ring)
    }

    pub closed spec fn spec_send_closed(&self) -> bool {
        self.send_closed
    }

    pub closed spec fn spec_recv_closed(&self) -> bool {
        self.recv_closed
    }

    /// An open, empty pipe with room for `capacity` bytes; the ring panics on 0.
    pub fn new(capacity: usize) -> (r: Self)
        requires
            capacity > 0,
        ensures
            r.wf(),
            r.items() == Seq::<u8>::empty(),
            r.capacity() == capacity,
            !r.spec_send_closed(),
            !r.spec_recv_closed(),
    {
        Channel { ring: ring_new(capacity), send_closed: false, recv_closed: false }
    }

    /// An open, empty pipe of the default room.
    pub fn new_pipe() -> (r: Self)
        ensures
            r.wf(),
            r.items() == Seq::<u8>::empty(),
            r.capacity() == PIPE_CAPACITY,
            !r.spec_send_closed(),
            !r.spec_recv_closed(),
    {
        Self::new(PIPE_CAPACITY)
    }

    /// One round of sending `item`: refused once the receiver closed, in when there is
    /// room, else the round is to be made again.
    pub fn send_round(&mut self, item: u8) -> (r: SendStep)
        requires
            old(self).wf(),
        ensures
            final(self).wf(),
            final(self).capacity() == old(self).capacity(),
            final(self).spec_send_closed() == old(self).spec_send_closed(),
            final(self).spec_recv_closed() == old(self).spec_recv_closed(),
            old(self).spec_recv_closed() ==> r == SendStep::Closed && final(self).items() == old(self).items(),
            !old(self).spec_recv_closed() && old(self).items().len() < old(self).capacity() ==> r
                == SendStep::Sent && final(self).items() == old(self).items().push(item),
            !old(self).spec_recv_closed() && old(self).items().len() >= old(self).capacity() ==> r
                == SendStep::Full && final(self).items() == old(self).items(),
    {
        if self.recv_closed {
            return SendStep::Closed;
        }
        match ring_push(&mut self.ring, item) {
            Ok(()) => SendStep::Sent,
            Err(_) => SendStep::Full,
        }
    }

    /// One round of receiving: the oldest byte if there is one, else refused once the
    /// sender closed, else the round is to be made again.
    pub fn recv_round(&mut self) -> (r: RecvStep)
        requires
            old(self).wf(),
        ensures
            final(self).wf(),
            final(self).capacity() == old(self).capacity(),
            final(self).spec_send_closed() == old(self).spec_send_closed(),
            final(self).spec_recv_closed() == old(self).spec_recv_closed(),
            old(self).items().len() > 0 ==> r == RecvStep::Got(old(self).items()[0]) && final(self).items()
                == old(self).items().drop_first(),
            old(self).items().len() == 0 ==> final(self).items() == old(self).items() && r == if old(
                self,
            ).spec_send_closed() {
                RecvStep::Closed
            } else {
                RecvStep::Empty
            },
    {
        match ring_pop(&mut self.ring) {
            Some(item) => RecvStep::Got(item),
            None => {
                if self.send_closed {
                    RecvStep::Closed
                } else {
                    RecvStep::Empty
                }
            },
        }
    }

    /// One round of sending `data`: nothing to do for no bytes; refused once the
    /// receiver closed; else as many bytes go in as there is room for.
    pub fn send_slice_round(&mut self, data: &[u8]) -> (r: SendSliceStep)
        requires
            old(self).wf(),
        ensures
            final(self).wf(),
            final(self).capacity() == old(self).capacity(),
            final(self).spec_send_closed() == old(self).spec_send_closed(),
            final(self).spec_recv_closed() == old(self).spec_recv_closed(),
            data@.len() == 0 ==> r == SendSliceStep::Done && final(self).items() == old(self).items(),
            data@.len() > 0 && old(self).spec_recv_closed() ==> r == SendSliceStep::Closed && final(self).items()
                == old(self).items(),
            data@.len() > 0 && !old(self).spec_recv_closed() ==> {
                let room = old(self).capacity() - old(self).items().len();
                if data@.len() <= room {
                    r == SendSliceStep::Done && final(self).items() == old(self).items() + data@
                } else {
                    r == SendSliceStep::Partial(room as usize) && final(self).items() == old(self).items()
                        + data@.subrange(0, room)
                }
            },
    {
        if data.len() == 0 {
            return SendSliceStep::Done;
        }
        if self.recv_closed {
            return SendSliceStep::Closed;
        }
        let sent = ring_push_slice(&mut self.ring, data);
        if sent == data.len() {
            assert(data@.subrange(0, sent as int) =~= data@);
            SendSliceStep::Done
        } else {
            SendSliceStep::Partial(sent)
        }
    }

    /// One round of receiving into `buf`: nothing to do for no room; else as many of
    /// the oldest bytes as fit; when there were none, refused once the sender closed,
    /// else the round is to be made again.
    pub fn recv_slice_round(&mut self, buf: &mut [u8]) -> (r: RecvSliceStep)
        requires
            old(self).wf(),
        ensures
            final(self).wf(),
            final(self).capacity() == old(self).capacity(),
            final(self).spec_send_closed() == old(self).spec_send_closed(),
            final(self).spec_recv_closed() == old(self).spec_recv_closed(),
            final(buf)@.len() == old(buf)@.len(),
            old(buf)@.len() == 0 ==> r == RecvSliceStep::Got(0) && final(self).items() == old(self).items(),
            old(buf)@.len() > 0 && old(self).items().len() == 0 ==> final(self).items() == old(self).items()
                && final(buf)@ == old(buf)@ && r == if old(self).spec_send_closed() {
                RecvSliceStep::Closed
            } else {
                RecvSliceStep::Empty
            },
            old(buf)@.len() > 0 && old(self).items().len() > 0 ==> {
                let n = if old(buf)@.len() <= old(self).items().len() {
                    old(buf)@.len() as int
                } else {
                    old(self).items().len() as int
                };
                &&& r == RecvSliceStep::Got(n as usize)
                &&& final(buf)@.subrange(0, n) == old(self).items().subrange(0, n)
                &&& final(buf)@.subrange(n, old(buf)@.len() as int) == old(buf)@.subrange(n, old(buf)@.len() as int)
                &&& final(self).items() == old(self).items().skip(n)
            },
    {
        if buf.len() == 0 {
            return RecvSliceStep::Got(0);
        }
        let count = ring_pop_slice(&mut self.ring, buf);
        if count != 0 {
            return RecvSliceStep::Got(count);
        }
        assert(buf@ =~= old(buf)@);
        if self.send_closed {
            RecvSliceStep::Closed
        } else {
            RecvSliceStep::Empty
        }
    }

    /// Close the sending end.
    pub fn close_send(&mut self)
        ensures
            final(self).spec_send_closed(),
            final(self).spec_recv_closed() == old(self).spec_recv_closed(),
            final(self).items() == old(self).items(),
            final(self).capacity() == old(self).capacity(),
            final(self).wf() == old(self).wf(),
    {
        self.send_closed = true;
    }

    /// Close the receiving end.
    pub fn close_recv(&mut self)
        ensures
            final(self).spec_recv_closed(),
            final(self).spec_send_closed() == old(self).spec_send_closed(),
            final(self).items() == old(self).items(),
            final(self).capacity() == old(self).capacity(),
            final(self).wf() == old(self).wf(),
    {
        self.recv_closed = true;
    }

    /// Has the sending end been closed?
    pub fn send_closed(&self) -> (r: bool)
        ensures
            r == self.spec_send_closed(),
    {
        self.send_closed
    }

    /// Has the receiving end been closed?
    pub fn recv_closed(&self) -> (r: bool)
        ensures
            r == self.spec_recv_closed(),
    {
        self.recv_closed
    }
}

/// Bytes sent into a pipe come out after the bytes that were in it already, in the
/// order they were sent: a receive of as many bytes as were in the pipe gives those,
/// and the sent bytes are what is left.
pub proof fn lemma_sent_bytes_come_out_in_order(
    before: Channel,
    sent: Channel,
    received: Channel,
    data: Seq<u8>,
    got: Seq<u8>,
)
    requires
        sent.items() == before.items() + data,
        got == sent.items().subrange(0, before.items().len() as int),
        received.items() == sent.items().skip(before.items().len() as int),
    ensures
        got == before.items(),
        received.items() == data,
{
    assert(got =~= before.items());
    assert(received.items() =~= data);
}

} // verus!
