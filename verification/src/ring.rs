//! Single producer, single consumer ring buffer indices and a ring buffer built on them.

use vstd::prelude::*;

verus! {

/// A run of `len` ring positions starting at `first`.
#[derive(Debug, PartialEq, Eq, Structural)]
pub struct Slot {
    first: usize,
    len: usize,
}

impl Slot {
    pub closed spec fn spec_first(&self) -> usize {
        self.first
    }

    pub closed spec fn spec_len(&self) -> usize {
        self.len
    }

    pub fn new(first: usize, len: usize) -> (r: Self)
        ensures
            r.first() == first,
            r.len() == len,
    {
        Self { first, len }
    }

    /// The first `n` positions, if there are that many.
    pub fn take(self, n: usize) -> (r: Option<Self>)
        ensures
            r is Some <==> n <= self.len(),
            r matches Some(s) ==> s.first() == self.first() && s.len() == n,
    {
        if self.len < n {
            None
        } else {
            Some(Self::new(self.first(), n))
        }
    }

    /// At most the first `n` positions.
    pub fn min(self, n: usize) -> (r: Self)
        ensures
            r.first() == self.first(),
            r.len() == if self.len() <= n { self.len() } else { n },
    {
        let len = if self.len() <= n { self.len() } else { n };
        Self::new(self.first(), len)
    }

    #[verifier::when_used_as_spec(spec_first)]
    pub fn first(&self) -> (r: usize)
        ensures
            r == self.spec_first(),
    {
        self.first
    }

    #[verifier::when_used_as_spec(spec_len)]
    pub fn len(&self) -> (r: usize)
        ensures
            r == self.spec_len(),
    {
        self.len
    }

    pub fn is_empty(&self) -> (r: bool)
        ensures
            r == (self.len() == 0),
    {
        self.len() == 0
    }

    /// The positions of this slot inside `slice`, wrapping around its end: the
    /// part up to the end of `slice` and the part from its start.
    pub fn slices<'a, T>(&self, slice: &'a [T]) -> (r: (&'a [T], &'a [T]))
        requires
            self.len() <= slice@.len(),
            self.first() <= slice@.len(),
            self.first() + self.len() <= usize::MAX,
        ensures
            self.first() + self.len() <= slice@.len() ==> r.0@ == slice@.subrange(
                self.first() as int,
                self.first() + self.len(),
            ) && r.1@ == Seq::<T>::empty(),
            self.first() + self.len() > slice@.len() ==> r.0@ == slice@.subrange(
                self.first() as int,
                slice@.len() as int,
            ) && r.1@ == slice@.subrange(0, self.first() + self.len() - slice@.len()),
            (r.0@ + r.1@).len() == self.len(),
            forall|i: int|
                0 <= i < self.len() ==> #[trigger] (r.0@ + r.1@)[i] == slice@[(self.first() + i)
                    % slice@.len() as int],
    {
        if self.first() + self.len() <= slice.len() {
            let a = &slice[self.first()..self.first() + self.len()];
            let b = &slice[0..0];
            proof {
                assert forall|i: int| 0 <= i < self.len() implies #[trigger] (a@ + b@)[i]
                    == slice@[(self.first() + i) % slice@.len() as int] by {
                    vstd::arithmetic::div_mod::lemma_small_mod(
                        (self.first() + i) as nat,
                        slice@.len() as nat,
                    );
                }
            }
            (a, b)
        } else {
            let first = &slice[self.first()..slice.len()];
            let second = &slice[0..self.len() - first.len()];
            proof {
                let n = slice@.len() as int;
                assert forall|i: int| 0 <= i < self.len() implies #[trigger] (first@ + second@)[i]
                    == slice@[(self.first() + i) % n] by {
                    if self.first() + i < n {
                        vstd::arithmetic::div_mod::lemma_small_mod(
                            (self.first() + i) as nat,
                            n as nat,
                        );
                    } else {
                        vstd::arithmetic::div_mod::lemma_mod_sub_multiples_vanish(
                            self.first() + i,
                            n,
                        );
                        vstd::arithmetic::div_mod::lemma_small_mod(
                            (self.first() + i - n) as nat,
                            n as nat,
                        );
                    }
                }
            }
            (first, second)
        }
    }
}

/// Number of positions in use when the reader is at `read` and the writer at `write`.
pub open spec fn ring_used(read: int, write: int, capacity: int) -> int {
    if read <= write {
        write - read
    } else {
        capacity - read + write
    }
}

/// Read and write ends of a ring of `capacity` positions.
///
/// `read == write` always means empty, so at most `capacity - 1` positions are in use.
/// [`RingBufMarker::acquire`] is paired with [`RingBufMarker::produce`] on the writing
/// side and [`RingBufMarker::consume`] with [`RingBufMarker::release`] on the reading side.
#[derive(Debug)]
pub struct RingBufMarker {
    read: usize,
    write: usize,
    capacity: usize,
}

impl RingBufMarker {
    pub closed spec fn wf(&self) -> bool {
        &&& self.capacity > 0
        &&& self.read < self.capacity
        &&& self.write < self.capacity
    }

    pub closed spec fn read_end(&self) -> usize {
        self.read
    }

    pub closed spec fn write_end(&self) -> usize {
        self.write
    }

    pub closed spec fn capacity(&self) -> usize {
        self.capacity
    }

    /// Positions written and not yet released.
    pub open spec fn used(&self) -> int {
        ring_used(self.read_end() as int, self.write_end() as int, self.capacity() as int)
    }

    /// Positions that can be acquired.
    pub open spec fn free(&self) -> int {
        self.capacity() - 1 - self.used()
    }

    pub proof fn lemma_wf(&self)
        requires
            self.wf(),
        ensures
            self.capacity() > 0,
            self.read_end() < self.capacity(),
            self.write_end() < self.capacity(),
            0 <= self.used() < self.capacity(),
            self.used() == (self.write_end() - self.read_end()) % (self.capacity() as int),
    {
        let c = self.capacity as int;
        if self.read <= self.write {
            vstd::arithmetic::div_mod::lemma_small_mod(
                (self.write - self.read) as nat,
                c as nat,
            );
        } else {
            vstd::arithmetic::div_mod::lemma_mod_add_multiples_vanish(
                self.write - self.read,
                c,
            );
            vstd::arithmetic::div_mod::lemma_small_mod(
                (c + self.write - self.read) as nat,
                c as nat,
            );
        }
    }

    /// An empty ring of `len` positions; panics when `len` is 0.
    pub fn new(len: usize) -> (r: Self)
        requires
            len != 0,
        ensures
            r.wf(),
            r.capacity() == len,
            r.read_end() == 0,
            r.write_end() == 0,
            r.used() == 0,
    {
        Self { read: 0, write: 0, capacity: len }
    }

    /// The positions that can be written next.
    pub fn uninit_slot(&self) -> (r: Slot)
        requires
            self.wf(),
        ensures
            r.first() == self.write_end(),
            r.len() == self.free(),
    {
        let write = self.write;
        let read = self.read;
        let avail = if write < read {
            read - write
        } else {
            self.capacity - write + read
        };
        Slot::new(write, avail - 1)
    }

    /// The positions that can be read next.
    pub fn init_slot(&self) -> (r: Slot)
        requires
            self.wf(),
        ensures
            r.first() == self.read_end(),
            r.len() == self.used(),
    {
        let read = self.read;
        let write = self.write;
        let avail = if read <= write {
            write - read
        } else {
            self.capacity - read + write
        };
        Slot::new(read, avail)
    }

    pub fn free_space(&self) -> (r: usize)
        requires
            self.wf(),
        ensures
            r == self.free(),
    {
        self.uninit_slot().len()
    }

    pub fn used_space(&self) -> (r: usize)
        requires
            self.wf(),
        ensures
            r == self.used(),
    {
        self.init_slot().len()
    }

    pub fn len(&self) -> (r: usize)
        requires
            self.wf(),
        ensures
            r == self.used(),
    {
        self.used_space()
    }

    pub fn is_empty(&self) -> (r: bool)
        requires
            self.wf(),
        ensures
            r == (self.used() == 0),
    {
        self.len() == 0
    }

    /// `count` positions to write, if that many are free.
    pub fn acquire(&self, count: usize) -> (r: Option<Slot>)
        requires
            self.wf(),
        ensures
            r is Some <==> count <= self.free(),
            r matches Some(s) ==> s.first() == self.write_end() && s.len() == count,
    {
        if self.capacity < count {
            return None;
        }
        self.uninit_slot().take(count)
    }

    /// Up to `count` positions to write.
    pub fn acquire_up_to(&self, count: usize) -> (r: Slot)
        requires
            self.wf(),
        ensures
            r.first() == self.write_end(),
            r.len() == if self.free() <= count { self.free() } else { count as int },
    {
        self.uninit_slot().min(count)
    }

    /// Publish the written positions of `acquire`; panics when the slot does not start
    /// at the write end.
    pub fn produce(&mut self, acquire: Slot)
        requires
            old(self).wf(),
            acquire.first() == old(self).write_end(),
            acquire.first() + acquire.len() <= usize::MAX,
        ensures
            final(self).wf(),
            final(self).capacity() == old(self).capacity(),
            final(self).read_end() == old(self).read_end(),
            final(self).write_end() == (acquire.first() + acquire.len()) % (old(self).capacity() as int),
            acquire.len() <= old(self).free() ==> final(self).used() == old(self).used() + acquire.len(),
    {
        let new_write_end = (acquire.first + acquire.len) % self.capacity;
        proof {
            self.lemma_wf();
            lemma_used_after_advance(
                self.read as int,
                self.write as int,
                acquire.len as int,
                self.capacity as int,
            );
        }
        self.write = new_write_end;
    }

    /// `count` positions to read, if that many are in use.
    pub fn consume(&self, count: usize) -> (r: Option<Slot>)
        requires
            self.wf(),
        ensures
            r is Some <==> count <= self.used(),
            r matches Some(s) ==> s.first() == self.read_end() && s.len() == count,
    {
        if self.capacity < count {
            return None;
        }
        self.init_slot().take(count)
    }

    /// Up to `count` positions to read.
    pub fn consume_up_to(&self, count: usize) -> (r: Slot)
        requires
            self.wf(),
        ensures
            r.first() == self.read_end(),
            r.len() == if self.used() <= count { self.used() } else { count as int },
    {
        self.init_slot().min(count)
    }

    /// Give back the read positions of `consume`; panics when the slot does not start
    /// at the read end.
    pub fn release(&mut self, consume: Slot)
        requires
            old(self).wf(),
            consume.first() == old(self).read_end(),
            consume.first() + consume.len() <= usize::MAX,
        ensures
            final(self).wf(),
            final(self).capacity() == old(self).capacity(),
            final(self).write_end() == old(self).write_end(),
            final(self).read_end() == (consume.first() + consume.len()) % (old(self).capacity() as int),
            consume.len() <= old(self).used() ==> final(self).used() == old(self).used() - consume.len(),
    {
        let new_read_end = (consume.first + consume.len) % self.capacity;
        proof {
            self.lemma_wf();
            lemma_used_after_release(
                self.read as int,
                self.write as int,
                consume.len as int,
                self.capacity as int,
            );
        }
        self.read = new_read_end;
    }
}

proof fn lemma_used_after_advance(read: int, write: int, n: int, c: int)
    requires
        0 <= read < c,
        0 <= write < c,
        0 <= n,
    ensures
        0 <= (write + n) % c < c,
        n <= c - 1 - ring_used(read, write, c) ==> ring_used(read, (write + n) % c, c) == ring_used(
            read,
            write,
            c,
        ) + n,
{
    vstd::arithmetic::div_mod::lemma_mod_bound(write + n, c);
    if n <= c - 1 - ring_used(read, write, c) {
        if write + n < c {
            vstd::arithmetic::div_mod::lemma_small_mod((write + n) as nat, c as nat);
        } else {
            vstd::arithmetic::div_mod::lemma_mod_sub_multiples_vanish(write + n, c);
            vstd::arithmetic::div_mod::lemma_small_mod((write + n - c) as nat, c as nat);
        }
    }
}

proof fn lemma_used_after_release(read: int, write: int, n: int, c: int)
    requires
        0 <= read < c,
        0 <= write < c,
        0 <= n,
    ensures
        0 <= (read + n) % c < c,
        n <= ring_used(read, write, c) ==> ring_used((read + n) % c, write, c) == ring_used(
            read,
            write,
            c,
        ) - n,
{
    vstd::arithmetic::div_mod::lemma_mod_bound(read + n, c);
    if n <= ring_used(read, write, c) {
        if read + n < c {
            vstd::arithmetic::div_mod::lemma_small_mod((read + n) as nat, c as nat);
        } else {
            vstd::arithmetic::div_mod::lemma_mod_sub_multiples_vanish(read + n, c);
            vstd::arithmetic::div_mod::lemma_small_mod((read + n - c) as nat, c as nat);
        }
    }
}

/// Positions written and released always leave room for one more: the free and the
/// used positions add up to one less than the capacity, in every well formed state.
pub proof fn lemma_free_plus_used(m: &RingBufMarker)
    requires
        m.wf(),
    ensures
        m.free() + m.used() == m.capacity() - 1,
        0 <= m.free(),
        0 <= m.used(),
{
    m.lemma_wf();
}

/// Distinct offsets below the capacity land on distinct ring positions.
proof fn lemma_ring_positions_distinct(base: int, i: int, j: int, c: int)
    requires
        0 <= base,
        0 <= i < c,
        0 <= j < c,
        i != j,
    ensures
        (base + i) % c != (base + j) % c,
{
    if (base + i) % c == (base + j) % c {
        vstd::arithmetic::div_mod::lemma_fundamental_div_mod(base + i, c);
        vstd::arithmetic::div_mod::lemma_fundamental_div_mod(base + j, c);
        let qi = (base + i) / c;
        let qj = (base + j) / c;
        assert(i - j == c * (qi - qj)) by {
            vstd::arithmetic::mul::lemma_mul_is_distributive_sub(c, qi, qj);
        }
        if qi - qj >= 1 {
            vstd::arithmetic::mul::lemma_mul_increases(qi - qj, c);
            vstd::arithmetic::mul::lemma_mul_is_commutative(qi - qj, c);
        } else if qi - qj <= -1 {
            vstd::arithmetic::mul::lemma_mul_increases(qj - qi, c);
            vstd::arithmetic::mul::lemma_mul_is_commutative(qj - qi, c);
            vstd::arithmetic::mul::lemma_mul_unary_negation(c, qj - qi);
        }
    }
}

/// The position after `x % c`, wrapping to 0 at the capacity.
proof fn lemma_ring_step(x: int, c: int)
    requires
        0 <= x,
        c > 0,
    ensures
        (x + 1) % c == if x % c + 1 == c { 0 } else { x % c + 1 },
{
    vstd::arithmetic::div_mod::lemma_add_mod_noop(x, 1, c);
    vstd::arithmetic::div_mod::lemma_mod_bound(x, c);
    if x % c + 1 == c {
        vstd::arithmetic::div_mod::lemma_mod_self_0(c);
    } else {
        vstd::arithmetic::div_mod::lemma_small_mod((x % c + 1) as nat, c as nat);
    }
    if c > 1 {
        vstd::arithmetic::div_mod::lemma_small_mod(1, c as nat);
    }
}

/// Moving the base by `k` positions shifts the ring positions accordingly.
proof fn lemma_ring_shift(base: int, k: int, i: int, c: int)
    requires
        0 <= base,
        0 <= k,
        0 <= i,
        c > 0,
    ensures
        ((base + k) % c + i) % c == (base + k + i) % c,
{
    vstd::arithmetic::div_mod::lemma_add_mod_noop(base + k, i, c);
    vstd::arithmetic::div_mod::lemma_mod_twice(base + k, c);
    vstd::arithmetic::div_mod::lemma_mod_bound(i, c);
    vstd::arithmetic::div_mod::lemma_add_mod_noop((base + k) % c, i, c);
}

/// The cells of a ring buffer: `N` places for values that start out empty.
pub struct Static<T, const N: usize>(Vec<Option<T>>);

impl<T, const N: usize> Static<T, N> {
    pub closed spec fn cells(&self) -> Seq<Option<T>> {
        self.0@
    }

    pub fn new() -> (r: Self)
        ensures
            r.cells().len() == N,
            forall|i: int| 0 <= i < N ==> #[trigger] r.cells()[i] is None,
    {
        let mut v: Vec<Option<T>> = Vec::new();
        let mut i: usize = 0;
        while i < N
            invariant
                i <= N,
                v@.len() == i,
                forall|j: int| 0 <= j < i ==> #[trigger] v@[j] is None,
            decreases N - i,
        {
            v.push(None);
            i = i + 1;
        }
        Static(v)
    }

    pub fn into_cells(self) -> (r: Vec<Option<T>>)
        ensures
            r@ == self.cells(),
    {
        self.0
    }
}

/// A ring buffer of values: what goes in with `push` comes out with `pop`, in order.
pub struct RingBuf<T> {
    marker: RingBufMarker,
    items: Vec<Option<T>>,
}

impl<T> RingBuf<T> {
    pub closed spec fn wf(&self) -> bool {
        &&& self.marker.wf()
        &&& self.marker.capacity() <= isize::MAX
        &&& self.items@.len() == self.marker.capacity()
        &&& forall|i: int|
            0 <= i < self.marker.used() ==> (#[trigger] self.items@[(self.marker.read_end() + i)
                % (self.marker.capacity() as int)]) is Some
    }

    /// The values in the buffer, oldest first.
    pub closed spec fn view(&self) -> Seq<T> {
        Seq::new(
            self.marker.used() as nat,
            |i: int|
                self.items@[(self.marker.read_end() + i) % (self.marker.capacity() as int)]->Some_0,
        )
    }

    /// Number of values the buffer holds at most.
    pub closed spec fn capacity(&self) -> nat {
        (self.marker.capacity() - 1) as nat
    }

    /// A ring buffer over `items`, which must have `capacity` cells; panics when
    /// `capacity` is 0.
    pub fn from(items: Vec<Option<T>>, capacity: usize) -> (r: Self)
        requires
            capacity != 0,
            capacity <= isize::MAX,
            items@.len() == capacity,
        ensures
            r.wf(),
            r.view() == Seq::<T>::empty(),
            r.capacity() == capacity - 1,
    {
        let r = Self { marker: RingBufMarker::new(capacity), items };
        assert(r.view() =~= Seq::<T>::empty());
        r
    }

    /// An empty ring buffer with room for `capacity - 1` values.
    pub fn new(capacity: usize) -> (r: Self)
        requires
            capacity != 0,
            capacity <= isize::MAX,
        ensures
            r.wf(),
            r.view() == Seq::<T>::empty(),
            r.capacity() == capacity - 1,
    {
        let mut items: Vec<Option<T>> = Vec::new();
        let mut i: usize = 0;
        while i < capacity
            invariant
                i <= capacity,
                items@.len() == i,
            decreases capacity - i,
        {
            items.push(None);
            i = i + 1;
        }
        Self::from(items, capacity)
    }

    /// An empty ring buffer over the `N` cells of `items`.
    pub fn from_static<const N: usize>(items: Static<T, N>) -> (r: Self)
        requires
            N != 0,
            N <= isize::MAX,
            items.cells().len() == N,
        ensures
            r.wf(),
            r.view() == Seq::<T>::empty(),
            r.capacity() == N - 1,
    {
        Self::from(items.into_cells(), N)
    }

    pub fn len(&self) -> (r: usize)
        requires
            self.wf(),
        ensures
            r == self.view().len(),
    {
        self.marker.used_space()
    }

    /// Append `val`, or hand it back when the buffer is full.
    pub fn push(&mut self, val: T) -> (r: Result<(), T>)
        requires
            old(self).wf(),
        ensures
            final(self).wf(),
            final(self).capacity() == old(self).capacity(),
            old(self).view().len() < old(self).capacity() ==> r is Ok && final(self).view()
                == old(self).view().push(val),
            old(self).view().len() >= old(self).capacity() ==> r == Err::<(), T>(val)
                && final(self).view() == old(self).view(),
    {
        proof {
            self.marker.lemma_wf();
        }
        match self.marker.acquire(1) {
            Some(slot) => {
                let idx = slot.first();
                let ghost old_self = *self;
                let ghost read = self.marker.read_end() as int;
                let ghost used = self.marker.used();
                let ghost c = self.marker.capacity() as int;
                proof {
                    assert(idx == (read + used) % c) by {
                        vstd::arithmetic::div_mod::lemma_small_mod(idx as nat, c as nat);
                        if read <= idx {
                        } else {
                            vstd::arithmetic::div_mod::lemma_mod_sub_multiples_vanish(read + used, c);
                        }
                    }
                }
                self.items.set(idx, Some(val));
                self.marker.produce(slot);
                proof {
                    assert forall|i: int| 0 <= i < used implies #[trigger] self.items@[(read + i)
                        % c] == old_self.items@[(read + i) % c] by {
                        lemma_ring_positions_distinct(read, i, used, c);
                    }
                    assert forall|i: int| 0 <= i < self.marker.used() implies (
                    #[trigger] self.items@[(self.marker.read_end() + i) % (
                    self.marker.capacity() as int)]) is Some by {
                        if i < used {
                            assert(self.items@[(read + i) % c] == old_self.items@[(read + i) % c]);
                        }
                    }
                    assert(self.view() =~= old_self.view().push(val)) by {
                        assert forall|i: int| 0 <= i < used implies #[trigger] self.view()[i]
                            == old_self.view()[i] by {
                            assert(self.items@[(read + i) % c] == old_self.items@[(read + i) % c]);
                        }
                    }
                }
                Ok(())
            },
            None => Err(val),
        }
    }

    /// Take the oldest value out, if there is one.
    pub fn pop(&mut self) -> (r: Option<T>)
        requires
            old(self).wf(),
        ensures
            final(self).wf(),
            final(self).capacity() == old(self).capacity(),
            old(self).view().len() > 0 ==> r == Some(old(self).view()[0]) && final(self).view()
                == old(self).view().drop_first(),
            old(self).view().len() == 0 ==> r is None && final(self).view() == old(self).view(),
    {
        proof {
            self.marker.lemma_wf();
        }
        match self.marker.consume(1) {
            Some(slot) => {
                let idx = slot.first();
                let ghost old_self = *self;
                let ghost read = self.marker.read_end() as int;
                let ghost used = self.marker.used();
                let ghost c = self.marker.capacity() as int;
                proof {
                    vstd::arithmetic::div_mod::lemma_small_mod(idx as nat, c as nat);
                    assert(old_self.items@[(read + 0) % c] is Some);
                }
                let mut cell: Option<T> = None;
                std::mem::swap(&mut cell, &mut self.items[idx]);
                self.marker.release(slot);
                proof {
                    assert forall|i: int| 1 <= i < used implies #[trigger] self.items@[(read + i)
                        % c] == old_self.items@[(read + i) % c] by {
                        lemma_ring_positions_distinct(read, i, 0, c);
                    }
                    assert forall|i: int| 0 <= i < self.marker.used() implies (
                    #[trigger] self.items@[(self.marker.read_end() + i) % (
                    self.marker.capacity() as int)]) is Some by {
                        lemma_ring_shift(read, 1, i, c);
                        assert(self.items@[(read + (i + 1)) % c] == old_self.items@[(read + (i + 1))
                            % c]);
                    }
                    assert(self.view() =~= old_self.view().drop_first()) by {
                        assert forall|i: int| 0 <= i < used - 1 implies #[trigger] self.view()[i]
                            == old_self.view()[i + 1] by {
                            lemma_ring_shift(read, 1, i, c);
                            assert(self.items@[(read + (i + 1)) % c] == old_self.items@[(read + (i
                                + 1)) % c]);
                        }
                    }
                }
                cell
            },
            None => None,
        }
    }
}

impl<T: Copy> RingBuf<T> {
    /// Append the value of a one-value array, or hand the array back when the buffer
    /// is full. Arrays of another length trip a debug assertion, so they are not
    /// taken.
    pub fn push_arr<const LEN: usize>(&mut self, val: [T; LEN]) -> (r: Result<(), [T; LEN]>)
        requires
            old(self).wf(),
            LEN == 1,
        ensures
            final(self).wf(),
            final(self).capacity() == old(self).capacity(),
            old(self).view().len() < old(self).capacity() ==> r is Ok && final(self).view()
                == old(self).view().push(val@[0]),
            old(self).view().len() >= old(self).capacity() ==> r == Err::<(), [T; LEN]>(val)
                && final(self).view() == old(self).view(),
    {
        match self.push(val[0]) {
            Ok(()) => Ok(()),
            Err(_) => Err(val),
        }
    }

    /// Take the `LEN` oldest values out, oldest first, if there are that many.
    pub fn pop_arr<const LEN: usize>(&mut self) -> (r: Option<Vec<T>>)
        requires
            old(self).wf(),
        ensures
            final(self).wf(),
            final(self).capacity() == old(self).capacity(),
            old(self).view().len() >= LEN ==> (r matches Some(v) && v@ == old(self).view().subrange(0, LEN as int)
                && final(self).view() == old(self).view().skip(LEN as int)),
            old(self).view().len() < LEN ==> r is None && final(self).view() == old(self).view(),
    {
        if self.len() < LEN {
            return None;
        }
        let ghost v0 = self.view();
        let mut out: Vec<T> = Vec::new();
        let mut i: usize = 0;
        while i < LEN
            invariant
                i <= LEN <= v0.len(),
                self.wf(),
                self.capacity() == old(self).capacity(),
                v0 == old(self).view(),
                out@ == v0.subrange(0, i as int),
                self.view() == v0.skip(i as int),
            decreases LEN - i,
        {
            let ghost before = self.view();
            match self.pop() {
                Some(x) => {
                    out.push(x);
                },
                None => {
                    assert(false);
                },
            }
            assert(out@ =~= v0.subrange(0, i + 1));
            assert(self.view() =~= v0.skip(i + 1));
            i = i + 1;
        }
        Some(out)
    }

    /// Append as many values of `buf` as fit, returning how many were appended.
    pub fn push_slice(&mut self, buf: &[T]) -> (r: usize)
        requires
            old(self).wf(),
        ensures
            final(self).wf(),
            final(self).capacity() == old(self).capacity(),
            r == if old(self).capacity() - old(self).view().len() <= buf@.len() {
                old(self).capacity() - old(self).view().len()
            } else {
                buf@.len() as int
            },
            final(self).view() == old(self).view() + buf@.subrange(0, r as int),
    {
        proof {
            self.marker.lemma_wf();
        }
        let slot = self.marker.acquire_up_to(buf.len());
        let ghost old_self = *self;
        let ghost read = self.marker.read_end() as int;
        let ghost used = self.marker.used();
        let ghost c = self.marker.capacity() as int;
        let n = slot.len();
        let first = slot.first();
        let cap = self.marker.capacity;
        proof {
            assert(first == (read + used) % c) by {
                vstd::arithmetic::div_mod::lemma_small_mod(first as nat, c as nat);
                if read > first {
                    vstd::arithmetic::div_mod::lemma_mod_sub_multiples_vanish(read + used, c);
                }
            }
        }
        let mut i: usize = 0;
        let mut idx: usize = first;
        while i < n
            invariant
                0 <= i <= n,
                idx == (read + used + i) % c,
                n + used <= c - 1,
                n <= buf@.len(),
                cap == c,
                c > 0,
                0 <= read < c,
                0 <= used,
                first == (read + used) % c,
                self.items@.len() == c,
                forall|j: int| 0 <= j < used ==> #[trigger] self.items@[(read + j) % c]
                    == old_self.items@[(read + j) % c],
                forall|j: int| 0 <= j < i ==> #[trigger] self.items@[(read + used + j) % c]
                    == Some(buf@[j]),
                self.marker == old_self.marker,
            decreases n - i,
        {
            proof {
                vstd::arithmetic::div_mod::lemma_mod_bound(read + used + i, c);
                assert forall|j: int| 0 <= j < used implies #[trigger] (read + j) % c != idx by {
                    lemma_ring_positions_distinct(read, j, used + i, c);
                }
                assert forall|j: int| 0 <= j < i implies #[trigger] (read + used + j) % c != idx by {
                    lemma_ring_positions_distinct(read, used + j, used + i, c);
                }
            }
            self.items.set(idx, Some(buf[i]));
            proof {
                lemma_ring_step(read + used + i, c);
            }
            idx = if idx + 1 == cap { 0 } else { idx + 1 };
            i = i + 1;
        }
        self.marker.produce(slot);
        proof {
            assert forall|j: int| 0 <= j < self.marker.used() implies (
            #[trigger] self.items@[(self.marker.read_end() + j) % (self.marker.capacity() as int)])
                is Some by {
                if j >= used {
                    assert(self.items@[(read + used + (j - used)) % c] == Some(buf@[j - used]));
                }
            }
            assert(self.view() =~= old_self.view() + buf@.subrange(0, n as int)) by {
                assert forall|j: int| 0 <= j < used + n implies #[trigger] self.view()[j] == (
                old_self.view() + buf@.subrange(0, n as int))[j] by {
                    if j >= used {
                        assert(self.items@[(read + used + (j - used)) % c] == Some(buf@[j - used]));
                    }
                }
            }
        }
        n
    }

    /// Move as many of the oldest values as fit into `buf`, returning how many were moved.
    pub fn pop_slice(&mut self, buf: &mut [T]) -> (r: usize)
        requires
            old(self).wf(),
        ensures
            final(self).wf(),
            final(self).capacity() == old(self).capacity(),
            r == if old(self).view().len() <= old(buf)@.len() {
                old(self).view().len() as int
            } else {
                old(buf)@.len() as int
            },
            final(buf)@.len() == old(buf)@.len(),
            final(buf)@.subrange(0, r as int) == old(self).view().subrange(0, r as int),
            final(buf)@.subrange(r as int, old(buf)@.len() as int) == old(buf)@.subrange(
                r as int,
                old(buf)@.len() as int,
            ),
            final(self).view() == old(self).view().skip(r as int),
    {
        proof {
            self.marker.lemma_wf();
        }
        let slot = self.marker.consume_up_to(buf.len());
        let ghost old_self = *self;
        let ghost old_buf = buf@;
        let ghost read = self.marker.read_end() as int;
        let ghost used = self.marker.used();
        let ghost c = self.marker.capacity() as int;
        let n = slot.len();
        let first = slot.first();
        let cap = self.marker.capacity;
        proof {
            vstd::arithmetic::div_mod::lemma_small_mod(first as nat, c as nat);
        }
        let mut i: usize = 0;
        let mut idx: usize = first;
        while i < n
            invariant
                0 <= i <= n,
                idx == (read + i) % c,
                n <= used,
                n <= old_buf.len(),
                cap == c,
                c > 0,
                first == read,
                0 <= read < c,
                0 <= used,
                used == self.marker.used(),
                read == self.marker.read_end(),
                c == self.marker.capacity(),
                buf@.len() == old_buf.len(),
                self.items@.len() == c,
                *self == old_self,
                forall|j: int| 0 <= j < used ==> (#[trigger] self.items@[(read + j) % c]) is Some,
                forall|j: int| 0 <= j < i ==> #[trigger] buf@[j] == self.view()[j],
                forall|j: int| i <= j < old_buf.len() ==> #[trigger] buf@[j] == old_buf[j],
            decreases n - i,
        {
            proof {
                vstd::arithmetic::div_mod::lemma_mod_bound(read + i, c);
            }
            let cell: Option<T> = self.items[idx];
            assert(cell == self.items@[idx as int]);
            let v = match cell {
                Some(v) => v,
                None => {
                    proof {
                        assert(self.items@[(read + i) % c] is Some);
                    }
                    buf[i]
                },
            };
            buf[i] = v;
            assert(buf@[i as int] == self.view()[i as int]);
            proof {
                lemma_ring_step(read + i, c);
            }
            idx = if idx + 1 == cap { 0 } else { idx + 1 };
            i = i + 1;
        }
        self.marker.release(slot);
        proof {
            assert forall|j: int| 0 <= j < self.marker.used() implies (
            #[trigger] self.items@[(self.marker.read_end() + j) % (self.marker.capacity() as int)])
                is Some by {
                lemma_ring_shift(read, n as int, j, c);
                assert(old_self.items@[(read + (n + j)) % c] is Some);
            }
            assert(self.view() =~= old_self.view().skip(n as int)) by {
                assert forall|j: int| 0 <= j < used - n implies #[trigger] self.view()[j]
                    == old_self.view()[j + n] by {
                    lemma_ring_shift(read, n as int, j, c);
                }
            }
            assert(buf@.subrange(0, n as int) =~= old_self.view().subrange(0, n as int));
            assert(buf@.subrange(n as int, old_buf.len() as int) =~= old_buf.subrange(
                n as int,
                old_buf.len() as int,
            ));
        }
        n
    }
}

/// What one push puts in, the next pop of an otherwise empty buffer takes out.
pub proof fn lemma_push_then_pop<T>(before: RingBuf<T>, mid: RingBuf<T>, after: RingBuf<T>, val: T, out: Option<T>)
    requires
        before.wf(),
        before.view().len() == 0,
        before.capacity() > 0,
        mid.view() == before.view().push(val),
        out == Some(mid.view()[0]),
        after.view() == mid.view().drop_first(),
    ensures
        out == Some(val),
        after.view() == Seq::<T>::empty(),
{
    assert(after.view() =~= Seq::<T>::empty());
}

} // verus!
