//! Reading and writing bytes: the traits that files and pipes implement, a reader
//! that keeps a buffer of what was read, a writer that keeps what is written until
//! it is flushed, and the bookkeeping of reading or writing a whole buffer.
//!
//! A read or a write that is interrupted is made again, as often as it takes, so
//! the loops that make them are run by the caller: the functions here take what
//! each call returned and say what comes next.

use vstd::prelude::*;

verus! {

/// Why a read or a write failed.
#[derive(Debug, Clone, Copy, PartialEq, Eq, Structural)]
pub enum IoError {
    /// The call was interrupted before anything happened; it can be made again.
    Interrupted,
    /// The source ended before the buffer was full.
    UnexpectedEof,
    /// The sink took no byte.
    WriteZero,
    /// The bytes read are not UTF-8.
    InvalidUtf8,
    /// Another error of the system, by its number.
    Other(u32),
}

/// What a read delivered: the bytes it put in front of the room when it succeeded,
/// none when it failed.
pub open spec fn read_bytes(r: Result<usize, IoError>, after: Seq<u8>) -> Seq<u8> {
    match r {
        Ok(n) => after.take(n as int),
        Err(_) => Seq::empty(),
    }
}

/// A source of bytes.
pub trait Read {
    /// Does this source keep [`Read::reads`], the record of its reads? A source that
    /// does not keep it (the default) promises nothing about it.
    open spec fn keeps_reads() -> bool {
        false
    }

    /// Every read made of this source so far, oldest first: the room it was given,
    /// what it returned, and the bytes it delivered.
    open spec fn reads(&self) -> Seq<(nat, Result<usize, IoError>, Seq<u8>)> {
        Seq::empty()
    }

    /// Read bytes into the front of `buf` and say how many came; 0 at the end.
    fn read(&mut self, buf: &mut [u8]) -> (r: Result<usize, IoError>)
        ensures
            final(buf)@.len() == old(buf)@.len(),
            r matches Ok(n) ==> n <= old(buf)@.len(),
            Self::keeps_reads() ==> final(self).reads() == old(self).reads().push(
                (old(buf)@.len() as nat, r, read_bytes(r, final(buf)@)),
            ),
    ;
}

/// A sink of bytes.
pub trait Write {
    /// Does this sink keep [`Write::writes`], the record of its writes? A sink that
    /// does not keep it (the default) promises nothing about it.
    open spec fn keeps_writes() -> bool {
        false
    }

    /// Every write made to this sink so far, oldest first: the bytes it was handed and
    /// what it returned (how many it took, or why it failed).
    open spec fn writes(&self) -> Seq<(Seq<u8>, Result<usize, IoError>)> {
        Seq::empty()
    }

    /// Write bytes from the front of `buf` and say how many were taken.
    fn write(&mut self, buf: &[u8]) -> (r: Result<usize, IoError>)
        ensures
            r matches Ok(n) ==> n <= buf@.len(),
            Self::keeps_writes() ==> final(self).writes() == old(self).writes().push((buf@, r)),
    ;

    /// Send on what was written.
    fn flush(&mut self) -> Result<(), IoError>;
}

/// What comes after one call of a whole-buffer read or write.
#[derive(Debug, Clone, Copy, PartialEq, Eq, Structural)]
pub enum ExactStep {
    /// Make the next call.
    Again,
    /// Make no more calls; the result is [`Transfer::finish`].
    Stop,
    /// Give up with this error.
    Fail(IoError),
}

/// Reading or writing exactly `len` bytes, `done` of them so far.
pub struct Transfer {
    len: usize,
    done: usize,
}

impl Transfer {
    pub closed spec fn len(&self) -> nat {
        self.len as nat
    }

    pub closed spec fn done(&self) -> nat {
        self.done as nat
    }

    pub closed spec fn wf(&self) -> bool {
        self.done <= self.len
    }

    /// Nothing transferred yet of `len` bytes.
    pub fn new(len: usize) -> (r: Self)
        ensures
            r.wf(),
            r.len() == len,
            r.done() == 0,
    {
        Transfer { len, done: 0 }
    }

    /// Where the next call starts, while bytes remain.
    pub fn next_call(&self) -> (r: Option<usize>)
        requires
            self.wf(),
        ensures
            r == if self.done() < self.len() {
                Some(self.done() as usize)
            } else {
                None::<usize>
            },
    {
        if self.done < self.len {
            Some(self.done)
        } else {
            None
        }
    }

    /// Take in what a read of the remaining bytes returned: 0 bytes end the reading,
    /// others are counted in `bytes_read` too, an interrupted read is made again and
    /// any other error ends it.
    pub fn on_read(&mut self, r: Result<usize, IoError>, bytes_read: &mut usize) -> (step: ExactStep)
        requires
            old(self).wf(),
            old(self).done() < old(self).len(),
            r matches Ok(n) ==> n <= old(self).len() - old(self).done() && *old(bytes_read) + n <= usize::MAX,
        ensures
            final(self).wf(),
            final(self).len() == old(self).len(),
            match r {
                Ok(n) => if n == 0 {
                    step == ExactStep::Stop && final(self).done() == old(self).done() && *final(bytes_read)
                        == *old(bytes_read)
                } else {
                    step == ExactStep::Again && final(self).done() == old(self).done() + n
                        && *final(bytes_read) == *old(bytes_read) + n
                },
                Err(e) => final(self).done() == old(self).done() && *final(bytes_read) == *old(bytes_read)
                    && step == if e == IoError::Interrupted {
                    ExactStep::Again
                } else {
                    ExactStep::Fail(e)
                },
            },
    {
        match r {
            Ok(0) => ExactStep::Stop,
            Ok(n) => {
                self.done = self.done + n;
                *bytes_read = *bytes_read + n;
                ExactStep::Again
            },
            Err(IoError::Interrupted) => ExactStep::Again,
            Err(e) => ExactStep::Fail(e),
        }
    }

    /// Take in what a write of the remaining bytes returned: 0 bytes fail with
    /// [`IoError::WriteZero`], others are counted in `bytes_written` too, an
    /// interrupted write is made again and any other error ends it.
    pub fn on_write(&mut self, r: Result<usize, IoError>, bytes_written: &mut usize) -> (step: ExactStep)
        requires
            old(self).wf(),
            old(self).done() < old(self).len(),
            r matches Ok(n) ==> n <= old(self).len() - old(self).done() && *old(bytes_written) + n
                <= usize::MAX,
        ensures
            final(self).wf(),
            final(self).len() == old(self).len(),
            match r {
                Ok(n) => if n == 0 {
                    step == ExactStep::Fail(IoError::WriteZero) && final(self).done() == old(self).done()
                        && *final(bytes_written) == *old(bytes_written)
                } else {
                    step == ExactStep::Again && final(self).done() == old(self).done() + n
                        && *final(bytes_written) == *old(bytes_written) + n
                },
                Err(e) => final(self).done() == old(self).done() && *final(bytes_written)
                    == *old(bytes_written) && step == if e == IoError::Interrupted {
                    ExactStep::Again
                } else {
                    ExactStep::Fail(e)
                },
            },
    {
        match r {
            Ok(0) => ExactStep::Fail(IoError::WriteZero),
            Ok(n) => {
                self.done = self.done + n;
                *bytes_written = *bytes_written + n;
                ExactStep::Again
            },
            Err(IoError::Interrupted) => ExactStep::Again,
            Err(e) => ExactStep::Fail(e),
        }
    }

    /// The result of a read that made no more calls: the source ended early unless
    /// every byte came.
    pub fn finish_read(&self) -> (r: Result<(), IoError>)
        requires
            self.wf(),
        ensures
            r == if self.done() < self.len() {
                Err::<(), IoError>(IoError::UnexpectedEof)
            } else {
                Ok::<(), IoError>(())
            },
    {
        if self.done < self.len {
            Err(IoError::UnexpectedEof)
        } else {
            Ok(())
        }
    }
}

/// Size of the buffer of a [`BufReader`].
pub const READ_BUFFER_SIZE: usize = 0x4000;

/// A reader that keeps what it read until it is consumed.
pub struct BufReader<T> {
    buf: Option<Vec<u8>>,
    end: usize,
    inner: T,
}

impl<T> BufReader<T> {
    pub closed spec fn wf(&self) -> bool {
        match self.buf {
            Some(b) => b@.len() == READ_BUFFER_SIZE && self.end <= READ_BUFFER_SIZE,
            None => self.end == 0,
        }
    }

    /// The bytes read and not consumed yet.
    pub closed spec fn buffered(&self) -> Seq<u8> {
        match self.buf {
            Some(b) => b@.subrange(0, self.end as int),
            None => Seq::empty(),
        }
    }

    /// The reader that the bytes come from.
    pub closed spec fn source(&self) -> T {
        self.inner
    }

    /// A reader with an empty buffer over `read`.
    pub fn new(read: T) -> (r: Self)
        ensures
            r.wf(),
            r.buffered() == Seq::<u8>::empty(),
            r.source() == read,
    {
        Self { buf: None, end: 0, inner: read }
    }

    pub fn get_ref(&self) -> (r: &T)
        ensures
            *r == self.source(),
    {
        &self.inner
    }

    pub fn into_inner(self) -> (r: T)
        ensures
            r == self.source(),
    {
        self.inner
    }

    /// Drop the first `used` bytes of the buffer; they are rotated to its back.
    pub fn consume(&mut self, used: usize)
        requires
            old(self).wf(),
            used <= old(self).buffered().len(),
        ensures
            final(self).wf(),
            final(self).buffered() == old(self).buffered().subrange(used as int, old(self).buffered().len() as int),
            final(self).source() == old(self).source(),
    {
        let b = match self.buf.take() {
            Some(b) => b,
            None => vec_of_zeros(READ_BUFFER_SIZE),
        };
        let rotated = rotate_left(&b, used);
        self.buf = Some(rotated);
        self.end = self.end - used;
        assert(self.buffered() =~= old(self).buffered().subrange(used as int, old(self).buffered().len() as int));
    }
}

impl<T: Read> BufReader<T> {
    /// The buffered bytes; when there are none, one read over the whole buffer of
    /// [`READ_BUFFER_SIZE`] bytes fills it first with the bytes it delivers. A failed
    /// read leaves the buffer empty and its error is returned.
    pub fn fill_buf(&mut self) -> (r: Result<&[u8], IoError>)
        requires
            old(self).wf(),
        ensures
            final(self).wf(),
            r matches Ok(s) ==> s@ == final(self).buffered(),
            old(self).buffered().len() != 0 ==> r is Ok && final(self).buffered() == old(self).buffered()
                && final(self).source() == old(self).source(),
            old(self).buffered().len() == 0 && T::keeps_reads() ==> {
                let reads = final(self).source().reads();
                let last = reads.last();
                &&& reads.len() == old(self).source().reads().len() + 1
                &&& reads.drop_last() == old(self).source().reads()
                &&& last.0 == READ_BUFFER_SIZE
                &&& final(self).buffered() == last.2
                &&& match last.1 {
                    Ok(_) => r is Ok,
                    Err(e) => r matches Err(f) && f == e,
                }
            },
    {
        let mut b = match self.buf.take() {
            Some(b) => b,
            None => vec_of_zeros(READ_BUFFER_SIZE),
        };
        if self.end == 0 {
            let ghost before = self.inner;
            let r = self.inner.read(b.as_mut_slice());
            proof {
                if T::keeps_reads() {
                assert(self.inner.reads().drop_last() =~= before.reads());
            }
            }
            match r {
                Ok(n) => {
                    self.end = n;
                },
                Err(e) => {
                    self.buf = Some(b);
                    return Err(e);
                },
            }
        }
        self.buf = Some(b);
        match &self.buf {
            Some(b) => Ok(vstd::slice::slice_subrange(b.as_slice(), 0, self.end)),
            None => {
                assert(false);
                Err(IoError::Interrupted)
            },
        }
    }
}

/// `n` zero bytes.
fn vec_of_zeros(n: usize) -> (r: Vec<u8>)
    ensures
        r@ == Seq::new(n as nat, |i: int| 0u8),
{
    let mut v: Vec<u8> = Vec::new();
    let mut i: usize = 0;
    while i < n
        invariant
            i <= n,
            v@ == Seq::new(i as nat, |j: int| 0u8),
        decreases n - i,
    {
        v.push(0);
        i = i + 1;
        assert(v@ =~= Seq::new(i as nat, |j: int| 0u8));
    }
    v
}

/// `b` with its first `mid` bytes moved to the back.
fn rotate_left(b: &Vec<u8>, mid: usize) -> (r: Vec<u8>)
    requires
        mid <= b@.len(),
    ensures
        r@ == b@.subrange(mid as int, b@.len() as int) + b@.subrange(0, mid as int),
{
    let mut v: Vec<u8> = Vec::new();
    let mut i: usize = mid;
    while i < b.len()
        invariant
            mid <= i <= b@.len(),
            v@ == b@.subrange(mid as int, i as int),
        decreases b@.len() - i,
    {
        v.push(b[i]);
        i = i + 1;
        assert(v@ =~= b@.subrange(mid as int, i as int));
    }
    let mut j: usize = 0;
    while j < mid
        invariant
            j <= mid <= b@.len(),
            v@ == b@.subrange(mid as int, b@.len() as int) + b@.subrange(0, j as int),
        decreases mid - j,
    {
        v.push(b[j]);
        j = j + 1;
        assert(v@ =~= b@.subrange(mid as int, b@.len() as int) + b@.subrange(0, j as int));
    }
    v
}

/// The position of the first `delim` in `s`, if there is one.
pub open spec fn first_index_of(s: Seq<u8>, delim: u8) -> Option<int> {
    if exists|i: int| 0 <= i < s.len() && s[i] == delim {
        Some(choose|i: int| 0 <= i < s.len() && s[i] == delim && forall|j: int| 0 <= j < i ==> s[j] != delim)
    } else {
        None
    }
}

/// One round of reading up to `delim` from the bytes `available` in a buffer:
/// the bytes up to and with the first `delim` are appended to `buf`, or all of them
/// when there is none. Says whether `delim` was found and how many bytes were used.
pub fn read_until_step(available: &[u8], delim: u8, buf: &mut Vec<u8>) -> (r: (bool, usize))
    ensures
        match first_index_of(available@, delim) {
            Some(i) => r == (true, (i + 1) as usize) && final(buf)@ == old(buf)@ + available@.subrange(0, i + 1),
            None => r == (false, available@.len() as usize) && final(buf)@ == old(buf)@ + available@,
        },
{
    let mut i: usize = 0;
    while i < available.len()
        invariant
            i <= available@.len(),
            forall|j: int| 0 <= j < i ==> available@[j] != delim,
            buf@ == old(buf)@,
        decreases available@.len() - i,
    {
        if available[i] == delim {
            let found = vstd::slice::slice_subrange(available, 0, i + 1);
            buf.extend_from_slice(found);
            proof {
                let k = choose|k: int|
                    0 <= k < available@.len() && available@[k] == delim && forall|j: int|
                        0 <= j < k ==> available@[j] != delim;
                assert(available@[i as int] == delim);
                if k < i {
                } else if k > i {
                    assert(available@[i as int] != delim);
                }
                assert(k == i);
                assert(buf@ =~= old(buf)@ + available@.subrange(0, i + 1));
            }
            return (true, i + 1);
        }
        i = i + 1;
    }
    buf.extend_from_slice(available);
    assert(buf@ =~= old(buf)@ + available@);
    (false, available.len())
}

/// `core::str::from_utf8(bytes).is_ok()`: whether the bytes are UTF-8. The
/// standard library accepts exactly the well-formed encodings, which is
/// `valid_utf8` of vstd.
#[verifier::external_body]
fn is_utf8(bytes: &[u8]) -> (r: bool)
    ensures
        r == vstd::utf8::valid_utf8(bytes@),
{
    core::str::from_utf8(bytes).is_ok()
}

/// The end of appending to the bytes of a string: `ret` is what the append
/// returned and `len` the length before it. When the appended bytes are not UTF-8
/// they are taken back out and the result is [`IoError::InvalidUtf8`], or the
/// append's own error; otherwise the bytes stay and the result is `ret`.
pub fn append_to_string(buf: &mut Vec<u8>, len: usize, ret: Result<usize, IoError>) -> (r: Result<
    usize,
    IoError,
>)
    requires
        len <= old(buf)@.len(),
    ensures
        vstd::utf8::valid_utf8(old(buf)@.subrange(len as int, old(buf)@.len() as int)) ==> final(buf)@ == old(buf)@
            && r == ret,
        !vstd::utf8::valid_utf8(old(buf)@.subrange(len as int, old(buf)@.len() as int)) ==> final(buf)@
            == old(buf)@.subrange(0, len as int) && r == match ret {
            Ok(_) => Err::<usize, IoError>(IoError::InvalidUtf8),
            Err(e) => Err::<usize, IoError>(e),
        },
{
    let appended = vstd::slice::slice_subrange(buf.as_slice(), len, buf.len());
    if !is_utf8(appended) {
        buf.truncate(len);
        match ret {
            Ok(_) => Err(IoError::InvalidUtf8),
            Err(e) => Err(e),
        }
    } else {
        ret
    }
}

/// What comes after one round of flushing a [`BufWriter`].
#[derive(Debug, Clone, Copy, PartialEq, Eq, Structural)]
pub enum FlushStep {
    /// Hand the buffer to the sink again; this many bytes have been taken so far.
    Again(usize),
    /// Everything was taken; the buffer is empty.
    Flushed,
    /// The sink failed; the writer is broken.
    Broken(IoError),
}

/// A writer that keeps what is written until it is flushed.
pub struct BufWriter<T> {
    buf: Vec<u8>,
    broken: bool,
    inner: T,
}

impl<T> BufWriter<T> {
    /// The bytes written and not flushed yet.
    pub closed spec fn pending(&self) -> Seq<u8> {
        self.buf@
    }

    /// Has a flush failed?
    pub closed spec fn is_broken(&self) -> bool {
        self.broken
    }

    /// The sink that flushed bytes go to.
    pub closed spec fn sink(&self) -> T {
        self.inner
    }

    /// A writer with an empty buffer over `write`.
    pub fn new(write: T) -> (r: Self)
        ensures
            r.pending() == Seq::<u8>::empty(),
            !r.is_broken(),
            r.sink() == write,
    {
        Self { buf: Vec::new(), broken: false, inner: write }
    }

    /// Has a flush failed?
    pub fn broken(&self) -> (r: bool)
        ensures
            r == self.is_broken(),
    {
        self.broken
    }

    /// Keep `buf` to be written; takes all of it. A broken writer panics, so it is
    /// not called on one.
    pub fn write(&mut self, buf: &[u8]) -> (r: Result<usize, IoError>)
        requires
            !old(self).is_broken(),
        ensures
            r == Ok::<usize, IoError>(buf@.len() as usize),
            final(self).pending() == old(self).pending() + buf@,
            !final(self).is_broken(),
            final(self).sink() == old(self).sink(),
    {
        self.buf.extend_from_slice(buf);
        assert(self.buf@ =~= old(self).pending() + buf@);
        Ok(buf.len())
    }

    /// The start of a flush: an empty buffer is flushed already.
    pub fn flush_begin(&mut self) -> (r: FlushStep)
        ensures
            old(self).pending().len() == 0 ==> r == FlushStep::Flushed,
            old(self).pending().len() != 0 ==> r == FlushStep::Again(0),
            final(self).pending() == old(self).pending(),
            final(self).is_broken() == old(self).is_broken(),
            final(self).sink() == old(self).sink(),
    {
        if self.buf.len() == 0 {
            FlushStep::Flushed
        } else {
            FlushStep::Again(0)
        }
    }

    /// Take in what handing the whole buffer to the sink returned, `consumed`
    /// bytes having been taken before: bytes taken add up, and once they reach the
    /// length of the buffer it is emptied; an interrupted write is made again; any
    /// other error breaks the writer.
    pub fn flush_decide(&mut self, consumed: usize, r: Result<usize, IoError>) -> (step: FlushStep)
        requires
            consumed < old(self).pending().len() <= isize::MAX,
            r matches Ok(n) ==> n <= old(self).pending().len(),
        ensures
            final(self).sink() == old(self).sink(),
            (step, final(self).pending(), final(self).is_broken()) == flush_after(
                old(self).pending(),
                old(self).is_broken(),
                consumed,
                r,
            ),
            match r {
                Ok(n) => if consumed + n < old(self).pending().len() {
                    step == FlushStep::Again((consumed + n) as usize) && final(self).pending() == old(
                        self,
                    ).pending() && final(self).is_broken() == old(self).is_broken()
                } else {
                    step == FlushStep::Flushed && final(self).pending() == Seq::<u8>::empty()
                        && final(self).is_broken() == old(self).is_broken()
                },
                Err(e) => if e == IoError::Interrupted {
                    step == FlushStep::Again(consumed) && final(self).pending() == old(self).pending()
                        && final(self).is_broken() == old(self).is_broken()
                } else {
                    step == FlushStep::Broken(e) && final(self).pending() == old(self).pending()
                        && final(self).is_broken()
                },
            },
    {
        match r {
            Ok(b) => {
                let total = consumed + b;
                if total < self.buf.len() {
                    FlushStep::Again(total)
                } else {
                    self.buf.clear();
                    FlushStep::Flushed
                }
            },
            Err(IoError::Interrupted) => FlushStep::Again(consumed),
            Err(e) => {
                self.broken = true;
                FlushStep::Broken(e)
            },
        }
    }
}

impl<T: Write> BufWriter<T> {
    /// One round of flushing: the whole buffer is handed to the sink in one write, and
    /// what that returned is taken in as [`BufWriter::flush_decide`] does.
    pub fn flush_round(&mut self, consumed: usize) -> (step: FlushStep)
        requires
            consumed < old(self).pending().len() <= isize::MAX,
        ensures
            T::keeps_writes() ==> {
                let writes = final(self).sink().writes();
                &&& writes.len() == old(self).sink().writes().len() + 1
                &&& writes.drop_last() == old(self).sink().writes()
                &&& writes.last().0 == old(self).pending()
                &&& (step, final(self).pending(), final(self).is_broken()) == flush_after(
                    old(self).pending(),
                    old(self).is_broken(),
                    consumed,
                    writes.last().1,
                )
            },
            exists|w: Result<usize, IoError>|
                (w matches Ok(n) ==> n <= old(self).pending().len()) && (step, final(self).pending(),
                    final(self).is_broken()) == #[trigger] flush_after(
                    old(self).pending(),
                    old(self).is_broken(),
                    consumed,
                    w,
                ),
    {
        let ghost before = self.inner;
        let r = self.inner.write(self.buf.as_slice());
        proof {
            if T::keeps_writes() {
                assert(self.inner.writes().drop_last() =~= before.writes());
            }
        }
        let step = self.flush_decide(consumed, r);
        proof {
            assert((step, self.pending(), self.is_broken()) == flush_after(
                old(self).pending(),
                old(self).is_broken(),
                consumed,
                r,
            ));
        }
        step
    }
}

/// What a flush round comes to when the write of the whole `pending` buffer returned
/// `r`, `consumed` bytes having been taken before: the step, the bytes still pending,
/// and whether the writer is broken.
pub open spec fn flush_after(pending: Seq<u8>, broken: bool, consumed: usize, r: Result<usize, IoError>) -> (
    FlushStep,
    Seq<u8>,
    bool,
) {
    match r {
        Ok(n) => if consumed + n < pending.len() {
            (FlushStep::Again((consumed + n) as usize), pending, broken)
        } else {
            (FlushStep::Flushed, Seq::empty(), broken)
        },
        Err(e) => if e == IoError::Interrupted {
            (FlushStep::Again(consumed), pending, broken)
        } else {
            (FlushStep::Broken(e), pending, true)
        },
    }
}

} // verus!
