use hyperion::io::{
    append_to_string, read_until_step, BufReader, BufWriter, ExactStep, FlushStep, IoError, Read, Transfer, Write,
};

/// A source that hands out its bytes in pieces of at most `piece` bytes, after
/// being interrupted once.
struct Pieces {
    data: Vec<u8>,
    at: usize,
    piece: usize,
    interrupted: bool,
}

impl Read for Pieces {
    fn read(&mut self, buf: &mut [u8]) -> Result<usize, IoError> {
        if !self.interrupted {
            self.interrupted = true;
            return Err(IoError::Interrupted);
        }
        let n = buf.len().min(self.piece).min(self.data.len() - self.at);
        buf[..n].copy_from_slice(&self.data[self.at..self.at + n]);
        self.at += n;
        Ok(n)
    }
}

/// A sink that takes at most `piece` bytes per call and records them.
struct Sink {
    taken: Vec<u8>,
    piece: usize,
    fail: Option<IoError>,
}

impl Write for Sink {
    fn write(&mut self, buf: &[u8]) -> Result<usize, IoError> {
        if let Some(e) = self.fail {
            return Err(e);
        }
        let n = buf.len().min(self.piece);
        self.taken.extend_from_slice(&buf[..n]);
        Ok(n)
    }

    fn flush(&mut self) -> Result<(), IoError> {
        Ok(())
    }
}

/// Reading exactly, the way the system library drives a [`Transfer`].
fn read_exact(src: &mut impl Read, buf: &mut [u8], bytes_read: &mut usize) -> Result<(), IoError> {
    let mut t = Transfer::new(buf.len());
    while let Some(from) = t.next_call() {
        let r = src.read(&mut buf[from..]);
        match t.on_read(r, bytes_read) {
            ExactStep::Again => {}
            ExactStep::Stop => break,
            ExactStep::Fail(e) => return Err(e),
        }
    }
    t.finish_read()
}

#[test]
fn read_exact_gathers_pieces() {
    let mut src = Pieces { data: b"hello world".to_vec(), at: 0, piece: 3, interrupted: false };
    let mut buf = [0u8; 8];
    let mut count = 0;
    assert_eq!(read_exact(&mut src, &mut buf, &mut count), Ok(()));
    assert_eq!(&buf, b"hello wo");
    assert_eq!(count, 8);
}

#[test]
fn read_exact_reports_an_early_end() {
    let mut src = Pieces { data: b"abc".to_vec(), at: 0, piece: 2, interrupted: false };
    let mut buf = [0u8; 5];
    let mut count = 0;
    assert_eq!(read_exact(&mut src, &mut buf, &mut count), Err(IoError::UnexpectedEof));
    assert_eq!(count, 3);
    assert_eq!(&buf[..3], b"abc");
}

#[test]
fn transfer_steps() {
    let mut t = Transfer::new(4);
    let mut n = 10;
    assert_eq!(t.next_call(), Some(0));
    assert_eq!(t.on_write(Ok(3), &mut n), ExactStep::Again);
    assert_eq!((t.next_call(), n), (Some(3), 13));
    assert_eq!(t.on_write(Err(IoError::Interrupted), &mut n), ExactStep::Again);
    assert_eq!(t.on_write(Ok(0), &mut n), ExactStep::Fail(IoError::WriteZero));
    assert_eq!(t.on_write(Err(IoError::Other(9)), &mut n), ExactStep::Fail(IoError::Other(9)));
    assert_eq!(t.on_read(Ok(0), &mut n), ExactStep::Stop);
    assert_eq!(t.finish_read(), Err(IoError::UnexpectedEof));
    assert_eq!(t.on_read(Ok(1), &mut n), ExactStep::Again);
    assert_eq!((t.next_call(), n), (None, 14));
    assert_eq!(t.finish_read(), Ok(()));
}

#[test]
fn buffered_reader_fills_and_consumes() {
    let src = Pieces { data: b"line one\nline two\n".to_vec(), at: 0, piece: 64, interrupted: true };
    let mut r = BufReader::new(src);
    assert_eq!(r.fill_buf(), Ok(&b"line one\nline two\n"[..]));
    r.consume(5);
    // what is buffered is handed out again without a read
    assert_eq!(r.fill_buf(), Ok(&b"one\nline two\n"[..]));
    r.consume(13);
    assert_eq!(r.fill_buf(), Ok(&b""[..]));
    assert_eq!(r.into_inner().at, 18);
}

#[test]
fn buffered_reader_passes_errors_on() {
    let src = Pieces { data: b"x".to_vec(), at: 0, piece: 1, interrupted: false };
    let mut r = BufReader::new(src);
    assert_eq!(r.fill_buf(), Err(IoError::Interrupted));
    assert_eq!(r.fill_buf(), Ok(&b"x"[..]));
}

#[test]
fn read_until_a_delimiter() {
    let mut out = b">".to_vec();
    assert_eq!(read_until_step(b"ab\ncd\n", b'\n', &mut out), (true, 3));
    assert_eq!(out, b">ab\n");
    assert_eq!(read_until_step(b"xyz", b'\n', &mut out), (false, 3));
    assert_eq!(out, b">ab\nxyz");
    assert_eq!(read_until_step(b"", b'\n', &mut out), (false, 0));
}

#[test]
fn appended_bytes_must_be_utf8() {
    let mut s = "ok ".as_bytes().to_vec();
    s.extend_from_slice("é!".as_bytes());
    assert_eq!(append_to_string(&mut s, 3, Ok(3)), Ok(3));
    assert_eq!(s, "ok é!".as_bytes());
    s.extend_from_slice(&[0xff, 0x41]);
    assert_eq!(append_to_string(&mut s, 6, Ok(2)), Err(IoError::InvalidUtf8));
    assert_eq!(s, "ok é!".as_bytes());
    s.extend_from_slice(&[0xc3]);
    assert_eq!(append_to_string(&mut s, 6, Err(IoError::Other(1))), Err(IoError::Other(1)));
    assert_eq!(s, "ok é!".as_bytes());
}

/// Flushing, the way the system library drives a [`BufWriter`].
fn flush(w: &mut BufWriter<Sink>) -> Result<(), IoError> {
    let mut step = w.flush_begin();
    while let FlushStep::Again(consumed) = step {
        step = w.flush_round(consumed);
    }
    match step {
        FlushStep::Broken(e) => Err(e),
        _ => Ok(()),
    }
}

#[test]
fn buffered_writer_keeps_until_flushed() {
    let mut w = BufWriter::new(Sink { taken: Vec::new(), piece: 100, fail: None });
    assert_eq!(w.write(b"abc"), Ok(3));
    assert_eq!(w.write(b"de"), Ok(2));
    assert_eq!(flush(&mut w), Ok(()));
    assert_eq!(flush(&mut w), Ok(()));
    assert_eq!(w.write(b"f"), Ok(1));
    assert_eq!(w.flush_begin(), FlushStep::Again(0));
}

#[test]
fn flush_hands_the_whole_buffer_each_round() {
    // the sink takes 2 bytes a call; each call is given the buffer from its start
    let mut w = BufWriter::new(Sink { taken: Vec::new(), piece: 2, fail: None });
    w.write(b"abcde").unwrap();
    assert_eq!(w.flush_round(0), FlushStep::Again(2));
    assert_eq!(w.flush_round(2), FlushStep::Again(4));
    assert_eq!(w.flush_round(4), FlushStep::Flushed);
}

#[test]
fn flush_decisions() {
    let mut w = BufWriter::new(Sink { taken: Vec::new(), piece: 2, fail: None });
    w.write(b"abcd").unwrap();
    assert_eq!(w.flush_decide(0, Err(IoError::Interrupted)), FlushStep::Again(0));
    assert_eq!(w.flush_decide(0, Ok(3)), FlushStep::Again(3));
    assert_eq!(w.flush_decide(3, Err(IoError::Other(4))), FlushStep::Broken(IoError::Other(4)));
    assert_eq!(w.flush_decide(3, Ok(1)), FlushStep::Flushed);
    assert_eq!(w.flush_begin(), FlushStep::Flushed);
}

#[test]
fn a_failing_sink_breaks_the_writer() {
    let mut w = BufWriter::new(Sink { taken: Vec::new(), piece: 2, fail: Some(IoError::Other(7)) });
    w.write(b"x").unwrap();
    assert_eq!(flush(&mut w), Err(IoError::Other(7)));
}

/// A source that records the room of each read and fills all of it with `7`.
struct Rooms {
    rooms: Vec<usize>,
}

impl Read for Rooms {
    fn read(&mut self, buf: &mut [u8]) -> Result<usize, IoError> {
        self.rooms.push(buf.len());
        buf.fill(7);
        Ok(buf.len())
    }
}

/// A sink that records every buffer it is handed and takes one byte of each.
struct Offers {
    offers: std::rc::Rc<std::cell::RefCell<Vec<Vec<u8>>>>,
}

impl Write for Offers {
    fn write(&mut self, buf: &[u8]) -> Result<usize, IoError> {
        self.offers.borrow_mut().push(buf.to_vec());
        Ok(buf.len().min(1))
    }

    fn flush(&mut self) -> Result<(), IoError> {
        Ok(())
    }
}

#[test]
fn fill_buf_reads_into_the_whole_buffer() {
    let mut r = BufReader::new(Rooms { rooms: vec![] });
    assert_eq!(r.fill_buf().map(|b| b.len()), Ok(0x4000));
    // a full buffer is handed out again without a read
    assert_eq!(r.fill_buf().map(|b| b.len()), Ok(0x4000));
    assert_eq!(r.get_ref().rooms, vec![0x4000]);
}

#[test]
fn flush_round_hands_the_whole_buffer() {
    let record = std::rc::Rc::new(std::cell::RefCell::new(Vec::new()));
    let mut w = BufWriter::new(Offers { offers: record.clone() });
    w.write(b"abc").unwrap();
    assert_eq!(w.flush_round(0), FlushStep::Again(1));
    assert_eq!(w.flush_round(1), FlushStep::Again(2));
    assert_eq!(w.flush_round(2), FlushStep::Flushed);
    // the whole buffer, not what is left of it, goes to the sink each round
    assert_eq!(*record.borrow(), vec![b"abc".to_vec(), b"abc".to_vec(), b"abc".to_vec()]);
}
