//! Reassembly of a byte stream into protocol lines of bounded length.
use vstd::prelude::*;

use crate::message::{CR, LF};

verus! {

/// The longest line a connection may send, in bytes.
pub const MAX_LINE: usize = 512;

/// Why a segment of the stream was rejected.
#[derive(Debug, Clone, Copy, PartialEq, Eq, Structural)]
pub enum MessageError {
    /// The line exceeded the capacity.
    MessageTooLong,
    /// A NUL byte, or a line feed without a carriage return before it.
    MalformedMessage,
}

/// The state of a framer: the bytes of the line in progress, whether it is
/// skipping input after an error, and whether a carriage return is pending.
pub struct FramerState {
    pub buf: Seq<u8>,
    pub resync: bool,
    pub pending_cr: bool,
}

/// What one byte yields: a completed line or an error, if anything.
pub type Frame = Result<Seq<u8>, MessageError>;

pub open spec fn clean() -> FramerState {
    FramerState { buf: Seq::empty(), resync: false, pending_cr: false }
}

pub open spec fn failed() -> FramerState {
    FramerState { buf: Seq::empty(), resync: true, pending_cr: false }
}

/// One byte of input.
pub open spec fn step(s: FramerState, cap: nat, b: u8) -> (FramerState, Option<Frame>) {
    if s.resync {
        if b == CR {
            (FramerState { pending_cr: true, ..s }, None)
        } else if b == LF && s.pending_cr {
            (clean(), None)
        } else {
            (FramerState { pending_cr: false, ..s }, None)
        }
    } else if b == CR {
        (FramerState { pending_cr: true, ..s }, None)
    } else if b == LF {
        if s.pending_cr {
            (clean(), Some(Ok(s.buf)))
        } else {
            (failed(), Some(Err(MessageError::MalformedMessage)))
        }
    } else if b == 0 {
        (failed(), Some(Err(MessageError::MalformedMessage)))
    } else if s.buf.len() >= cap {
        (failed(), Some(Err(MessageError::MessageTooLong)))
    } else {
        (FramerState { buf: s.buf.push(b), ..s }, None)
    }
}

pub open spec fn opt_seq(e: Option<Frame>) -> Seq<Frame> {
    match e {
        Some(f) => seq![f],
        None => Seq::empty(),
    }
}

/// A run of bytes: the final state and everything yielded, in order.
pub open spec fn run(s: FramerState, cap: nat, bytes: Seq<u8>) -> (FramerState, Seq<Frame>)
    decreases bytes.len(),
{
    if bytes.len() == 0 {
        (s, Seq::empty())
    } else {
        let (s1, e1) = run(s, cap, bytes.drop_last());
        let (s2, e) = step(s1, cap, bytes.last());
        (s2, e1 + opt_seq(e))
    }
}

pub open spec fn frame_view(f: Result<Vec<u8>, MessageError>) -> Frame {
    match f {
        Ok(v) => Ok(v@),
        Err(e) => Err(e),
    }
}

pub open spec fn frames_view(fs: Seq<Result<Vec<u8>, MessageError>>) -> Seq<Frame> {
    Seq::new(fs.len(), |i: int| frame_view(fs[i]))
}

/// Turns a byte stream into lines of at most `capacity` bytes.
///
/// A line ends at `\r\n`. A NUL byte, a `\n` without `\r`, or a line that
/// would grow past the capacity is an error: the line in progress is dropped
/// and input is skipped up to the next `\r\n`.
#[derive(Debug)]
pub struct LineFramer {
    message: Vec<u8>,
    capacity: usize,
    error: bool,
    got_r: bool,
}

impl LineFramer {
    pub closed spec fn state(&self) -> FramerState {
        FramerState { buf: self.message@, resync: self.error, pending_cr: self.got_r }
    }

    pub closed spec fn capacity(&self) -> nat {
        self.capacity as nat
    }

    /// The line in progress never exceeds the capacity.
    pub open spec fn wf(&self) -> bool {
        self.state().buf.len() <= self.capacity()
    }

    /// A framer for lines of at most `capacity` bytes.
    pub fn new(capacity: usize) -> (r: LineFramer)
        ensures
            r.wf(),
            r.state() == clean(),
            r.capacity() == capacity,
    {
        let r = LineFramer { message: Vec::new(), capacity, error: false, got_r: false };
        assert(r.state().buf =~= Seq::<u8>::empty());
        r
    }

    /// Feeds one byte.
    pub fn push_byte(&mut self, b: u8) -> (r: Option<Result<Vec<u8>, MessageError>>)
        requires
            old(self).wf(),
        ensures
            final(self).wf(),
            final(self).capacity() == old(self).capacity(),
            (final(self).state(), match r {
                Some(f) => Some(frame_view(f)),
                None => None,
            }) == step(old(self).state(), old(self).capacity(), b),
    {
        if self.error {
            if b == CR {
                self.got_r = true;
            } else if b == LF && self.got_r {
                self.error = false;
                self.got_r = false;
                self.message = Vec::new();
                assert(self.state() =~= clean());
            } else {
                self.got_r = false;
            }
            return None;
        }
        if b == CR {
            self.got_r = true;
            None
        } else if b == LF {
            if self.got_r {
                let mut line: Vec<u8> = Vec::new();
                std::mem::swap(&mut line, &mut self.message);
                self.got_r = false;
                assert(self.state() =~= clean());
                Some(Ok(line))
            } else {
                self.fail();
                Some(Err(MessageError::MalformedMessage))
            }
        } else if b == 0 {
            self.fail();
            Some(Err(MessageError::MalformedMessage))
        } else if self.message.len() >= self.capacity {
            self.fail();
            Some(Err(MessageError::MessageTooLong))
        } else {
            self.message.push(b);
            None
        }
    }

    /// Drops the line in progress and skips input up to the next `\r\n`.
    fn fail(&mut self)
        ensures
            final(self).state() == failed(),
            final(self).capacity() == old(self).capacity(),
    {
        self.message = Vec::new();
        self.error = true;
        self.got_r = false;
        assert(self.state() =~= failed());
    }

    /// Feeds a chunk of the stream and returns the lines and errors it
    /// completes, in order.
    pub fn feed(&mut self, bytes: &[u8]) -> (r: Vec<Result<Vec<u8>, MessageError>>)
        requires
            old(self).wf(),
        ensures
            final(self).wf(),
            final(self).capacity() == old(self).capacity(),
            (final(self).state(), frames_view(r@)) == run(old(self).state(), old(self).capacity(), bytes@),
    {
        let mut out: Vec<Result<Vec<u8>, MessageError>> = Vec::new();
        let mut i: usize = 0;
        let ghost s0 = self.state();
        let ghost cap = self.capacity();
        assert(bytes@.subrange(0, 0) =~= Seq::<u8>::empty());
        assert(frames_view(out@) =~= Seq::<Frame>::empty());
        while i < bytes.len()
            invariant
                self.wf(),
                self.capacity() == cap,
                0 <= i <= bytes@.len(),
                (self.state(), frames_view(out@)) == run(s0, cap, bytes@.subrange(0, i as int)),
            decreases bytes@.len() - i,
        {
            let ghost before = frames_view(out@);
            assert(bytes@.subrange(0, i + 1).drop_last() =~= bytes@.subrange(0, i as int));
            let e = self.push_byte(bytes[i]);
            match e {
                Some(f) => {
                    out.push(f);
                    assert(frames_view(out@) =~= before + seq![frame_view(f)]);
                },
                None => {
                    assert(frames_view(out@) =~= before + Seq::<Frame>::empty());
                },
            }
            i = i + 1;
        }
        assert(bytes@.subrange(0, bytes@.len() as int) =~= bytes@);
        out
    }
}

impl Default for LineFramer {
    /// A framer for lines of at most 512 bytes.
    fn default() -> (r: LineFramer)
        ensures
            r.wf(),
            r.state() == clean(),
            r.capacity() == MAX_LINE,
    {
        LineFramer::new(MAX_LINE)
    }
}

/// Running two chunks in turn is running them joined.
pub proof fn lemma_run_append(s: FramerState, cap: nat, a: Seq<u8>, b: Seq<u8>)
    ensures
        run(s, cap, a + b) == ({
            let (s1, e1) = run(s, cap, a);
            let (s2, e2) = run(s1, cap, b);
            (s2, e1 + e2)
        }),
    decreases b.len(),
{
    if b.len() == 0 {
        assert(a + b =~= a);
        let (s1, e1) = run(s, cap, a);
        assert(e1 + Seq::<Frame>::empty() =~= e1);
    } else {
        lemma_run_append(s, cap, a, b.drop_last());
        assert((a + b).drop_last() =~= a + b.drop_last());
        assert((a + b).last() == b.last());
        let (s1, e1) = run(s, cap, a);
        let (s2, e2) = run(s1, cap, b.drop_last());
        let (s3, e) = step(s2, cap, b.last());
        assert(e1 + e2 + opt_seq(e) =~= e1 + (e2 + opt_seq(e)));
    }
}

/// A line that respects the capacity and holds no CR, LF or NUL, fed to a
/// clean framer, leaves it holding exactly that line.
proof fn lemma_run_plain(cap: nat, line: Seq<u8>)
    requires
        line.len() <= cap,
        forall|i: int| 0 <= i < line.len() ==> line[i] != CR && line[i] != LF && line[i] != 0,
    ensures
        run(clean(), cap, line) == (FramerState { buf: line, resync: false, pending_cr: false }, Seq::<Frame>::empty()),
    decreases line.len(),
{
    if line.len() == 0 {
        assert(line =~= Seq::<u8>::empty());
    } else {
        let prev = line.drop_last();
        lemma_run_plain(cap, prev);
        assert(prev.push(line.last()) =~= line);
        assert(Seq::<Frame>::empty() + Seq::<Frame>::empty() =~= Seq::<Frame>::empty());
    }
}

/// A yielded line is no longer than `cap`.
pub open spec fn frame_fits(f: Frame, cap: nat) -> bool {
    f matches Ok(line) ==> line.len() <= cap
}

/// Every yielded line is no longer than `cap`.
pub open spec fn lines_fit(out: Seq<Frame>, cap: nat) -> bool {
    forall|i: int| 0 <= i < out.len() ==> frame_fits(#[trigger] out[i], cap)
}

/// Every line a framer yields fits its capacity.
pub proof fn lemma_lines_bounded(s: FramerState, cap: nat, bytes: Seq<u8>)
    requires
        s.buf.len() <= cap,
    ensures
        run(s, cap, bytes).0.buf.len() <= cap,
        lines_fit(run(s, cap, bytes).1, cap),
    decreases bytes.len(),
{
    if bytes.len() > 0 {
        lemma_lines_bounded(s, cap, bytes.drop_last());
        let (s1, e1) = run(s, cap, bytes.drop_last());
        let (s2, e) = step(s1, cap, bytes.last());
        let all = e1 + opt_seq(e);
        assert forall|i: int| 0 <= i < all.len() implies frame_fits(#[trigger] all[i], cap) by {
            if i < e1.len() {
                assert(all[i] == e1[i]);
            }
        }
    }
}

/// After any input, a `\r\n` followed by a well-formed line and its `\r\n`
/// yields that line last and leaves the framer clean.
pub proof fn lemma_recovery(s: FramerState, cap: nat, line: Seq<u8>)
    requires
        line.len() <= cap,
        forall|i: int| 0 <= i < line.len() ==> line[i] != CR && line[i] != LF && line[i] != 0,
    ensures
        ({
            let (s2, out) = run(s, cap, seq![CR, LF] + line + seq![CR, LF]);
            &&& s2 == clean()
            &&& out.len() > 0
            &&& out.last() == Ok::<Seq<u8>, MessageError>(line)
        }),
{
    let crlf = seq![CR, LF];
    // The terminator brings any state back to a clean one.
    assert(crlf.drop_last() =~= seq![CR]);
    assert(seq![CR].drop_last() =~= Seq::<u8>::empty());
    let (s1, e1) = run(s, cap, crlf);
    assert(s1 =~= clean()) by {
        let (a, _) = run(s, cap, seq![CR]);
        assert(a.pending_cr);
    }
    lemma_run_plain(cap, line);
    lemma_run_append(s, cap, crlf, line);
    let held = FramerState { buf: line, resync: false, pending_cr: false };
    assert(run(s, cap, crlf + line).0 == held);
    lemma_run_append(s, cap, crlf + line, crlf);
    let e_line = run(s, cap, crlf + line).1;
    // The final terminator completes the line.
    let after_cr = FramerState { buf: line, resync: false, pending_cr: true };
    assert(seq![CR].last() == CR);
    assert(run(held, cap, Seq::<u8>::empty()) == (held, Seq::<Frame>::empty()));
    assert(step(held, cap, CR).0 == after_cr);
    assert(run(held, cap, seq![CR]) == (after_cr, Seq::<Frame>::empty() + Seq::<Frame>::empty()));
    assert(step(after_cr, cap, LF) == (clean(), Some(Ok::<Seq<u8>, MessageError>(line))));
    let e_end = run(held, cap, crlf).1;
    assert(e_end =~= Seq::<Frame>::empty() + Seq::<Frame>::empty() + seq![Ok::<Seq<u8>, MessageError>(line)]);
    let out = run(s, cap, crlf + line + crlf).1;
    assert(out == e_line + e_end);
    assert(out.last() == e_end.last());
}

} // verus!
