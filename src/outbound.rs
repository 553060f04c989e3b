//! The per-connection queue of outbound lines and what to do after each
//! write attempt.
use vstd::prelude::*;

verus! {

/// What a write attempt on the socket came to.
#[derive(Debug, Clone, Copy, PartialEq, Eq, Structural)]
pub enum WriteEvent {
    /// This many bytes of the offered ones were written.
    Wrote(usize),
    /// The socket cannot take bytes now.
    WouldBlock,
    /// The write failed.
    Failed,
}

/// What the connection layer does next.
#[derive(Debug, Clone, Copy, PartialEq, Eq, Structural)]
pub enum WriteAction {
    /// Offer the unsent bytes again.
    Offer,
    /// Wait for the next writable event.
    Wait,
    /// Drop the connection.
    Teardown,
}

/// Lines waiting to be written, first in first out, with a cursor into the
/// first one for a write that was cut short.
#[derive(Debug)]
pub struct WriteQueue {
    pending: Vec<Vec<u8>>,
    cursor: usize,
}

impl WriteQueue {
    pub closed spec fn pending_view(&self) -> Seq<Seq<u8>> {
        Seq::new(self.pending@.len(), |i: int| self.pending@[i]@)
    }

    pub closed spec fn cursor_view(&self) -> nat {
        self.cursor as nat
    }

    /// Queued lines are non-empty; the cursor lies inside the first line, and
    /// is zero when nothing is queued.
    pub open spec fn wf(&self) -> bool {
        &&& forall|i: int| 0 <= i < self.pending_view().len() ==> (#[trigger] self.pending_view()[i]).len() > 0
        &&& (self.pending_view().len() > 0 ==> self.cursor_view() < self.pending_view()[0].len())
        &&& (self.pending_view().len() == 0 ==> self.cursor_view() == 0)
    }

    /// The bytes of the first line not written yet; none when nothing is queued.
    pub open spec fn unsent_view(&self) -> Seq<u8> {
        if self.pending_view().len() > 0 {
            self.pending_view()[0].subrange(self.cursor_view() as int, self.pending_view()[0].len() as int)
        } else {
            Seq::empty()
        }
    }

    /// An empty queue.
    pub fn new() -> (r: WriteQueue)
        ensures
            r.wf(),
            r.pending_view() == Seq::<Seq<u8>>::empty(),
            r.cursor_view() == 0,
    {
        let r = WriteQueue { pending: Vec::new(), cursor: 0 };
        assert(r.pending_view() =~= Seq::<Seq<u8>>::empty());
        r
    }

    /// Queues a line behind the others; an empty line is not queued.
    pub fn push(&mut self, line: Vec<u8>)
        requires
            old(self).wf(),
        ensures
            final(self).wf(),
            final(self).pending_view() == if line@.len() > 0 {
                old(self).pending_view().push(line@)
            } else {
                old(self).pending_view()
            },
            final(self).cursor_view() == old(self).cursor_view(),
    {
        if line.len() > 0 {
            let ghost l = line@;
            self.pending.push(line);
            assert(self.pending_view() =~= old(self).pending_view().push(l));
        }
    }

    /// Whether lines are waiting.
    pub fn is_empty(&self) -> (r: bool)
        ensures
            r == (self.pending_view().len() == 0),
    {
        self.pending.len() == 0
    }

    /// The bytes to offer to the socket next.
    pub fn unsent(&self) -> (r: &[u8])
        requires
            self.wf(),
        ensures
            r@ == self.unsent_view(),
    {
        if self.pending.len() > 0 {
            assert(self.pending_view()[0] == self.pending@[0]@);
            vstd::slice::slice_subrange(self.pending[0].as_slice(), self.cursor, self.pending[0].len())
        } else {
            let empty: &[u8] = &[];
            assert(empty@ =~= Seq::<u8>::empty());
            empty
        }
    }

    /// Takes in the outcome of a write of `unsent()`. Written bytes advance
    /// the cursor; the first line leaves only once fully written; bytes
    /// remain to be offered while some were written and more are queued.
    /// Nothing changes when the socket would block. A failed write drops
    /// the whole queue and the connection.
    pub fn on_event(&mut self, ev: WriteEvent) -> (r: WriteAction)
        requires
            old(self).wf(),
            ev matches WriteEvent::Wrote(n) ==> n <= old(self).unsent_view().len(),
        ensures
            final(self).wf(),
            match ev {
                WriteEvent::Wrote(n) => {
                    let done = old(self).pending_view().len() > 0 && old(self).cursor_view() + n
                        == old(self).pending_view()[0].len();
                    &&& done ==> final(self).pending_view() == old(self).pending_view().drop_first()
                        && final(self).cursor_view() == 0
                    &&& !done ==> final(self).pending_view() == old(self).pending_view()
                        && final(self).cursor_view() == old(self).cursor_view() + n
                    &&& r == if n > 0 && final(self).pending_view().len() > 0 {
                        WriteAction::Offer
                    } else {
                        WriteAction::Wait
                    }
                },
                WriteEvent::WouldBlock => final(self).pending_view() == old(self).pending_view()
                    && final(self).cursor_view() == old(self).cursor_view() && r == WriteAction::Wait,
                WriteEvent::Failed => final(self).pending_view().len() == 0 && final(self).cursor_view() == 0 && r
                    == WriteAction::Teardown,
            },
    {
        match ev {
            WriteEvent::Wrote(n) => {
                if self.pending.len() == 0 {
                    return WriteAction::Wait;
                }
                proof {
                    assert(self.pending_view()[0] == self.pending@[0]@);
                }
                let head_len = self.pending[0].len();
                assert(self.cursor + n <= head_len);
                let cursor = self.cursor + n;
                if cursor == head_len {
                    let _head = self.pending.remove(0);
                    self.cursor = 0;
                    proof {
                        assert(self.pending_view() =~= old(self).pending_view().drop_first());
                    }
                } else {
                    self.cursor = cursor;
                }
                if n > 0 && self.pending.len() > 0 {
                    WriteAction::Offer
                } else {
                    WriteAction::Wait
                }
            },
            WriteEvent::WouldBlock => WriteAction::Wait,
            WriteEvent::Failed => {
                self.pending = Vec::new();
                self.cursor = 0;
                assert(self.pending_view() =~= Seq::<Seq<u8>>::empty());
                WriteAction::Teardown
            },
        }
    }
}

} // verus!
