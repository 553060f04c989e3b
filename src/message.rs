//! Parsing and encoding of single IRC protocol lines.
//!
//! A `Message` owns the bytes of its line and records where the prefix, the
//! command and each parameter lie in them.
use vstd::prelude::*;

use crate::command::{command_from_bytes, Command};
use crate::text::{first_index_of, first_occurrence, index_of_byte, is_ascii_bytes, position};

verus! {

pub const SPACE: u8 = 32;

pub const COLON: u8 = 58;

pub const AT: u8 = 64;

pub const CR: u8 = 13;

pub const LF: u8 = 10;

/// What a line is made of, once parsed.
pub struct ParsedLine {
    pub prefix: Option<Seq<u8>>,
    pub command: Seq<u8>,
    /// The middle parameters, followed by the trailing one when `trailing` holds.
    pub params: Seq<Seq<u8>>,
    pub trailing: bool,
}

/// The pieces of `s` between occurrences of `sep`, as `split` yields them
/// (empty pieces included, always at least one piece).
pub open spec fn split_on(s: Seq<u8>, sep: u8) -> Seq<Seq<u8>>
    decreases s.len(),
{
    if s.len() == 0 {
        seq![Seq::<u8>::empty()]
    } else {
        let prev = split_on(s.drop_last(), sep);
        if s.last() == sep {
            prev.push(Seq::<u8>::empty())
        } else {
            prev.update(prev.len() - 1, prev.last().push(s.last()))
        }
    }
}

pub proof fn lemma_split_on_len(s: Seq<u8>, sep: u8)
    ensures
        split_on(s, sep).len() >= 1,
    decreases s.len(),
{
    if s.len() > 0 {
        lemma_split_on_len(s.drop_last(), sep);
    }
}

/// The non-empty pieces of `ps`, in order.
pub open spec fn non_empty(ps: Seq<Seq<u8>>) -> Seq<Seq<u8>>
    decreases ps.len(),
{
    if ps.len() == 0 {
        Seq::empty()
    } else if ps.last().len() > 0 {
        non_empty(ps.drop_last()).push(ps.last())
    } else {
        non_empty(ps.drop_last())
    }
}

/// The line without its leading `@tags ` block, or `None` when that block
/// never ends.
pub open spec fn strip_tags(line: Seq<u8>) -> Option<Seq<u8>> {
    if line.len() > 0 && line[0] == AT {
        match first_index_of(line, SPACE) {
            Some(i) => Some(line.subrange(i + 1, line.len() as int)),
            None => None,
        }
    } else {
        Some(line)
    }
}

/// Splits off a leading `:prefix ` block, or `None` when that block never ends.
pub open spec fn split_prefix(r: Seq<u8>) -> Option<(Option<Seq<u8>>, Seq<u8>)> {
    if r.len() > 0 && r[0] == COLON {
        match first_index_of(r, SPACE) {
            Some(j) => Some((Some(r.subrange(1, j)), r.subrange(j + 1, r.len() as int))),
            None => None,
        }
    } else {
        Some((None, r))
    }
}

/// Splits off the trailing parameter, introduced by the first `" :"`.
pub open spec fn split_trailing(m: Seq<u8>) -> (Seq<u8>, Option<Seq<u8>>) {
    match first_occurrence(m, seq![SPACE, COLON]) {
        Some(k) => (m.subrange(0, k), Some(m.subrange(k + 2, m.len() as int))),
        None => (m, None),
    }
}

/// The parse of a line: tags dropped, optional prefix, command, middle
/// parameters without empty ones, optional trailing parameter. `None` when
/// there is no command or the command is not ASCII.
pub open spec fn parse_line(line: Seq<u8>) -> Option<ParsedLine> {
    match strip_tags(line) {
        None => None,
        Some(r) => match split_prefix(r) {
            None => None,
            Some((p, m)) => {
                let (mid, t) = split_trailing(m);
                let pieces = split_on(mid, SPACE);
                let cmd = pieces[0];
                if cmd.len() == 0 || !is_ascii_bytes(cmd) {
                    None
                } else {
                    Some(
                        ParsedLine {
                            prefix: p,
                            command: cmd,
                            params: non_empty(pieces.drop_first()) + trailing_seq(t),
                            trailing: t is Some,
                        },
                    )
                }
            },
        },
    }
}

/// The trailing parameter as a sequence of at most one parameter.
pub open spec fn trailing_seq(t: Option<Seq<u8>>) -> Seq<Seq<u8>> {
    match t {
        Some(t) => seq![t],
        None => Seq::empty(),
    }
}

/// Middle parameters, each preceded by a space.
pub open spec fn join_middles(ms: Seq<Seq<u8>>) -> Seq<u8>
    decreases ms.len(),
{
    if ms.len() == 0 {
        Seq::empty()
    } else {
        join_middles(ms.drop_last()) + seq![SPACE] + ms.last()
    }
}

/// The parameter part of a line.
pub open spec fn params_text(ps: Seq<Seq<u8>>, trailing: bool) -> Seq<u8> {
    if trailing && ps.len() > 0 {
        join_middles(ps.drop_last()) + seq![SPACE, COLON] + ps.last()
    } else {
        join_middles(ps)
    }
}

/// The line (without terminator) that a parsed message stands for.
pub open spec fn line_of(x: ParsedLine) -> Seq<u8> {
    prefix_text(x.prefix) + x.command + params_text(x.params, x.trailing)
}

/// The prefix block of a line.
pub open spec fn prefix_text(prefix: Option<Seq<u8>>) -> Seq<u8> {
    match prefix {
        Some(p) => seq![COLON] + p + seq![SPACE],
        None => Seq::empty(),
    }
}

pub open spec fn crlf() -> Seq<u8> {
    seq![CR, LF]
}

/// The bytes that the ranges `rs` select from `buf`.
pub open spec fn slices_of(buf: Seq<u8>, rs: Seq<(usize, usize)>) -> Seq<Seq<u8>> {
    Seq::new(rs.len(), |i: int| buf.subrange(rs[i].0 as int, rs[i].1 as int))
}

pub open spec fn range_ok(buf: Seq<u8>, r: (usize, usize)) -> bool {
    r.0 <= r.1 <= buf.len()
}

/// A parsed IRC message.
pub struct Message {
    message: Vec<u8>,
    prefix: Option<(usize, usize)>,
    command: (usize, usize),
    params: Vec<(usize, usize)>,
    trailing: bool,
}

impl Message {
    /// All recorded ranges lie inside the owned buffer.
    pub closed spec fn wf(&self) -> bool {
        &&& (self.prefix matches Some(p) ==> range_ok(self.message@, p))
        &&& range_ok(self.message@, self.command)
        &&& forall|i: int| 0 <= i < self.params@.len() ==> range_ok(self.message@, #[trigger] self.params@[i])
    }

    /// The raw bytes of the line.
    pub closed spec fn raw(&self) -> Seq<u8> {
        self.message@
    }

    /// The prefix of the parsed line.
    pub open spec fn prefix_view(&self) -> Option<Seq<u8>> {
        self.parsed().prefix
    }

    /// The command of the parsed line.
    pub open spec fn command_view(&self) -> Seq<u8> {
        self.parsed().command
    }

    /// The parameters of the parsed line.
    pub open spec fn params_view(&self) -> Seq<Seq<u8>> {
        self.parsed().params
    }

    /// The message as a parsed line: what `new` obtained from `raw`.
    pub closed spec fn parsed(&self) -> ParsedLine {
        ParsedLine {
            prefix: match self.prefix {
                Some(p) => Some(self.message@.subrange(p.0 as int, p.1 as int)),
                None => None,
            },
            command: self.message@.subrange(self.command.0 as int, self.command.1 as int),
            params: slices_of(self.message@, self.params@),
            trailing: self.trailing,
        }
    }

    /// Parses a line (without its terminator).
    pub fn new(message: Vec<u8>) -> (r: Result<Message, &'static str>)
        ensures
            match r {
                Ok(m) => m.wf() && m.raw() == message@ && parse_line(message@) == Some(m.parsed()),
                Err(_) => parse_line(message@) is None,
            },
    {
        let mut this = Message {
            message: message,
            prefix: None,
            command: (0, 0),
            params: Vec::new(),
            trailing: false,
        };
        match this.init() {
            Ok(()) => Ok(this),
            Err(e) => Err(e),
        }
    }

    /// Parses the owned line, filling in the ranges.
    fn init(&mut self) -> (r: Result<(), &'static str>)
        ensures
            final(self).message@ == old(self).message@,
            match r {
                Ok(()) => final(self).wf() && parse_line(final(self).message@) == Some(final(self).parsed()),
                Err(_) => parse_line(final(self).message@) is None,
            },
    {
        let line = self.message.as_slice();
        let len = line.len();
        let ghost l = line@;
        let (prefix, mstart) = match locate_middle(line) {
            Some(v) => v,
            None => {
                return Err("Message does not contain a command.");
            },
        };
        let ghost m = l.subrange(mstart as int, len as int);
        // Trailing parameter: after the first " :".
        let tail = vstd::slice::slice_subrange(line, mstart, len);
        assert(tail@ =~= m);
        let marker = vec![SPACE, COLON];
        let found = position(tail, marker.as_slice());
        let mid_end: usize = match found {
            Some(k) => mstart + k,
            None => len,
        };
        proof {
            assert(marker@ =~= seq![SPACE, COLON]);
            match found {
                Some(k) => {
                    assert(m.subrange(0, k as int) =~= l.subrange(mstart as int, mid_end as int));
                    assert(m.subrange(k + 2, m.len() as int) =~= l.subrange(mid_end + 2, len as int));
                },
                None => {
                    assert(m =~= l.subrange(mstart as int, mid_end as int));
                },
            }
        }
        let pieces = split_pieces(line, mstart, mid_end);
        let ghost all = split_on(l.subrange(mstart as int, mid_end as int), SPACE);
        // The first piece is the command.
        let command = pieces[0];
        let cmd_slice = vstd::slice::slice_subrange(line, command.0, command.1);
        if command.0 == command.1 {
            return Err("Message does not contain a command.");
        }
        if !ascii_only(cmd_slice) {
            return Err("Command contains non-ASCII characters.");
        }
        // The remaining non-empty pieces are middle parameters.
        let mut params = non_empty_pieces(line, &pieces);
        let ghost middles = slices_of(l, params@);
        let has_trailing = found.is_some();
        if has_trailing {
            params.push((mid_end + 2, len));
            assert(slices_of(l, params@) =~= middles + seq![l.subrange(mid_end + 2, len as int)]);
        } else {
            assert(slices_of(l, params@) =~= middles + Seq::<Seq<u8>>::empty());
        }
        self.prefix = prefix;
        self.command = command;
        self.params = params;
        self.trailing = has_trailing;
        Ok(())
    }

    /// Returns the message prefix, if any.
    pub fn prefix(&self) -> (r: Option<&[u8]>)
        requires
            self.wf(),
        ensures
            match r {
                Some(p) => self.prefix_view() == Some(p@),
                None => self.prefix_view() is None,
            },
    {
        match self.prefix {
            Some(p) => Some(vstd::slice::slice_subrange(self.message.as_slice(), p.0, p.1)),
            None => None,
        }
    }

    /// Returns the command of the message, `None` for an unknown verb.
    pub fn command(&self) -> (r: Option<Command>)
        requires
            self.wf(),
        ensures
            r == command_from_bytes(self.command_view()),
    {
        Command::from_slice(self.command_bytes())
    }

    /// Returns the command part of the message.
    pub fn command_bytes(&self) -> (r: &[u8])
        requires
            self.wf(),
        ensures
            r@ == self.command_view(),
    {
        vstd::slice::slice_subrange(self.message.as_slice(), self.command.0, self.command.1)
    }

    /// Whether the last parameter was introduced by `" :"`.
    pub fn has_trailing(&self) -> (r: bool)
        ensures
            r == self.parsed().trailing,
    {
        self.trailing
    }

    /// The number of parameters.
    pub fn param_count(&self) -> (r: usize)
        ensures
            r == self.params_view().len(),
    {
        self.params.len()
    }

    /// The parameter at index `i`, if there is one.
    pub fn param(&self, i: usize) -> (r: Option<&[u8]>)
        requires
            self.wf(),
        ensures
            match r {
                Some(p) => i < self.params_view().len() && p@ == self.params_view()[i as int],
                None => i >= self.params_view().len(),
            },
    {
        if i < self.params.len() {
            let p = self.params[i];
            Some(vstd::slice::slice_subrange(self.message.as_slice(), p.0, p.1))
        } else {
            None
        }
    }

    /// Returns the parameters of the command, in order.
    pub fn params(&self) -> (r: Params<'_>)
        requires
            self.wf(),
        ensures
            r.remaining() == self.params_view(),
            r.valid(),
    {
        let r = Params { msg: self, i: 0 };
        assert(r.remaining() =~= self.params_view());
        r
    }

    /// The raw bytes of the line.
    pub fn as_bytes(&self) -> (r: &[u8])
        ensures
            r@ == self.raw(),
    {
        self.message.as_slice()
    }

    /// Consumes the message and returns the underlying bytes.
    pub fn into_vec(self) -> (r: Vec<u8>)
        ensures
            r@ == self.raw(),
    {
        self.message
    }

    /// Writes the message back as a CRLF-terminated wire line.
    pub fn encode(&self) -> (r: Vec<u8>)
        requires
            self.wf(),
        ensures
            r@ == line_of(self.parsed()) + crlf(),
    {
        let mut out: Vec<u8> = Vec::new();
        if let Some(p) = self.prefix {
            out.push(COLON);
            append(&mut out, vstd::slice::slice_subrange(self.message.as_slice(), p.0, p.1));
            out.push(SPACE);
        }
        let ghost head = out@;
        assert(head =~= prefix_text(self.prefix_view()));
        append(&mut out, self.command_bytes());
        let ghost ps = self.params_view();
        let n = self.params.len();
        let middles: usize = if self.trailing && n > 0 {
            n - 1
        } else {
            n
        };
        let ghost pre = out@;
        let mut i: usize = 0;
        assert(ps.subrange(0, 0) =~= Seq::<Seq<u8>>::empty());
        while i < middles
            invariant
                self.wf(),
                ps == self.params_view(),
                n == ps.len(),
                middles <= n,
                0 <= i <= middles,
                out@ == pre + join_middles(ps.subrange(0, i as int)),
            decreases middles - i,
        {
            let p = self.params[i];
            out.push(SPACE);
            append(&mut out, vstd::slice::slice_subrange(self.message.as_slice(), p.0, p.1));
            proof {
                assert(ps.subrange(0, i + 1).drop_last() =~= ps.subrange(0, i as int));
            }
            i = i + 1;
        }
        if self.trailing && n > 0 {
            let p = self.params[n - 1];
            out.push(SPACE);
            out.push(COLON);
            append(&mut out, vstd::slice::slice_subrange(self.message.as_slice(), p.0, p.1));
            assert(ps.subrange(0, middles as int) =~= ps.drop_last());
        } else {
            assert(ps.subrange(0, middles as int) =~= ps);
        }
        out.push(CR);
        out.push(LF);
        assert(out@ =~= line_of(self.parsed()) + crlf());
        out
    }
}

/// The parameters of a message, handed out in order.
pub struct Params<'a> {
    msg: &'a Message,
    i: usize,
}

impl<'a> Params<'a> {
    /// The message handed out from is well formed.
    pub closed spec fn valid(&self) -> bool {
        self.msg.wf()
    }

    /// The parameters not handed out yet.
    pub closed spec fn remaining(&self) -> Seq<Seq<u8>> {
        self.msg.params_view().subrange(
            if self.i <= self.msg.params_view().len() {
                self.i as int
            } else {
                self.msg.params_view().len() as int
            },
            self.msg.params_view().len() as int,
        )
    }

    /// Hands out the next parameter.
    pub fn next(&mut self) -> (r: Option<&'a [u8]>)
        requires
            old(self).valid(),
        ensures
            final(self).valid(),
            match r {
                Some(p) => old(self).remaining().len() > 0 && p@ == old(self).remaining()[0]
                    && final(self).remaining() == old(self).remaining().drop_first(),
                None => old(self).remaining().len() == 0 && final(self).remaining().len() == 0,
            },
    {
        let msg: &'a Message = self.msg;
        if self.i < msg.params.len() {
            let p = msg.params[self.i];
            self.i = self.i + 1;
            let r = vstd::slice::slice_subrange(msg.message.as_slice(), p.0, p.1);
            proof {
                assert(self.remaining() =~= old(self).remaining().drop_first());
            }
            Some(r)
        } else {
            None
        }
    }
}

/// Skips the tag block and reads the prefix block of a line: the prefix range
/// and where the rest (command and parameters) starts.
fn locate_middle(line: &[u8]) -> (r: Option<(Option<(usize, usize)>, usize)>)
    ensures
        match r {
            Some((prefix, mstart)) => {
                &&& mstart <= line@.len()
                &&& prefix matches Some(p) ==> range_ok(line@, p)
                &&& strip_tags(line@) matches Some(rest) && split_prefix(rest) == Some(
                    (
                        match prefix {
                            Some(p) => Some(line@.subrange(p.0 as int, p.1 as int)),
                            None => None,
                        },
                        line@.subrange(mstart as int, line@.len() as int),
                    ),
                )
            },
            None => strip_tags(line@) is None || split_prefix(strip_tags(line@)->0) is None,
        },
{
    let len = line.len();
    let ghost l = line@;
    // Tags: from `@` to the first space, ignored.
    let base: usize = if len > 0 && line[0] == AT {
        match index_of_byte(line, SPACE) {
            Some(i) => i + 1,
            None => {
                return None;
            },
        }
    } else {
        0
    };
    assert(strip_tags(l) == Some(l.subrange(base as int, len as int)));
    let rest = vstd::slice::slice_subrange(line, base, len);
    // Prefix: from `:` to the next space.
    if rest.len() > 0 && rest[0] == COLON {
        match index_of_byte(rest, SPACE) {
            Some(j) => {
                let mstart = base + j + 1;
                assert(rest@.subrange(1, j as int) =~= l.subrange(base + 1, base + j));
                assert(rest@.subrange(j + 1, rest@.len() as int) =~= l.subrange(
                    mstart as int,
                    len as int,
                ));
                Some((Some((base + 1, base + j)), mstart))
            },
            None => None,
        }
    } else {
        assert(rest@ =~= l.subrange(base as int, len as int));
        Some((None, base))
    }
}

/// The ranges of the pieces of `line[from..to]` between single spaces.
fn split_pieces(line: &[u8], from: usize, to: usize) -> (r: Vec<(usize, usize)>)
    requires
        from <= to <= line@.len(),
    ensures
        forall|i: int| 0 <= i < r@.len() ==> range_ok(line@, #[trigger] r@[i]),
        slices_of(line@, r@) == split_on(line@.subrange(from as int, to as int), SPACE),
        r@.len() >= 1,
{
    let ghost l = line@;
    let mut pieces: Vec<(usize, usize)> = Vec::new();
    let mut start: usize = from;
    let mut j: usize = from;
    assert(l.subrange(from as int, from as int) =~= Seq::<u8>::empty());
    assert(slices_of(l, pieces@) =~= Seq::<Seq<u8>>::empty());
    while j < to
        invariant
            line@ == l,
            from <= start <= j <= to <= l.len(),
            forall|i: int| 0 <= i < pieces@.len() ==> range_ok(l, #[trigger] pieces@[i]),
            split_on(l.subrange(from as int, j as int), SPACE) == slices_of(l, pieces@).push(
                l.subrange(start as int, j as int),
            ),
        decreases to - j,
    {
        proof {
            assert(l.subrange(from as int, j + 1).drop_last() =~= l.subrange(from as int, j as int));
            assert(l.subrange(from as int, j + 1).last() == l[j as int]);
        }
        if line[j] == SPACE {
            let ghost old_pieces = pieces@;
            pieces.push((start, j));
            start = j + 1;
            proof {
                assert(slices_of(l, pieces@) =~= slices_of(l, old_pieces).push(
                    l.subrange(pieces@.last().0 as int, j as int),
                ));
                assert(l.subrange(start as int, j + 1) =~= Seq::<u8>::empty());
            }
        } else {
            proof {
                assert(l.subrange(start as int, j + 1) =~= l.subrange(start as int, j as int).push(
                    l[j as int],
                ));
                assert(slices_of(l, pieces@).push(l.subrange(start as int, j + 1)) =~= slices_of(
                    l,
                    pieces@,
                ).push(l.subrange(start as int, j as int)).update(
                    pieces@.len() as int,
                    l.subrange(start as int, j as int).push(l[j as int]),
                ));
            }
        }
        j = j + 1;
    }
    let ghost before_last = pieces@;
    pieces.push((start, to));
    proof {
        lemma_split_on_len(l.subrange(from as int, to as int), SPACE);
    }
    assert(slices_of(l, pieces@) =~= slices_of(l, before_last).push(
        l.subrange(start as int, to as int),
    ));
    pieces
}

/// The non-empty pieces among all but the first of `pieces`.
fn non_empty_pieces(line: &[u8], pieces: &Vec<(usize, usize)>) -> (r: Vec<(usize, usize)>)
    requires
        forall|i: int| 0 <= i < pieces@.len() ==> range_ok(line@, #[trigger] pieces@[i]),
        pieces@.len() >= 1,
    ensures
        forall|i: int| 0 <= i < r@.len() ==> range_ok(line@, #[trigger] r@[i]),
        slices_of(line@, r@) == non_empty(slices_of(line@, pieces@).drop_first()),
{
    let ghost l = line@;
    let ghost all = slices_of(l, pieces@);
    let mut params: Vec<(usize, usize)> = Vec::new();
    let mut i: usize = 1;
    assert(all.drop_first().subrange(0, 0) =~= Seq::<Seq<u8>>::empty());
    assert(slices_of(l, params@) =~= Seq::<Seq<u8>>::empty());
    while i < pieces.len()
        invariant
            line@ == l,
            1 <= i <= pieces@.len(),
            all == slices_of(l, pieces@),
            forall|k: int| 0 <= k < pieces@.len() ==> range_ok(l, #[trigger] pieces@[k]),
            forall|k: int| 0 <= k < params@.len() ==> range_ok(l, #[trigger] params@[k]),
            slices_of(l, params@) == non_empty(all.drop_first().subrange(0, i - 1)),
        decreases pieces@.len() - i,
    {
        let p = pieces[i];
        proof {
            assert(all.drop_first().subrange(0, i as int).drop_last() =~= all.drop_first().subrange(
                0,
                i - 1,
            ));
            assert(all.drop_first().subrange(0, i as int).last() == l.subrange(p.0 as int, p.1 as int));
        }
        if p.0 < p.1 {
            let ghost old_params = params@;
            params.push(p);
            assert(slices_of(l, params@) =~= slices_of(l, old_params).push(
                l.subrange(p.0 as int, p.1 as int),
            ));
        }
        i = i + 1;
    }
    assert(all.drop_first().subrange(0, pieces@.len() - 1) =~= all.drop_first());
    params
}

/// Appends the bytes of `b` to `out`.
pub fn append(out: &mut Vec<u8>, b: &[u8])
    ensures
        final(out)@ == old(out)@ + b@,
{
    let mut i: usize = 0;
    while i < b.len()
        invariant
            0 <= i <= b@.len(),
            out@ == old(out)@ + b@.subrange(0, i as int),
        decreases b@.len() - i,
    {
        out.push(b[i]);
        proof {
            assert(b@.subrange(0, i + 1) =~= b@.subrange(0, i as int).push(b@[i as int]));
        }
        i = i + 1;
    }
    assert(b@.subrange(0, b@.len() as int) =~= b@);
}

/// Whether every byte of `s` is ASCII.
pub fn ascii_only(s: &[u8]) -> (r: bool)
    ensures
        r == is_ascii_bytes(s@),
{
    let mut i: usize = 0;
    while i < s.len()
        invariant
            0 <= i <= s@.len(),
            forall|k: int| 0 <= k < i ==> s@[k] < 128,
        decreases s@.len() - i,
    {
        if s[i] >= 128 {
            return false;
        }
        i = i + 1;
    }
    true
}

} // verus!

verus! {

/// No byte of `s` is a space.
pub open spec fn no_space(s: Seq<u8>) -> bool {
    forall|i: int| 0 <= i < s.len() ==> s[i] != SPACE
}

/// The parameters of `x` that are not trailing.
pub open spec fn middles_of(x: ParsedLine) -> Seq<Seq<u8>> {
    if x.trailing {
        x.params.drop_last()
    } else {
        x.params
    }
}

/// A middle parameter as the wire carries it: non-empty, no space, not
/// starting with a colon.
pub open spec fn middle_ok(m: Seq<u8>) -> bool {
    m.len() > 0 && no_space(m) && m[0] != COLON
}

/// A syntactically valid message without tags: the prefix has no space; the
/// command is non-empty ASCII without spaces that could not be read as a tag
/// or prefix block; every middle parameter is `middle_ok`.
pub open spec fn canonical(x: ParsedLine) -> bool {
    &&& (x.prefix matches Some(p) ==> no_space(p))
    &&& x.command.len() > 0
    &&& no_space(x.command)
    &&& is_ascii_bytes(x.command)
    &&& x.command[0] != AT
    &&& (x.prefix is None ==> x.command[0] != COLON)
    &&& (x.trailing ==> x.params.len() > 0)
    &&& forall|i: int| 0 <= i < middles_of(x).len() ==> middle_ok(#[trigger] middles_of(x)[i])
}

/// A syntactically valid line: one that some canonical message stands for.
pub open spec fn valid_line(line: Seq<u8>) -> bool {
    exists|x: ParsedLine| canonical(x) && line_of(x) == line
}

proof fn lemma_split_single(s: Seq<u8>)
    requires
        no_space(s),
    ensures
        split_on(s, SPACE) == seq![s],
    decreases s.len(),
{
    if s.len() > 0 {
        lemma_split_single(s.drop_last());
        assert(s.drop_last().push(s.last()) =~= s);
        assert(split_on(s, SPACE) =~= seq![s]);
    } else {
        assert(s =~= Seq::<u8>::empty());
    }
}

proof fn lemma_split_append(a: Seq<u8>, b: Seq<u8>)
    requires
        no_space(b),
    ensures
        split_on(a + seq![SPACE] + b, SPACE) == split_on(a, SPACE).push(b),
    decreases b.len(),
{
    let s = a + seq![SPACE] + b;
    if b.len() == 0 {
        assert(s.drop_last() =~= a);
        assert(b =~= Seq::<u8>::empty());
    } else {
        lemma_split_append(a, b.drop_last());
        assert(s.drop_last() =~= a + seq![SPACE] + b.drop_last());
        assert(b.drop_last().push(b.last()) =~= b);
        assert(split_on(s, SPACE) =~= split_on(a, SPACE).push(b));
    }
}

proof fn lemma_split_joined(c: Seq<u8>, ms: Seq<Seq<u8>>)
    requires
        no_space(c),
        forall|i: int| 0 <= i < ms.len() ==> middle_ok(#[trigger] ms[i]),
    ensures
        split_on(c + join_middles(ms), SPACE) == seq![c] + ms,
    decreases ms.len(),
{
    if ms.len() == 0 {
        assert(c + join_middles(ms) =~= c);
        lemma_split_single(c);
        assert(seq![c] + ms =~= seq![c]);
    } else {
        let prev = ms.drop_last();
        assert forall|i: int| 0 <= i < prev.len() implies middle_ok(#[trigger] prev[i]) by {
            assert(prev[i] == ms[i]);
        }
        lemma_split_joined(c, prev);
        assert(middle_ok(ms[ms.len() - 1]));
        lemma_split_append(c + join_middles(prev), ms.last());
        assert(c + join_middles(ms) =~= (c + join_middles(prev)) + seq![SPACE] + ms.last());
        assert(seq![c] + ms =~= (seq![c] + prev).push(ms.last()));
    }
}

proof fn lemma_non_empty_all(ms: Seq<Seq<u8>>)
    requires
        forall|i: int| 0 <= i < ms.len() ==> (#[trigger] ms[i]).len() > 0,
    ensures
        non_empty(ms) == ms,
    decreases ms.len(),
{
    if ms.len() > 0 {
        let prev = ms.drop_last();
        assert forall|i: int| 0 <= i < prev.len() implies (#[trigger] prev[i]).len() > 0 by {
            assert(prev[i] == ms[i]);
        }
        lemma_non_empty_all(prev);
        assert(ms[ms.len() - 1].len() > 0);
        assert(prev.push(ms.last()) =~= ms);
    }
}

/// A command followed by middle parameters holds no `" :"` and does not end
/// in a space.
proof fn lemma_no_marker(c: Seq<u8>, ms: Seq<Seq<u8>>)
    requires
        c.len() > 0,
        no_space(c),
        forall|i: int| 0 <= i < ms.len() ==> middle_ok(#[trigger] ms[i]),
    ensures
        ({
            let s = c + join_middles(ms);
            &&& s.len() > 0
            &&& s.last() != SPACE
            &&& forall|j: int| 0 <= j < s.len() - 1 ==> !(#[trigger] s[j] == SPACE && s[j + 1] == COLON)
        }),
    decreases ms.len(),
{
    let s = c + join_middles(ms);
    if ms.len() == 0 {
        assert(s =~= c);
    } else {
        let prev = ms.drop_last();
        assert forall|i: int| 0 <= i < prev.len() implies middle_ok(#[trigger] prev[i]) by {
            assert(prev[i] == ms[i]);
        }
        lemma_no_marker(c, prev);
        let a = c + join_middles(prev);
        let b = ms.last();
        assert(middle_ok(ms[ms.len() - 1]));
        assert(s =~= a + seq![SPACE] + b);
        assert forall|j: int| 0 <= j < s.len() - 1 implies !(#[trigger] s[j] == SPACE && s[j + 1] == COLON) by {
            if j < a.len() - 1 {
                assert(s[j] == a[j] && s[j + 1] == a[j + 1]);
            } else if j == a.len() - 1 {
                assert(s[j] == a.last());
            } else if j == a.len() {
                assert(s[j + 1] == b[0]);
            } else {
                assert(s[j] == b[j - a.len() - 1]);
            }
        }
        assert(s.last() == b.last());
    }
}

proof fn lemma_split_trailing(c: Seq<u8>, ms: Seq<Seq<u8>>, tail: Option<Seq<u8>>)
    requires
        c.len() > 0,
        no_space(c),
        forall|i: int| 0 <= i < ms.len() ==> middle_ok(#[trigger] ms[i]),
    ensures
        ({
            let s = c + join_middles(ms);
            let m = match tail {
                Some(t) => s + seq![SPACE, COLON] + t,
                None => s,
            };
            split_trailing(m) == (s, tail)
        }),
{
    let s = c + join_middles(ms);
    let marker = seq![SPACE, COLON];
    lemma_no_marker(c, ms);
    match tail {
        Some(t) => {
            let m = s + marker + t;
            assert forall|j: int| 0 <= j < s.len() implies !crate::text::occurs_at(m, marker, j) by {
                if crate::text::occurs_at(m, marker, j) {
                    assert(m.subrange(j, j + 2)[0] == m[j]);
                    assert(m.subrange(j, j + 2)[1] == m[j + 1]);
                    if j < s.len() - 1 {
                        assert(m[j] == s[j] && m[j + 1] == s[j + 1]);
                    } else {
                        assert(m[j] == s.last());
                    }
                }
            }
            assert(m.subrange(s.len() as int, s.len() + 2 as int) =~= marker);
            crate::text::lemma_first_occurrence_unique(m, marker, s.len() as int);
            assert(m.subrange(0, s.len() as int) =~= s);
            assert(m.subrange(s.len() + 2 as int, m.len() as int) =~= t);
        },
        None => {
            assert forall|j: int| 0 <= j implies !crate::text::occurs_at(s, marker, j) by {
                if crate::text::occurs_at(s, marker, j) {
                    assert(s.subrange(j, j + 2)[0] == s[j]);
                    assert(s.subrange(j, j + 2)[1] == s[j + 1]);
                }
            }
            crate::text::lemma_no_occurrence(s, marker);
        },
    }
}

/// Parsing the line that a canonical message stands for gives that message back.
pub proof fn lemma_parse_line_of(x: ParsedLine)
    requires
        canonical(x),
    ensures
        parse_line(line_of(x)) == Some(x),
{
    let line = line_of(x);
    let ms = middles_of(x);
    let c = x.command;
    let s = c + join_middles(ms);
    let tail: Option<Seq<u8>> = if x.trailing {
        Some(x.params.last())
    } else {
        None
    };
    let m = match tail {
        Some(t) => s + seq![SPACE, COLON] + t,
        None => s,
    };
    assert(c + params_text(x.params, x.trailing) =~= m);
    assert(line =~= prefix_text(x.prefix) + m);
    lemma_split_trailing(c, ms, tail);
    lemma_split_joined(c, ms);
    assert(seq![c] + ms =~= split_on(s, SPACE));
    assert(split_on(s, SPACE).drop_first() =~= ms);
    assert forall|i: int| 0 <= i < ms.len() implies (#[trigger] ms[i]).len() > 0 by {
        assert(middle_ok(ms[i]));
    }
    lemma_non_empty_all(ms);
    // The tag and prefix blocks.
    match x.prefix {
        Some(p) => {
            assert(line[0] == COLON);
            let sp: int = p.len() as int + 1;
            assert(line.subrange(sp, sp + 1) =~= seq![SPACE]);
            assert forall|j: int| 0 <= j < sp implies !crate::text::occurs_at(line, seq![SPACE], j) by {
                if crate::text::occurs_at(line, seq![SPACE], j) {
                    assert(line.subrange(j, j + 1)[0] == line[j]);
                    if j > 0 {
                        assert(line[j] == p[j - 1]);
                    }
                }
            }
            crate::text::lemma_first_occurrence_unique(line, seq![SPACE], sp);
            assert(line.subrange(1, sp) =~= p);
            assert(line.subrange(sp + 1, line.len() as int) =~= m);
        },
        None => {
            assert(line =~= m);
            assert(m[0] == c[0]);
        },
    }
    if x.trailing {
        assert(ms + trailing_seq(tail) =~= x.params);
    } else {
        assert(ms + trailing_seq(tail) =~= x.params);
    }
}

/// Round trip: parsing a syntactically valid line and encoding the result
/// gives the line back, CRLF-terminated.
pub proof fn lemma_round_trip(line: Seq<u8>, parsed: ParsedLine)
    requires
        valid_line(line),
        parse_line(line) == Some(parsed),
    ensures
        line_of(parsed) + crlf() == line + crlf(),
{
    let x = choose|x: ParsedLine| canonical(x) && line_of(x) == line;
    lemma_parse_line_of(x);
}

} // verus!
