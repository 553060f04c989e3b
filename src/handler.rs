//! Parameter checks shared by the command handlers: comma-separated target
//! lists, CAP subcommands and the JOIN parameters.
use vstd::prelude::*;
use vstd::utf8::valid_utf8;

use crate::command::ResponseCode;
use crate::message::{split_on, Message};
use crate::misc::{channel_ok, verify_channel};
use crate::text::bytes_eq;

verus! {

pub const COMMA: u8 = 44;

/// The most targets a list may name.
pub const MAX_TARGETS: usize = 10;

/// Why a parameter list was refused.
#[derive(Debug)]
pub enum ParseError<'a> {
    /// The parameter is not there.
    Missing,
    /// More than ten targets.
    TooMany,
    /// This item failed the check.
    Malformed(&'a [u8]),
}

/// How the items of a list are checked.
#[derive(Debug, Clone, Copy, PartialEq, Eq, Structural)]
pub enum ItemCheck {
    /// Each item is a valid channel name.
    Channel,
    /// Every item is accepted.
    Any,
}

/// What to do with an item that fails the check, or with targets past ten.
#[derive(Debug, Clone, Copy, PartialEq, Eq, Structural)]
pub enum OnError {
    /// Leave it out.
    Skip,
    /// Refuse the whole list.
    Fail,
}

pub open spec fn item_ok(check: ItemCheck, item: Seq<u8>) -> bool {
    match check {
        ItemCheck::Channel => valid_utf8(item) && channel_ok(item),
        ItemCheck::Any => true,
    }
}

/// The items of a comma-separated list: every piece between commas, empty
/// ones included (`#a,,#b` has three items).
pub open spec fn list_items(param: Seq<u8>) -> Seq<Seq<u8>> {
    split_on(param, COMMA)
}

/// Item `k` fails the check.
pub open spec fn refused(items: Seq<Seq<u8>>, check: ItemCheck, k: int) -> bool {
    !item_ok(check, items[k])
}

/// `k` is the first refused item.
pub open spec fn is_first_refused(items: Seq<Seq<u8>>, check: ItemCheck, k: int) -> bool {
    0 <= k < items.len() && refused(items, check, k) && forall|j: int| 0 <= j < k ==> !#[trigger] refused(items, check, j)
}

/// The first item that fails the check, if any.
pub open spec fn first_refused(items: Seq<Seq<u8>>, check: ItemCheck) -> Option<int> {
    if exists|k: int| is_first_refused(items, check, k) {
        Some(choose|k: int| is_first_refused(items, check, k))
    } else {
        None
    }
}

/// The items that pass the check, at most ten of them.
pub open spec fn accepted(items: Seq<Seq<u8>>, check: ItemCheck) -> Seq<Seq<u8>>
    decreases items.len(),
{
    if items.len() == 0 {
        Seq::empty()
    } else {
        let prev = accepted(items.drop_last(), check);
        if item_ok(check, items.last()) && prev.len() < MAX_TARGETS {
            prev.push(items.last())
        } else {
            prev
        }
    }
}

pub open spec fn slices_view<'a>(v: Seq<&'a [u8]>) -> Seq<Seq<u8>> {
    Seq::new(v.len(), |i: int| v[i]@)
}

/// The items of a comma-separated parameter, checked. Every piece between
/// commas counts as an item. With `Fail`, more than ten items are refused
/// with `TooMany` before any item is checked; otherwise the first item that
/// fails the check is `Malformed`. With `Skip`, the items that pass are kept,
/// at most ten.
pub fn verify_list<'a>(param: &'a [u8], check: ItemCheck, on_error: OnError) -> (r: Result<Vec<&'a [u8]>, ParseError<'a>>)
    ensures
        on_error == OnError::Skip ==> (r matches Ok(v) && slices_view(v@) == accepted(list_items(param@), check)),
        on_error == OnError::Fail ==> if list_items(param@).len() > MAX_TARGETS {
            r matches Err(ParseError::TooMany)
        } else {
            match first_refused(list_items(param@), check) {
                None => (r matches Ok(v) && slices_view(v@) == list_items(param@)),
                Some(k) => (r matches Err(ParseError::Malformed(item)) && item@ == list_items(param@)[k]),
            }
        },
{
    let pieces = split_list(param);
    if on_error == OnError::Fail && pieces.len() > MAX_TARGETS {
        return Err(ParseError::TooMany);
    }
    let ghost items = list_items(param@);
    let mut out: Vec<&'a [u8]> = Vec::new();
    let mut i: usize = 0;
    assert(slices_view(out@) =~= Seq::<Seq<u8>>::empty());
    while i < pieces.len()
        invariant
            items == list_items(param@),
            slices_view(pieces@) == items,
            on_error == OnError::Fail ==> pieces@.len() <= MAX_TARGETS,
            0 <= i <= pieces@.len(),
            on_error == OnError::Skip ==> slices_view(out@) == accepted(items.subrange(0, i as int), check),
            on_error == OnError::Fail ==> slices_view(out@) == items.subrange(0, i as int),
            on_error == OnError::Fail ==> forall|j: int| 0 <= j < i ==> !#[trigger] refused(items, check, j),
        decreases pieces@.len() - i,
    {
        let item = pieces[i];
        let ok = match check {
            ItemCheck::Channel => verify_channel(item).is_some(),
            ItemCheck::Any => true,
        };
        assert(item@ == items[i as int]);
        assert(items.subrange(0, i + 1).drop_last() =~= items.subrange(0, i as int));
        if on_error == OnError::Fail {
            if !ok {
                proof {
                    let w = i as int;
                    assert(ok == item_ok(check, items[w]));
                    assert(is_first_refused(items, check, w));
                    let k = choose|k: int| is_first_refused(items, check, k);
                    if k < w {
                        assert(!refused(items, check, k));
                    } else if k > w {
                        assert(!refused(items, check, w));
                    }
                    assert(first_refused(items, check) == Some(w));
                }
                return Err(ParseError::Malformed(item));
            }
            out.push(item);
            assert(slices_view(out@) =~= items.subrange(0, i + 1));
        } else {
            if ok && out.len() < MAX_TARGETS {
                out.push(item);
                assert(slices_view(out@) =~= accepted(items.subrange(0, i + 1), check));
            } else {
                assert(accepted(items.subrange(0, i + 1), check) == accepted(items.subrange(0, i as int), check));
            }
        }
        i = i + 1;
    }
    assert(items.subrange(0, pieces@.len() as int) =~= items);
    proof {
        if on_error == OnError::Fail {
            if exists|k: int| is_first_refused(items, check, k) {
                let k = choose|k: int| is_first_refused(items, check, k);
                assert(!refused(items, check, k));
            }
        }
    }
    Ok(out)
}

/// The comma-separated pieces of `param`, empty ones included.
fn split_list<'a>(param: &'a [u8]) -> (r: Vec<&'a [u8]>)
    ensures
        slices_view(r@) == list_items(param@),
{
    let ghost p = param@;
    let mut out: Vec<&'a [u8]> = Vec::new();
    let mut start: usize = 0;
    let mut j: usize = 0;
    assert(p.subrange(0, 0) =~= Seq::<u8>::empty());
    assert(slices_view(out@) =~= Seq::<Seq<u8>>::empty());
    while j < param.len()
        invariant
            param@ == p,
            start <= j <= p.len(),
            ({
                let pieces = split_on(p.subrange(0, j as int), COMMA);
                &&& pieces.len() >= 1
                &&& pieces.last() == p.subrange(start as int, j as int)
                &&& slices_view(out@) == pieces.drop_last()
            }),
        decreases p.len() - j,
    {
        let ghost pieces = split_on(p.subrange(0, j as int), COMMA);
        assert(p.subrange(0, j + 1).drop_last() =~= p.subrange(0, j as int));
        assert(p.subrange(0, j + 1).last() == p[j as int]);
        if param[j] == COMMA {
            out.push(vstd::slice::slice_subrange(param, start, j));
            assert(pieces.push(Seq::<u8>::empty()).drop_last() =~= pieces);
            assert(pieces.drop_last().push(pieces.last()) =~= pieces);
            assert(slices_view(out@) =~= pieces.drop_last().push(pieces.last()));
            start = j + 1;
            assert(p.subrange(start as int, j + 1) =~= Seq::<u8>::empty());
        } else {
            let ghost next = pieces.update(pieces.len() - 1, pieces.last().push(p[j as int]));
            assert(next.drop_last() =~= pieces.drop_last());
            assert(p.subrange(start as int, j + 1) =~= p.subrange(start as int, j as int).push(p[j as int]));
        }
        j = j + 1;
    }
    let ghost pieces = split_on(p.subrange(0, j as int), COMMA);
    assert(p.subrange(0, j as int) =~= p);
    assert(pieces.drop_last().push(pieces.last()) =~= pieces);
    out.push(vstd::slice::slice_subrange(param, start, j));
    assert(slices_view(out@) =~= pieces.drop_last().push(pieces.last()));
    out
}

/// The error reply of a handler that refuses a message.
#[derive(Debug)]
pub enum ErrorMessage {
    /// A subject followed by a reason
    WithSubject(Vec<u8>, Vec<u8>),
    /// A reason alone
    Plain(Vec<u8>),
    /// No reply (NOTICE)
    Silent,
}

/// The text of `s` as bytes.
pub fn text_bytes(s: &str) -> (r: Vec<u8>)
    ensures
        r@ == vstd::string::StringSliceAdditionalSpecFns::spec_bytes(s),
{
    vstd::slice::slice_to_vec(s.as_bytes())
}

/// The channel list of a JOIN is accepted: at most ten valid names.
pub open spec fn join_accepted(params: Seq<Seq<u8>>) -> bool {
    params.len() >= 1 && list_items(params[0]).len() <= MAX_TARGETS && first_refused(
        list_items(params[0]),
        ItemCheck::Channel,
    ) is None
}

/// The keys of a JOIN, by position; none when the key list is absent or
/// refused.
pub open spec fn join_keys(params: Seq<Seq<u8>>) -> Seq<Seq<u8>> {
    if params.len() >= 2 && list_items(params[1]).len() <= MAX_TARGETS && first_refused(
        list_items(params[1]),
        ItemCheck::Any,
    ) is None {
        list_items(params[1])
    } else {
        Seq::empty()
    }
}

/// A parsed JOIN: `JOIN <channel>{,<channel>} [<key>{,<key>}]`.
#[derive(Debug)]
pub struct JoinRequest<'a> {
    pub channels: Vec<&'a [u8]>,
    pub passwords: Vec<&'a [u8]>,
}

impl<'a> JoinRequest<'a> {
    /// Reads the channel list (refused when malformed, empty or too long) and
    /// the key list (empty when absent).
    pub fn from_message(msg: &'a Message) -> (r: Result<JoinRequest<'a>, (ResponseCode, ErrorMessage)>)
        requires
            msg.wf(),
        ensures
            match r {
                Ok(j) => join_accepted(msg.params_view()) && slices_view(j.channels@) == list_items(msg.params_view()[0])
                    && slices_view(j.passwords@) == join_keys(msg.params_view()),
                Err((code, _)) => msg.params_view().len() == 0 && code == ResponseCode::ERR_NEEDMOREPARAMS
                    || msg.params_view().len() >= 1 && if list_items(msg.params_view()[0]).len() > MAX_TARGETS {
                        code == ResponseCode::ERR_TOOMANYTARGETS
                    } else {
                        first_refused(list_items(msg.params_view()[0]), ItemCheck::Channel) is Some && code
                            == ResponseCode::ERR_NEEDMOREPARAMS
                    },
            },
    {
        proof {
            reveal_strlit("JOIN");
            reveal_strlit("Invalid channel name");
            reveal_strlit("Number of targets is limited to 10");
            reveal_strlit("No channel name given");
        }
        let first = match msg.param(0) {
            Some(p) => p,
            None => {
                return Err(
                    (
                        ResponseCode::ERR_NEEDMOREPARAMS,
                        ErrorMessage::WithSubject(text_bytes("JOIN"), text_bytes("No channel name given")),
                    ),
                );
            },
        };
        let channels = match verify_list(first, ItemCheck::Channel, OnError::Fail) {
            Ok(v) => v,
            Err(ParseError::Malformed(name)) => {
                return Err(
                    (
                        ResponseCode::ERR_NEEDMOREPARAMS,
                        ErrorMessage::WithSubject(vstd::slice::slice_to_vec(name), text_bytes("Invalid channel name")),
                    ),
                );
            },
            Err(ParseError::TooMany) => {
                return Err(
                    (
                        ResponseCode::ERR_TOOMANYTARGETS,
                        ErrorMessage::WithSubject(text_bytes("JOIN"), text_bytes("Number of targets is limited to 10")),
                    ),
                );
            },
            Err(ParseError::Missing) => {
                return Err(
                    (
                        ResponseCode::ERR_NEEDMOREPARAMS,
                        ErrorMessage::WithSubject(text_bytes("JOIN"), text_bytes("No channel name given")),
                    ),
                );
            },
        };
        let passwords = match msg.param(1) {
            Some(p) => match verify_list(p, ItemCheck::Any, OnError::Fail) {
                Ok(v) => v,
                Err(_) => {
                    let v: Vec<&'a [u8]> = Vec::new();
                    assert(slices_view(v@) =~= Seq::<Seq<u8>>::empty());
                    v
                },
            },
            None => {
                let v: Vec<&'a [u8]> = Vec::new();
                assert(slices_view(v@) =~= Seq::<Seq<u8>>::empty());
                v
            },
        };
        assert(slices_view(passwords@) == join_keys(msg.params_view()));
        Ok(JoinRequest { channels, passwords })
    }
}

/// CAP subcommands.
#[derive(Debug, Clone, Copy, PartialEq, Eq, Structural)]
pub enum Subcommand {
    LS,
    LIST,
    REQ,
    ACK,
    NAK,
    CLEAR,
    END,
}

/// The wire name of a subcommand.
pub open spec fn subcommand_name(s: Subcommand) -> Seq<u8> {
    match s {
        Subcommand::LS => seq!['L' as u8, 'S' as u8],
        Subcommand::LIST => seq!['L' as u8, 'I' as u8, 'S' as u8, 'T' as u8],
        Subcommand::REQ => seq!['R' as u8, 'E' as u8, 'Q' as u8],
        Subcommand::ACK => seq!['A' as u8, 'C' as u8, 'K' as u8],
        Subcommand::NAK => seq!['N' as u8, 'A' as u8, 'K' as u8],
        Subcommand::CLEAR => seq!['C' as u8, 'L' as u8, 'E' as u8, 'A' as u8, 'R' as u8],
        Subcommand::END => seq!['E' as u8, 'N' as u8, 'D' as u8],
    }
}

/// The subcommand whose wire name is `s`, if any.
pub open spec fn subcommand_of(s: Seq<u8>) -> Option<Subcommand> {
    if s == subcommand_name(Subcommand::LS) {
        Some(Subcommand::LS)
    } else if s == subcommand_name(Subcommand::LIST) {
        Some(Subcommand::LIST)
    } else if s == subcommand_name(Subcommand::REQ) {
        Some(Subcommand::REQ)
    } else if s == subcommand_name(Subcommand::ACK) {
        Some(Subcommand::ACK)
    } else if s == subcommand_name(Subcommand::NAK) {
        Some(Subcommand::NAK)
    } else if s == subcommand_name(Subcommand::CLEAR) {
        Some(Subcommand::CLEAR)
    } else if s == subcommand_name(Subcommand::END) {
        Some(Subcommand::END)
    } else {
        None
    }
}

impl Subcommand {
    /// Recognises a subcommand from its wire name.
    pub fn from_slice(slice: &[u8]) -> (r: Option<Subcommand>)
        ensures
            r == subcommand_of(slice@),
    {
        if bytes_eq(slice, Subcommand::LS.as_bytes().as_slice()) {
            return Some(Subcommand::LS);
        }
        if bytes_eq(slice, Subcommand::LIST.as_bytes().as_slice()) {
            return Some(Subcommand::LIST);
        }
        if bytes_eq(slice, Subcommand::REQ.as_bytes().as_slice()) {
            return Some(Subcommand::REQ);
        }
        if bytes_eq(slice, Subcommand::ACK.as_bytes().as_slice()) {
            return Some(Subcommand::ACK);
        }
        if bytes_eq(slice, Subcommand::NAK.as_bytes().as_slice()) {
            return Some(Subcommand::NAK);
        }
        if bytes_eq(slice, Subcommand::CLEAR.as_bytes().as_slice()) {
            return Some(Subcommand::CLEAR);
        }
        if bytes_eq(slice, Subcommand::END.as_bytes().as_slice()) {
            return Some(Subcommand::END);
        }
        None
    }

    /// The wire name of the subcommand.
    pub fn as_slice(&self) -> (r: &'static str)
        ensures
            vstd::string::StringSliceAdditionalSpecFns::spec_bytes(r) == subcommand_name(*self),
    {
        proof {
            reveal_strlit("LS");
            reveal_strlit("LIST");
            reveal_strlit("REQ");
            reveal_strlit("ACK");
            reveal_strlit("NAK");
            reveal_strlit("CLEAR");
            reveal_strlit("END");
        }
        let r = match self {
            Subcommand::LS => "LS",
            Subcommand::LIST => "LIST",
            Subcommand::REQ => "REQ",
            Subcommand::ACK => "ACK",
            Subcommand::NAK => "NAK",
            Subcommand::CLEAR => "CLEAR",
            Subcommand::END => "END",
        };
        proof {
            vstd::string::is_ascii_spec_bytes(r);
        }
        r
    }

    /// The wire name of the subcommand, as bytes.
    pub fn as_bytes(&self) -> (r: Vec<u8>)
        ensures
            r@ == subcommand_name(*self),
    {
        match self {
            Subcommand::LS => vec!['L' as u8, 'S' as u8],
            Subcommand::LIST => vec!['L' as u8, 'I' as u8, 'S' as u8, 'T' as u8],
            Subcommand::REQ => vec!['R' as u8, 'E' as u8, 'Q' as u8],
            Subcommand::ACK => vec!['A' as u8, 'C' as u8, 'K' as u8],
            Subcommand::NAK => vec!['N' as u8, 'A' as u8, 'K' as u8],
            Subcommand::CLEAR => vec!['C' as u8, 'L' as u8, 'E' as u8, 'A' as u8, 'R' as u8],
            Subcommand::END => vec!['E' as u8, 'N' as u8, 'D' as u8],
        }
    }
}

} // verus!
