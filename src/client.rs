//! Client identity and the construction of outgoing protocol lines.
use vstd::prelude::*;
use vstd::string::StringSliceAdditionalSpecFns;

use crate::command::{command_name, three_digits, Command, ResponseCode};
use crate::message::{append, crlf, line_of, ParsedLine, COLON, CR, LF, SPACE};

verus! {

/// Identifies a connection for as long as it is open.
#[derive(Debug, Clone, Copy, PartialEq, Eq, Hash, Structural)]
pub struct ClientId {
    /// Local address in the high half, peer address in the low half.
    pub addresses: u64,
    /// A random nonce drawn when the connection was accepted.
    pub nonce: u64,
}

/// The 32-bit value of an IPv4 address.
pub open spec fn ipv4_value(a: u8, b: u8, c: u8, d: u8) -> u32 {
    (a as int * 0x1000000 + b as int * 0x10000 + c as int * 0x100 + d as int) as u32
}

/// The 32-bit value of the last two segments of an IPv6 address.
pub open spec fn ipv6_value(g: u16, h: u16) -> u32 {
    (g as int * 0x10000 + h as int) as u32
}

/// Relies on rand::random: it draws a value from the thread-local generator;
/// nothing is promised of the value.
pub assume_specification<T>[ rand::random::<T> ]() -> (r: T)
    where
        rand::distributions::Standard: rand::distributions::Distribution<T>,
;

impl ClientId {
    /// An id made of the two addresses and a nonce.
    pub fn from_parts(local: u32, peer: u32, nonce: u64) -> (r: ClientId)
        ensures
            r.addresses == local as int * 0x100000000 + peer as int,
            r.nonce == nonce,
    {
        ClientId { addresses: (local as u64) * 0x100000000 + peer as u64, nonce }
    }

    /// A fresh id for a connection between `local` and `peer`, with a random
    /// nonce.
    pub fn new(local: u32, peer: u32) -> (r: ClientId)
        ensures
            r.addresses == local as int * 0x100000000 + peer as int,
    {
        let nonce: u64 = rand::random();
        ClientId::from_parts(local, peer, nonce)
    }

    /// The event-loop registration token of the connection.
    pub fn token(&self) -> (r: usize)
        ensures
            r == (self.addresses ^ self.nonce) as usize,
    {
        (self.addresses ^ self.nonce) as usize
    }
}

/// The value of an IPv4 address given by its octets.
pub fn ipv4_bits(a: u8, b: u8, c: u8, d: u8) -> (r: u32)
    ensures
        r == ipv4_value(a, b, c, d),
{
    (a as u32) * 0x1000000 + (b as u32) * 0x10000 + (c as u32) * 0x100 + d as u32
}

/// The value of the last two segments of an IPv6 address.
pub fn ipv6_bits(g: u16, h: u16) -> (r: u32)
    ensures
        r == ipv6_value(g, h),
{
    (g as u32) * 0x10000 + h as u32
}

/// Who a message is sent on behalf of.
#[derive(Debug, Clone, Copy, PartialEq, Eq, Structural)]
pub enum MessageOrigin {
    /// The server, named by its host name
    Server,
    /// A user, named by its host mask
    User,
}

pub open spec fn views(ps: Seq<&[u8]>) -> Seq<Seq<u8>> {
    Seq::new(ps.len(), |i: int| ps[i]@)
}

/// A last parameter that must be introduced by `" :"`: it is empty, starts
/// with `:` or holds a space. Any other last parameter is written as a plain
/// middle parameter.
pub open spec fn needs_colon(p: Seq<u8>) -> bool {
    p.len() == 0 || p[0] == COLON || p.contains(SPACE)
}

/// The last of `params` is written as a trailing parameter.
pub open spec fn trailing_needed(params: Seq<Seq<u8>>) -> bool {
    params.len() > 0 && needs_colon(params.last())
}

/// The line `:<prefix> <command>` followed by the parameters, the last one
/// introduced by `" :"` when `needs_colon` holds of it, terminated by CRLF.
pub open spec fn wire_line(prefix: Seq<u8>, command: Seq<u8>, params: Seq<Seq<u8>>) -> Seq<u8> {
    line_of(ParsedLine { prefix: Some(prefix), command, params, trailing: trailing_needed(params) }) + crlf()
}

/// Whether `p` must be written as a trailing parameter, see `needs_colon`.
pub fn needs_trailing(p: &[u8]) -> (r: bool)
    ensures
        r == needs_colon(p@),
{
    if p.len() == 0 || p[0] == COLON {
        return true;
    }
    let mut i: usize = 0;
    while i < p.len()
        invariant
            0 <= i <= p@.len(),
            forall|k: int| 0 <= k < i ==> p@[k] != SPACE,
        decreases p@.len() - i,
    {
        if p[i] == SPACE {
            assert(p@[i as int] == SPACE);
            return true;
        }
        i = i + 1;
    }
    false
}

/// Builds a wire line from its prefix, command name and parameters.
pub fn build_line(prefix: &[u8], command: &[u8], params: &[&[u8]]) -> (r: Vec<u8>)
    ensures
        r@ == wire_line(prefix@, command@, views(params@)),
{
    let mut msg: Vec<u8> = Vec::new();
    msg.push(COLON);
    append(&mut msg, prefix);
    msg.push(SPACE);
    append(&mut msg, command);
    push_tail(msg, params)
}

/// Appends the parameters and the terminator to the head of a line.
fn push_tail(msg: Vec<u8>, payload: &[&[u8]]) -> (r: Vec<u8>)
    ensures
        r@ == msg@ + crate::message::params_text(views(payload@), trailing_needed(views(payload@))) + crlf(),
{
    let mut msg = msg;
    let ghost head = msg@;
    let ghost ps = views(payload@);
    let n = payload.len();
    let middles: usize = if n > 0 {
        n - 1
    } else {
        0
    };
    let mut i: usize = 0;
    assert(ps.subrange(0, 0) =~= Seq::<Seq<u8>>::empty());
    while i < middles
        invariant
            ps == views(payload@),
            n == payload@.len(),
            middles <= n,
            0 <= i <= middles,
            msg@ == head + crate::message::join_middles(ps.subrange(0, i as int)),
        decreases middles - i,
    {
        msg.push(SPACE);
        append(&mut msg, payload[i]);
        assert(ps.subrange(0, i + 1).drop_last() =~= ps.subrange(0, i as int));
        i = i + 1;
    }
    let trailing = n > 0 && needs_trailing(payload[n - 1]);
    assert(trailing == trailing_needed(ps));
    if n > 0 {
        msg.push(SPACE);
        if trailing {
            msg.push(COLON);
        }
        append(&mut msg, payload[n - 1]);
        assert(ps.subrange(0, middles as int) =~= ps.drop_last());
        assert(ps.drop_last().push(ps.last()) =~= ps);
    } else {
        assert(ps.subrange(0, middles as int) =~= ps);
    }
    msg.push(CR);
    msg.push(LF);
    assert(msg@ =~= head + crate::message::params_text(ps, trailing) + crlf());
    msg
}

/// A numeric reply line: `:<server> <code> <nick>`, then the payload, its
/// last item introduced by `" :"` when `needs_colon` holds of it,
/// terminated by CRLF.
pub open spec fn response_line(server: Seq<u8>, code: Seq<u8>, nick: Seq<u8>, payload: Seq<Seq<u8>>) -> Seq<u8> {
    seq![COLON] + server + seq![SPACE] + code + seq![SPACE] + nick + crate::message::params_text(
        payload,
        trailing_needed(payload),
    ) + crlf()
}

/// A numeric reply from `server` to the client called `nick`.
pub fn build_response(server: &str, code: ResponseCode, nick: &str, payload: &[&[u8]]) -> (r: Vec<u8>)
    ensures
        r@ == response_line(server.spec_bytes(), three_digits(code.spec_code()), nick.spec_bytes(), views(payload@)),
{
    let name = Command::RESPONSE(code).name();
    let mut msg: Vec<u8> = Vec::new();
    msg.push(COLON);
    append(&mut msg, server.as_bytes());
    msg.push(SPACE);
    append(&mut msg, name.as_slice());
    msg.push(SPACE);
    append(&mut msg, nick.as_bytes());
    let r = push_tail(msg, payload);
    assert(r@ =~= response_line(server.spec_bytes(), three_digits(code.spec_code()), nick.spec_bytes(), views(payload@)));
    r
}

/// A command sent on behalf of `origin` (a server name or a user's host mask).
pub fn build_msg(origin: &str, cmd: Command, payload: &[&[u8]]) -> (r: Vec<u8>)
    ensures
        r@ == wire_line(origin.spec_bytes(), command_name(cmd), views(payload@)),
{
    let name = cmd.name();
    build_line(origin.as_bytes(), name.as_slice(), payload)
}

/// The text of the line that ends a list.
pub open spec fn end_of_list_text() -> Seq<u8> {
    seq![
        'E' as u8, 'n' as u8, 'd' as u8, ' ' as u8, 'o' as u8, 'f' as u8, ' ' as u8, 'l' as u8, 'i' as u8,
        's' as u8, 't' as u8,
    ]
}

pub open spec fn marker_seq(marker: Option<&[u8]>) -> Seq<Seq<u8>> {
    match marker {
        Some(m) => seq![m@],
        None => Seq::empty(),
    }
}

/// A list reply to `nick`: one `list_code` line per item, each naming the
/// channel (after the marker, when there is one), then exactly one
/// `end_code` line, whatever the number of items.
pub fn list_reply(
    server: &str,
    nick: &str,
    list_code: ResponseCode,
    end_code: ResponseCode,
    name: &[u8],
    marker: Option<&[u8]>,
    items: &Vec<Vec<u8>>,
) -> (r: Vec<Vec<u8>>)
    ensures
        r@.len() == items@.len() + 1,
        forall|i: int|
            0 <= i < items@.len() ==> (#[trigger] r@[i])@ == response_line(
                server.spec_bytes(),
                three_digits(list_code.spec_code()),
                nick.spec_bytes(),
                marker_seq(marker) + seq![name@, items@[i]@],
            ),
        r@.last()@ == response_line(
            server.spec_bytes(),
            three_digits(end_code.spec_code()),
            nick.spec_bytes(),
            seq![name@, end_of_list_text()],
        ),
{
    let mut out: Vec<Vec<u8>> = Vec::new();
    let mut i: usize = 0;
    while i < items.len()
        invariant
            out@.len() == i,
            0 <= i <= items@.len(),
            forall|k: int|
                0 <= k < i ==> (#[trigger] out@[k])@ == response_line(
                    server.spec_bytes(),
                    three_digits(list_code.spec_code()),
                    nick.spec_bytes(),
                    marker_seq(marker) + seq![name@, items@[k]@],
                ),
        decreases items@.len() - i,
    {
        let mut params: Vec<&[u8]> = Vec::new();
        if let Some(m) = marker {
            params.push(m);
        }
        params.push(name);
        params.push(items[i].as_slice());
        assert(views(params@) =~= marker_seq(marker) + seq![name@, items@[i as int]@]);
        out.push(build_response(server, list_code, nick, params.as_slice()));
        i = i + 1;
    }
    let end_text = vec![
        'E' as u8, 'n' as u8, 'd' as u8, ' ' as u8, 'o' as u8, 'f' as u8, ' ' as u8, 'l' as u8, 'i' as u8,
        's' as u8, 't' as u8,
    ];
    assert(end_text@ =~= end_of_list_text());
    let mut params: Vec<&[u8]> = Vec::new();
    params.push(name);
    params.push(end_text.as_slice());
    assert(views(params@) =~= seq![name@, end_of_list_text()]);
    out.push(build_response(server, end_code, nick, params.as_slice()));
    out
}

} // verus!
