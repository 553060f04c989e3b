//! Validation of nicknames and channel names.
use vstd::prelude::*;
use vstd::string::StringSliceAdditionalSpecFns;
use vstd::utf8::valid_utf8;

use crate::text::bytes_eq;

verus! {

/// The target of a message: a channel or a nickname.
#[derive(Debug)]
pub enum Receiver {
    Channel(String),
    Nick(String),
}

pub open spec fn is_letter(b: u8) -> bool {
    (97 <= b <= 122) || (65 <= b <= 90)
}

pub open spec fn is_digit(b: u8) -> bool {
    48 <= b <= 57
}

/// RFC 2812 `special`: `[ ] \ ` _ ^ { | }`.
pub open spec fn is_special(b: u8) -> bool {
    (0x5B <= b <= 0x60) || (0x7B <= b <= 0x7D)
}

pub open spec fn nick_first_ok(b: u8) -> bool {
    is_letter(b) || is_special(b)
}

pub open spec fn nick_rest_ok(b: u8) -> bool {
    is_letter(b) || is_digit(b) || is_special(b) || b == 45
}

/// A nickname: at most nine bytes, a letter or special first, then letters,
/// digits, specials or `-`.
pub open spec fn nick_ok(s: Seq<u8>) -> bool {
    &&& s.len() <= 9
    &&& forall|i: int| 0 <= i < s.len() ==> if i == 0 {
        nick_first_ok(#[trigger] s[i])
    } else {
        nick_rest_ok(s[i])
    }
}

/// A channel name: starts with `#`, `&`, `+` or `!` and holds no space, BEL
/// or comma.
pub open spec fn channel_ok(s: Seq<u8>) -> bool {
    &&& (s.len() > 0 ==> (s[0] == 35 || s[0] == 38 || s[0] == 43 || s[0] == 33))
    &&& forall|i: int| 1 <= i < s.len() ==> !(#[trigger] s[i] == 32 || s[i] == 7 || s[i] == 44)
}

/// Relies on std::str::from_utf8: it succeeds exactly on valid UTF-8, and the
/// str it returns is made of the given bytes.
#[verifier::external_body]
pub(crate) fn utf8_str(v: &[u8]) -> (r: Option<&str>)
    ensures
        r is Some <==> valid_utf8(v@),
        r matches Some(s) ==> s.spec_bytes() == v@,
{
    std::str::from_utf8(v).ok()
}

/// The text that lossy UTF-8 decoding makes of some bytes.
pub uninterp spec fn lossy_text(b: Seq<u8>) -> Seq<char>;

/// Relies on String::from_utf8_lossy: the text depends on the bytes alone,
/// and valid UTF-8 is taken over unchanged.
#[verifier::external_body]
pub(crate) fn lossy_string(v: &[u8]) -> (r: String)
    ensures
        r@ == lossy_text(v@),
        valid_utf8(v@) ==> vstd::utf8::encode_utf8(r@) == v@,
{
    String::from_utf8_lossy(v).into_owned()
}

fn nick_bytes_ok(s: &[u8]) -> (r: bool)
    ensures
        r == nick_ok(s@),
{
    let mut i: usize = 0;
    while i < s.len()
        invariant
            0 <= i <= s@.len(),
            i <= 9,
            forall|k: int| 0 <= k < i ==> if k == 0 {
                nick_first_ok(#[trigger] s@[k])
            } else {
                nick_rest_ok(s@[k])
            },
        decreases s@.len() - i,
    {
        if i == 9 {
            return false;
        }
        let b = s[i];
        let letter = (97 <= b && b <= 122) || (65 <= b && b <= 90);
        let special = (0x5B <= b && b <= 0x60) || (0x7B <= b && b <= 0x7D);
        let ok = if i == 0 {
            letter || special
        } else {
            letter || special || (48 <= b && b <= 57) || b == 45
        };
        if !ok {
            assert(!(if i == 0 {
                nick_first_ok(s@[i as int])
            } else {
                nick_rest_ok(s@[i as int])
            }));
            return false;
        }
        i = i + 1;
    }
    true
}

fn channel_bytes_ok(s: &[u8]) -> (r: bool)
    ensures
        r == channel_ok(s@),
{
    if s.len() == 0 {
        return true;
    }
    let first = s[0];
    if !(first == 35 || first == 38 || first == 43 || first == 33) {
        return false;
    }
    let mut i: usize = 1;
    while i < s.len()
        invariant
            1 <= i <= s@.len(),
            forall|k: int| 1 <= k < i ==> !(#[trigger] s@[k] == 32 || s@[k] == 7 || s@[k] == 44),
        decreases s@.len() - i,
    {
        let b = s[i];
        if b == 32 || b == 7 || b == 44 {
            return false;
        }
        i = i + 1;
    }
    true
}

/// Checks whether the nickname is valid.
pub fn valid_nick(nick: &str) -> (r: bool)
    ensures
        r == nick_ok(nick.spec_bytes()),
{
    nick_bytes_ok(nick.as_bytes())
}

/// Validates a raw nickname and returns it as text.
pub fn verify_nick(nick: &[u8]) -> (r: Option<&str>)
    ensures
        r is Some <==> valid_utf8(nick@) && nick_ok(nick@),
        r matches Some(s) ==> s.spec_bytes() == nick@,
{
    match utf8_str(nick) {
        None => None,
        Some(s) => if valid_nick(s) {
            Some(s)
        } else {
            None
        },
    }
}

/// Checks whether the channel name is valid.
pub fn valid_channel(channel: &str) -> (r: bool)
    ensures
        r == channel_ok(channel.spec_bytes()),
{
    channel_bytes_ok(channel.as_bytes())
}

/// Validates a raw channel name and returns it as text.
pub fn verify_channel(channel: &[u8]) -> (r: Option<&str>)
    ensures
        r is Some <==> valid_utf8(channel@) && channel_ok(channel@),
        r matches Some(s) ==> s.spec_bytes() == channel@,
{
    match utf8_str(channel) {
        None => None,
        Some(s) => if valid_channel(s) {
            Some(s)
        } else {
            None
        },
    }
}

/// Validates a raw message target: a channel name first, else a nickname.
pub fn verify_receiver(recv: &[u8]) -> (r: Option<Receiver>)
    ensures
        match r {
            Some(Receiver::Channel(name)) => valid_utf8(recv@) && channel_ok(recv@)
                && name@ == vstd::utf8::decode_utf8(recv@),
            Some(Receiver::Nick(name)) => valid_utf8(recv@) && !channel_ok(recv@) && nick_ok(recv@)
                && name@ == vstd::utf8::decode_utf8(recv@),
            None => !valid_utf8(recv@) || (!channel_ok(recv@) && !nick_ok(recv@)),
        },
{
    match utf8_str(recv) {
        None => None,
        Some(name) => {
            proof {
                vstd::utf8::encode_utf8_decode_utf8(name@);
            }
            if valid_channel(name) {
                Some(Receiver::Channel(name.to_owned()))
            } else if valid_nick(name) {
                Some(Receiver::Nick(name.to_owned()))
            } else {
                None
            }
        },
    }
}

/// Nicknames that no client may take.
pub open spec fn reserved(nick: Seq<u8>) -> bool {
    nick == seq![42u8] || nick == seq!['N' as u8, 'i' as u8, 'c' as u8, 'k' as u8, 'S' as u8, 'e' as u8, 'r' as u8, 'v' as u8]
        || nick == seq!['C' as u8, 'h' as u8, 'a' as u8, 'n' as u8, 'S' as u8, 'e' as u8, 'r' as u8, 'v' as u8]
        || nick == seq!['a' as u8, 'n' as u8, 'o' as u8, 'n' as u8, 'y' as u8, 'm' as u8, 'o' as u8, 'u' as u8, 's' as u8]
}

/// Checks whether a nickname is reserved.
pub fn is_reserved_nick(nick: &[u8]) -> (r: bool)
    ensures
        r == reserved(nick@),
{
    let star = vec![42u8];
    let nickserv = vec!['N' as u8, 'i' as u8, 'c' as u8, 'k' as u8, 'S' as u8, 'e' as u8, 'r' as u8, 'v' as u8];
    let chanserv = vec!['C' as u8, 'h' as u8, 'a' as u8, 'n' as u8, 'S' as u8, 'e' as u8, 'r' as u8, 'v' as u8];
    let anonymous = vec!['a' as u8, 'n' as u8, 'o' as u8, 'n' as u8, 'y' as u8, 'm' as u8, 'o' as u8, 'u' as u8, 's' as u8];
    assert(star@ =~= seq![42u8]);
    assert(nickserv@ =~= seq!['N' as u8, 'i' as u8, 'c' as u8, 'k' as u8, 'S' as u8, 'e' as u8, 'r' as u8, 'v' as u8]);
    assert(chanserv@ =~= seq!['C' as u8, 'h' as u8, 'a' as u8, 'n' as u8, 'S' as u8, 'e' as u8, 'r' as u8, 'v' as u8]);
    assert(anonymous@ =~= seq!['a' as u8, 'n' as u8, 'o' as u8, 'n' as u8, 'y' as u8, 'm' as u8, 'o' as u8, 'u' as u8, 's' as u8]);
    bytes_eq(nick, star.as_slice()) || bytes_eq(nick, nickserv.as_slice()) || bytes_eq(nick, chanserv.as_slice())
        || bytes_eq(nick, anonymous.as_slice())
}

} // verus!
