//! Users, their registration status and host masks.
use vstd::prelude::*;
use vstd::string::{StringExecFns, StringSliceAdditionalSpecFns};
use vstd::utf8::encode_utf8;

verus! {

pub const STAR: u8 = 42;

pub const BANG: u8 = 33;

pub const AT_SIGN: u8 = 64;

/// `s` with its leading bytes up to (not including) the first `c` removed.
pub open spec fn skip_until(s: Seq<u8>, c: u8) -> Seq<u8>
    decreases s.len(),
{
    if s.len() == 0 || s[0] == c {
        s
    } else {
        skip_until(s.drop_first(), c)
    }
}

/// Greedy wildcard matching of `input` against `pattern`: a `*` followed by a
/// byte `c` skips input up to the next `c`; a `*` at the end matches the rest;
/// any other byte must equal the next input byte.
pub open spec fn glob_match(pattern: Seq<u8>, input: Seq<u8>) -> bool
    decreases pattern.len(),
{
    if pattern.len() == 0 {
        input.len() == 0
    } else if pattern[0] == STAR {
        if pattern.len() == 1 {
            true
        } else {
            glob_match(pattern.drop_first(), skip_until(input, pattern[1]))
        }
    } else {
        input.len() > 0 && input[0] == pattern[0] && glob_match(pattern.drop_first(), input.drop_first())
    }
}

/// The text of a host mask made of its three parts.
pub open spec fn mask_text(nick: Seq<char>, user: Seq<char>, host: Seq<char>) -> Seq<char> {
    nick + seq!['!'] + user + seq!['@'] + host
}

/// A host mask in the form `nick!user@host`, where `*` is a wildcard.
#[derive(Debug, Hash)]
pub struct HostMask {
    mask: String,
}

impl View for HostMask {
    type V = Seq<char>;

    closed spec fn view(&self) -> Seq<char> {
        self.mask@
    }
}

impl HostMask {
    pub fn new(mask: String) -> (r: HostMask)
        ensures
            r@ == mask@,
    {
        HostMask { mask }
    }

    /// The mask `nick!name@host`.
    pub fn from_parts(nick: &str, name: &str, host: &str) -> (r: HostMask)
        ensures
            r@ == mask_text(nick@, name@, host@),
    {
        proof {
            reveal_strlit("!");
            reveal_strlit("@");
        }
        let mask = String::from_str(nick).concat("!").concat(name).concat("@").concat(host);
        HostMask { mask }
    }

    /// Checks whether `mask` matches this pattern (byte-wise, case-sensitive).
    ///
    /// `*!*@*.com` matches `a!b@example.com`.
    pub fn matches(&self, mask: &str) -> (r: bool)
        ensures
            r == glob_match(encode_utf8(self@), mask.spec_bytes()),
    {
        glob_matches(self.mask.as_str().as_bytes(), mask.as_bytes())
    }

    /// The part after the last `@`.
    pub fn host(&self) -> (r: Option<&[u8]>)
        ensures
            r matches Some(h) && h@ == after_last(encode_utf8(self@), AT_SIGN),
    {
        let b = self.mask.as_str().as_bytes();
        Some(after_last_of(b, AT_SIGN))
    }

    /// The part between the last `!` and the first `@`.
    pub fn user(&self) -> (r: Option<&[u8]>)
        ensures
            r matches Some(u) && u@ == after_last(before_first(encode_utf8(self@), AT_SIGN), BANG),
    {
        let b = self.mask.as_str().as_bytes();
        let before = before_first_of(b, AT_SIGN);
        Some(after_last_of(before, BANG))
    }

    /// The part before the first `!`.
    pub fn nick(&self) -> (r: Option<&[u8]>)
        ensures
            r matches Some(n) && n@ == before_first(encode_utf8(self@), BANG),
    {
        let b = self.mask.as_str().as_bytes();
        Some(before_first_of(b, BANG))
    }

    /// The text of the mask.
    pub fn as_str(&self) -> (r: &str)
        ensures
            r@ == self@,
    {
        self.mask.as_str()
    }
}

/// Greedy wildcard matching on bytes, see `glob_match`.
pub fn glob_matches(pattern: &[u8], input: &[u8]) -> (r: bool)
    ensures
        r == glob_match(pattern@, input@),
{
    let plen = pattern.len();
    let ilen = input.len();
    let mut pi: usize = 0;
    let mut mi: usize = 0;
    assert(pattern@.subrange(0, plen as int) =~= pattern@);
    assert(input@.subrange(0, ilen as int) =~= input@);
    while pi < plen
        invariant
            plen == pattern@.len(),
            ilen == input@.len(),
            pi <= plen,
            mi <= ilen,
            glob_match(pattern@, input@) == glob_match(
                pattern@.subrange(pi as int, plen as int),
                input@.subrange(mi as int, ilen as int),
            ),
        decreases plen - pi,
    {
        let ghost p = pattern@.subrange(pi as int, plen as int);
        let ghost s = input@.subrange(mi as int, ilen as int);
        assert(p.drop_first() =~= pattern@.subrange(pi + 1, plen as int));
        if pattern[pi] == STAR {
            if pi + 1 == plen {
                return true;
            }
            let next = pattern[pi + 1];
            while mi < ilen && input[mi] != next
                invariant
                    ilen == input@.len(),
                    mi <= ilen,
                    skip_until(s, next) == skip_until(input@.subrange(mi as int, ilen as int), next),
                decreases ilen - mi,
            {
                assert(input@.subrange(mi as int, ilen as int).drop_first() =~= input@.subrange(
                    mi + 1,
                    ilen as int,
                ));
                mi = mi + 1;
            }
            pi = pi + 1;
        } else {
            if mi == ilen || input[mi] != pattern[pi] {
                return false;
            }
            assert(s.drop_first() =~= input@.subrange(mi + 1, ilen as int));
            pi = pi + 1;
            mi = mi + 1;
        }
    }
    mi == ilen
}

/// Everything after the last `c` in `s` (all of `s` without a `c`).
pub open spec fn after_last(s: Seq<u8>, c: u8) -> Seq<u8>
    decreases s.len(),
{
    if s.len() == 0 {
        s
    } else if s.last() == c {
        Seq::empty()
    } else {
        after_last(s.drop_last(), c).push(s.last())
    }
}

/// Everything before the first `c` in `s` (all of `s` without a `c`).
pub open spec fn before_first(s: Seq<u8>, c: u8) -> Seq<u8>
    decreases s.len(),
{
    if s.len() == 0 {
        s
    } else if s[0] == c {
        Seq::empty()
    } else {
        seq![s[0]] + before_first(s.drop_first(), c)
    }
}

fn after_last_of(s: &[u8], c: u8) -> (r: &[u8])
    ensures
        r@ == after_last(s@, c),
{
    let len = s.len();
    let mut i: usize = len;
    assert(s@.subrange(len as int, len as int) =~= Seq::<u8>::empty());
    assert(s@.subrange(0, len as int) =~= s@);
    assert(after_last(s@, c) + Seq::<u8>::empty() =~= after_last(s@, c));
    while i > 0 && s[i - 1] != c
        invariant
            len == s@.len(),
            i <= len,
            after_last(s@, c) == after_last(s@.subrange(0, i as int), c) + s@.subrange(i as int, len as int),
        decreases i,
    {
        let ghost t = s@.subrange(0, i as int);
        assert(t.drop_last() =~= s@.subrange(0, i - 1));
        assert(after_last(t, c) == after_last(t.drop_last(), c).push(t.last()));
        assert(after_last(s@.subrange(0, i - 1), c).push(s@[i - 1]) + s@.subrange(i as int, len as int)
            =~= after_last(s@.subrange(0, i - 1), c) + s@.subrange(i - 1, len as int));
        i = i - 1;
    }
    if i > 0 {
        let ghost t = s@.subrange(0, i as int);
        assert(t.last() == c);
        assert(Seq::<u8>::empty() + s@.subrange(i as int, len as int) =~= s@.subrange(i as int, len as int));
    } else {
        assert(s@.subrange(0, 0) =~= Seq::<u8>::empty());
        assert(Seq::<u8>::empty() + s@.subrange(0, len as int) =~= s@.subrange(0, len as int));
    }
    vstd::slice::slice_subrange(s, i, len)
}

fn before_first_of(s: &[u8], c: u8) -> (r: &[u8])
    ensures
        r@ == before_first(s@, c),
{
    let len = s.len();
    let mut i: usize = 0;
    assert(s@.subrange(0, 0) =~= Seq::<u8>::empty());
    assert(s@.subrange(0, len as int) =~= s@);
    while i < len && s[i] != c
        invariant
            len == s@.len(),
            i <= len,
            before_first(s@, c) == s@.subrange(0, i as int) + before_first(s@.subrange(i as int, len as int), c),
        decreases len - i,
    {
        let ghost t = s@.subrange(i as int, len as int);
        assert(t.drop_first() =~= s@.subrange(i + 1, len as int));
        assert(s@.subrange(0, i as int) + (seq![t[0]] + before_first(t.drop_first(), c)) =~= s@.subrange(
            0,
            i + 1,
        ) + before_first(s@.subrange(i + 1, len as int), c));
        i = i + 1;
    }
    if i < len {
        assert(s@.subrange(i as int, len as int)[0] == c);
    }
    assert(s@.subrange(0, i as int) + Seq::<u8>::empty() =~= s@.subrange(0, i as int));
    vstd::slice::slice_subrange(s, 0, i)
}

proof fn lemma_skip_until_append(x: Seq<u8>, s: Seq<u8>, c: u8)
    ensures
        x.contains(c) ==> skip_until(x + s, c) == skip_until(x, c) + s,
        !x.contains(c) ==> skip_until(x, c) == Seq::<u8>::empty() && skip_until(x + s, c) == skip_until(s, c),
    decreases x.len(),
{
    if x.len() == 0 {
        assert(x + s =~= s);
        assert(x =~= Seq::<u8>::empty());
    } else if x[0] == c {
        assert((x + s)[0] == c);
        assert(x.contains(c)) by {
            assert(x[0] == c);
        }
    } else {
        let t = x.drop_first();
        lemma_skip_until_append(t, s, c);
        assert((x + s)[0] == x[0]);
        assert((x + s).drop_first() =~= t + s);
        assert(x.contains(c) <==> t.contains(c)) by {
            if x.contains(c) {
                let k = choose|k: int| 0 <= k < x.len() && x[k] == c;
                assert(t[k - 1] == c);
            }
            if t.contains(c) {
                let k = choose|k: int| 0 <= k < t.len() && t[k] == c;
                assert(x[k + 1] == c);
            }
        }
    }
}

/// A pattern that matches the empty input is made of stars only.
proof fn lemma_matches_empty(q: Seq<u8>)
    requires
        glob_match(q, Seq::<u8>::empty()),
    ensures
        forall|i: int| 0 <= i < q.len() ==> q[i] == STAR,
    decreases q.len(),
{
    if q.len() > 1 {
        assert(skip_until(Seq::<u8>::empty(), q[1]) =~= Seq::<u8>::empty());
        lemma_matches_empty(q.drop_first());
        assert forall|i: int| 0 <= i < q.len() implies q[i] == STAR by {
            if i > 0 {
                assert(q[i] == q.drop_first()[i - 1]);
            }
        }
    }
}

/// A non-empty pattern of stars only matches every input.
proof fn lemma_stars_match(q: Seq<u8>, y: Seq<u8>)
    requires
        q.len() > 0,
        forall|i: int| 0 <= i < q.len() ==> q[i] == STAR,
    ensures
        glob_match(q, y),
    decreases q.len(),
{
    if q.len() > 1 {
        let t = q.drop_first();
        assert forall|i: int| 0 <= i < t.len() implies t[i] == STAR by {
            assert(t[i] == q[i + 1]);
        }
        lemma_stars_match(t, skip_until(y, q[1]));
    }
}

/// A mask ending in `*` matches whatever starts with an input that the mask
/// without its final `*` matches: any suffix may follow, the empty one
/// included.
pub proof fn lemma_star_suffix(pattern: Seq<u8>, input: Seq<u8>, suffix: Seq<u8>)
    requires
        glob_match(pattern, input),
    ensures
        glob_match(pattern.push(STAR), input + suffix),
    decreases pattern.len(),
{
    let pp = pattern.push(STAR);
    if pattern.len() == 0 {
        assert(pp =~= seq![STAR]);
    } else if pattern[0] == STAR {
        assert(pp[0] == STAR);
        if pattern.len() == 1 {
            assert(pp.drop_first() =~= seq![STAR]);
            assert(glob_match(pp.drop_first(), skip_until(input + suffix, pp[1])));
        } else {
            let c = pattern[1];
            let q = pattern.drop_first();
            assert(pp[1] == c);
            assert(pp.drop_first() =~= q.push(STAR));
            lemma_skip_until_append(input, suffix, c);
            if input.contains(c) {
                lemma_star_suffix(q, skip_until(input, c), suffix);
            } else {
                lemma_matches_empty(q);
                assert forall|i: int| 0 <= i < q.push(STAR).len() implies q.push(STAR)[i] == STAR by {}
                lemma_stars_match(q.push(STAR), skip_until(input + suffix, c));
            }
            assert(glob_match(pp.drop_first(), skip_until(input + suffix, pp[1])));
        }
    } else {
        let q = pattern.drop_first();
        assert(pp[0] == pattern[0]);
        assert(pp.drop_first() =~= q.push(STAR));
        assert((input + suffix)[0] == input[0]);
        assert((input + suffix).drop_first() =~= input.drop_first() + suffix);
        lemma_star_suffix(q, input.drop_first(), suffix);
    }
}

/// Registration status of a client.
#[derive(Debug, Clone, Copy, PartialEq, Eq, Structural)]
pub enum Status {
    /// Not connected
    Disconnected,
    /// Just connected
    Connected,
    /// Registered a nickname
    NickRegistered,
    /// Sent a USER command
    NameRegistered,
    /// Capability negotiation suspends registration in the given state
    Negotiating(Phase),
    /// Fully registered
    Registered,
}

/// The registration state that capability negotiation suspends.
#[derive(Debug, Clone, Copy, PartialEq, Eq, Structural)]
pub enum Phase {
    Disconnected,
    Connected,
    NickRegistered,
    NameRegistered,
    Registered,
}

/// Information about a connected user.
#[derive(Debug)]
pub struct User {
    nick: String,
    user: String,
    realname: String,
    host: String,
    status: Status,
    hostmask: HostMask,
}

impl User {
    /// The cached host mask agrees with nick, user name and host.
    pub open spec fn wf(&self) -> bool {
        self.mask_view() == mask_text(self.nick_view(), self.user_view(), self.host_view())
    }

    pub closed spec fn nick_view(&self) -> Seq<char> {
        self.nick@
    }

    pub closed spec fn user_view(&self) -> Seq<char> {
        self.user@
    }

    pub closed spec fn realname_view(&self) -> Seq<char> {
        self.realname@
    }

    pub closed spec fn host_view(&self) -> Seq<char> {
        self.host@
    }

    pub closed spec fn status_view(&self) -> Status {
        self.status
    }

    pub closed spec fn mask_view(&self) -> Seq<char> {
        self.hostmask@
    }

    /// A freshly connected user on `host`: nick `*`, empty user name,
    /// real name `John Doe`.
    pub fn new(host: String) -> (r: User)
        ensures
            r.wf(),
            r.nick_view() == seq!['*'],
            r.user_view() == Seq::<char>::empty(),
            r.realname_view() == seq!['J', 'o', 'h', 'n', ' ', 'D', 'o', 'e'],
            r.host_view() == host@,
            r.status_view() == Status::Connected,
    {
        proof {
            reveal_strlit("*");
            reveal_strlit("");
            reveal_strlit("John Doe");
        }
        let mut u = User {
            nick: "*".to_owned(),
            user: "".to_owned(),
            realname: "John Doe".to_owned(),
            host,
            status: Status::Connected,
            hostmask: HostMask { mask: String::new() },
        };
        u.update_mask();
        u
    }

    pub fn nick(&self) -> (r: &str)
        ensures
            r@ == self.nick_view(),
    {
        self.nick.as_str()
    }

    /// Sets the nick name and returns the previous one.
    pub fn set_nick(&mut self, nick: String) -> (r: String)
        ensures
            final(self).wf(),
            r@ == old(self).nick_view(),
            final(self).nick_view() == nick@,
            final(self).user_view() == old(self).user_view(),
            final(self).realname_view() == old(self).realname_view(),
            final(self).host_view() == old(self).host_view(),
            final(self).status_view() == old(self).status_view(),
    {
        let previous = self.nick.clone();
        self.nick = nick;
        self.update_mask();
        previous
    }

    pub fn user(&self) -> (r: &str)
        ensures
            r@ == self.user_view(),
    {
        self.user.as_str()
    }

    pub fn set_user(&mut self, name: String)
        ensures
            final(self).wf(),
            final(self).user_view() == name@,
            final(self).nick_view() == old(self).nick_view(),
            final(self).realname_view() == old(self).realname_view(),
            final(self).host_view() == old(self).host_view(),
            final(self).status_view() == old(self).status_view(),
    {
        self.user = name;
        self.update_mask();
    }

    pub fn realname(&self) -> (r: &str)
        ensures
            r@ == self.realname_view(),
    {
        self.realname.as_str()
    }

    pub fn set_realname(&mut self, name: String)
        ensures
            final(self).wf(),
            final(self).realname_view() == name@,
            final(self).nick_view() == old(self).nick_view(),
            final(self).user_view() == old(self).user_view(),
            final(self).host_view() == old(self).host_view(),
            final(self).status_view() == old(self).status_view(),
    {
        self.realname = name;
        self.update_mask();
    }

    pub fn host(&self) -> (r: &str)
        ensures
            r@ == self.host_view(),
    {
        self.host.as_str()
    }

    pub fn status(&self) -> (r: Status)
        ensures
            r == self.status_view(),
    {
        self.status
    }

    pub fn set_status(&mut self, status: Status)
        ensures
            final(self).status_view() == status,
            final(self).nick_view() == old(self).nick_view(),
            final(self).user_view() == old(self).user_view(),
            final(self).realname_view() == old(self).realname_view(),
            final(self).host_view() == old(self).host_view(),
            final(self).mask_view() == old(self).mask_view(),
            old(self).wf() ==> final(self).wf(),
    {
        self.status = status;
    }

    /// Recomputes the cached host mask.
    fn update_mask(&mut self)
        ensures
            final(self).wf(),
            final(self).nick == old(self).nick,
            final(self).user == old(self).user,
            final(self).realname == old(self).realname,
            final(self).host == old(self).host,
            final(self).status == old(self).status,
    {
        self.hostmask = HostMask::from_parts(self.nick.as_str(), self.user.as_str(), self.host.as_str());
    }

    /// The host mask sent out to other users.
    pub fn public_hostmask(&self) -> (r: &HostMask)
        ensures
            r@ == self.mask_view(),
    {
        &self.hostmask
    }

    /// The real host mask.
    pub fn real_hostmask(&self) -> (r: &HostMask)
        ensures
            r@ == self.mask_view(),
    {
        &self.hostmask
    }
}

} // verus!
