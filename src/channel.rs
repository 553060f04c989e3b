//! Channel state: membership, topic, modes and host-mask sets, and the join
//! policy that consults them.
//!
//! A channel is owned by exactly one executor that applies operations to it
//! one at a time; every operation here is a plain method on that state.
use vstd::prelude::*;
use vstd::string::{StringExecFns, StringSliceAdditionalSpecFns};
use vstd::utf8::encode_utf8;

use crate::client::ClientId;
use crate::command::ResponseCode;
use crate::misc::{lossy_string, lossy_text};
use crate::mode::{Action, ChannelMode};
use crate::text::{decimal_number, parse_decimal};
use crate::text::bytes_eq;
use crate::user::{glob_match, HostMask, User};

verus! {

/// The member of `c` with id `id` is a channel operator.
pub open spec fn is_operator(c: ChannelView, id: ClientId) -> bool {
    exists|i: int| 0 <= i < c.members.len() && (#[trigger] c.members[i]).id == id && c.members[i].op
}

/// The member of `c` with id `id` is voiced or a channel operator.
pub open spec fn is_voiced(c: ChannelView, id: ClientId) -> bool {
    exists|i: int| 0 <= i < c.members.len() && (#[trigger] c.members[i]).id == id && (c.members[i].voice
        || c.members[i].op)
}

/// Whether `sender` may talk to the channel: in a members-only or
/// moderated channel only members may, and in a moderated one only voiced
/// members and operators.
pub open spec fn may_speak(c: ChannelView, sender: ClientId) -> bool {
    if c.flags.contains(ChannelMode::MemberOnly) || c.flags.contains(ChannelMode::Moderated) {
        ids_of(c.members).contains(sender) && (!c.flags.contains(ChannelMode::Moderated) || is_voiced(c, sender))
    } else {
        true
    }
}

/// Who receives what `sender` says to the channel: every other member, when
/// the sender may speak.
pub open spec fn delivery_targets(c: ChannelView, sender: ClientId) -> Seq<ClientId> {
    if may_speak(c, sender) {
        without(ids_of(c.members), sender)
    } else {
        Seq::empty()
    }
}

/// What a member is, abstractly.
pub struct MemberView {
    pub id: ClientId,
    pub nick: Seq<char>,
    pub mask: Seq<char>,
    pub user: Seq<char>,
    pub host: Seq<char>,
    pub realname: Seq<char>,
    pub op: bool,
    pub voice: bool,
    pub creator: bool,
}

/// The nickname prefix that shows a member's privilege.
pub open spec fn decoration_of(op: bool, voice: bool) -> Seq<char> {
    if op {
        seq!['@']
    } else if voice {
        seq!['+']
    } else {
        Seq::empty()
    }
}

/// Some mask of `masks` matches `target`.
pub open spec fn matches_any(masks: Seq<Seq<char>>, target: Seq<char>) -> bool {
    exists|i: int| 0 <= i < masks.len() && glob_match(encode_utf8(#[trigger] masks[i]), encode_utf8(target))
}

/// A member of a channel.
#[derive(Debug)]
pub struct Member {
    id: ClientId,
    nick: String,
    mask: HostMask,
    hostname: String,
    username: String,
    realname: String,
    decorated_nick: String,
    op: bool,
    voice: bool,
    creator: bool,
}

impl Member {
    pub closed spec fn view(&self) -> MemberView {
        MemberView {
            id: self.id,
            nick: self.nick@,
            mask: self.mask@,
            user: self.username@,
            host: self.hostname@,
            realname: self.realname@,
            op: self.op,
            voice: self.voice,
            creator: self.creator,
        }
    }

    /// The cached decorated nick agrees with nick and privileges.
    pub closed spec fn wf(&self) -> bool {
        self.decorated_nick@ == decoration_of(self.op, self.voice) + self.nick@
    }

    /// A member without privileges, for the client `id` described by `user`.
    pub fn new(id: ClientId, user: &User) -> (r: Member)
        requires
            user.wf(),
        ensures
            r.wf(),
            r.view() == (MemberView {
                id,
                nick: user.nick_view(),
                mask: user.mask_view(),
                user: user.user_view(),
                host: user.host_view(),
                realname: user.realname_view(),
                op: false,
                voice: false,
                creator: false,
            }),
    {
        let nick = user.nick().to_owned();
        let mask = HostMask::new(user.real_hostmask().as_str().to_owned());
        let mut m = Member {
            id,
            nick,
            mask,
            hostname: user.host().to_owned(),
            username: user.user().to_owned(),
            realname: user.realname().to_owned(),
            decorated_nick: String::new(),
            op: false,
            voice: false,
            creator: false,
        };
        m.update_decorated_nick();
        m
    }

    /// Grants a privilege (operator, voice or channel creator).
    pub fn promote(&mut self, flag: ChannelMode)
        requires
            old(self).wf(),
        ensures
            final(self).wf(),
            final(self).view() == (MemberView {
                op: old(self).view().op || flag == ChannelMode::OperatorPrivilege,
                voice: old(self).view().voice || flag == ChannelMode::VoicePrivilege,
                creator: old(self).view().creator || flag == ChannelMode::ChannelCreator,
                ..old(self).view()
            }),
    {
        match flag {
            ChannelMode::OperatorPrivilege => self.op = true,
            ChannelMode::VoicePrivilege => self.voice = true,
            ChannelMode::ChannelCreator => self.creator = true,
            _ => {},
        }
        self.update_decorated_nick();
    }

    /// Takes a privilege away.
    pub fn demote(&mut self, flag: ChannelMode)
        requires
            old(self).wf(),
        ensures
            final(self).wf(),
            final(self).view() == (MemberView {
                op: old(self).view().op && flag != ChannelMode::OperatorPrivilege,
                voice: old(self).view().voice && flag != ChannelMode::VoicePrivilege,
                creator: old(self).view().creator && flag != ChannelMode::ChannelCreator,
                ..old(self).view()
            }),
    {
        match flag {
            ChannelMode::OperatorPrivilege => self.op = false,
            ChannelMode::VoicePrivilege => self.voice = false,
            ChannelMode::ChannelCreator => self.creator = false,
            _ => {},
        }
        self.update_decorated_nick();
    }

    /// `@` for an operator, `+` for a voiced member, else nothing.
    pub fn decoration(&self) -> (r: String)
        ensures
            r@ == decoration_of(self.view().op, self.view().voice),
    {
        proof {
            reveal_strlit("@");
            reveal_strlit("+");
            reveal_strlit("");
        }
        if self.op {
            "@".to_owned()
        } else if self.voice {
            "+".to_owned()
        } else {
            "".to_owned()
        }
    }

    fn update_decorated_nick(&mut self)
        ensures
            final(self).wf(),
            final(self).view() == old(self).view(),
    {
        self.decorated_nick = self.decoration().concat(self.nick.as_str());
    }

    pub fn is_op(&self) -> (r: bool)
        ensures
            r == self.view().op,
    {
        self.op
    }

    /// Voiced members and operators may speak in a moderated channel.
    pub fn has_voice(&self) -> (r: bool)
        ensures
            r == (self.view().voice || self.view().op),
    {
        self.voice || self.op
    }

    /// Checks whether any mask of `masks` matches the member's host mask.
    pub fn mask_matches_any(&self, masks: &Vec<HostMask>) -> (r: bool)
        ensures
            r == matches_any(masks_view(masks@), self.view().mask),
    {
        let target = self.mask.as_str();
        let mut i: usize = 0;
        while i < masks.len()
            invariant
                0 <= i <= masks@.len(),
                target@ == self.view().mask,
                forall|k: int| 0 <= k < i ==> !glob_match(encode_utf8(#[trigger] masks_view(masks@)[k]), encode_utf8(self.view().mask)),
            decreases masks@.len() - i,
        {
            if masks[i].matches(target) {
                assert(glob_match(encode_utf8(masks_view(masks@)[i as int]), encode_utf8(self.view().mask)));
                return true;
            }
            i = i + 1;
        }
        false
    }

    /// The nickname with its privilege prefix.
    pub fn decorated_nick(&self) -> (r: &str)
        requires
            self.wf(),
        ensures
            r@ == decoration_of(self.view().op, self.view().voice) + self.view().nick,
    {
        self.decorated_nick.as_str()
    }

    pub fn nick(&self) -> (r: &str)
        ensures
            r@ == self.view().nick,
    {
        self.nick.as_str()
    }

    /// Renames the member.
    pub fn set_nick(&mut self, nick: String)
        requires
            old(self).wf(),
        ensures
            final(self).wf(),
            final(self).view() == (MemberView { nick: nick@, ..old(self).view() }),
    {
        self.nick = nick;
        self.update_decorated_nick();
    }

    /// The letters of the member's privileges: `O` (creator), `o`, `v`.
    pub fn flags(&self) -> (r: Vec<u8>)
        ensures
            r@ == (if self.view().creator {
                seq!['O' as u8]
            } else {
                Seq::empty()
            }) + (if self.view().op {
                seq!['o' as u8]
            } else {
                Seq::empty()
            }) + (if self.view().voice {
                seq!['v' as u8]
            } else {
                Seq::empty()
            }),
    {
        let mut r: Vec<u8> = Vec::new();
        if self.creator {
            r.push('O' as u8);
        }
        if self.op {
            r.push('o' as u8);
        }
        if self.voice {
            r.push('v' as u8);
        }
        assert(r@ =~= (if self.creator {
            seq!['O' as u8]
        } else {
            Seq::empty()
        }) + (if self.op {
            seq!['o' as u8]
        } else {
            Seq::empty()
        }) + (if self.voice {
            seq!['v' as u8]
        } else {
            Seq::empty()
        }));
        r
    }

    pub fn hostname(&self) -> (r: &str)
        ensures
            r@ == self.view().host,
    {
        self.hostname.as_str()
    }

    pub fn username(&self) -> (r: &str)
        ensures
            r@ == self.view().user,
    {
        self.username.as_str()
    }

    pub fn realname(&self) -> (r: &str)
        ensures
            r@ == self.view().realname,
    {
        self.realname.as_str()
    }

    pub fn id(&self) -> (r: ClientId)
        ensures
            r == self.view().id,
    {
        self.id
    }
}

pub open spec fn masks_view(ms: Seq<HostMask>) -> Seq<Seq<char>> {
    Seq::new(ms.len(), |i: int| ms[i]@)
}

pub open spec fn members_view(ms: Seq<Member>) -> Seq<MemberView> {
    Seq::new(ms.len(), |i: int| ms[i].view())
}

/// The ids of `ms`, in order.
pub open spec fn ids_of(ms: Seq<MemberView>) -> Seq<ClientId> {
    Seq::new(ms.len(), |i: int| ms[i].id)
}

/// What a channel is, abstractly.
pub struct ChannelView {
    pub flags: Seq<ChannelMode>,
    pub password: Option<Seq<u8>>,
    pub limit: Option<usize>,
    pub members: Seq<MemberView>,
    pub invited: Seq<ClientId>,
    pub bans: Seq<Seq<char>>,
    pub excepts: Seq<Seq<char>>,
    pub invite_masks: Seq<Seq<char>>,
}

/// Whether a join is refused, and with which reply; `Ok(false)` for a client
/// that is a member already, `Ok(true)` for one that joins.
pub open spec fn join_result(c: ChannelView, m: MemberView, password: Option<Seq<u8>>) -> Result<
    bool,
    ResponseCode,
> {
    if c.password is Some && password != c.password {
        Err(ResponseCode::ERR_BADCHANNELKEY)
    } else if ids_of(c.members).contains(m.id) {
        Ok(false)
    } else if matches_any(c.bans, m.mask) && !matches_any(c.excepts, m.mask) {
        Err(ResponseCode::ERR_BANNEDFROMCHAN)
    } else if c.flags.contains(ChannelMode::InviteOnly) && !(c.invited.contains(m.id) || matches_any(
        c.invite_masks,
        m.mask,
    )) {
        Err(ResponseCode::ERR_INVITEONLYCHAN)
    } else if c.limit matches Some(l) && c.members.len() >= l {
        Err(ResponseCode::ERR_CHANNELISFULL)
    } else {
        Ok(true)
    }
}

/// `s` without any occurrence of `x`, the rest in order.
pub open spec fn without<A>(s: Seq<A>, x: A) -> Seq<A>
    decreases s.len(),
{
    if s.len() == 0 {
        s
    } else if s.last() == x {
        without(s.drop_last(), x)
    } else {
        without(s.drop_last(), x).push(s.last())
    }
}

/// The modes whose flag says that a mask list is non-empty.
pub open spec fn is_list_mode(mode: ChannelMode) -> bool {
    mode == ChannelMode::BanMask || mode == ChannelMode::ExceptionMask || mode == ChannelMode::InvitationMask
}

/// The mask list that a list mode stands for.
pub open spec fn list_of(c: ChannelView, mode: ChannelMode) -> Seq<Seq<char>> {
    if mode == ChannelMode::BanMask {
        c.bans
    } else if mode == ChannelMode::ExceptionMask {
        c.excepts
    } else {
        c.invite_masks
    }
}

/// The flags with the flag of a mask list set exactly when the list is
/// non-empty.
pub open spec fn list_flag(flags: Seq<ChannelMode>, mode: ChannelMode, list: Seq<Seq<char>>) -> Seq<ChannelMode> {
    if list.len() > 0 {
        with(flags, mode)
    } else {
        without(flags, mode)
    }
}

/// What `with` holds, and that it keeps a sequence free of duplicates.
pub proof fn lemma_with<A>(s: Seq<A>, x: A)
    ensures
        forall|y: A| #[trigger] with(s, x).contains(y) <==> s.contains(y) || y == x,
        s.no_duplicates() ==> with(s, x).no_duplicates(),
{
    lemma_push_contains(s, x);
    if !s.contains(x) && s.no_duplicates() {
        assert forall|a: int, b: int| 0 <= a < b < s.push(x).len() implies s.push(x)[a] != s.push(x)[b] by {
            if b == s.len() {
                assert(s.contains(s[a]));
            }
        }
    }
    assert forall|y: A| #[trigger] with(s, x).contains(y) <==> s.contains(y) || y == x by {
        if s.contains(x) && y == x {
        }
    }
}

/// `s` with `x` added at the end unless it holds `x` already.
pub open spec fn with<A>(s: Seq<A>, x: A) -> Seq<A> {
    if s.contains(x) {
        s
    } else {
        s.push(x)
    }
}

/// What `without` keeps, and that it keeps a sequence free of duplicates.
pub proof fn lemma_without<A>(s: Seq<A>, x: A)
    ensures
        forall|y: A| #[trigger] without(s, x).contains(y) <==> s.contains(y) && y != x,
        s.no_duplicates() ==> without(s, x).no_duplicates(),
    decreases s.len(),
{
    if s.len() > 0 {
        let prev = s.drop_last();
        lemma_without(prev, x);
        assert forall|y: A| prev.contains(y) || y == s.last() <==> #[trigger] s.contains(y) by {
            if prev.contains(y) {
                let k = choose|k: int| 0 <= k < prev.len() && prev[k] == y;
                assert(s[k] == y);
            }
            if y == s.last() {
                assert(s[s.len() - 1] == y);
            }
            if s.contains(y) && y != s.last() {
                let k = choose|k: int| 0 <= k < s.len() && s[k] == y;
                assert(prev[k] == y);
            }
        }
        if s.last() != x {
            lemma_push_contains(without(prev, x), s.last());
            if s.no_duplicates() {
                assert(prev.no_duplicates()) by {
                    assert forall|a: int, b: int| 0 <= a < b < prev.len() implies prev[a] != prev[b] by {
                        assert(s[a] == prev[a] && s[b] == prev[b]);
                    }
                }
                assert(!prev.contains(s.last())) by {
                    if prev.contains(s.last()) {
                        let k = choose|k: int| 0 <= k < prev.len() && prev[k] == s.last();
                        assert(s[k] == s[s.len() - 1]);
                    }
                }
                let w = without(prev, x);
                assert forall|a: int, b: int| 0 <= a < b < w.push(s.last()).len() implies w.push(s.last())[a] != w.push(s.last())[b] by {
                    if b == w.len() {
                        assert(w.contains(w[a]));
                    }
                }
            }
        } else if s.no_duplicates() {
            assert forall|a: int, b: int| 0 <= a < b < prev.len() implies prev[a] != prev[b] by {
                assert(s[a] == prev[a] && s[b] == prev[b]);
            }
        }
    }
}

/// The member as it enters: the first one becomes creator and operator.
pub open spec fn entering(c: ChannelView, m: MemberView) -> MemberView {
    if c.members.len() == 0 {
        MemberView { op: true, creator: true, ..m }
    } else {
        m
    }
}

/// The channel after a join: the member added last, no longer on the invite list.
pub open spec fn after_join(c: ChannelView, m: MemberView, password: Option<Seq<u8>>) -> ChannelView {
    if join_result(c, m, password) == Ok::<bool, ResponseCode>(true) {
        ChannelView { members: c.members.push(entering(c, m)), invited: without(c.invited, m.id), ..c }
    } else {
        c
    }
}

/// An IRC channel.
#[derive(Debug)]
pub struct Channel {
    name: String,
    topic: String,
    password: Option<Vec<u8>>,
    flags: Vec<ChannelMode>,
    limit: Option<usize>,
    members: Vec<Member>,
    invite_list: Vec<ClientId>,
    ban_masks: Vec<HostMask>,
    except_masks: Vec<HostMask>,
    invite_masks: Vec<HostMask>,
}

impl Channel {
    pub closed spec fn view(&self) -> ChannelView {
        ChannelView {
            flags: self.flags@,
            password: match self.password {
                Some(p) => Some(p@),
                None => None,
            },
            limit: self.limit,
            members: members_view(self.members@),
            invited: self.invite_list@,
            bans: masks_view(self.ban_masks@),
            excepts: masks_view(self.except_masks@),
            invite_masks: masks_view(self.invite_masks@),
        }
    }

    pub closed spec fn name_view(&self) -> Seq<char> {
        self.name@
    }

    pub closed spec fn topic_view(&self) -> Seq<char> {
        self.topic@
    }

    /// Every member's cached nick is consistent, and member ids are unique.
    pub closed spec fn wf(&self) -> bool {
        &&& forall|i: int| 0 <= i < self.members@.len() ==> (#[trigger] self.members@[i]).wf()
        &&& forall|i: int, j: int|
            0 <= i < j < self.members@.len() ==> (#[trigger] self.members@[i]).view().id != (#[trigger] self.members@[j]).view().id
        &&& self.flags@.no_duplicates()
        &&& (self.flags@.contains(ChannelMode::BanMask) <==> self.ban_masks@.len() > 0)
        &&& (self.flags@.contains(ChannelMode::ExceptionMask) <==> self.except_masks@.len() > 0)
        &&& (self.flags@.contains(ChannelMode::InvitationMask) <==> self.invite_masks@.len() > 0)
        &&& masks_view(self.ban_masks@).no_duplicates()
        &&& masks_view(self.except_masks@).no_duplicates()
        &&& masks_view(self.invite_masks@).no_duplicates()
    }

    /// An empty channel called `name`, with no topic and no modes.
    pub fn new(name: String) -> (r: Channel)
        ensures
            r.wf(),
            r.name_view() == name@,
            r.topic_view() == Seq::<char>::empty(),
            r.view() == (ChannelView {
                flags: Seq::empty(),
                password: None,
                limit: None,
                members: Seq::empty(),
                invited: Seq::empty(),
                bans: Seq::empty(),
                excepts: Seq::empty(),
                invite_masks: Seq::empty(),
            }),
    {
        let r = Channel {
            name,
            topic: String::new(),
            password: None,
            flags: Vec::new(),
            limit: None,
            members: Vec::new(),
            invite_list: Vec::new(),
            ban_masks: Vec::new(),
            except_masks: Vec::new(),
            invite_masks: Vec::new(),
        };
        assert(r.view().members =~= Seq::<MemberView>::empty());
        assert(r.view().bans =~= Seq::<Seq<char>>::empty());
        assert(r.view().excepts =~= Seq::<Seq<char>>::empty());
        assert(r.view().invite_masks =~= Seq::<Seq<char>>::empty());
        r
    }

    pub fn name(&self) -> (r: &str)
        ensures
            r@ == self.name_view(),
    {
        self.name.as_str()
    }

    pub fn topic(&self) -> (r: &str)
        ensures
            r@ == self.topic_view(),
    {
        self.topic.as_str()
    }

    pub fn set_topic(&mut self, topic: String)
        ensures
            final(self).topic_view() == topic@,
            final(self).view() == old(self).view(),
            final(self).name_view() == old(self).name_view(),
            final(self).wf() == old(self).wf(),
    {
        self.topic = topic;
    }

    pub fn limit(&self) -> (r: Option<usize>)
        ensures
            r == self.view().limit,
    {
        self.limit
    }

    pub fn set_limit(&mut self, limit: Option<usize>)
        ensures
            final(self).view() == (ChannelView { limit, ..old(self).view() }),
            final(self).name_view() == old(self).name_view(),
            final(self).topic_view() == old(self).topic_view(),
            final(self).wf() == old(self).wf(),
    {
        self.limit = limit;
    }

    pub fn password(&self) -> (r: &Option<Vec<u8>>)
        ensures
            self.view().password == match r {
                Some(p) => Some(p@),
                None => None::<Seq<u8>>,
            },
    {
        &self.password
    }

    pub fn set_password(&mut self, password: Option<Vec<u8>>)
        ensures
            final(self).view() == (ChannelView {
                password: match password {
                    Some(p) => Some(p@),
                    None => None,
                },
                ..old(self).view()
            }),
            final(self).name_view() == old(self).name_view(),
            final(self).topic_view() == old(self).topic_view(),
            final(self).wf() == old(self).wf(),
    {
        self.password = password;
    }

    /// Checks whether the channel has `flag`.
    pub fn has_flag(&self, flag: ChannelMode) -> (r: bool)
        ensures
            r == self.view().flags.contains(flag),
    {
        let mut i: usize = 0;
        while i < self.flags.len()
            invariant
                0 <= i <= self.flags@.len(),
                forall|k: int| 0 <= k < i ==> self.flags@[k] != flag,
            decreases self.flags@.len() - i,
        {
            if self.flags[i] == flag {
                return true;
            }
            i = i + 1;
        }
        false
    }

    /// Adds a flag, keeping the flags free of duplicates.
    fn push_flag(&mut self, flag: ChannelMode)
        requires
            old(self).flags@.no_duplicates(),
        ensures
            final(self).flags@ == with(old(self).flags@, flag),
            final(self).flags@.no_duplicates(),
            final(self).name == old(self).name,
            final(self).topic == old(self).topic,
            final(self).password == old(self).password,
            final(self).limit == old(self).limit,
            final(self).members == old(self).members,
            final(self).invite_list == old(self).invite_list,
            final(self).ban_masks == old(self).ban_masks,
            final(self).except_masks == old(self).except_masks,
            final(self).invite_masks == old(self).invite_masks,
    {
        if !self.has_flag(flag) {
            self.flags.push(flag);
            proof {
                assert forall|a: int, b: int| 0 <= a < b < self.flags@.len() implies self.flags@[a] != self.flags@[b] by {
                    if b == self.flags@.len() - 1 {
                        assert(old(self).flags@[a] == self.flags@[a]);
                        assert(old(self).flags@.contains(self.flags@[a]));
                    }
                }
            }
        }
    }

    /// Removes a flag, keeping the flags free of duplicates.
    fn drop_flag(&mut self, flag: ChannelMode)
        requires
            old(self).flags@.no_duplicates(),
        ensures
            final(self).flags@ == without(old(self).flags@, flag),
            final(self).flags@.no_duplicates(),
            final(self).name == old(self).name,
            final(self).topic == old(self).topic,
            final(self).password == old(self).password,
            final(self).limit == old(self).limit,
            final(self).members == old(self).members,
            final(self).invite_list == old(self).invite_list,
            final(self).ban_masks == old(self).ban_masks,
            final(self).except_masks == old(self).except_masks,
            final(self).invite_masks == old(self).invite_masks,
    {
        let mut kept: Vec<ChannelMode> = Vec::new();
        let mut i: usize = 0;
        while i < self.flags.len()
            invariant
                0 <= i <= self.flags@.len(),
                kept@ == without(self.flags@.subrange(0, i as int), flag),
            decreases self.flags@.len() - i,
        {
            let m = self.flags[i];
            proof {
                let pre = self.flags@.subrange(0, i as int);
                assert(self.flags@.subrange(0, i + 1) =~= pre.push(m));
                assert(pre.push(m).drop_last() =~= pre);
            }
            if m != flag {
                kept.push(m);
            }
            i = i + 1;
        }
        assert(self.flags@.subrange(0, self.flags@.len() as int) =~= self.flags@);
        proof {
            lemma_without(self.flags@, flag);
        }
        self.flags = kept;
    }

    /// Adds a flag; `false` when it was set already. The ban, exception and
    /// invitation flags are not set by hand: they follow their mask lists.
    pub fn add_flag(&mut self, flag: ChannelMode) -> (r: bool)
        requires
            old(self).wf(),
            !is_list_mode(flag),
        ensures
            final(self).wf(),
            r == !old(self).view().flags.contains(flag),
            final(self).view() == (ChannelView { flags: with(old(self).view().flags, flag), ..old(self).view() }),
            final(self).name_view() == old(self).name_view(),
            final(self).topic_view() == old(self).topic_view(),
    {
        let r = !self.has_flag(flag);
        self.push_flag(flag);
        proof {
            lemma_with(old(self).flags@, flag);
        }
        r
    }

    /// Removes a flag; `false` when it was not set. The ban, exception and
    /// invitation flags are not cleared by hand: they follow their mask lists.
    pub fn remove_flag(&mut self, flag: ChannelMode) -> (r: bool)
        requires
            old(self).wf(),
            !is_list_mode(flag),
        ensures
            final(self).wf(),
            r == old(self).view().flags.contains(flag),
            final(self).view() == (ChannelView { flags: without(old(self).view().flags, flag), ..old(self).view() }),
            final(self).name_view() == old(self).name_view(),
            final(self).topic_view() == old(self).topic_view(),
    {
        let found = self.has_flag(flag);
        self.drop_flag(flag);
        proof {
            lemma_without(old(self).flags@, flag);
        }
        found
    }

    /// Sets the flag of a mask list when the list holds a mask, clears it
    /// when the list is empty.
    fn sync_list_flag(&mut self, mode: ChannelMode)
        requires
            is_list_mode(mode),
            old(self).flags@.no_duplicates(),
        ensures
            final(self).flags@ == list_flag(old(self).flags@, mode, list_of(old(self).view(), mode)),
            final(self).flags@.no_duplicates(),
            final(self).name == old(self).name,
            final(self).topic == old(self).topic,
            final(self).password == old(self).password,
            final(self).limit == old(self).limit,
            final(self).members == old(self).members,
            final(self).invite_list == old(self).invite_list,
            final(self).ban_masks == old(self).ban_masks,
            final(self).except_masks == old(self).except_masks,
            final(self).invite_masks == old(self).invite_masks,
    {
        let filled = match mode {
            ChannelMode::BanMask => self.ban_masks.len() > 0,
            ChannelMode::ExceptionMask => self.except_masks.len() > 0,
            _ => self.invite_masks.len() > 0,
        };
        if filled {
            self.push_flag(mode);
        } else {
            self.drop_flag(mode);
        }
    }

    /// Re-establishes well-formedness after one mask list and its flag changed.
    proof fn lemma_list_changed(&self, before: &Channel, mode: ChannelMode)
        requires
            before.wf(),
            is_list_mode(mode),
            self.flags@ == list_flag(before.flags@, mode, list_of(self.view(), mode)),
            self.flags@.no_duplicates(),
            masks_view(self.ban_masks@).no_duplicates(),
            masks_view(self.except_masks@).no_duplicates(),
            masks_view(self.invite_masks@).no_duplicates(),
            self.members == before.members,
            mode != ChannelMode::BanMask ==> self.ban_masks == before.ban_masks,
            mode != ChannelMode::ExceptionMask ==> self.except_masks == before.except_masks,
            mode != ChannelMode::InvitationMask ==> self.invite_masks == before.invite_masks,
        ensures
            self.wf(),
    {
        lemma_with(before.flags@, mode);
        lemma_without(before.flags@, mode);
    }

    pub fn is_secret(&self) -> (r: bool)
        ensures
            r == self.view().flags.contains(ChannelMode::Secret),
    {
        self.has_flag(ChannelMode::Secret)
    }

    pub fn is_invite_only(&self) -> (r: bool)
        ensures
            r == self.view().flags.contains(ChannelMode::InviteOnly),
    {
        self.has_flag(ChannelMode::InviteOnly)
    }

    /// A member is invited when on the invite list or matching an invite mask.
    pub fn is_invited(&self, member: &Member) -> (r: bool)
        ensures
            r == (self.view().invited.contains(member.view().id) || matches_any(
                self.view().invite_masks,
                member.view().mask,
            )),
    {
        contains_id(&self.invite_list, member.id()) || member.mask_matches_any(&self.invite_masks)
    }

    pub fn member_count(&self) -> (r: usize)
        ensures
            r == self.view().members.len(),
    {
        self.members.len()
    }

    /// The position of the member with `id`, if any.
    fn index_of(&self, id: ClientId) -> (r: Option<usize>)
        ensures
            match r {
                Some(i) => i < self.view().members.len() && self.view().members[i as int].id == id,
                None => !ids_of(self.view().members).contains(id),
            },
    {
        let mut i: usize = 0;
        while i < self.members.len()
            invariant
                0 <= i <= self.members@.len(),
                forall|k: int| 0 <= k < i ==> (#[trigger] self.members@[k]).view().id != id,
            decreases self.members@.len() - i,
        {
            if self.members[i].id() == id {
                return Some(i);
            }
            i = i + 1;
        }
        proof {
            if ids_of(self.view().members).contains(id) {
                let k = choose|k: int| 0 <= k < ids_of(self.view().members).len() && ids_of(self.view().members)[k] == id;
                assert(self.members@[k].view().id == id);
            }
        }
        None
    }

    /// Checks whether the client `id` is voiced or an operator here.
    pub fn is_voiced(&self, id: ClientId) -> (r: bool)
        requires
            self.wf(),
        ensures
            r == is_voiced(self.view(), id),
    {
        match self.index_of(id) {
            Some(i) => {
                let r = self.members[i].has_voice();
                proof {
                    let c = self.view();
                    if is_voiced(c, id) && !r {
                        let w = choose|w: int| 0 <= w < c.members.len() && (#[trigger] c.members[w]).id == id && (
                        c.members[w].voice || c.members[w].op);
                        assert(self.members@[w].view().id == self.members@[i as int].view().id);
                    }
                }
                r
            },
            None => {
                proof {
                    let c = self.view();
                    if is_voiced(c, id) {
                        let w = choose|w: int| 0 <= w < c.members.len() && (#[trigger] c.members[w]).id == id && (
                        c.members[w].voice || c.members[w].op);
                        assert(ids_of(c.members)[w] == id);
                    }
                }
                false
            },
        }
    }

    /// The clients that receive what `sender` says to the channel.
    pub fn recipients(&self, sender: ClientId) -> (r: Vec<ClientId>)
        requires
            self.wf(),
        ensures
            r@ == delivery_targets(self.view(), sender),
    {
        let mut out: Vec<ClientId> = Vec::new();
        let restricted = self.has_flag(ChannelMode::MemberOnly) || self.has_flag(ChannelMode::Moderated);
        if restricted {
            if !self.is_member(sender) {
                return out;
            }
            if self.has_flag(ChannelMode::Moderated) && !self.is_voiced(sender) {
                return out;
            }
        }
        let ghost ids = ids_of(self.view().members);
        let mut i: usize = 0;
        assert(ids.subrange(0, 0) =~= Seq::<ClientId>::empty());
        while i < self.members.len()
            invariant
                ids == ids_of(self.view().members),
                0 <= i <= self.members@.len(),
                out@ == without(ids.subrange(0, i as int), sender),
            decreases self.members@.len() - i,
        {
            let id = self.members[i].id();
            proof {
                assert(ids.subrange(0, i + 1).drop_last() =~= ids.subrange(0, i as int));
                assert(ids.subrange(0, i + 1).last() == id);
            }
            if id != sender {
                out.push(id);
            }
            i = i + 1;
        }
        assert(ids.subrange(0, ids.len() as int) =~= ids);
        out
    }

    /// Checks whether the client `id` is a channel operator here.
    pub fn is_operator(&self, id: ClientId) -> (r: bool)
        requires
            self.wf(),
        ensures
            r == is_operator(self.view(), id),
    {
        match self.index_of(id) {
            Some(i) => {
                let r = self.members[i].is_op();
                proof {
                    let c = self.view();
                    if is_operator(c, id) && !r {
                        let w = choose|w: int| 0 <= w < c.members.len() && (#[trigger] c.members[w]).id == id && c.members[w].op;
                        assert(self.members@[w].view().id == self.members@[i as int].view().id);
                    }
                }
                r
            },
            None => {
                proof {
                    let c = self.view();
                    if is_operator(c, id) {
                        let w = choose|w: int| 0 <= w < c.members.len() && (#[trigger] c.members[w]).id == id && c.members[w].op;
                        assert(ids_of(c.members)[w] == id);
                    }
                }
                false
            },
        }
    }

    /// Checks whether the client `id` is a member.
    pub fn is_member(&self, id: ClientId) -> (r: bool)
        ensures
            r == ids_of(self.view().members).contains(id),
    {
        match self.index_of(id) {
            Some(i) => {
                assert(ids_of(self.view().members)[i as int] == id);
                true
            },
            None => false,
        }
    }

    pub fn member_with_id(&self, id: ClientId) -> (r: Option<&Member>)
        requires
            self.wf(),
        ensures
            match r {
                Some(m) => ids_of(self.view().members).contains(id) && m.view().id == id && m.wf()
                    && self.view().members.contains(m.view()),
                None => !ids_of(self.view().members).contains(id),
            },
    {
        match self.index_of(id) {
            Some(i) => {
                assert(ids_of(self.view().members)[i as int] == id);
                assert(self.view().members[i as int] == self.members@[i as int].view());
                Some(&self.members[i])
            },
            None => None,
        }
    }

    /// The member called `nick`, if any.
    pub fn member_with_nick(&self, nick: &str) -> (r: Option<&Member>)
        requires
            self.wf(),
        ensures
            match r {
                Some(m) => m.view().nick == nick@ && self.view().members.contains(m.view()) && m.wf(),
                None => forall|i: int|
                    0 <= i < self.view().members.len() ==> encode_utf8((#[trigger] self.view().members[i]).nick)
                        != nick.spec_bytes(),
            },
    {
        let mut i: usize = 0;
        while i < self.members.len()
            invariant
                self.wf(),
                0 <= i <= self.members@.len(),
                forall|k: int|
                    0 <= k < i ==> encode_utf8((#[trigger] self.view().members[k]).nick) != nick.spec_bytes(),
            decreases self.members@.len() - i,
        {
            if bytes_eq(self.members[i].nick().as_bytes(), nick.as_bytes()) {
                proof {
                    vstd::utf8::encode_utf8_decode_utf8(self.members@[i as int].view().nick);
                    vstd::utf8::encode_utf8_decode_utf8(nick@);
                    assert(self.view().members[i as int] == self.members@[i as int].view());
                }
                return Some(&self.members[i]);
            }
            i = i + 1;
        }
        None
    }

    /// The members, in the order they joined.
    pub fn members(&self) -> (r: &Vec<Member>)
        ensures
            members_view(r@) == self.view().members,
    {
        &self.members
    }

    /// Grants `flag` to the member with `id`; `false` when there is none.
    pub fn promote_member(&mut self, id: ClientId, flag: ChannelMode) -> (r: bool)
        requires
            old(self).wf(),
        ensures
            final(self).wf(),
            r == ids_of(old(self).view().members).contains(id),
            final(self).view().members.len() == old(self).view().members.len(),
            final(self).name_view() == old(self).name_view(),
    {
        match self.index_of(id) {
            Some(i) => {
                assert(ids_of(old(self).view().members)[i as int] == id);
                let mut m = self.members.remove(i);
                m.promote(flag);
                self.members.insert(i, m);
                proof {
                    assert forall|a: int, b: int| 0 <= a < b < self.members@.len() implies (
                    #[trigger] self.members@[a]).view().id != (#[trigger] self.members@[b]).view().id by {
                        assert(self.members@[a].view().id == old(self).members@[a].view().id);
                        assert(self.members@[b].view().id == old(self).members@[b].view().id);
                    }
                }
                true
            },
            None => false,
        }
    }

    /// Adds a client to the invite list after it has been invited.
    pub fn add_to_invite_list(&mut self, id: ClientId)
        ensures
            final(self).view() == (ChannelView { invited: final(self).view().invited, ..old(self).view() }),
            final(self).view().invited.contains(id),
            forall|x: ClientId| old(self).view().invited.contains(x) ==> final(self).view().invited.contains(x),
            final(self).wf() == old(self).wf(),
            final(self).name_view() == old(self).name_view(),
    {
        if !contains_id(&self.invite_list, id) {
            self.invite_list.push(id);
            assert(self.invite_list@.last() == id);
            assert forall|x: ClientId| old(self).view().invited.contains(x) implies self.view().invited.contains(x) by {
                let k = choose|k: int| 0 <= k < old(self).invite_list@.len() && old(self).invite_list@[k] == x;
                assert(self.invite_list@[k] == x);
            }
        }
    }

    /// Takes a client off the invite list.
    pub fn remove_from_invite_list(&mut self, id: ClientId)
        ensures
            final(self).view() == (ChannelView { invited: without(old(self).view().invited, id), ..old(self).view() }),
            final(self).wf() == old(self).wf(),
            final(self).name_view() == old(self).name_view(),
            final(self).topic_view() == old(self).topic_view(),
    {
        let mut kept: Vec<ClientId> = Vec::new();
        let mut i: usize = 0;
        while i < self.invite_list.len()
            invariant
                0 <= i <= self.invite_list@.len(),
                kept@ == without(self.invite_list@.subrange(0, i as int), id),
            decreases self.invite_list@.len() - i,
        {
            let x = self.invite_list[i];
            proof {
                let pre = self.invite_list@.subrange(0, i as int);
                assert(self.invite_list@.subrange(0, i + 1) =~= pre.push(x));
                assert(pre.push(x).drop_last() =~= pre);
            }
            if x != id {
                kept.push(x);
            }
            i = i + 1;
        }
        assert(self.invite_list@.subrange(0, self.invite_list@.len() as int) =~= self.invite_list@);
        self.invite_list = kept;
    }

    /// Adds a member; `false` when the client is a member already.
    pub fn add_member(&mut self, member: Member) -> (r: bool)
        requires
            old(self).wf(),
            member.wf(),
        ensures
            final(self).wf(),
            r == !ids_of(old(self).view().members).contains(member.view().id),
            final(self).view() == (ChannelView {
                members: if r {
                    old(self).view().members.push(member.view())
                } else {
                    old(self).view().members
                },
                ..old(self).view()
            }),
            final(self).name_view() == old(self).name_view(),
            final(self).topic_view() == old(self).topic_view(),
    {
        if self.is_member(member.id()) {
            false
        } else {
            let ghost mv = member.view();
            self.members.push(member);
            proof {
                assert(members_view(self.members@) =~= members_view(old(self).members@).push(mv));
                assert forall|a: int, b: int| 0 <= a < b < self.members@.len() implies (
                #[trigger] self.members@[a]).view().id != (#[trigger] self.members@[b]).view().id by {
                    if b == self.members@.len() - 1 {
                        assert(ids_of(old(self).view().members)[a] == self.members@[a].view().id);
                    }
                }
            }
            true
        }
    }

    /// Removes the member with `id`; `false` when there is none.
    pub fn remove_member(&mut self, id: ClientId) -> (r: bool)
        requires
            old(self).wf(),
        ensures
            final(self).wf(),
            r == ids_of(old(self).view().members).contains(id),
            !ids_of(final(self).view().members).contains(id),
            final(self).view().members.len() == old(self).view().members.len() - (if r {
                1int
            } else {
                0
            }),
            final(self).view() == (ChannelView { members: members_without(old(self).view().members, id), ..old(self).view() }),
            final(self).name_view() == old(self).name_view(),
            final(self).topic_view() == old(self).topic_view(),
    {
        let ghost v = self.view().members;
        match self.index_of(id) {
            Some(i) => {
                assert(ids_of(old(self).view().members)[i as int] == id);
                proof {
                    assert forall|j: int| 0 <= j < v.len() && j != i implies (#[trigger] v[j]).id != id by {
                        if j < i {
                            assert(self.members@[j].view().id != self.members@[i as int].view().id);
                        } else {
                            assert(self.members@[i as int].view().id != self.members@[j].view().id);
                        }
                    }
                    lemma_members_without_at(v, i as int, id);
                }
                let _gone = self.members.remove(i);
                assert(self.view().members =~= v.remove(i as int));
                proof {
                    assert forall|a: int, b: int| 0 <= a < b < self.members@.len() implies (
                    #[trigger] self.members@[a]).view().id != (#[trigger] self.members@[b]).view().id by {
                        let oa = if a < i { a } else { a + 1 };
                        let ob = if b < i { b } else { b + 1 };
                        assert(self.members@[a] == old(self).members@[oa]);
                        assert(self.members@[b] == old(self).members@[ob]);
                    }
                    if ids_of(self.view().members).contains(id) {
                        let k = choose|k: int| 0 <= k < ids_of(self.view().members).len() && ids_of(self.view().members)[k] == id;
                        let ok = if k < i { k } else { k + 1 };
                        assert(self.members@[k] == old(self).members@[ok]);
                        assert(old(self).members@[i as int].view().id == id);
                    }
                }
                true
            },
            None => {
                proof {
                    lemma_members_without_absent(v, id);
                }
                false
            },
        }
    }

    /// Adds a ban mask.
    pub fn add_ban_mask(&mut self, mask: HostMask)
        requires
            old(self).wf(),
        ensures
            final(self).wf(),
            final(self).view() == (ChannelView {
                bans: with(old(self).view().bans, mask@),
                flags: list_flag(old(self).view().flags, ChannelMode::BanMask, with(old(self).view().bans, mask@)),
                ..old(self).view()
            }),
            final(self).name_view() == old(self).name_view(),
            final(self).topic_view() == old(self).topic_view(),
    {
        insert_mask(&mut self.ban_masks, mask);
        self.sync_list_flag(ChannelMode::BanMask);
        proof {
            self.lemma_list_changed(old(self), ChannelMode::BanMask);
        }
    }

    /// Removes a ban mask.
    pub fn remove_ban_mask(&mut self, mask: HostMask)
        requires
            old(self).wf(),
        ensures
            final(self).wf(),
            final(self).view() == (ChannelView {
                bans: without(old(self).view().bans, mask@),
                flags: list_flag(old(self).view().flags, ChannelMode::BanMask, without(old(self).view().bans, mask@)),
                ..old(self).view()
            }),
            final(self).name_view() == old(self).name_view(),
            final(self).topic_view() == old(self).topic_view(),
    {
        remove_mask(&mut self.ban_masks, &mask);
        self.sync_list_flag(ChannelMode::BanMask);
        proof {
            self.lemma_list_changed(old(self), ChannelMode::BanMask);
        }
    }

    /// Adds an exception mask.
    pub fn add_except_mask(&mut self, mask: HostMask)
        requires
            old(self).wf(),
        ensures
            final(self).wf(),
            final(self).view() == (ChannelView {
                excepts: with(old(self).view().excepts, mask@),
                flags: list_flag(old(self).view().flags, ChannelMode::ExceptionMask, with(old(self).view().excepts, mask@)),
                ..old(self).view()
            }),
            final(self).name_view() == old(self).name_view(),
            final(self).topic_view() == old(self).topic_view(),
    {
        insert_mask(&mut self.except_masks, mask);
        self.sync_list_flag(ChannelMode::ExceptionMask);
        proof {
            self.lemma_list_changed(old(self), ChannelMode::ExceptionMask);
        }
    }

    /// Removes an exception mask.
    pub fn remove_except_mask(&mut self, mask: HostMask)
        requires
            old(self).wf(),
        ensures
            final(self).wf(),
            final(self).view() == (ChannelView {
                excepts: without(old(self).view().excepts, mask@),
                flags: list_flag(old(self).view().flags, ChannelMode::ExceptionMask, without(old(self).view().excepts, mask@)),
                ..old(self).view()
            }),
            final(self).name_view() == old(self).name_view(),
            final(self).topic_view() == old(self).topic_view(),
    {
        remove_mask(&mut self.except_masks, &mask);
        self.sync_list_flag(ChannelMode::ExceptionMask);
        proof {
            self.lemma_list_changed(old(self), ChannelMode::ExceptionMask);
        }
    }

    /// Adds an invitation mask.
    pub fn add_invite_mask(&mut self, mask: HostMask)
        requires
            old(self).wf(),
        ensures
            final(self).wf(),
            final(self).view() == (ChannelView {
                invite_masks: with(old(self).view().invite_masks, mask@),
                flags: list_flag(old(self).view().flags, ChannelMode::InvitationMask, with(old(self).view().invite_masks, mask@)),
                ..old(self).view()
            }),
            final(self).name_view() == old(self).name_view(),
            final(self).topic_view() == old(self).topic_view(),
    {
        insert_mask(&mut self.invite_masks, mask);
        self.sync_list_flag(ChannelMode::InvitationMask);
        proof {
            self.lemma_list_changed(old(self), ChannelMode::InvitationMask);
        }
    }

    /// Removes an invitation mask.
    pub fn remove_invite_mask(&mut self, mask: HostMask)
        requires
            old(self).wf(),
        ensures
            final(self).wf(),
            final(self).view() == (ChannelView {
                invite_masks: without(old(self).view().invite_masks, mask@),
                flags: list_flag(old(self).view().flags, ChannelMode::InvitationMask, without(old(self).view().invite_masks, mask@)),
                ..old(self).view()
            }),
            final(self).name_view() == old(self).name_view(),
            final(self).topic_view() == old(self).topic_view(),
    {
        remove_mask(&mut self.invite_masks, &mask);
        self.sync_list_flag(ChannelMode::InvitationMask);
        proof {
            self.lemma_list_changed(old(self), ChannelMode::InvitationMask);
        }
    }

    pub fn ban_masks(&self) -> (r: &Vec<HostMask>)
        ensures
            masks_view(r@) == self.view().bans,
    {
        &self.ban_masks
    }

    pub fn except_masks(&self) -> (r: &Vec<HostMask>)
        ensures
            masks_view(r@) == self.view().excepts,
    {
        &self.except_masks
    }

    pub fn invite_masks(&self) -> (r: &Vec<HostMask>)
        ensures
            masks_view(r@) == self.view().invite_masks,
    {
        &self.invite_masks
    }

    /// Sets or clears a privilege of every member called `nick`; whether
    /// there was one.
    fn set_privilege(&mut self, nick: &[u8], mode: ChannelMode, on: bool) -> (r: bool)
        requires
            old(self).wf(),
            mode == ChannelMode::OperatorPrivilege || mode == ChannelMode::VoicePrivilege,
        ensures
            final(self).wf(),
            r == has_nick(old(self).view().members, nick@),
            final(self).view() == (ChannelView {
                members: with_privilege(old(self).view().members, nick@, mode, on),
                ..old(self).view()
            }),
            final(self).name_view() == old(self).name_view(),
            final(self).topic_view() == old(self).topic_view(),
    {
        let ghost before = old(self).view().members;
        let mut found = false;
        let mut i: usize = 0;
        while i < self.members.len()
            invariant
                mode == ChannelMode::OperatorPrivilege || mode == ChannelMode::VoicePrivilege,
                self.wf(),
                self.members@.len() == before.len(),
                0 <= i <= before.len(),
                self.name_view() == old(self).name_view(),
                self.topic_view() == old(self).topic_view(),
                self.view() == (ChannelView { members: self.view().members, ..old(self).view() }),
                forall|k: int| 0 <= k < i ==> #[trigger] self.view().members[k] == with_privilege(before, nick@, mode, on)[k],
                forall|k: int| i <= k < before.len() ==> #[trigger] self.view().members[k] == before[k],
                found == exists|k: int| 0 <= k < i && encode_utf8(#[trigger] before[k].nick) == nick@,
            decreases before.len() - i,
        {
            let matches = bytes_eq(self.members[i].nick().as_bytes(), nick);
            let ghost mid = self.view().members;
            assert(mid[i as int] == before[i as int]);
            assert(matches == (encode_utf8(before[i as int].nick) == nick@));
            if matches {
                let ghost v = self.view();
                let mut m = self.members.remove(i);
                let ghost old_m = m.view();
                assert(old_m == before[i as int]);
                if on {
                    m.promote(mode);
                } else {
                    m.demote(mode);
                }
                assert(m.view() == (MemberView {
                    op: if mode == ChannelMode::OperatorPrivilege { on } else { old_m.op },
                    voice: if mode == ChannelMode::VoicePrivilege { on } else { old_m.voice },
                    ..old_m
                }));
                assert(m.view() == with_privilege(before, nick@, mode, on)[i as int]);
                self.members.insert(i, m);
                found = true;
                proof {
                    assert forall|a: int, b: int| 0 <= a < b < self.members@.len() implies (
                    #[trigger] self.members@[a]).view().id != (#[trigger] self.members@[b]).view().id by {
                        assert(self.members@[a].view().id == v.members[a].id);
                        assert(self.members@[b].view().id == v.members[b].id);
                    }
                    assert(self.view().members =~= v.members.update(i as int, self.members@[i as int].view()));
                }
            }
            proof {
                assert(self.view().members[i as int] == with_privilege(before, nick@, mode, on)[i as int]);
                if matches {
                    assert(encode_utf8(before[i as int].nick) == nick@);
                } else {
                    assert(self.view().members == mid);
                    if exists|k: int| 0 <= k < i + 1 && encode_utf8(#[trigger] before[k].nick) == nick@ {
                        let k = choose|k: int| 0 <= k < i + 1 && encode_utf8(#[trigger] before[k].nick) == nick@;
                        assert(k != i);
                    }
                }
            }
            i = i + 1;
        }
        assert(self.view().members =~= with_privilege(before, nick@, mode, on));
        found
    }

    /// Applies one mode change (see `mode_applied`) and says what to
    /// announce (see `mode_outcome`); a mask change without a mask lists
    /// the masks instead.
    pub fn apply_mode(&mut self, action: Action, mode: ChannelMode, param: Option<&[u8]>) -> (r: ModeOutcome)
        requires
            old(self).wf(),
        ensures
            final(self).wf(),
            final(self).view() == mode_applied(old(self).view(), action, mode, opt_view(param)),
            final(self).name_view() == old(self).name_view(),
            final(self).topic_view() == old(self).topic_view(),
            match r {
                ModeOutcome::Changed(p) => mode_outcome(old(self).view(), action, mode, opt_view(param)) == Some(
                    opt_vec_view(p),
                ),
                ModeOutcome::Unchanged => mode_outcome(old(self).view(), action, mode, opt_view(param)) is None && !(
                (mode == ChannelMode::BanMask || mode == ChannelMode::ExceptionMask || mode == ChannelMode::InvitationMask)
                    && param is None),
                ModeOutcome::Listed => (mode == ChannelMode::BanMask || mode == ChannelMode::ExceptionMask || mode
                    == ChannelMode::InvitationMask) && param is None,
            },
    {
        match mode {
            ChannelMode::AnonChannel | ChannelMode::InviteOnly | ChannelMode::Moderated | ChannelMode::MemberOnly
            | ChannelMode::Quiet | ChannelMode::Private | ChannelMode::Secret | ChannelMode::ReOpFlag
            | ChannelMode::TopicProtect => match action {
                Action::Add => {
                    self.add_flag(mode);
                    ModeOutcome::Changed(None)
                },
                Action::Remove => {
                    self.remove_flag(mode);
                    ModeOutcome::Changed(None)
                },
                Action::Show => ModeOutcome::Unchanged,
            },
            ChannelMode::OperatorPrivilege | ChannelMode::VoicePrivilege => match (action, param) {
                (Action::Add, Some(nick)) | (Action::Remove, Some(nick)) => {
                    let on = action == Action::Add;
                    if self.set_privilege(nick, mode, on) {
                        ModeOutcome::Changed(Some(vstd::slice::slice_to_vec(nick)))
                    } else {
                        ModeOutcome::Unchanged
                    }
                },
                _ => ModeOutcome::Unchanged,
            },
            ChannelMode::ChannelKey => match (action, param) {
                (Action::Add, Some(key)) => {
                    self.set_password(Some(vstd::slice::slice_to_vec(key)));
                    ModeOutcome::Changed(None)
                },
                (Action::Remove, _) => {
                    self.set_password(None);
                    ModeOutcome::Changed(None)
                },
                _ => ModeOutcome::Unchanged,
            },
            ChannelMode::UserLimit => match (action, param) {
                (Action::Add, Some(text)) => match parse_decimal(text) {
                    Some(n) => {
                        self.set_limit(Some(n));
                        ModeOutcome::Changed(Some(vstd::slice::slice_to_vec(text)))
                    },
                    None => ModeOutcome::Unchanged,
                },
                (Action::Remove, _) => {
                    self.set_limit(None);
                    ModeOutcome::Changed(None)
                },
                _ => ModeOutcome::Unchanged,
            },
            ChannelMode::BanMask | ChannelMode::ExceptionMask | ChannelMode::InvitationMask => match param {
                Some(text) => {
                    let mask = HostMask::new(lossy_string(text));
                    match (mode, action) {
                        (ChannelMode::BanMask, Action::Add) => self.add_ban_mask(mask),
                        (ChannelMode::BanMask, Action::Remove) => self.remove_ban_mask(mask),
                        (ChannelMode::ExceptionMask, Action::Add) => self.add_except_mask(mask),
                        (ChannelMode::ExceptionMask, Action::Remove) => self.remove_except_mask(mask),
                        (ChannelMode::InvitationMask, Action::Add) => self.add_invite_mask(mask),
                        (ChannelMode::InvitationMask, Action::Remove) => self.remove_invite_mask(mask),
                        _ => {},
                    }
                    ModeOutcome::Unchanged
                },
                None => ModeOutcome::Listed,
            },
            ChannelMode::ChannelCreator => ModeOutcome::Unchanged,
        }
    }

    /// Applies one posted operation.
    pub fn apply(&mut self, op: ChannelOp) -> (r: OpResult)
        requires
            old(self).wf(),
            op matches ChannelOp::Join(m, _) ==> m.wf(),
        ensures
            final(self).wf(),
            final(self).view() == op_applied(old(self).view(), op),
            final(self).name_view() == old(self).name_view(),
    {
        match op {
            ChannelOp::Join(member, key) => {
                let r = match &key {
                    Some(k) => self.join(member, Some(k.as_slice())),
                    None => self.join(member, None),
                };
                OpResult::Joined(r)
            },
            ChannelOp::Part(id) => OpResult::Parted(self.remove_member(id)),
            ChannelOp::Mode(action, mode, param) => {
                let r = match &param {
                    Some(p) => self.apply_mode(action, mode, Some(p.as_slice())),
                    None => self.apply_mode(action, mode, None),
                };
                OpResult::Moded(r)
            },
            ChannelOp::Invite(id) => {
                self.invite(id);
                OpResult::Invited
            },
        }
    }

    /// Applies posted operations one at a time, first posted first.
    pub fn apply_all(&mut self, ops: Vec<ChannelOp>) -> (r: Vec<OpResult>)
        requires
            old(self).wf(),
            forall|i: int| 0 <= i < ops@.len() ==> (#[trigger] ops@[i] matches ChannelOp::Join(m, _) ==> m.wf()),
        ensures
            final(self).wf(),
            r@.len() == ops@.len(),
            final(self).view() == ops_applied(old(self).view(), ops@),
            final(self).name_view() == old(self).name_view(),
    {
        let ghost all = ops@;
        let mut ops = ops;
        let mut results: Vec<OpResult> = Vec::new();
        assert(all.subrange(0, 0) =~= Seq::<ChannelOp>::empty());
        while ops.len() > 0
            invariant
                self.wf(),
                self.name_view() == old(self).name_view(),
                ops@.len() <= all.len(),
                results@.len() + ops@.len() == all.len(),
                ops@ == all.subrange(all.len() - ops@.len(), all.len() as int),
                self.view() == ops_applied(old(self).view(), all.subrange(0, all.len() - ops@.len())),
                forall|i: int| 0 <= i < all.len() ==> (#[trigger] all[i] matches ChannelOp::Join(m, _) ==> m.wf()),
            decreases ops@.len(),
        {
            let ghost done = all.len() - ops@.len();
            let op = ops.remove(0);
            proof {
                assert(op == all[done]);
                assert(all.subrange(0, done + 1).drop_last() =~= all.subrange(0, done));
                assert(all.subrange(0, done + 1).last() == all[done]);
                assert(ops@ =~= all.subrange(done + 1, all.len() as int));
            }
            results.push(self.apply(op));
        }
        assert(all.subrange(0, all.len() as int) =~= all);
        results
    }

    /// Puts a client on the invite list (once).
    pub fn invite(&mut self, id: ClientId)
        ensures
            final(self).view() == (ChannelView { invited: with(old(self).view().invited, id), ..old(self).view() }),
            final(self).wf() == old(self).wf(),
            final(self).name_view() == old(self).name_view(),
    {
        if !contains_id(&self.invite_list, id) {
            self.invite_list.push(id);
        }
    }

    /// The letters of the channel's flags.
    pub fn flags(&self) -> (r: Vec<u8>)
        ensures
            r@ == Seq::new(self.view().flags.len(), |i: int| self.view().flags[i].spec_letter()),
    {
        let mut out: Vec<u8> = Vec::new();
        let mut i: usize = 0;
        while i < self.flags.len()
            invariant
                0 <= i <= self.flags@.len(),
                out@ == Seq::new(i as nat, |k: int| self.flags@[k].spec_letter()),
            decreases self.flags@.len() - i,
        {
            out.push(self.flags[i].letter());
            assert(out@ =~= Seq::new((i + 1) as nat, |k: int| self.flags@[k].spec_letter()));
            i = i + 1;
        }
        out
    }

    /// Handles a JOIN of `member` with the key `password`, in this order of
    /// checks: channel key, membership, ban (unless excepted), invite-only,
    /// user limit. The first member becomes channel creator and operator.
    pub fn join(&mut self, member: Member, password: Option<&[u8]>) -> (r: Result<bool, ResponseCode>)
        requires
            old(self).wf(),
            member.wf(),
        ensures
            final(self).wf(),
            r == join_result(old(self).view(), member.view(), opt_view(password)),
            final(self).view() == after_join(old(self).view(), member.view(), opt_view(password)),
            final(self).name_view() == old(self).name_view(),
            final(self).topic_view() == old(self).topic_view(),
    {
        let ghost c = self.view();
        let ghost m = member.view();
        let key_ok = match &self.password {
            Some(key) => match password {
                Some(given) => bytes_eq(given, key.as_slice()),
                None => false,
            },
            None => true,
        };
        if !key_ok {
            return Err(ResponseCode::ERR_BADCHANNELKEY);
        }
        if self.is_member(member.id()) {
            return Ok(false);
        }
        if member.mask_matches_any(&self.ban_masks) && !member.mask_matches_any(&self.except_masks) {
            return Err(ResponseCode::ERR_BANNEDFROMCHAN);
        }
        if self.is_invite_only() && !self.is_invited(&member) {
            return Err(ResponseCode::ERR_INVITEONLYCHAN);
        }
        if let Some(limit) = self.limit {
            if self.members.len() >= limit {
                return Err(ResponseCode::ERR_CHANNELISFULL);
            }
        }
        let mut member = member;
        if self.members.len() == 0 {
            member.promote(ChannelMode::ChannelCreator);
            member.promote(ChannelMode::OperatorPrivilege);
        }
        assert(member.view() == entering(c, m));
        self.remove_from_invite_list(member.id());
        let added = self.add_member(member);
        assert(added);
        Ok(true)
    }
}

pub open spec fn opt_vec_view(p: Option<Vec<u8>>) -> Option<Seq<u8>> {
    match p {
        Some(v) => Some(v@),
        None => None,
    }
}

pub open spec fn opt_view(p: Option<&[u8]>) -> Option<Seq<u8>> {
    match p {
        Some(s) => Some(s@),
        None => None,
    }
}

/// Whether `ids` holds `id`.
fn contains_id(ids: &Vec<ClientId>, id: ClientId) -> (r: bool)
    ensures
        r == ids@.contains(id),
{
    let mut i: usize = 0;
    while i < ids.len()
        invariant
            0 <= i <= ids@.len(),
            forall|k: int| 0 <= k < i ==> ids@[k] != id,
        decreases ids@.len() - i,
    {
        if ids[i] == id {
            return true;
        }
        i = i + 1;
    }
    false
}

/// Two masks with the same text.
fn same_mask(a: &HostMask, b: &HostMask) -> (r: bool)
    ensures
        r == (a@ == b@),
{
    let eq = bytes_eq(a.as_str().as_bytes(), b.as_str().as_bytes());
    proof {
        vstd::utf8::encode_utf8_decode_utf8(a@);
        vstd::utf8::encode_utf8_decode_utf8(b@);
    }
    eq
}

/// Adds `mask` to `masks` unless a mask with its text is there.
fn insert_mask(masks: &mut Vec<HostMask>, mask: HostMask)
    ensures
        masks_view(final(masks)@) == with(masks_view(old(masks)@), mask@),
        masks_view(old(masks)@).no_duplicates() ==> masks_view(final(masks)@).no_duplicates(),
{
    let mut i: usize = 0;
    while i < masks.len()
        invariant
            0 <= i <= masks@.len(),
            masks@ == old(masks)@,
            forall|k: int| 0 <= k < i ==> masks_view(masks@)[k] != mask@,
        decreases masks@.len() - i,
    {
        if same_mask(&masks[i], &mask) {
            assert(masks_view(masks@)[i as int] == mask@);
            assert(masks_view(masks@).contains(mask@));
            return;
        }
        i = i + 1;
    }
    let ghost v = mask@;
    assert(!masks_view(masks@).contains(v));
    masks.push(mask);
    assert(masks_view(masks@) =~= masks_view(old(masks)@).push(v));
    proof {
        lemma_with(masks_view(old(masks)@), v);
    }
}

/// Removes every mask with the text of `mask` from `masks`.
fn remove_mask(masks: &mut Vec<HostMask>, mask: &HostMask)
    ensures
        masks_view(final(masks)@) == without(masks_view(old(masks)@), mask@),
        masks_view(old(masks)@).no_duplicates() ==> masks_view(final(masks)@).no_duplicates(),
{
    let ghost all = masks_view(masks@);
    let mut kept: Vec<HostMask> = Vec::new();
    assert(all.subrange(0, 0) =~= Seq::<Seq<char>>::empty());
    assert(masks_view(kept@) =~= Seq::<Seq<char>>::empty());
    while masks.len() > 0
        invariant
            masks@.len() <= all.len(),
            forall|k: int| 0 <= k < masks@.len() ==> masks_view(masks@)[k] == all[all.len() - masks@.len() + k],
            masks_view(kept@) == without(all.subrange(0, all.len() - masks@.len()), mask@),
        decreases masks@.len(),
    {
        let ghost n = masks@.len() as int;
        let ghost done = all.len() - n;
        let ghost before = masks@;
        let m = masks.remove(0);
        let ghost mv = m@;
        proof {
            assert(mv == masks_view(before)[0]);
            assert(mv == all[done]);
            assert(all.subrange(0, done + 1) =~= all.subrange(0, done).push(mv));
            assert(all.subrange(0, done + 1).drop_last() =~= all.subrange(0, done));
            assert forall|k: int| 0 <= k < masks@.len() implies masks_view(masks@)[k] == all[all.len() - masks@.len() + k] by {
                assert(masks@[k] == before[k + 1]);
                assert(masks_view(before)[k + 1] == all[all.len() - n + k + 1]);
            }
        }
        let same = same_mask(&m, mask);
        if !same {
            let ghost kv = masks_view(kept@);
            kept.push(m);
            assert(masks_view(kept@) =~= kv.push(mv));
        }
    }
    assert(all.subrange(0, all.len() as int) =~= all);
    proof {
        lemma_without(all, mask@);
    }
    *masks = kept;
}

/// What a sequence holds after a push.
pub proof fn lemma_push_contains<A>(s: Seq<A>, x: A)
    ensures
        forall|y: A| #[trigger] s.push(x).contains(y) <==> s.contains(y) || y == x,
        s.push(x).to_set() == s.to_set().insert(x),
{
    assert forall|y: A| #[trigger] s.push(x).contains(y) <==> s.contains(y) || y == x by {
        if s.contains(y) {
            let k = choose|k: int| 0 <= k < s.len() && s[k] == y;
            assert(s.push(x)[k] == y);
        }
        if y == x {
            assert(s.push(x)[s.len() as int] == x);
        }
        if s.push(x).contains(y) && y != x {
            let k = choose|k: int| 0 <= k < s.push(x).len() && s.push(x)[k] == y;
            assert(s[k] == y);
        }
    }
    assert(s.push(x).to_set() =~= s.to_set().insert(x));
}

/// The on/off channel flags.
pub open spec fn is_toggle(mode: ChannelMode) -> bool {
    match mode {
        ChannelMode::AnonChannel | ChannelMode::InviteOnly | ChannelMode::Moderated | ChannelMode::MemberOnly
        | ChannelMode::Quiet | ChannelMode::Private | ChannelMode::Secret | ChannelMode::ReOpFlag
        | ChannelMode::TopicProtect => true,
        _ => false,
    }
}

/// Members whose nickname is `nick` get operator (or voice) set to `on`.
pub open spec fn with_privilege(members: Seq<MemberView>, nick: Seq<u8>, mode: ChannelMode, on: bool) -> Seq<MemberView> {
    Seq::new(
        members.len(),
        |i: int|
            if encode_utf8(members[i].nick) == nick {
                MemberView {
                    op: if mode == ChannelMode::OperatorPrivilege {
                        on
                    } else {
                        members[i].op
                    },
                    voice: if mode == ChannelMode::VoicePrivilege {
                        on
                    } else {
                        members[i].voice
                    },
                    ..members[i]
                }
            } else {
                members[i]
            },
    )
}

/// Some member's nickname is `nick`.
pub open spec fn has_nick(members: Seq<MemberView>, nick: Seq<u8>) -> bool {
    exists|i: int| 0 <= i < members.len() && encode_utf8(#[trigger] members[i].nick) == nick
}

/// A mask list after adding or removing `mask`.
pub open spec fn mask_list_applied(list: Seq<Seq<char>>, action: Action, mask: Seq<char>) -> Seq<Seq<char>> {
    match action {
        Action::Add => with(list, mask),
        Action::Remove => without(list, mask),
        Action::Show => list,
    }
}

/// The channel after one mode change. Flags are set or cleared; operator
/// and voice go to the members with the given nickname; the key is set
/// (with a parameter) or cleared; the limit is set to a decimal parameter
/// or cleared; a ban, exception or invitation mask is added or removed.
pub open spec fn mode_applied(c: ChannelView, action: Action, mode: ChannelMode, param: Option<Seq<u8>>) -> ChannelView {
    if is_toggle(mode) {
        match action {
            Action::Add => ChannelView { flags: with(c.flags, mode), ..c },
            Action::Remove => ChannelView { flags: without(c.flags, mode), ..c },
            Action::Show => c,
        }
    } else if mode == ChannelMode::OperatorPrivilege || mode == ChannelMode::VoicePrivilege {
        match (action, param) {
            (Action::Add, Some(n)) => ChannelView { members: with_privilege(c.members, n, mode, true), ..c },
            (Action::Remove, Some(n)) => ChannelView { members: with_privilege(c.members, n, mode, false), ..c },
            _ => c,
        }
    } else if mode == ChannelMode::ChannelKey {
        match (action, param) {
            (Action::Add, Some(k)) => ChannelView { password: Some(k), ..c },
            (Action::Remove, _) => ChannelView { password: None, ..c },
            _ => c,
        }
    } else if mode == ChannelMode::UserLimit {
        match (action, param) {
            (Action::Add, Some(l)) => match decimal_number(l) {
                Some(n) => ChannelView { limit: Some(n as usize), ..c },
                None => c,
            },
            (Action::Remove, _) => ChannelView { limit: None, ..c },
            _ => c,
        }
    } else if is_list_mode(mode) {
        match (action, param) {
            (Action::Show, _) | (_, None) => c,
            (_, Some(m)) => {
                let list = mask_list_applied(list_of(c, mode), action, lossy_text(m));
                let flags = list_flag(c.flags, mode, list);
                if mode == ChannelMode::BanMask {
                    ChannelView { bans: list, flags, ..c }
                } else if mode == ChannelMode::ExceptionMask {
                    ChannelView { excepts: list, flags, ..c }
                } else {
                    ChannelView { invite_masks: list, flags, ..c }
                }
            },
        }
    } else {
        c
    }
}

/// What a mode change calls for besides the state change.
#[derive(Debug, PartialEq, Eq)]
pub enum ModeOutcome {
    /// Nothing to announce.
    Unchanged,
    /// Announce the change to the members, with this parameter if any.
    Changed(Option<Vec<u8>>),
    /// Send the requested mask list.
    Listed,
}

/// The announcement a mode change calls for.
pub open spec fn mode_outcome(c: ChannelView, action: Action, mode: ChannelMode, param: Option<Seq<u8>>) -> Option<
    Option<Seq<u8>>,
> {
    if is_toggle(mode) {
        if action == Action::Show {
            None
        } else {
            Some(None)
        }
    } else if mode == ChannelMode::OperatorPrivilege || mode == ChannelMode::VoicePrivilege {
        match param {
            Some(n) => if action != Action::Show && has_nick(c.members, n) {
                Some(Some(n))
            } else {
                None
            },
            None => None,
        }
    } else if mode == ChannelMode::ChannelKey {
        if (action == Action::Add && param is Some) || action == Action::Remove {
            Some(None)
        } else {
            None
        }
    } else if mode == ChannelMode::UserLimit {
        match (action, param) {
            (Action::Add, Some(l)) => if decimal_number(l) is Some {
                Some(Some(l))
            } else {
                None
            },
            (Action::Remove, _) => Some(None),
            _ => None,
        }
    } else {
        None
    }
}

/// An operation posted to a channel's owner, applied in posting order.
#[derive(Debug)]
pub enum ChannelOp {
    /// A client joins, with the key it gave.
    Join(Member, Option<Vec<u8>>),
    /// A client leaves.
    Part(ClientId),
    /// A mode change.
    Mode(Action, ChannelMode, Option<Vec<u8>>),
    /// A client is put on the invite list.
    Invite(ClientId),
}

/// What an operation came to.
#[derive(Debug)]
pub enum OpResult {
    Joined(Result<bool, ResponseCode>),
    Parted(bool),
    Moded(ModeOutcome),
    Invited,
}

/// The channel after one operation.
pub open spec fn op_applied(c: ChannelView, op: ChannelOp) -> ChannelView {
    match op {
        ChannelOp::Join(m, key) => after_join(c, m.view(), opt_vec_view(key)),
        ChannelOp::Part(id) => ChannelView { members: members_without(c.members, id), ..c },
        ChannelOp::Mode(a, m, p) => mode_applied(c, a, m, opt_vec_view(p)),
        ChannelOp::Invite(id) => ChannelView { invited: with(c.invited, id), ..c },
    }
}

/// The channel after operations applied one after another, in order.
pub open spec fn ops_applied(c: ChannelView, ops: Seq<ChannelOp>) -> ChannelView
    decreases ops.len(),
{
    if ops.len() == 0 {
        c
    } else {
        op_applied(ops_applied(c, ops.drop_last()), ops.last())
    }
}

/// `ms` without the member with id `id`.
pub open spec fn members_without(ms: Seq<MemberView>, id: ClientId) -> Seq<MemberView>
    decreases ms.len(),
{
    if ms.len() == 0 {
        ms
    } else if ms.last().id == id {
        members_without(ms.drop_last(), id)
    } else {
        members_without(ms.drop_last(), id).push(ms.last())
    }
}

proof fn lemma_members_without_absent(ms: Seq<MemberView>, id: ClientId)
    requires
        !ids_of(ms).contains(id),
    ensures
        members_without(ms, id) == ms,
    decreases ms.len(),
{
    if ms.len() > 0 {
        let prev = ms.drop_last();
        assert(ids_of(ms)[ms.len() - 1] == ms.last().id);
        if ids_of(prev).contains(id) {
            let k = choose|k: int| 0 <= k < ids_of(prev).len() && ids_of(prev)[k] == id;
            assert(ids_of(ms)[k] == id);
        }
        lemma_members_without_absent(prev, id);
        assert(prev.push(ms.last()) =~= ms);
    }
}

proof fn lemma_members_without_at(ms: Seq<MemberView>, i: int, id: ClientId)
    requires
        0 <= i < ms.len(),
        ms[i].id == id,
        forall|j: int| 0 <= j < ms.len() && j != i ==> (#[trigger] ms[j]).id != id,
    ensures
        members_without(ms, id) == ms.remove(i),
    decreases ms.len(),
{
    let prev = ms.drop_last();
    if i == ms.len() - 1 {
        assert(!ids_of(prev).contains(id)) by {
            if ids_of(prev).contains(id) {
                let k = choose|k: int| 0 <= k < ids_of(prev).len() && ids_of(prev)[k] == id;
                assert(ms[k].id == id);
            }
        }
        lemma_members_without_absent(prev, id);
        assert(ms.remove(i) =~= prev);
    } else {
        assert forall|j: int| 0 <= j < prev.len() && j != i implies (#[trigger] prev[j]).id != id by {
            assert(prev[j] == ms[j]);
        }
        lemma_members_without_at(prev, i, id);
        assert(ms.last().id != id) by {
            assert(ms[ms.len() - 1].id != id);
        }
        assert(prev.remove(i).push(ms.last()) =~= ms.remove(i));
    }
}

/// Joins applied one after another, in the order they were posted.
pub open spec fn join_all(c: ChannelView, ms: Seq<MemberView>) -> ChannelView
    decreases ms.len(),
{
    if ms.len() == 0 {
        c
    } else {
        after_join(join_all(c, ms.drop_last()), ms.last(), None)
    }
}

/// A channel that lets everybody in: no key, no bans, not invite-only, no limit.
pub open spec fn open_channel(c: ChannelView) -> bool {
    c.password is None && c.bans.len() == 0 && !c.flags.contains(ChannelMode::InviteOnly) && c.limit is None
}

/// Joins of distinct clients to an empty open channel, applied in order,
/// lose none: the channel ends with exactly those members, in that order,
/// and the first to arrive is channel creator and operator.
pub proof fn lemma_serial_joins(c: ChannelView, ms: Seq<MemberView>)
    requires
        open_channel(c),
        c.members.len() == 0,
        forall|i: int, j: int| 0 <= i < j < ms.len() ==> (#[trigger] ms[i]).id != (#[trigger] ms[j]).id,
    ensures
        join_all(c, ms).members.len() == ms.len(),
        ids_of(join_all(c, ms).members) == ids_of(ms),
        open_channel(join_all(c, ms)),
        ms.len() > 0 ==> join_all(c, ms).members[0].op && join_all(c, ms).members[0].creator,
    decreases ms.len(),
{
    if ms.len() > 0 {
        let prev = ms.drop_last();
        assert forall|i: int, j: int| 0 <= i < j < prev.len() implies (#[trigger] prev[i]).id != (
        #[trigger] prev[j]).id by {
            assert(prev[i] == ms[i] && prev[j] == ms[j]);
        }
        lemma_serial_joins(c, prev);
        let d = join_all(c, prev);
        let m = ms.last();
        assert(!ids_of(d.members).contains(m.id)) by {
            if ids_of(d.members).contains(m.id) {
                let k = choose|k: int| 0 <= k < ids_of(d.members).len() && ids_of(d.members)[k] == m.id;
                assert(ids_of(prev)[k] == m.id);
                assert(ms[k].id != ms[ms.len() - 1].id);
            }
        }
        assert(!matches_any(d.bans, m.mask));
        assert(join_result(d, m, None) == Ok::<bool, ResponseCode>(true));
        assert(ids_of(join_all(c, ms).members) =~= ids_of(ms)) by {
            assert(ids_of(ms) =~= ids_of(prev).push(m.id));
            assert(ids_of(d.members.push(entering(d, m))) =~= ids_of(d.members).push(m.id));
        }
        if prev.len() > 0 {
            assert(join_all(c, ms).members[0] == d.members[0]);
        }
    }
}

/// The member of a posted join without a key.
pub open spec fn joining_member(op: ChannelOp) -> MemberView {
    match op {
        ChannelOp::Join(m, _) => m.view(),
        _ => arbitrary(),
    }
}

/// Applying posted keyless joins is joining their members in order.
proof fn lemma_ops_are_joins(c: ChannelView, ops: Seq<ChannelOp>)
    requires
        forall|i: int| 0 <= i < ops.len() ==> (#[trigger] ops[i] matches ChannelOp::Join(_, None)),
    ensures
        ops_applied(c, ops) == join_all(c, Seq::new(ops.len(), |i: int| joining_member(ops[i]))),
    decreases ops.len(),
{
    if ops.len() > 0 {
        let prev = ops.drop_last();
        assert forall|i: int| 0 <= i < prev.len() implies (#[trigger] prev[i] matches ChannelOp::Join(_, None)) by {
            assert(prev[i] == ops[i]);
        }
        lemma_ops_are_joins(c, prev);
        let ms = Seq::new(ops.len(), |i: int| joining_member(ops[i]));
        assert(ms.drop_last() =~= Seq::new(prev.len(), |i: int| joining_member(prev[i])));
        assert(ops[ops.len() - 1] matches ChannelOp::Join(_, None));
    }
}

/// Join operations of distinct clients, posted to an empty open channel and
/// applied one at a time in posting order, lose no update: the channel ends
/// with one member per operation, in posting order, and the first to arrive
/// is channel creator and operator.
pub proof fn lemma_posted_joins(c: ChannelView, ops: Seq<ChannelOp>)
    requires
        open_channel(c),
        c.members.len() == 0,
        forall|i: int| 0 <= i < ops.len() ==> (#[trigger] ops[i] matches ChannelOp::Join(_, None)),
        forall|i: int, j: int|
            0 <= i < j < ops.len() ==> joining_member(#[trigger] ops[i]).id != joining_member(#[trigger] ops[j]).id,
    ensures
        ops_applied(c, ops).members.len() == ops.len(),
        ids_of(ops_applied(c, ops).members) == Seq::new(ops.len(), |i: int| joining_member(ops[i]).id),
        ops.len() > 0 ==> ops_applied(c, ops).members[0].op && ops_applied(c, ops).members[0].creator,
{
    let ms = Seq::new(ops.len(), |i: int| joining_member(ops[i]));
    lemma_ops_are_joins(c, ops);
    assert forall|i: int, j: int| 0 <= i < j < ms.len() implies (#[trigger] ms[i]).id != (#[trigger] ms[j]).id by {
        assert(joining_member(ops[i]).id != joining_member(ops[j]).id);
    }
    lemma_serial_joins(c, ms);
    assert(ids_of(ms) =~= Seq::new(ops.len(), |i: int| joining_member(ops[i]).id));
}

} // verus!
