//! Channel policy vocabulary: mode flags and the mode-string parser.
use vstd::prelude::*;

use crate::message::Params;

verus! {

/// Channel modes as of RFC 2811, section 4.
#[derive(Debug, Clone, Copy, PartialEq, Eq, Hash, Structural)]
pub enum ChannelMode {
    /// give "channel creator" status
    ChannelCreator,
    /// give/take channel operator privilege
    OperatorPrivilege,
    /// give/take the voice privilege
    VoicePrivilege,
    /// toggle the anonymous channel flag
    AnonChannel,
    /// toggle the invite-only channel flag
    InviteOnly,
    /// toggle the moderated channel
    Moderated,
    /// toggle the no messages to channel from clients on the outside
    MemberOnly,
    /// toggle the quiet channel flag
    Quiet,
    /// toggle the private channel flag
    Private,
    /// toggle the secret channel flag
    Secret,
    /// toggle the server reop channel flag
    ReOpFlag,
    /// toggle the topic settable by channel operator only flag
    TopicProtect,
    /// set/remove the channel key (password)
    ChannelKey,
    /// set/remove the user limit to channel
    UserLimit,
    /// set/remove ban mask to keep users out
    BanMask,
    /// set/remove an exception mask to override a ban mask
    ExceptionMask,
    /// set/remove an invitation mask to automatically override the invite-only flag
    InvitationMask,
}

/// The mode whose letter is `b`, if any.
pub open spec fn mode_of(b: u8) -> Option<ChannelMode> {
    if b == 'O' as u8 {
        Some(ChannelMode::ChannelCreator)
    } else if b == 'o' as u8 {
        Some(ChannelMode::OperatorPrivilege)
    } else if b == 'v' as u8 {
        Some(ChannelMode::VoicePrivilege)
    } else if b == 'a' as u8 {
        Some(ChannelMode::AnonChannel)
    } else if b == 'i' as u8 {
        Some(ChannelMode::InviteOnly)
    } else if b == 'm' as u8 {
        Some(ChannelMode::Moderated)
    } else if b == 'n' as u8 {
        Some(ChannelMode::MemberOnly)
    } else if b == 'q' as u8 {
        Some(ChannelMode::Quiet)
    } else if b == 'p' as u8 {
        Some(ChannelMode::Private)
    } else if b == 's' as u8 {
        Some(ChannelMode::Secret)
    } else if b == 'r' as u8 {
        Some(ChannelMode::ReOpFlag)
    } else if b == 't' as u8 {
        Some(ChannelMode::TopicProtect)
    } else if b == 'k' as u8 {
        Some(ChannelMode::ChannelKey)
    } else if b == 'l' as u8 {
        Some(ChannelMode::UserLimit)
    } else if b == 'b' as u8 {
        Some(ChannelMode::BanMask)
    } else if b == 'e' as u8 {
        Some(ChannelMode::ExceptionMask)
    } else if b == 'I' as u8 {
        Some(ChannelMode::InvitationMask)
    } else {
        None
    }
}

impl ChannelMode {
    /// The letter of the mode.
    pub open spec fn spec_letter(self) -> u8 {
        match self {
            ChannelMode::ChannelCreator => 'O' as u8,
            ChannelMode::OperatorPrivilege => 'o' as u8,
            ChannelMode::VoicePrivilege => 'v' as u8,
            ChannelMode::AnonChannel => 'a' as u8,
            ChannelMode::InviteOnly => 'i' as u8,
            ChannelMode::Moderated => 'm' as u8,
            ChannelMode::MemberOnly => 'n' as u8,
            ChannelMode::Quiet => 'q' as u8,
            ChannelMode::Private => 'p' as u8,
            ChannelMode::Secret => 's' as u8,
            ChannelMode::ReOpFlag => 'r' as u8,
            ChannelMode::TopicProtect => 't' as u8,
            ChannelMode::ChannelKey => 'k' as u8,
            ChannelMode::UserLimit => 'l' as u8,
            ChannelMode::BanMask => 'b' as u8,
            ChannelMode::ExceptionMask => 'e' as u8,
            ChannelMode::InvitationMask => 'I' as u8,
        }
    }

    /// The letter of the mode.
    pub fn letter(&self) -> (r: u8)
        ensures
            r == self.spec_letter(),
            mode_of(r) == Some(*self),
    {
        match self {
            ChannelMode::ChannelCreator => 'O' as u8,
            ChannelMode::OperatorPrivilege => 'o' as u8,
            ChannelMode::VoicePrivilege => 'v' as u8,
            ChannelMode::AnonChannel => 'a' as u8,
            ChannelMode::InviteOnly => 'i' as u8,
            ChannelMode::Moderated => 'm' as u8,
            ChannelMode::MemberOnly => 'n' as u8,
            ChannelMode::Quiet => 'q' as u8,
            ChannelMode::Private => 'p' as u8,
            ChannelMode::Secret => 's' as u8,
            ChannelMode::ReOpFlag => 'r' as u8,
            ChannelMode::TopicProtect => 't' as u8,
            ChannelMode::ChannelKey => 'k' as u8,
            ChannelMode::UserLimit => 'l' as u8,
            ChannelMode::BanMask => 'b' as u8,
            ChannelMode::ExceptionMask => 'e' as u8,
            ChannelMode::InvitationMask => 'I' as u8,
        }
    }

    /// The mode whose letter is `b`, if any.
    pub fn from_byte(b: u8) -> (r: Option<ChannelMode>)
        ensures
            r == mode_of(b),
    {
        if b == 'O' as u8 {
            return Some(ChannelMode::ChannelCreator);
        }
        if b == 'o' as u8 {
            return Some(ChannelMode::OperatorPrivilege);
        }
        if b == 'v' as u8 {
            return Some(ChannelMode::VoicePrivilege);
        }
        if b == 'a' as u8 {
            return Some(ChannelMode::AnonChannel);
        }
        if b == 'i' as u8 {
            return Some(ChannelMode::InviteOnly);
        }
        if b == 'm' as u8 {
            return Some(ChannelMode::Moderated);
        }
        if b == 'n' as u8 {
            return Some(ChannelMode::MemberOnly);
        }
        if b == 'q' as u8 {
            return Some(ChannelMode::Quiet);
        }
        if b == 'p' as u8 {
            return Some(ChannelMode::Private);
        }
        if b == 's' as u8 {
            return Some(ChannelMode::Secret);
        }
        if b == 'r' as u8 {
            return Some(ChannelMode::ReOpFlag);
        }
        if b == 't' as u8 {
            return Some(ChannelMode::TopicProtect);
        }
        if b == 'k' as u8 {
            return Some(ChannelMode::ChannelKey);
        }
        if b == 'l' as u8 {
            return Some(ChannelMode::UserLimit);
        }
        if b == 'b' as u8 {
            return Some(ChannelMode::BanMask);
        }
        if b == 'e' as u8 {
            return Some(ChannelMode::ExceptionMask);
        }
        if b == 'I' as u8 {
            return Some(ChannelMode::InvitationMask);
        }
        None
    }

    /// Modes that take a parameter when added or removed.
    pub open spec fn spec_has_parameter(self) -> bool {
        match self {
            ChannelMode::ChannelKey | ChannelMode::UserLimit | ChannelMode::BanMask
            | ChannelMode::ExceptionMask | ChannelMode::InvitationMask
            | ChannelMode::OperatorPrivilege | ChannelMode::VoicePrivilege => true,
            _ => false,
        }
    }

    /// Whether the mode takes a parameter when added or removed.
    pub fn has_parameter(&self) -> (r: bool)
        ensures
            r == self.spec_has_parameter(),
    {
        match self {
            ChannelMode::ChannelKey | ChannelMode::UserLimit | ChannelMode::BanMask
            | ChannelMode::ExceptionMask | ChannelMode::InvitationMask
            | ChannelMode::OperatorPrivilege | ChannelMode::VoicePrivilege => true,
            _ => false,
        }
    }
}

/// What to do with a mode.
#[derive(Debug, Clone, Copy, PartialEq, Eq, Structural)]
pub enum Action {
    /// Add a flag
    Add,
    /// Remove a flag
    Remove,
    /// Show the flag
    Show,
}

/// The action a mode word announces and where its letters start.
pub open spec fn sign_of(word: Seq<u8>) -> (Action, int) {
    if word.len() > 0 && word[0] == '+' as u8 {
        (Action::Add, 1)
    } else if word.len() > 0 && word[0] == '-' as u8 {
        (Action::Remove, 1)
    } else {
        (Action::Show, 0)
    }
}

/// The mode changes that the remaining `letters` of a word with `action`,
/// followed by the words `rest`, stand for. Unknown letters are skipped; a
/// parametrized mode takes the next word as its parameter unless the action
/// is `Show`.
pub open spec fn mode_changes(action: Action, letters: Seq<u8>, rest: Seq<Seq<u8>>) -> Seq<
    (Action, ChannelMode, Option<Seq<u8>>),
>
    decreases rest.len(), letters.len(),
{
    if letters.len() > 0 {
        match mode_of(letters[0]) {
            None => mode_changes(action, letters.drop_first(), rest),
            Some(m) => if m.spec_has_parameter() && action != Action::Show && rest.len() > 0 {
                seq![(action, m, Some(rest[0]))] + mode_changes(action, letters.drop_first(), rest.drop_first())
            } else {
                seq![(action, m, None::<Seq<u8>>)] + mode_changes(action, letters.drop_first(), rest)
            },
        }
    } else if rest.len() > 0 {
        let (a, start) = sign_of(rest[0]);
        mode_changes(a, rest[0].subrange(start, rest[0].len() as int), rest.drop_first())
    } else {
        Seq::empty()
    }
}

/// The mode changes that the words `words` of a MODE command stand for.
pub open spec fn parse_modes(words: Seq<Seq<u8>>) -> Seq<(Action, ChannelMode, Option<Seq<u8>>)> {
    mode_changes(Action::Show, Seq::empty(), words)
}

pub open spec fn change_view(c: (Action, ChannelMode, Option<&[u8]>)) -> (Action, ChannelMode, Option<Seq<u8>>) {
    (c.0, c.1, match c.2 {
        Some(p) => Some(p@),
        None => None,
    })
}

pub open spec fn changes_view(cs: Seq<(Action, ChannelMode, Option<&[u8]>)>) -> Seq<(Action, ChannelMode, Option<Seq<u8>>)> {
    Seq::new(cs.len(), |i: int| change_view(cs[i]))
}

/// Parses the mode words of a MODE command (after the channel name):
/// `*( ( "-" / "+" ) *<modes> *<modeparams> )`.
///
/// `+be *!*@*.edu *!*@*.bu.edu` adds a ban mask and an exception mask.
pub fn modes_do<'a>(params: Params<'a>) -> (r: Vec<(Action, ChannelMode, Option<&'a [u8]>)>)
    requires
        params.valid(),
    ensures
        changes_view(r@) == parse_modes(params.remaining()),
{
    let mut words = params;
    let ghost all = words.remaining();
    let mut out: Vec<(Action, ChannelMode, Option<&'a [u8]>)> = Vec::new();
    assert(changes_view(out@) + parse_modes(all) =~= parse_modes(all));
    loop
        invariant
            words.valid(),
            all == params.remaining(),
            changes_view(out@) + mode_changes(Action::Show, Seq::empty(), words.remaining()) == parse_modes(all),
        decreases words.remaining().len(),
    {
        let ghost before = words.remaining();
        let current = match words.next() {
            Some(c) => c,
            None => {
                assert(before.len() == 0);
                assert(mode_changes(Action::Show, Seq::empty(), before) == Seq::<(Action, ChannelMode, Option<Seq<u8>>)>::empty());
                assert(changes_view(out@) + Seq::empty() =~= changes_view(out@));
                return out;
            },
        };
        let (action, offset): (Action, usize) = if current.len() > 0 && current[0] == '+' as u8 {
            (Action::Add, 1)
        } else if current.len() > 0 && current[0] == '-' as u8 {
            (Action::Remove, 1)
        } else {
            (Action::Show, 0)
        };
        assert(mode_changes(Action::Show, Seq::empty(), before) == mode_changes(
            action,
            current@.subrange(offset as int, current@.len() as int),
            words.remaining(),
        ));
        let mut j: usize = offset;
        while j < current.len()
            invariant
                words.valid(),
                all == params.remaining(),
                offset <= j <= current@.len(),
                words.remaining().len() < before.len(),
                changes_view(out@) + mode_changes(
                    action,
                    current@.subrange(j as int, current@.len() as int),
                    words.remaining(),
                ) == parse_modes(all),
            decreases current@.len() - j,
        {
            let ghost letters = current@.subrange(j as int, current@.len() as int);
            let ghost rest = words.remaining();
            assert(letters.drop_first() =~= current@.subrange(j + 1, current@.len() as int));
            let ghost old_out = out@;
            match ChannelMode::from_byte(current[j]) {
                None => {},
                Some(mode) => {
                    let param = if mode.has_parameter() && action != Action::Show {
                        words.next()
                    } else {
                        None
                    };
                    out.push((action, mode, param));
                    proof {
                        let x = change_view((action, mode, param));
                        let tail = mode_changes(action, letters.drop_first(), words.remaining());
                        assert(changes_view(out@) =~= changes_view(old_out) + seq![x]);
                        if mode.spec_has_parameter() && action != Action::Show && rest.len() > 0 {
                            assert(x == (action, mode, Some(rest[0])));
                            assert(mode_changes(action, letters, rest) == seq![x] + tail);
                        } else {
                            assert(x == (action, mode, None::<Seq<u8>>));
                            assert(words.remaining() =~= rest);
                            assert(mode_changes(action, letters, rest) == seq![x] + tail);
                        }
                        assert(changes_view(old_out) + (seq![x] + tail) =~= (changes_view(old_out) + seq![x]) + tail);
                    }
                },
            }
            j = j + 1;
        }
        assert(current@.subrange(j as int, current@.len() as int) =~= Seq::<u8>::empty());
    }
}

} // verus!
