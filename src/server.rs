//! The dispatcher: the client registry, the channel registry, the
//! registration gate and the handlers of the registration and membership
//! commands.
//!
//! Empty channels are reaped as soon as their last member leaves.
use vstd::prelude::*;
use vstd::string::{StringExecFns, StringSliceAdditionalSpecFns};
use vstd::utf8::{decode_utf8, encode_utf8, valid_utf8};

use crate::channel::{
    after_join, decoration_of, delivery_targets, ids_of, members_view, with, is_operator, join_result, mode_applied, opt_view, Channel, ChannelView, Member, MemberView, ModeOutcome,
};
use crate::mode::{changes_view, modes_do, parse_modes, Action};
use crate::client::{build_msg, build_response, list_reply, marker_seq, response_line, views, wire_line, ClientId};
use crate::command::{command_name, three_digits, Command, ResponseCode};
use crate::handler::{accepted, join_accepted, join_keys, list_items, slices_view, subcommand_name, subcommand_of, verify_list, ErrorMessage, ItemCheck, JoinRequest, OnError, Subcommand};
use crate::message::Message;
use crate::misc::{is_reserved_nick, lossy_string, lossy_text, reserved, verify_receiver, Receiver};
use crate::mode::ChannelMode;
use crate::registration::{
    allowed, command_allowed, continue_registration, nick_transition, on_nick, on_user, resume_transition,
    suspend_registration, suspend_transition, user_transition,
};
use crate::text::bytes_eq;
use crate::user::{Status, User};

verus! {

/// Something for the connection layer to do.
#[derive(Debug)]
pub enum Outgoing {
    /// Send a line to a client.
    Line(ClientId, Vec<u8>),
    /// Close a client's connection.
    Disconnect(ClientId),
}

/// One connected client.
#[derive(Debug)]
pub struct Session {
    pub id: ClientId,
    pub user: User,
}

/// The text of the welcome reply.
pub open spec fn welcome_text(nick: Seq<char>, user: Seq<char>, host: Seq<char>) -> Seq<char> {
    seq![
        'W', 'e', 'l', 'c', 'o', 'm', 'e', ' ', 't', 'o', ' ', 't', 'h', 'e', ' ',
        'I', 'n', 't', 'e', 'r', 'n', 'e', 't', ' ', 'R', 'e', 'l', 'a', 'y', ' ',
        'N', 'e', 't', 'w', 'o', 'r', 'k', ' ',
    ] + nick + seq!['!'] + user + seq!['@'] + host
}

/// The line `line` is a numeric reply with `code` from `server`.
pub open spec fn is_reply(line: Seq<u8>, server: Seq<u8>, code: ResponseCode) -> bool {
    exists|nick: Seq<u8>, payload: Seq<Seq<u8>>| line == response_line(server, three_digits(code.spec_code()), nick, payload)
}

/// The reply to a NICK: an error code, or `Ok` when the nickname is taken
/// on. A nickname must be UTF-8 and not reserved.
pub open spec fn nick_check(params: Seq<Seq<u8>>, taken: bool) -> Result<(), ResponseCode> {
    if params.len() == 0 {
        Err(ResponseCode::ERR_NONICKNAMEGIVEN)
    } else if !valid_utf8(params[0]) || reserved(params[0]) {
        Err(ResponseCode::ERR_ERRONEUSNICKNAME)
    } else if taken {
        Err(ResponseCode::ERR_NICKNAMEINUSE)
    } else {
        Ok(())
    }
}

/// The channel after mode changes applied in order.
pub open spec fn modes_applied(c: ChannelView, changes: Seq<(Action, ChannelMode, Option<Seq<u8>>)>) -> ChannelView
    decreases changes.len(),
{
    if changes.len() == 0 {
        c
    } else {
        let last = changes.last();
        mode_applied(modes_applied(c, changes.drop_last()), last.0, last.1, last.2)
    }
}

/// The clients that the lines of `out` go to, in order.
pub open spec fn line_recipients(out: Seq<Outgoing>) -> Seq<ClientId> {
    Seq::new(
        out.len(),
        |i: int|
            match out[i] {
                Outgoing::Line(to, _) => to,
                Outgoing::Disconnect(to) => to,
            },
    )
}

/// Whether `id` may set the topic of `c`: a member may, unless the topic
/// is protected and the member is no channel operator.
pub open spec fn may_set_topic(c: ChannelView, id: ClientId) -> bool {
    ids_of(c.members).contains(id) && (!c.flags.contains(ChannelMode::TopicProtect) || is_operator(c, id))
}

/// The member list of `c` is shown to `id`: unless the channel is secret and
/// `id` is not a member.
pub open spec fn names_visible(c: ChannelView, id: ClientId) -> bool {
    !(c.flags.contains(ChannelMode::Secret) && !ids_of(c.members).contains(id))
}

/// The channel after `id` leaves it; `None` once it is empty (empty channels
/// are removed).
pub open spec fn parted(c: ChannelView, id: ClientId) -> Option<ChannelView> {
    let ms = crate::channel::members_without(c.members, id);
    if ms.len() == 0 {
        None
    } else {
        Some(ChannelView { members: ms, ..c })
    }
}

/// A channel map with the entry for `n` set, or removed.
pub open spec fn map_update(channels: Map<Seq<char>, ChannelView>, n: Seq<char>, v: Option<ChannelView>) -> Map<
    Seq<char>,
    ChannelView,
> {
    match v {
        Some(c) => channels.insert(n, c),
        None => channels.remove(n),
    }
}

/// The channels after `id` leaves the channels `names` in turn; names that
/// are no valid channel name, or no channel `id` is in, are passed over.
pub open spec fn parts_applied(channels: Map<Seq<char>, ChannelView>, id: ClientId, names: Seq<Seq<u8>>) -> Map<
    Seq<char>,
    ChannelView,
>
    decreases names.len(),
{
    if names.len() == 0 {
        channels
    } else {
        let prev = parts_applied(channels, id, names.drop_last());
        let b = names.last();
        if valid_utf8(b) && crate::misc::channel_ok(b) {
            let n = decode_utf8(b);
            match map_get(prev, n) {
                Some(c) => if ids_of(c.members).contains(id) {
                    map_update(prev, n, parted(c, id))
                } else {
                    prev
                },
                None => prev,
            }
        } else {
            prev
        }
    }
}

/// How many lines NAMES sends for `names`: for each valid name of an
/// existing channel whose list is visible, one per member and the end line.
pub open spec fn names_lines(s: Server, id: ClientId, names: Seq<Seq<u8>>) -> int
    decreases names.len(),
{
    if names.len() == 0 {
        0
    } else {
        let b = names.last();
        names_lines(s, id, names.drop_last()) + if valid_utf8(b) && crate::misc::channel_ok(b) {
            match s.channel_named(decode_utf8(b)) {
                Some(c) => if names_visible(c, id) {
                    c.members.len() + 1
                } else {
                    0
                },
                None => 0,
            }
        } else {
            0
        }
    }
}

/// Every line of `out` goes to `id`.
pub open spec fn all_to(out: Seq<Outgoing>, id: ClientId) -> bool {
    forall|j: int| 0 <= j < out.len() ==> (#[trigger] out[j] matches Outgoing::Line(to, _) && to == id)
}

/// The WHO list of `c` is hidden from `id`: the channel is private or
/// secret and `id` is not a member.
pub open spec fn who_hidden(c: ChannelView, id: ClientId) -> bool {
    (c.flags.contains(ChannelMode::Private) || c.flags.contains(ChannelMode::Secret)) && !ids_of(c.members).contains(id)
}

/// The CAP line from `server` to `nick`: the subcommand, then the argument
/// when there is one.
pub open spec fn cap_line(server: Seq<u8>, nick: Seq<u8>, sub: Subcommand, arg: Option<Seq<u8>>) -> Seq<u8> {
    wire_line(server, command_name(Command::CAP), seq![nick, subcommand_name(sub)] + match arg {
        Some(a) => seq![a],
        None => Seq::<Seq<u8>>::empty(),
    })
}

/// The lines of a JOIN naming one channel: the refusal reply to `id` when
/// the join is refused, the JOIN line to every member first when admitted,
/// nothing for a client that is a member already.
pub open spec fn single_join_lines(before: &Server, id: ClientId, msg: &Message, r: Seq<Outgoing>) -> bool {
    let n = decode_utf8(list_items(msg.params_view()[0])[0]);
    let base = join_base(before.channel_named(n));
    let m = before.joining_view(id);
    let key = if join_keys(msg.params_view()).len() > 0 {
        Some(join_keys(msg.params_view())[0])
    } else {
        None
    };
    match join_result(base, m, key) {
        Err(code) => r.len() == 1 && (r[0] matches Outgoing::Line(to, l) && to == id && is_reply(
            l@,
            encode_utf8(before.host_view()),
            code,
        )),
        Ok(true) => r.len() >= after_join(base, m, key).members.len() && line_recipients(r).subrange(
            0,
            after_join(base, m, key).members.len() as int,
        ) == ids_of(after_join(base, m, key).members),
        Ok(false) => r.len() == 0,
    }
}

/// The lines of one mode change to `c` by `id`: an announced change goes
/// to every member of the changed channel; a mask list goes to `id` alone,
/// ending with its end line; anything else sends nothing.
pub open spec fn single_mode_lines(
    c: ChannelView,
    id: ClientId,
    change: (Action, ChannelMode, Option<Seq<u8>>),
    r: Seq<Outgoing>,
) -> bool {
    match crate::channel::mode_outcome(c, change.0, change.1, change.2) {
        Some(_) => line_recipients(r) == ids_of(mode_applied(c, change.0, change.1, change.2).members),
        None => if crate::channel::is_list_mode(change.1) && change.2 is None {
            r.len() >= 1 && all_to(r, id)
        } else {
            r.len() == 0
        },
    }
}

/// A channel as JOIN creates it: topic-protected, members only, empty.
pub open spec fn fresh_channel() -> ChannelView {
    ChannelView {
        flags: seq![ChannelMode::TopicProtect, ChannelMode::MemberOnly],
        password: None,
        limit: None,
        members: Seq::empty(),
        invited: Seq::empty(),
        bans: Seq::empty(),
        excepts: Seq::empty(),
        invite_masks: Seq::empty(),
    }
}

/// The channel a join goes to: the existing one, or a fresh one.
pub open spec fn join_base(before: Option<ChannelView>) -> ChannelView {
    match before {
        Some(c) => c,
        None => fresh_channel(),
    }
}

/// The entry for `n` in a channel map, if any.
pub open spec fn map_get(channels: Map<Seq<char>, ChannelView>, n: Seq<char>) -> Option<ChannelView> {
    if channels.contains_key(n) {
        Some(channels[n])
    } else {
        None
    }
}

/// The channels after `m` joins the channels `names` in turn, with the key
/// at the same position in `keys`; names that are no valid channel name are
/// passed over.
pub open spec fn joins_applied(
    channels: Map<Seq<char>, ChannelView>,
    m: MemberView,
    names: Seq<Seq<u8>>,
    keys: Seq<Seq<u8>>,
) -> Map<Seq<char>, ChannelView>
    decreases names.len(),
{
    if names.len() == 0 {
        channels
    } else {
        let prev = joins_applied(channels, m, names.drop_last(), keys);
        let i = names.len() - 1;
        let b = names.last();
        if valid_utf8(b) && crate::misc::channel_ok(b) {
            let n = decode_utf8(b);
            let key = if i < keys.len() {
                Some(keys[i])
            } else {
                None
            };
            prev.insert(n, after_join(join_base(map_get(prev, n)), m, key))
        } else {
            prev
        }
    }
}

/// What handling NICK from `id` does: the state `after` and the lines `r`.
pub open spec fn nick_outcome(before: &Server, after: &Server, id: ClientId, msg: &Message, r: Seq<Outgoing>) -> bool {
    &&& (after.wf())
    &&& (after.host_view() == before.host_view())
    &&& (!before.has_client(id) ==> r.len() == 0)
    &&& (before.has_client(id) ==> after.has_client(id) && match nick_check(
            msg.params_view(),
            msg.params_view().len() > 0 && before.nick_taken(msg.params_view()[0]),
        ) {
            Err(code) => {
                &&& *after == *before
                &&& r.len() == 1
                &&& r[0] matches Outgoing::Line(to, line) && to == id && line@ == response_line(
                    encode_utf8(before.host_view()),
                    three_digits(code.spec_code()),
                    encode_utf8(before.nick_of(id)),
                    nick_error_payload(code, msg.params_view()),
                )
            },
            Ok(()) => {
                &&& after.others_unchanged(before, id)
                &&& encode_utf8(after.nick_of(id)) == msg.params_view()[0]
                &&& after.user_name_of(id) == before.user_name_of(id)
                &&& after.realname_of(id) == before.realname_of(id)
                &&& after.host_of(id) == before.host_of(id)
                &&& after.status_of(id) == nick_transition(before.status_of(id)).0
                &&& r.len() == (if nick_transition(before.status_of(id)).1 {
                    1int
                } else {
                    0
                })
                &&& nick_transition(before.status_of(id)).1 ==> (r[0] matches Outgoing::Line(to, line) && to
                    == id && line@ == after.welcome_line(id))
            },
        })
}

/// What handling USER from `id` does: the state `after` and the lines `r`.
pub open spec fn user_outcome(before: &Server, after: &Server, id: ClientId, msg: &Message, r: Seq<Outgoing>) -> bool {
    &&& (after.wf())
    &&& (after.host_view() == before.host_view())
    &&& (!before.has_client(id) ==> r.len() == 0)
    &&& (before.has_client(id) ==> after.has_client(id) && if msg.params_view().len() != 4 {
            &&& *after == *before
            &&& r.len() == 1
            &&& r[0] matches Outgoing::Line(to, line) && to == id && is_reply(
                line@,
                encode_utf8(before.host_view()),
                ResponseCode::ERR_NEEDMOREPARAMS,
            )
        } else {
            match user_transition(before.status_of(id)) {
                Err(code) => {
                    &&& *after == *before
                    &&& r.len() == 1
                    &&& r[0] matches Outgoing::Line(to, line) && to == id && is_reply(
                        line@,
                        encode_utf8(before.host_view()),
                        code,
                    )
                },
                Ok((status, welcome)) => {
                    &&& after.others_unchanged(before, id)
                    &&& after.status_of(id) == status
                    &&& after.nick_of(id) == before.nick_of(id)
                    &&& after.host_of(id) == before.host_of(id)
                    &&& after.user_name_of(id) == lossy_text(msg.params_view()[0])
                    &&& after.realname_of(id) == lossy_text(msg.params_view()[3])
                    &&& (valid_utf8(msg.params_view()[0]) ==> encode_utf8(after.user_name_of(id))
                        == msg.params_view()[0])
                    &&& (valid_utf8(msg.params_view()[3]) ==> encode_utf8(after.realname_of(id))
                        == msg.params_view()[3])
                    &&& r.len() == (if welcome {
                        1int
                    } else {
                        0
                    })
                    &&& welcome ==> (r[0] matches Outgoing::Line(to, line) && to == id && line@
                        == after.welcome_line(id))
                },
            }
        })
}

/// What handling CAP from `id` does: the state `after` and the lines `r`.
pub open spec fn cap_outcome(before: &Server, after: &Server, id: ClientId, msg: &Message, r: Seq<Outgoing>) -> bool {
    &&& (after.wf())
    &&& (after.host_view() == before.host_view())
    &&& (!before.has_client(id) ==> r.len() == 0)
    &&& (before.has_client(id) ==> after.has_client(id) && after.nick_of(id) == before.nick_of(
            id,
        ) && match (if msg.params_view().len() > 0 {
            subcommand_of(msg.params_view()[0])
        } else {
            None
        }) {
            None => {
                &&& after.status_of(id) == before.status_of(id)
                &&& r.len() == 1
                &&& r[0] matches Outgoing::Line(to, line) && to == id && is_reply(
                    line@,
                    encode_utf8(before.host_view()),
                    ResponseCode::ERR_INVALIDCAPCMD,
                )
            },
            Some(Subcommand::LS) | Some(Subcommand::LIST) | Some(Subcommand::REQ) => {
                &&& after.status_of(id) == suspend_transition(before.status_of(id))
                &&& r.len() == 1
                &&& r[0] matches Outgoing::Line(to, l) && to == id && l@ == cap_line(
                    encode_utf8(before.host_view()),
                    encode_utf8(before.nick_of(id)),
                    if subcommand_of(msg.params_view()[0]) == Some(Subcommand::REQ) {
                        Subcommand::NAK
                    } else {
                        subcommand_of(msg.params_view()[0])->0
                    },
                    if subcommand_of(msg.params_view()[0]) == Some(Subcommand::REQ) && msg.params_view().len() > 1 {
                        Some(msg.params_view()[1])
                    } else {
                        None
                    },
                )
            },
            Some(Subcommand::END) => {
                &&& after.status_of(id) == resume_transition(before.status_of(id)).0
                &&& r.len() == (if resume_transition(before.status_of(id)).1 {
                    1int
                } else {
                    0
                })
                &&& resume_transition(before.status_of(id)).1 ==> (r[0] matches Outgoing::Line(to, line)
                    && to == id && line@ == after.welcome_line(id))
            },
            Some(Subcommand::CLEAR) => after.status_of(id) == before.status_of(id) && r.len() == 1 && (r[0] matches Outgoing::Line(
                to,
                l,
            ) && to == id && l@ == cap_line(
                encode_utf8(before.host_view()),
                encode_utf8(before.nick_of(id)),
                Subcommand::ACK,
                None,
            )),
            Some(_) => after.status_of(id) == before.status_of(id) && r.len() == 0,
        })
    &&& (before.has_client(id) ==> after.others_unchanged(before, id) && after.user_name_of(id)
            == before.user_name_of(id) && after.realname_of(id) == before.realname_of(id)
            && after.host_of(id) == before.host_of(id) && after.mask_of(id) == before.mask_of(id))
}

/// What handling JOIN from `id` does: the state `after` and the lines `r`.
pub open spec fn join_outcome(before: &Server, after: &Server, id: ClientId, msg: &Message, r: Seq<Outgoing>) -> bool {
    &&& (before.has_client(id) && join_accepted(msg.params_view()) && list_items(msg.params_view()[0]).len() == 1
        ==> single_join_lines(before, id, msg, r))
    &&& (after.wf())
    &&& (after.host_view() == before.host_view())
    &&& (!before.has_client(id) ==> r.len() == 0)
    &&& (before.has_client(id) ==> after.has_client(id))
    &&& (before.has_client(id) && msg.params_view().len() == 0 ==> r.len() == 1 && (r[0] matches Outgoing::Line(
            to,
            line,
        ) && to == id && is_reply(line@, encode_utf8(before.host_view()), ResponseCode::ERR_NEEDMOREPARAMS)))
    &&& (before.has_client(id) && join_accepted(msg.params_view()) ==> after.channel_map() == joins_applied(
            before.channel_map(),
            before.joining_view(id),
            list_items(msg.params_view()[0]),
            join_keys(msg.params_view()),
        ))
    &&& (before.has_client(id) && !join_accepted(msg.params_view()) ==> after.channel_map()
            == before.channel_map() && r.len() == 1)
    &&& (after.same_clients(before))
}

/// What handling QUIT from `id` does: the state `after` and the lines `r`.
pub open spec fn quit_outcome(before: &Server, after: &Server, id: ClientId, msg: &Message, r: Seq<Outgoing>) -> bool {
    &&& (after.wf())
    &&& (after.host_view() == before.host_view())
    &&& (!after.has_client(id))
    &&& (!before.has_client(id) ==> r.len() == 0)
    &&& (before.has_client(id) ==> r.len() > 0 && (r.last() matches Outgoing::Disconnect(to) && to == id))
    &&& (before.has_client(id) ==> forall|j: int| 0 <= j < r.len() - 1 ==> (#[trigger] r[j] matches Outgoing::Line(_, l)
        && l@ == quit_line(before, id, msg)))
    &&& (before.has_client(id) ==> !after.in_any_channel(id))
    &&& (forall|other: ClientId| other != id ==> (after.has_client(other) <==> before.has_client(other)))
}

/// What handling MODE from `id` does: the state `after` and the lines `r`.
pub open spec fn mode_outcome_of(before: &Server, after: &Server, id: ClientId, msg: &Message, r: Seq<Outgoing>) -> bool {
    &&& (after.wf())
    &&& (after.host_view() == before.host_view())
    &&& (after.same_clients(before))
    &&& (!before.has_client(id) ==> r.len() == 0)
    &&& (before.has_client(id) && msg.params_view().len() > 1 && valid_utf8(msg.params_view()[0])
            && crate::misc::channel_ok(msg.params_view()[0]) ==> match before.channel_named(
            decode_utf8(msg.params_view()[0]),
        ) {
            Some(c) => if is_operator(c, id) {
                &&& after.channel_named(decode_utf8(msg.params_view()[0])) == Some(
                    modes_applied(c, parse_modes(msg.params_view().drop_first())),
                )
                &&& parse_modes(msg.params_view().drop_first()).len() == 1 ==> single_mode_lines(
                    c,
                    id,
                    parse_modes(msg.params_view().drop_first())[0],
                    r,
                )
            } else {
                &&& after.channel_named(decode_utf8(msg.params_view()[0])) == Some(c)
                &&& r.len() == 1
                &&& r[0] matches Outgoing::Line(to, line) && to == id && is_reply(
                    line@,
                    encode_utf8(before.host_view()),
                    ResponseCode::ERR_CHANOPRIVSNEEDED,
                )
            },
            None => r.len() == 1 && (r[0] matches Outgoing::Line(to, line) && to == id && is_reply(
                line@,
                encode_utf8(before.host_view()),
                ResponseCode::ERR_NOSUCHCHANNEL,
            )),
        })
}

/// What handling PART from `id` does: the state `after` and the lines `r`.
pub open spec fn part_outcome(before: &Server, after: &Server, id: ClientId, msg: &Message, r: Seq<Outgoing>) -> bool {
    &&& (after.wf())
    &&& (after.host_view() == before.host_view())
    &&& (after.same_clients(before))
    &&& (!before.has_client(id) ==> r.len() == 0)
    &&& (before.has_client(id) ==> ({
            let names = if msg.params_view().len() > 0 {
                accepted(list_items(msg.params_view()[0]), ItemCheck::Channel)
            } else {
                Seq::empty()
            };
            if names.len() == 0 {
                *after == *before && r.len() == 1 && (r[0] matches Outgoing::Line(to, line) && to == id
                    && is_reply(line@, encode_utf8(before.host_view()), ResponseCode::ERR_NEEDMOREPARAMS))
            } else {
                &&& after.channel_map() == parts_applied(before.channel_map(), id, names)
                &&& names.len() == 1 && valid_utf8(names[0]) && crate::misc::channel_ok(names[0]) ==> single_part_lines(
                    before,
                    id,
                    msg,
                    names[0],
                    r,
                )
            }
        }))
}

/// What handling TOPIC from `id` does: the state `after` and the lines `r`.
pub open spec fn topic_outcome(before: &Server, after: &Server, id: ClientId, msg: &Message, r: Seq<Outgoing>) -> bool {
    &&& (after.wf())
    &&& (after.host_view() == before.host_view())
    &&& (after.same_clients(before))
    &&& (!before.has_client(id) ==> r.len() == 0)
    &&& (forall|n: Seq<char>| #[trigger] after.channel_named(n) == before.channel_named(n))
    &&& (before.has_client(id) && msg.params_view().len() > 1 && valid_utf8(msg.params_view()[0])
            && crate::misc::channel_ok(msg.params_view()[0]) ==> match before.channel_named(
            decode_utf8(msg.params_view()[0]),
        ) {
            Some(c) => {
                &&& after.topic_named(decode_utf8(msg.params_view()[0])) == if may_set_topic(c, id) {
                    Some(lossy_text(msg.params_view()[1]))
                } else {
                    before.topic_named(decode_utf8(msg.params_view()[0]))
                }
                &&& may_set_topic(c, id) ==> line_recipients(r) == ids_of(c.members) && forall|j: int|
                    0 <= j < r.len() ==> (#[trigger] r[j] matches Outgoing::Line(_, l) && l@ == wire_line(
                        encode_utf8(before.mask_of(id)),
                        command_name(Command::TOPIC),
                        seq![msg.params_view()[0], msg.params_view()[1]],
                    ))
                &&& !may_set_topic(c, id) ==> r.len() == 1 && (r[0] matches Outgoing::Line(to, _) && to == id)
            },
            None => r.len() == 1 && (r[0] matches Outgoing::Line(to, line) && to == id && is_reply(
                line@,
                encode_utf8(before.host_view()),
                ResponseCode::ERR_NOSUCHCHANNEL,
            )),
        })
}

/// What handling NAMES from `id` does: the state `after` and the lines `r`.
pub open spec fn names_outcome(before: &Server, after: &Server, id: ClientId, msg: &Message, r: Seq<Outgoing>) -> bool {
    &&& (*after == *before)
    &&& (!before.has_client(id) ==> r.len() == 0)
    &&& (all_to(r, id))
    &&& (before.has_client(id) ==> r.len() == names_lines(
            *before,
            id,
            if msg.params_view().len() > 0 {
                accepted(list_items(msg.params_view()[0]), ItemCheck::Channel)
            } else {
                Seq::empty()
            },
        ))
    &&& (before.has_client(id) && msg.params_view().len() > 0 && accepted(list_items(msg.params_view()[0]), ItemCheck::Channel).len()
        == 1 ==> single_names_lines(before, id, accepted(list_items(msg.params_view()[0]), ItemCheck::Channel)[0], r))
}

/// The lines of NAMES for one channel `b`, when its list is visible: one per
/// member, in order, each naming the member with its privilege prefix.
pub open spec fn single_names_lines(before: &Server, id: ClientId, b: Seq<u8>, r: Seq<Outgoing>) -> bool {
    valid_utf8(b) && crate::misc::channel_ok(b) ==> match before.channel_named(decode_utf8(b)) {
        Some(c) => names_visible(c, id) ==> forall|i: int|
            0 <= i < c.members.len() ==> (#[trigger] r[i] matches Outgoing::Line(_, l) && l@ == names_line(
                encode_utf8(before.host_view()),
                encode_utf8(before.nick_of(id)),
                b,
                c.members[i],
            )),
        None => r.len() == 0,
    }
}

/// What handling WHO from `id` does: the state `after` and the lines `r`.
pub open spec fn who_outcome(before: &Server, after: &Server, id: ClientId, msg: &Message, r: Seq<Outgoing>) -> bool {
    &&& (*after == *before)
    &&& (!before.has_client(id) ==> r.len() == 0)
    &&& (all_to(r, id))
    &&& (before.has_client(id) && msg.params_view().len() > 0 ==> match before.channel_named(
            lossy_text(msg.params_view()[0]),
        ) {
            Some(c) => {
                &&& r.len() >= 1
                &&& r.last() matches Outgoing::Line(_, l) && l@ == response_line(
                    encode_utf8(before.host_view()),
                    three_digits(ResponseCode::RPL_ENDOFWHO.spec_code()),
                    encode_utf8(before.nick_of(id)),
                    seq![msg.params_view()[0], crate::client::end_of_list_text()],
                )
                &&& who_hidden(c, id) ==> r.len() == 1
                &&& !who_hidden(c, id) && msg.params_view().len() == 1 ==> r.len() == c.members.len() + 1
            },
            None => r.len() == 0,
        })
}

/// What handling INVITE from `id` does: the state `after` and the lines `r`.
pub open spec fn invite_outcome(before: &Server, after: &Server, id: ClientId, msg: &Message, r: Seq<Outgoing>) -> bool {
    &&& (after.wf())
    &&& (after.host_view() == before.host_view())
    &&& (after.same_clients(before))
    &&& (!before.has_client(id) ==> r.len() == 0)
    &&& (forall|n: Seq<char>|
            match (#[trigger] before.channel_named(n), after.channel_named(n)) {
                (Some(c), Some(d)) => d == (ChannelView { invited: d.invited, ..c }) && forall|x: ClientId|
                    c.invited.contains(x) ==> d.invited.contains(x),
                (None, None) => true,
                _ => false,
            })
    &&& (before.has_client(id) && msg.params_view().len() >= 2 && valid_utf8(msg.params_view()[1])
            && crate::misc::channel_ok(msg.params_view()[1]) ==> if exists|x: ClientId| before.nick_owner(
            msg.params_view()[0],
            x,
        ) {
            exists|x: ClientId|
                #![trigger before.nick_owner(msg.params_view()[0], x)]
                before.nick_owner(msg.params_view()[0], x) && match before.channel_named(
                    decode_utf8(msg.params_view()[1]),
                ) {
                    Some(c) => if ids_of(c.members).contains(id) && !ids_of(c.members).contains(x) && (
                    !c.flags.contains(ChannelMode::InviteOnly) || is_operator(c, id)) {
                        &&& after.channel_named(decode_utf8(msg.params_view()[1])) == Some(
                            ChannelView { invited: with(c.invited, x), ..c },
                        )
                        &&& r.len() > 0 && (r.last() matches Outgoing::Line(to, _) && to == x)
                    } else {
                        *after == *before
                    },
                    None => *after == *before && r.len() > 0 && (r.last() matches Outgoing::Line(
                        to,
                        _,
                    ) && to == x),
                }
        } else {
            *after == *before
        })
}

/// What handling PRIVMSG from `id` does: the state `after` and the lines `r`.
pub open spec fn privmsg_outcome(before: &Server, after: &Server, id: ClientId, msg: &Message, notice: bool, r: Seq<Outgoing>) -> bool {
    &&& (*after == *before)
    &&& (!before.has_client(id) ==> r.len() == 0)
    &&& (before.has_client(id) && msg.params_view().len() > 0 && valid_utf8(msg.params_view()[0])
            && crate::misc::channel_ok(msg.params_view()[0]) ==> match before.channel_named(
            decode_utf8(msg.params_view()[0]),
        ) {
            Some(c) => line_recipients(r) == delivery_targets(c, id) && forall|j: int|
                0 <= j < r.len() ==> (#[trigger] r[j] matches Outgoing::Line(_, l) && l@ == relayed_line(
                    before,
                    id,
                    msg,
                    notice,
                )),
            None => notice ==> r.len() == 0,
        })
    &&& (before.has_client(id) && msg.params_view().len() > 0 && valid_utf8(msg.params_view()[0])
            && !crate::misc::channel_ok(msg.params_view()[0]) && crate::misc::nick_ok(msg.params_view()[0]) ==> if exists|x: ClientId| before.nick_owner(msg.params_view()[0], x) {
            r.len() == 1 && exists|x: ClientId|
                #![trigger before.nick_owner(msg.params_view()[0], x)]
                before.nick_owner(msg.params_view()[0], x) && (r[0] matches Outgoing::Line(to, l) && to == x
                    && l@ == relayed_line(before, id, msg, notice))
        } else {
            &&& notice ==> r.len() == 0
            &&& !notice ==> r.len() == 1 && (r[0] matches Outgoing::Line(to, line) && to == id && is_reply(
                line@,
                encode_utf8(before.host_view()),
                ResponseCode::ERR_NOSUCHNICK,
            ))
        })
}

/// What routing an allowed command does: what its handler does.
pub open spec fn dispatch_outcome(before: &Server, after: &Server, id: ClientId, msg: &Message, cmd: Command, r: Seq<Outgoing>) -> bool {
    match cmd {
        Command::NICK => nick_outcome(before, after, id, msg, r),
        Command::USER => user_outcome(before, after, id, msg, r),
        Command::CAP => cap_outcome(before, after, id, msg, r),
        Command::JOIN => join_outcome(before, after, id, msg, r),
        Command::QUIT => quit_outcome(before, after, id, msg, r),
        Command::MODE => mode_outcome_of(before, after, id, msg, r),
        Command::PART => part_outcome(before, after, id, msg, r),
        Command::TOPIC => topic_outcome(before, after, id, msg, r),
        Command::NAMES => names_outcome(before, after, id, msg, r),
        Command::WHO => who_outcome(before, after, id, msg, r),
        Command::INVITE => invite_outcome(before, after, id, msg, r),
        Command::PRIVMSG => privmsg_outcome(before, after, id, msg, false, r),
        Command::NOTICE => privmsg_outcome(before, after, id, msg, true, r),
        Command::RESPONSE(_) => r.len() == 0 && *after == *before,
    }
}

/// The parameters of a NICK error reply after the client's nickname.
pub open spec fn nick_error_payload(code: ResponseCode, params: Seq<Seq<u8>>) -> Seq<Seq<u8>> {
    if code == ResponseCode::ERR_NONICKNAMEGIVEN {
        seq!["No nickname given".spec_bytes()]
    } else if code == ResponseCode::ERR_NICKNAMEINUSE {
        seq![params[0], "Nickname is already in use".spec_bytes()]
    } else {
        seq![params[0], "Erroneous nickname".spec_bytes()]
    }
}

/// The line that PRIVMSG (or NOTICE) relays: on behalf of the sender's
/// host mask, the target, then the text when there is one.
pub open spec fn relayed_line(before: &Server, id: ClientId, msg: &Message, notice: bool) -> Seq<u8> {
    wire_line(
        encode_utf8(before.mask_of(id)),
        command_name(
            if notice {
                Command::NOTICE
            } else {
                Command::PRIVMSG
            },
        ),
        if msg.params_view().len() > 1 {
            seq![msg.params_view()[0], msg.params_view()[1]]
        } else {
            seq![msg.params_view()[0]]
        },
    )
}

/// The PART line on behalf of `mask` for the channel `name`, with the reason
/// when there is one.
pub open spec fn part_line(mask: Seq<u8>, name: Seq<u8>, reason: Option<Seq<u8>>) -> Seq<u8> {
    wire_line(mask, command_name(Command::PART), seq![name] + match reason {
        Some(t) => seq![t],
        None => Seq::<Seq<u8>>::empty(),
    })
}

/// The lines of a PART naming one channel `b`: "no such channel" or "not on
/// that channel" to `id`, else the PART line to every member, `id` included.
pub open spec fn single_part_lines(before: &Server, id: ClientId, msg: &Message, b: Seq<u8>, r: Seq<Outgoing>) -> bool {
    match before.channel_named(decode_utf8(b)) {
        None => r.len() == 1 && (r[0] matches Outgoing::Line(to, l) && to == id && is_reply(
            l@,
            encode_utf8(before.host_view()),
            ResponseCode::ERR_NOSUCHCHANNEL,
        )),
        Some(c) => if ids_of(c.members).contains(id) {
            line_recipients(r) == ids_of(c.members) && forall|j: int|
                0 <= j < r.len() ==> (#[trigger] r[j] matches Outgoing::Line(_, l) && l@ == part_line(
                    encode_utf8(before.mask_of(id)),
                    b,
                    if msg.params_view().len() > 1 {
                        Some(msg.params_view()[1])
                    } else {
                        None
                    },
                ))
        } else {
            r.len() == 1 && (r[0] matches Outgoing::Line(to, l) && to == id && is_reply(
                l@,
                encode_utf8(before.host_view()),
                ResponseCode::ERR_NOTONCHANNEL,
            ))
        },
    }
}

/// The QUIT line told to the channels a client leaves: on behalf of its host
/// mask, with the reason when there is one.
pub open spec fn quit_line(before: &Server, id: ClientId, msg: &Message) -> Seq<u8> {
    wire_line(
        encode_utf8(before.mask_of(id)),
        command_name(Command::QUIT),
        if msg.params_view().len() > 0 {
            seq![msg.params_view()[0]]
        } else {
            Seq::empty()
        },
    )
}

/// One line of a member list: `353 <nick> = <channel> <decorated nick>`.
pub open spec fn names_line(server: Seq<u8>, nick: Seq<u8>, channel: Seq<u8>, m: MemberView) -> Seq<u8> {
    response_line(
        server,
        three_digits(ResponseCode::RPL_NAMREPLY.spec_code()),
        nick,
        seq!["=".spec_bytes(), channel, encode_utf8(decoration_of(m.op, m.voice) + m.nick)],
    )
}

/// The IRC server state that one dispatcher owns.
#[derive(Debug)]
pub struct Server {
    host: String,
    clients: Vec<Session>,
    channels: Vec<Channel>,
}

impl Server {
    pub closed spec fn host_view(&self) -> Seq<char> {
        self.host@
    }

    /// Client ids are unique, users well formed; channel states are well
    /// formed and channel names unique.
    pub closed spec fn wf(&self) -> bool {
        &&& forall|i: int, j: int|
            0 <= i < j < self.clients@.len() ==> (#[trigger] self.clients@[i]).id != (#[trigger] self.clients@[j]).id
        &&& forall|i: int| 0 <= i < self.clients@.len() ==> (#[trigger] self.clients@[i]).user.wf()
        &&& forall|i: int| 0 <= i < self.channels@.len() ==> (#[trigger] self.channels@[i]).wf()
        &&& forall|i: int, j: int|
            0 <= i < j < self.channels@.len() ==> (#[trigger] self.channels@[i]).name_view() != (
            #[trigger] self.channels@[j]).name_view()
        &&& forall|i: int, j: int|
            0 <= i < j < self.clients@.len() && (#[trigger] self.clients@[i]).user.nick_view() == (
            #[trigger] self.clients@[j]).user.nick_view() ==> self.clients@[i].user.nick_view() == seq!['*']
    }

    pub closed spec fn has_client(&self, id: ClientId) -> bool {
        exists|i: int| 0 <= i < self.clients@.len() && (#[trigger] self.clients@[i]).id == id
    }

    closed spec fn client_index(&self, id: ClientId) -> int {
        choose|i: int| 0 <= i < self.clients@.len() && (#[trigger] self.clients@[i]).id == id
    }

    pub closed spec fn status_of(&self, id: ClientId) -> Status {
        self.clients@[self.client_index(id)].user.status_view()
    }

    pub closed spec fn nick_of(&self, id: ClientId) -> Seq<char> {
        self.clients@[self.client_index(id)].user.nick_view()
    }

    pub closed spec fn user_name_of(&self, id: ClientId) -> Seq<char> {
        self.clients@[self.client_index(id)].user.user_view()
    }

    pub closed spec fn realname_of(&self, id: ClientId) -> Seq<char> {
        self.clients@[self.client_index(id)].user.realname_view()
    }

    pub closed spec fn host_of(&self, id: ClientId) -> Seq<char> {
        self.clients@[self.client_index(id)].user.host_view()
    }

    pub closed spec fn mask_of(&self, id: ClientId) -> Seq<char> {
        self.clients@[self.client_index(id)].user.mask_view()
    }

    /// Another client goes by the nickname `nick`.
    /// Some client, the asking one included, goes by the nickname `nick`.
    pub closed spec fn nick_taken(&self, nick: Seq<u8>) -> bool {
        exists|j: int| 0 <= j < self.clients@.len() && encode_utf8((#[trigger] self.clients@[j]).user.nick_view()) == nick
    }

    /// The two servers have the same clients, in the same states.
    pub closed spec fn same_clients(&self, other: &Server) -> bool {
        self.clients == other.clients
    }

    /// Only the entry of client `id` may differ from `before`; the channels
    /// are the same.
    pub closed spec fn others_unchanged(&self, before: &Server, id: ClientId) -> bool {
        &&& self.channels == before.channels
        &&& self.host == before.host
        &&& self.clients@.len() == before.clients@.len()
        &&& forall|k: int|
            0 <= k < self.clients@.len() ==> (#[trigger] self.clients@[k]).id == before.clients@[k].id && (
            self.clients@[k].id != id ==> self.clients@[k] == before.clients@[k])
    }

    /// The client `x` goes by the nickname `nick`.
    pub closed spec fn nick_owner(&self, nick: Seq<u8>, x: ClientId) -> bool {
        exists|k: int|
            0 <= k < self.clients@.len() && (#[trigger] self.clients@[k]).id == x && encode_utf8(
                self.clients@[k].user.nick_view(),
            ) == nick
    }

    /// The channels by name.
    pub closed spec fn channel_map(&self) -> Map<Seq<char>, ChannelView> {
        Map::new(|n: Seq<char>| self.channel_named(n) is Some, |n: Seq<char>| self.channel_named(n)->0)
    }

    /// The member that the client `id` joins as.
    pub open spec fn joining_view(&self, id: ClientId) -> MemberView {
        MemberView {
            id,
            nick: self.nick_of(id),
            mask: self.mask_of(id),
            user: self.user_name_of(id),
            host: self.host_of(id),
            realname: self.realname_of(id),
            op: false,
            voice: false,
            creator: false,
        }
    }

    /// Some channel has `id` as a member.
    pub closed spec fn in_any_channel(&self, id: ClientId) -> bool {
        exists|k: int| 0 <= k < self.channels@.len() && ids_of((#[trigger] self.channels@[k]).view().members).contains(id)
    }

    /// The channel called `name`, if there is one.
    pub closed spec fn channel_named(&self, name: Seq<char>) -> Option<ChannelView> {
        if exists|i: int| 0 <= i < self.channels@.len() && (#[trigger] self.channels@[i]).name_view() == name {
            let i = choose|i: int| 0 <= i < self.channels@.len() && (#[trigger] self.channels@[i]).name_view() == name;
            Some(self.channels@[i].view())
        } else {
            None
        }
    }

    /// The topic of the channel called `name`, if there is one.
    pub closed spec fn topic_named(&self, name: Seq<char>) -> Option<Seq<char>> {
        if exists|i: int| 0 <= i < self.channels@.len() && (#[trigger] self.channels@[i]).name_view() == name {
            let i = choose|i: int| 0 <= i < self.channels@.len() && (#[trigger] self.channels@[i]).name_view() == name;
            Some(self.channels@[i].topic_view())
        } else {
            None
        }
    }

    /// The welcome reply that the client `id` receives.
    pub open spec fn welcome_line(&self, id: ClientId) -> Seq<u8> {
        response_line(
            encode_utf8(self.host_view()),
            three_digits(ResponseCode::RPL_WELCOME.spec_code()),
            encode_utf8(self.nick_of(id)),
            seq![encode_utf8(welcome_text(self.nick_of(id), self.user_name_of(id), self.host_of(id)))],
        )
    }

    /// A server called `host` without clients or channels.
    pub fn new(host: String) -> (r: Server)
        ensures
            r.wf(),
            r.host_view() == host@,
            forall|id: ClientId| !r.has_client(id),
            r.channel_map() == Map::<Seq<char>, ChannelView>::empty(),
    {
        let r = Server { host, clients: Vec::new(), channels: Vec::new() };
        assert(r.channel_map() =~= Map::<Seq<char>, ChannelView>::empty());
        r
    }

    /// Registers a newly connected client; nothing happens for an id that is
    /// connected already.
    pub fn connect(&mut self, id: ClientId, user: User)
        requires
            old(self).wf(),
            user.wf(),
            user.nick_view() == seq!['*'],
        ensures
            final(self).wf(),
            final(self).has_client(id),
            final(self).host_view() == old(self).host_view(),
            !old(self).has_client(id) ==> final(self).status_of(id) == user.status_view() && final(self).nick_of(id)
                == user.nick_view(),
    {
        if self.client_position(id).is_some() {
            return;
        }
        self.clients.push(Session { id, user });
        proof {
            let n = self.clients@.len() - 1;
            assert(self.clients@[n].id == id);
            assert forall|i: int, j: int| 0 <= i < j < self.clients@.len() implies (#[trigger] self.clients@[i]).id
                != (#[trigger] self.clients@[j]).id by {
                if j == n {
                    assert(self.clients@[i] == old(self).clients@[i]);
                }
            }
            assert forall|i: int| 0 <= i < self.clients@.len() implies (#[trigger] self.clients@[i]).user.wf() by {
                if i < n {
                    assert(self.clients@[i] == old(self).clients@[i]);
                }
            }
            self.lemma_index(id, n);
        }
    }

    proof fn lemma_index(&self, id: ClientId, i: int)
        requires
            self.wf(),
            0 <= i < self.clients@.len(),
            self.clients@[i].id == id,
        ensures
            self.has_client(id),
            self.client_index(id) == i,
    {
        let k = self.client_index(id);
        if k != i {
            if k < i {
                assert(self.clients@[k].id != self.clients@[i].id);
            } else {
                assert(self.clients@[i].id != self.clients@[k].id);
            }
        }
    }

    /// The position of the client `id`.
    fn client_position(&self, id: ClientId) -> (r: Option<usize>)
        requires
            self.wf(),
        ensures
            match r {
                Some(i) => i < self.clients@.len() && self.clients@[i as int].id == id && self.has_client(id)
                    && self.client_index(id) == i,
                None => !self.has_client(id),
            },
    {
        let mut i: usize = 0;
        while i < self.clients.len()
            invariant
                self.wf(),
                0 <= i <= self.clients@.len(),
                forall|k: int| 0 <= k < i ==> (#[trigger] self.clients@[k]).id != id,
            decreases self.clients@.len() - i,
        {
            if self.clients[i].id == id {
                proof {
                    self.lemma_index(id, i as int);
                }
                return Some(i);
            }
            i = i + 1;
        }
        None
    }

    /// Whether a client other than `id` goes by `nick`.
    fn nick_in_use(&self, nick: &[u8]) -> (r: bool)
        ensures
            r == self.nick_taken(nick@),
    {
        let mut i: usize = 0;
        while i < self.clients.len()
            invariant
                0 <= i <= self.clients@.len(),
                forall|k: int|
                    0 <= k < i ==> encode_utf8((#[trigger] self.clients@[k]).user.nick_view()) != nick@,
            decreases self.clients@.len() - i,
        {
            let s = &self.clients[i];
            if bytes_eq(s.user.nick().as_bytes(), nick) {
                return true;
            }
            i = i + 1;
        }
        false
    }

    /// A numeric reply to the client at position `i`.
    fn reply(&self, i: usize, code: ResponseCode, payload: &[&[u8]]) -> (r: Outgoing)
        requires
            i < self.clients@.len(),
        ensures
            r matches Outgoing::Line(to, line) && to == self.clients@[i as int].id && is_reply(
                line@,
                encode_utf8(self.host_view()),
                code,
            ) && line@ == response_line(
                encode_utf8(self.host_view()),
                three_digits(code.spec_code()),
                encode_utf8(self.clients@[i as int].user.nick_view()),
                views(payload@),
            ),
    {
        let s = &self.clients[i];
        let line = build_response(self.host.as_str(), code, s.user.nick(), payload);
        Outgoing::Line(s.id, line)
    }

    /// The welcome reply to the client at position `i`.
    fn welcome(&self, i: usize) -> (r: Outgoing)
        requires
            self.wf(),
            i < self.clients@.len(),
        ensures
            r matches Outgoing::Line(to, line) && to == self.clients@[i as int].id && line@ == self.welcome_line(to),
    {
        proof {
            reveal_strlit("Welcome to the Internet Relay Network ");
            reveal_strlit("!");
            reveal_strlit("@");
            self.lemma_index(self.clients@[i as int].id, i as int);
        }
        let s = &self.clients[i];
        let text = "Welcome to the Internet Relay Network ".to_owned().concat(s.user.nick()).concat("!").concat(
            s.user.user(),
        ).concat("@").concat(s.user.host());
        let mut payload: Vec<&[u8]> = Vec::new();
        payload.push(text.as_str().as_bytes());
        assert(views(payload@) =~= seq![encode_utf8(text@)]);
        assert(text@ =~= welcome_text(s.user.nick_view(), s.user.user_view(), s.user.host_view()));
        let line = build_response(self.host.as_str(), ResponseCode::RPL_WELCOME, s.user.nick(), payload.as_slice());
        assert(views(payload@) =~= seq![
            encode_utf8(welcome_text(self.nick_of(s.id), self.user_name_of(s.id), self.host_of(s.id))),
        ]);
        Outgoing::Line(s.id, line)
    }

    /// The user of the client at position `i`, taken out for an update.
    fn take_user(&mut self, i: usize) -> (r: User)
        requires
            old(self).wf(),
            i < old(self).clients@.len(),
        ensures
            r == old(self).clients@[i as int].user,
            final(self).clients@.len() == old(self).clients@.len() - 1,
            forall|k: int| 0 <= k < i ==> final(self).clients@[k] == old(self).clients@[k],
            forall|k: int| i <= k < final(self).clients@.len() ==> final(self).clients@[k] == old(self).clients@[k + 1],
            final(self).channels == old(self).channels,
            final(self).host == old(self).host,
    {
        let s = self.clients.remove(i);
        s.user
    }

    /// Puts back a user taken out at position `i`.
    fn restore_user(&mut self, i: usize, id: ClientId, user: User)
        requires
            i <= old(self).clients@.len(),
        ensures
            final(self).clients@ == old(self).clients@.insert(i as int, Session { id, user }),
            final(self).channels == old(self).channels,
            final(self).host == old(self).host,
    {
        self.clients.insert(i, Session { id, user });
    }

    /// NICK `<nickname>`.
    pub fn handle_nick(&mut self, id: ClientId, msg: &Message) -> (r: Vec<Outgoing>)
        requires
            old(self).wf(),
            msg.wf(),
        ensures
            nick_outcome(old(self), final(self), id, msg, r@),
    {
        let mut out: Vec<Outgoing> = Vec::new();
        let i = match self.client_position(id) {
            Some(i) => i,
            None => {
                return out;
            },
        };
        let nick = match msg.param(0) {
            Some(n) => n,
            None => {
                proof {
                    self.lemma_index(id, i as int);
                }
                let payload: Vec<&[u8]> = vec!["No nickname given".as_bytes()];
                out.push(self.reply(i, ResponseCode::ERR_NONICKNAMEGIVEN, payload.as_slice()));
                assert(views(payload@) =~= nick_error_payload(ResponseCode::ERR_NONICKNAMEGIVEN, msg.params_view()));
                return out;
            },
        };
        proof {
            self.lemma_index(id, i as int);
        }
        let erroneous: Vec<&[u8]> = vec![nick, "Erroneous nickname".as_bytes()];
        assert(views(erroneous@) =~= nick_error_payload(ResponseCode::ERR_ERRONEUSNICKNAME, msg.params_view()));
        let text = match crate::misc::utf8_str(nick) {
            Some(t) => t,
            None => {
                out.push(self.reply(i, ResponseCode::ERR_ERRONEUSNICKNAME, erroneous.as_slice()));
                return out;
            },
        };
        if is_reserved_nick(nick) {
            out.push(self.reply(i, ResponseCode::ERR_ERRONEUSNICKNAME, erroneous.as_slice()));
            return out;
        }
        if self.nick_in_use(nick) {
            let in_use: Vec<&[u8]> = vec![nick, "Nickname is already in use".as_bytes()];
            assert(views(in_use@) =~= nick_error_payload(ResponseCode::ERR_NICKNAMEINUSE, msg.params_view()));
            out.push(self.reply(i, ResponseCode::ERR_NICKNAMEINUSE, in_use.as_slice()));
            return out;
        }
        let mut user = self.take_user(i);
        let _previous = user.set_nick(text.to_owned());
        let (status, welcome) = on_nick(user.status());
        user.set_status(status);
        self.restore_user(i, id, user);
        proof {
            assert forall|a: int, b: int| 0 <= a < b < self.clients@.len() implies (#[trigger] self.clients@[a]).id
                != (#[trigger] self.clients@[b]).id by {
                assert(self.clients@[a].id == old(self).clients@[a].id);
                assert(self.clients@[b].id == old(self).clients@[b].id);
            }
            assert forall|k: int| 0 <= k < self.clients@.len() implies (#[trigger] self.clients@[k]).user.wf() by {
                if k != i {
                    assert(self.clients@[k] == old(self).clients@[k]);
                }
            }
            self.lemma_index(id, i as int);
            old(self).lemma_index(id, i as int);
            assert forall|k: int| 0 <= k < self.clients@.len() && k != i implies self.clients@[k] == old(self).clients@[k] by {}
            self.lemma_others(old(self), id, i as int);
        }
        if welcome {
            out.push(self.welcome(i));
        }
        out
    }

    /// USER `<username> <mode> <unused> <realname>`.
    pub fn handle_user(&mut self, id: ClientId, msg: &Message) -> (r: Vec<Outgoing>)
        requires
            old(self).wf(),
            msg.wf(),
        ensures
            user_outcome(old(self), final(self), id, msg, r@),
    {
        let mut out: Vec<Outgoing> = Vec::new();
        let i = match self.client_position(id) {
            Some(i) => i,
            None => {
                return out;
            },
        };
        if msg.param_count() != 4 {
            out.push(self.reply(i, ResponseCode::ERR_NEEDMOREPARAMS, &[]));
            return out;
        }
        let (status, welcome) = match on_user(self.clients[i].user.status()) {
            Ok(v) => v,
            Err(code) => {
                out.push(self.reply(i, code, &[]));
                return out;
            },
        };
        let username = match msg.param(0) {
            Some(p) => lossy_string(p),
            None => String::new(),
        };
        let realname = match msg.param(3) {
            Some(p) => lossy_string(p),
            None => String::new(),
        };
        let mut user = self.take_user(i);
        user.set_user(username);
        user.set_realname(realname);
        user.set_status(status);
        self.restore_user(i, id, user);
        proof {
            assert forall|a: int, b: int| 0 <= a < b < self.clients@.len() implies (#[trigger] self.clients@[a]).id
                != (#[trigger] self.clients@[b]).id by {
                assert(self.clients@[a].id == old(self).clients@[a].id);
                assert(self.clients@[b].id == old(self).clients@[b].id);
            }
            assert forall|k: int| 0 <= k < self.clients@.len() implies (#[trigger] self.clients@[k]).user.wf() by {
                if k != i {
                    assert(self.clients@[k] == old(self).clients@[k]);
                }
            }
            self.lemma_index(id, i as int);
            old(self).lemma_index(id, i as int);
            assert forall|k: int| 0 <= k < self.clients@.len() && k != i implies self.clients@[k] == old(self).clients@[k] by {}
            self.lemma_others(old(self), id, i as int);
        }
        if welcome {
            out.push(self.welcome(i));
        }
        out
    }

    /// A CAP reply from the server to the client at position `i`.
    fn cap_reply(&self, i: usize, sub: Subcommand, arg: Option<&[u8]>) -> (r: Outgoing)
        requires
            i < self.clients@.len(),
        ensures
            r matches Outgoing::Line(to, l) && to == self.clients@[i as int].id && l@ == cap_line(
                encode_utf8(self.host_view()),
                encode_utf8(self.clients@[i as int].user.nick_view()),
                sub,
                opt_view(arg),
            ),
    {
        let s = &self.clients[i];
        let name = sub.as_bytes();
        let mut payload: Vec<&[u8]> = Vec::new();
        payload.push(s.user.nick().as_bytes());
        payload.push(name.as_slice());
        if let Some(a) = arg {
            payload.push(a);
        }
        assert(views(payload@) =~= seq![encode_utf8(s.user.nick_view()), subcommand_name(sub)] + match opt_view(arg) {
            Some(a) => seq![a],
            None => Seq::<Seq<u8>>::empty(),
        });
        Outgoing::Line(s.id, build_msg(self.host.as_str(), Command::CAP, payload.as_slice()))
    }

    /// CAP `<subcommand> [<param>]`: LS, LIST and REQ suspend registration,
    /// END resumes it.
    pub fn handle_cap(&mut self, id: ClientId, msg: &Message) -> (r: Vec<Outgoing>)
        requires
            old(self).wf(),
            msg.wf(),
        ensures
            cap_outcome(old(self), final(self), id, msg, r@),
    {
        let mut out: Vec<Outgoing> = Vec::new();
        let i = match self.client_position(id) {
            Some(i) => i,
            None => {
                return out;
            },
        };
        let sub = match msg.param(0) {
            Some(p) => Subcommand::from_slice(p),
            None => None,
        };
        let sub = match sub {
            Some(s) => s,
            None => {
                out.push(self.reply(i, ResponseCode::ERR_INVALIDCAPCMD, &[]));
                return out;
            },
        };
        match sub {
            Subcommand::LS | Subcommand::LIST | Subcommand::REQ => {
                let mut user = self.take_user(i);
                let status = suspend_registration(user.status());
                user.set_status(status);
                self.restore_user(i, id, user);
                proof {
                    self.lemma_after_update(old(self), id, i as int);
                    assert forall|k: int| 0 <= k < self.clients@.len() && k != i implies self.clients@[k] == old(self).clients@[k] by {}
                    self.lemma_others(old(self), id, i as int);
                }
                let reply = match sub {
                    Subcommand::REQ => self.cap_reply(i, Subcommand::NAK, msg.param(1)),
                    _ => self.cap_reply(i, sub, None),
                };
                out.push(reply);
            },
            Subcommand::END => {
                let mut user = self.take_user(i);
                let (status, welcome) = continue_registration(user.status());
                user.set_status(status);
                self.restore_user(i, id, user);
                proof {
                    self.lemma_after_update(old(self), id, i as int);
                    assert forall|k: int| 0 <= k < self.clients@.len() && k != i implies self.clients@[k] == old(self).clients@[k] by {}
                    self.lemma_others(old(self), id, i as int);
                }
                if welcome {
                    out.push(self.welcome(i));
                }
            },
            Subcommand::CLEAR => {
                out.push(self.cap_reply(i, Subcommand::ACK, None));
            },
            _ => {},
        }
        out
    }

    /// After the user at position `i` was taken out and put back updated,
    /// the registry is still well formed and the client still found there.
    proof fn lemma_others(&self, before: &Server, id: ClientId, i: int)
        requires
            0 <= i < before.clients@.len(),
            before.clients@[i].id == id,
            self.clients@.len() == before.clients@.len(),
            self.clients@[i].id == id,
            forall|k: int| 0 <= k < self.clients@.len() && k != i ==> self.clients@[k] == before.clients@[k],
            self.channels == before.channels,
            self.host == before.host,
        ensures
            self.others_unchanged(before, id),
    {
    }

    proof fn lemma_after_update(&self, before: &Server, id: ClientId, i: int)
        requires
            before.wf(),
            0 <= i < before.clients@.len(),
            before.clients@[i].id == id,
            self.clients@.len() == before.clients@.len(),
            self.clients@[i].id == id,
            self.clients@[i].user.wf(),
            self.clients@[i].user.nick_view() == before.clients@[i].user.nick_view(),
            forall|k: int| 0 <= k < self.clients@.len() && k != i ==> self.clients@[k] == before.clients@[k],
            self.channels == before.channels,
        ensures
            self.wf(),
            self.has_client(id),
            self.client_index(id) == i,
            before.client_index(id) == i,
    {
        assert forall|a: int, b: int|
            0 <= a < b < self.clients@.len() && (#[trigger] self.clients@[a]).user.nick_view() == (
            #[trigger] self.clients@[b]).user.nick_view() implies self.clients@[a].user.nick_view() == seq!['*'] by {
            if a != i {
                assert(self.clients@[a] == before.clients@[a]);
            }
            if b != i {
                assert(self.clients@[b] == before.clients@[b]);
            }
        }
        assert forall|a: int, b: int| 0 <= a < b < self.clients@.len() implies (#[trigger] self.clients@[a]).id
            != (#[trigger] self.clients@[b]).id by {
            if a != i {
                assert(self.clients@[a] == before.clients@[a]);
            }
            if b != i {
                assert(self.clients@[b] == before.clients@[b]);
            }
            assert(before.clients@[a].id != before.clients@[b].id);
        }
        assert forall|k: int| 0 <= k < self.clients@.len() implies (#[trigger] self.clients@[k]).user.wf() by {
            if k != i {
                assert(self.clients@[k] == before.clients@[k]);
            }
        }
        self.lemma_index(id, i);
        before.lemma_index(id, i);
    }

    /// The position of the channel called `name`.
    fn channel_position(&self, name: &[u8]) -> (r: Option<usize>)
        ensures
            match r {
                Some(i) => i < self.channels@.len() && encode_utf8(self.channels@[i as int].name_view()) == name@,
                None => forall|k: int|
                    0 <= k < self.channels@.len() ==> encode_utf8((#[trigger] self.channels@[k]).name_view()) != name@,
            },
    {
        let mut i: usize = 0;
        while i < self.channels.len()
            invariant
                0 <= i <= self.channels@.len(),
                forall|k: int| 0 <= k < i ==> encode_utf8((#[trigger] self.channels@[k]).name_view()) != name@,
            decreases self.channels@.len() - i,
        {
            if bytes_eq(self.channels[i].name().as_bytes(), name) {
                return Some(i);
            }
            i = i + 1;
        }
        None
    }

    /// Joins the client at position `i` to the channel called `name`,
    /// creating the channel (topic-protected, members only) when there is
    /// none. Returns the outcome of the join policy.
    pub fn join_channel(&mut self, id: ClientId, name: &str, password: Option<&[u8]>) -> (r: (
        Result<bool, ResponseCode>,
        Vec<Outgoing>,
    ))
        requires
            old(self).wf(),
        ensures
            final(self).wf(),
            final(self).host_view() == old(self).host_view(),
            final(self).same_clients(old(self)),
            !old(self).has_client(id) ==> r.0 == Err::<bool, ResponseCode>(ResponseCode::ERR_NOSUCHNICK),
            old(self).has_client(id) ==> ({
                let base = join_base(old(self).channel_named(name@));
                let m = old(self).joining_view(id);
                &&& r.0 == join_result(base, m, opt_view(password))
                &&& final(self).channel_named(name@) == Some(after_join(base, m, opt_view(password)))
                &&& final(self).channel_map() == old(self).channel_map().insert(name@, after_join(base, m, opt_view(password)))
                &&& r.0 != Ok::<bool, ResponseCode>(true) ==> r.1@.len() == 0
                &&& r.0 == Ok::<bool, ResponseCode>(true) ==> r.1@.len() >= after_join(base, m, opt_view(password)).members.len()
                    && line_recipients(r.1@).subrange(0, after_join(base, m, opt_view(password)).members.len() as int)
                    == ids_of(after_join(base, m, opt_view(password)).members)
                    && forall|j: int| 0 <= j < after_join(base, m, opt_view(password)).members.len() ==> (#[trigger] r.1@[j] matches Outgoing::Line(_, l) && l@ == wire_line(
                        encode_utf8(old(self).mask_of(id)),
                        command_name(Command::JOIN),
                        seq![name.spec_bytes()],
                    ))
            }),
    {
        let mut out: Vec<Outgoing> = Vec::new();
        let ci = match self.client_position(id) {
            Some(i) => i,
            None => {
                return (Err(ResponseCode::ERR_NOSUCHNICK), out);
            },
        };
        let member = Member::new(id, &self.clients[ci].user);
        let position = self.channel_position(name.as_bytes());
        proof {
            vstd::utf8::encode_utf8_decode_utf8(name@);
            if let Some(k) = position {
                vstd::utf8::encode_utf8_decode_utf8(self.channels@[k as int].name_view());
                self.lemma_channel_named(name@, k as int);
            } else {
                assert forall|k: int| 0 <= k < self.channels@.len() implies (#[trigger] self.channels@[k]).name_view()
                    != name@ by {
                    vstd::utf8::encode_utf8_decode_utf8(self.channels@[k].name_view());
                }
            }
        }
        let ghost m = member.view();
        proof {
            old(self).lemma_index(id, ci as int);
        }
        match position {
            Some(k) => {
                let ghost c = self.channels@[k as int].view();
                let mut channel = self.channels.remove(k);
                let result = channel.join(member, password);
                self.channels.insert(k, channel);
                proof {
                    assert forall|a: int| 0 <= a < self.channels@.len() && a != k implies self.channels@[a]
                        == old(self).channels@[a] by {}
                    assert forall|a: int, b: int| 0 <= a < b < self.channels@.len() implies (
                    #[trigger] self.channels@[a]).name_view() != (#[trigger] self.channels@[b]).name_view() by {
                        assert(self.channels@[a].name_view() == old(self).channels@[a].name_view());
                        assert(self.channels@[b].name_view() == old(self).channels@[b].name_view());
                    }
                    assert forall|a: int| 0 <= a < self.channels@.len() implies (#[trigger] self.channels@[a]).wf() by {
                        if a != k {
                            assert(self.channels@[a] == old(self).channels@[a]);
                        }
                    }
                    self.lemma_channel_named(name@, k as int);
                    assert forall|n: Seq<char>| n != name@ implies #[trigger] self.channel_named(n) == old(self).channel_named(n) by {
                        self.lemma_replaced_channel(old(self), k as int, n);
                    }
                    self.lemma_map_insert(old(self), name@, self.channels@[k as int].view());
                }
                if let Ok(true) = result {
                    self.join_notices(k, ci, &mut out);
                }
                (result, out)
            },
            None => {
                let mut channel = Channel::new(name.to_owned());
                channel.add_flag(ChannelMode::TopicProtect);
                channel.add_flag(ChannelMode::MemberOnly);
                proof {
                    let f = channel.view().flags;
                    assert(!Seq::<ChannelMode>::empty().contains(ChannelMode::TopicProtect));
                    assert(Seq::<ChannelMode>::empty().push(ChannelMode::TopicProtect) =~= seq![ChannelMode::TopicProtect]);
                    assert(!seq![ChannelMode::TopicProtect].contains(ChannelMode::MemberOnly)) by {
                        if seq![ChannelMode::TopicProtect].contains(ChannelMode::MemberOnly) {
                            let w = choose|w: int| 0 <= w < 1 && seq![ChannelMode::TopicProtect][w] == ChannelMode::MemberOnly;
                        }
                    }
                    assert(f =~= seq![ChannelMode::TopicProtect, ChannelMode::MemberOnly]);
                    if f.contains(ChannelMode::InviteOnly) {
                        let w = choose|w: int| 0 <= w < f.len() && f[w] == ChannelMode::InviteOnly;
                    }
                    assert(!crate::channel::matches_any(channel.view().bans, m.mask));
                    assert(!ids_of(channel.view().members).contains(id));
                    assert(channel.view() == fresh_channel());
                }
                let result = channel.join(member, password);
                self.channels.push(channel);
                let k = self.channels.len() - 1;
                proof {
                    assert(ids_of(self.channels@[k as int].view().members) =~= seq![id]);
                    assert forall|a: int, b: int| 0 <= a < b < self.channels@.len() implies (
                    #[trigger] self.channels@[a]).name_view() != (#[trigger] self.channels@[b]).name_view() by {
                        assert(self.channels@[a] == old(self).channels@[a]);
                        if b < k {
                            assert(self.channels@[b] == old(self).channels@[b]);
                        }
                    }
                    assert forall|a: int| 0 <= a < self.channels@.len() implies (#[trigger] self.channels@[a]).wf() by {
                        if a < k {
                            assert(self.channels@[a] == old(self).channels@[a]);
                        }
                    }
                    self.lemma_channel_named(name@, k as int);
                    assert forall|n: Seq<char>| n != name@ implies #[trigger] self.channel_named(n) == old(self).channel_named(n) by {
                        self.lemma_appended_channel(old(self), n);
                    }
                    self.lemma_map_insert(old(self), name@, self.channels@[k as int].view());
                }
                self.join_notices(k, ci, &mut out);
                (result, out)
            },
        }
    }

    /// After a join: the JOIN line to every member, then the topic and the
    /// member list to the new member.
    fn join_notices(&self, k: usize, ci: usize, out: &mut Vec<Outgoing>)
        requires
            k < self.channels@.len(),
            ci < self.clients@.len(),
            old(out)@.len() == 0,
        ensures
            final(out)@.len() >= self.channels@[k as int].view().members.len(),
            line_recipients(final(out)@).subrange(0, self.channels@[k as int].view().members.len() as int) == ids_of(
                self.channels@[k as int].view().members,
            ),
            forall|j: int|
                0 <= j < self.channels@[k as int].view().members.len() ==> (#[trigger] final(out)@[j] matches Outgoing::Line(
                    _,
                    l,
                ) && l@ == wire_line(
                    encode_utf8(self.clients@[ci as int].user.mask_view()),
                    command_name(Command::JOIN),
                    seq![encode_utf8(self.channels@[k as int].name_view())],
                )),
    {
        let channel = &self.channels[k];
        let session = &self.clients[ci];
        let name = channel.name().as_bytes();
        let mask = session.user.real_hostmask().as_str();
        let members = channel.members();
        let ghost ms = channel.view().members;
        assert(name@ == encode_utf8(channel.name_view()));
        let mut j: usize = 0;
        while j < members.len()
            invariant
                members_view(members@) == ms,
                name@ == encode_utf8(channel.name_view()),
                mask@ == session.user.mask_view(),
                j <= members@.len(),
                out@.len() == j,
                forall|t: int| 0 <= t < j ==> (#[trigger] out@[t] matches Outgoing::Line(to, l) && to == ms[t].id
                    && l@ == wire_line(
                    encode_utf8(session.user.mask_view()),
                    command_name(Command::JOIN),
                    seq![encode_utf8(channel.name_view())],
                )),
            decreases members@.len() - j,
        {
            let mut payload: Vec<&[u8]> = Vec::new();
            payload.push(name);
            assert(views(payload@) =~= seq![encode_utf8(channel.name_view())]);
            let line = build_msg(mask, Command::JOIN, payload.as_slice());
            out.push(Outgoing::Line(members[j].id(), line));
            j = j + 1;
        }
        let ghost joins = out@;
        proof {
            assert(line_recipients(joins) =~= ids_of(ms));
        }
        out.push(self.topic_reply(ci, k, name));
        let ghost mid = out@;
        assert(mid.subrange(0, joins.len() as int) =~= joins);
        self.names_reply(ci, k, out);
        proof {
            assert(out@.subrange(0, mid.len() as int) == mid);
            assert(out@.subrange(0, joins.len() as int) =~= mid.subrange(0, joins.len() as int));
            assert(line_recipients(out@).subrange(0, ms.len() as int) =~= line_recipients(joins));
            assert forall|t: int| 0 <= t < ms.len() implies (#[trigger] out@[t] matches Outgoing::Line(_, l) && l@ == wire_line(
                encode_utf8(self.clients@[ci as int].user.mask_view()),
                command_name(Command::JOIN),
                seq![encode_utf8(self.channels@[k as int].name_view())],
            )) by {
                assert(out@[t] == out@.subrange(0, joins.len() as int)[t]);
            }
        }
    }

    /// JOIN `<channel>{,<channel>} [<key>{,<key>}]`: each channel in turn,
    /// with the key at the same position.
    pub fn handle_join(&mut self, id: ClientId, msg: &Message) -> (r: Vec<Outgoing>)
        requires
            old(self).wf(),
            msg.wf(),
        ensures
            join_outcome(old(self), final(self), id, msg, r@),
    {
        let mut out: Vec<Outgoing> = Vec::new();
        let ci = match self.client_position(id) {
            Some(i) => i,
            None => {
                return out;
            },
        };
        let request = match JoinRequest::from_message(msg) {
            Ok(j) => j,
            Err((code, message)) => {
                match message {
                    ErrorMessage::WithSubject(subject, reason) => {
                        out.push(self.reply(ci, code, &[subject.as_slice(), reason.as_slice()]));
                    },
                    ErrorMessage::Plain(reason) => {
                        out.push(self.reply(ci, code, &[reason.as_slice()]));
                    },
                    ErrorMessage::Silent => {
                        out.push(self.reply(ci, code, &[]));
                    },
                }
                return out;
            },
        };
        let ghost names = slices_view(request.channels@);
        let ghost keys = slices_view(request.passwords@);
        let ghost m = old(self).joining_view(id);
        assert(names.subrange(0, 0) =~= Seq::<Seq<u8>>::empty());
        let mut i: usize = 0;
        while i < request.channels.len()
            invariant
                self.wf(),
                self.has_client(id),
                self.same_clients(old(self)),
                self.host_view() == old(self).host_view(),
                names == slices_view(request.channels@),
                keys == slices_view(request.passwords@),
                m == old(self).joining_view(id),
                0 <= i <= request.channels@.len(),
                self.channel_map() == joins_applied(old(self).channel_map(), m, names.subrange(0, i as int), keys),
                names == list_items(msg.params_view()[0]),
                keys == join_keys(msg.params_view()),
                join_accepted(msg.params_view()),
                old(self).has_client(id),
                i == 0 ==> *self == *old(self) && out@.len() == 0,
                names.len() == 1 && i == 1 ==> single_join_lines(old(self), id, msg, out@),
            decreases request.channels@.len() - i,
        {
            let name = request.channels[i];
            let password = if i < request.passwords.len() {
                Some(request.passwords[i])
            } else {
                None
            };
            let ghost before = *self;
            proof {
                assert(names.subrange(0, i + 1).drop_last() =~= names.subrange(0, i as int));
                assert(names.subrange(0, i + 1).last() == name@);
                assert(self.joining_view(id) == m);
                assert(opt_view(password) == (if i < keys.len() { Some(keys[i as int]) } else { None::<Seq<u8>> }));
            }
            if let Some(text) = crate::misc::verify_channel(name) {
                proof {
                    vstd::utf8::encode_utf8_decode_utf8(text@);
                    assert(map_get(before.channel_map(), text@) == before.channel_named(text@));
                }
                let (result, notices) = self.join_channel(id, text, password);
                append_all(&mut out, notices);
                if let Err(code) = result {
                    if let Some(k) = self.client_position(id) {
                        out.push(self.reply(k, code, &[name]));
                    }
                }
            } else {
                proof {
                    assert(crate::handler::refused(names, ItemCheck::Channel, i as int));
                    assert(crate::handler::is_first_refused(names, ItemCheck::Channel, 0) || i > 0);
                }
            }
            i = i + 1;
        }
        assert(names.subrange(0, names.len() as int) =~= names);
        out
    }

    /// Removes the client `id` from every channel, telling the remaining
    /// members with `line`; channels left empty are removed.
    fn leave_all(&mut self, id: ClientId, line: &Vec<u8>, out: &mut Vec<Outgoing>)
        requires
            old(self).wf(),
        ensures
            final(self).wf(),
            final(self).clients == old(self).clients,
            final(self).host == old(self).host,
            forall|k: int|
                0 <= k < final(self).channels@.len() ==> !ids_of((#[trigger] final(self).channels@[k]).view().members).contains(id),
            final(out)@.len() >= old(out)@.len(),
            final(out)@.subrange(0, old(out)@.len() as int) == old(out)@,
            forall|j: int|
                old(out)@.len() <= j < final(out)@.len() ==> (#[trigger] final(out)@[j] matches Outgoing::Line(_, l) && l@
                    == line@),
    {
        let ghost orig = self.channels@;
        let ghost start = out@;
        let mut kept: Vec<Channel> = Vec::new();
        while self.channels.len() > 0
            invariant
                self.clients == old(self).clients,
                self.host == old(self).host,
                self.wf(),
                self.channels@ == orig.subrange(0, self.channels@.len() as int),
                self.channels@.len() <= orig.len(),
                old(self).channels@ == orig,
                old(self).wf(),
                start == old(out)@,
                out@.len() >= start.len(),
                out@.subrange(0, start.len() as int) == start,
                forall|j: int| start.len() <= j < out@.len() ==> (#[trigger] out@[j] matches Outgoing::Line(_, l) && l@ == line@),
                forall|a: int| 0 <= a < kept@.len() ==> (#[trigger] kept@[a]).wf(),
                forall|a: int| 0 <= a < kept@.len() ==> !ids_of((#[trigger] kept@[a]).view().members).contains(id),
                forall|a: int, b: int| 0 <= a < b < kept@.len() ==> (#[trigger] kept@[a]).name_view() != (#[trigger] kept@[b]).name_view(),
                forall|a: int| 0 <= a < kept@.len() ==> exists|j: int| self.channels@.len() <= j < orig.len() && (#[trigger] kept@[a]).name_view() == orig[j].name_view(),
            decreases self.channels@.len(),
        {
            let ghost n = self.channels@.len() as int;
            let mut c = self.channels.pop().unwrap();
            assert(c == orig[n - 1]);
            if c.is_member(id) {
                c.remove_member(id);
                let members = c.members();
                let mut j: usize = 0;
                while j < members.len()
                    invariant
                        out@.len() >= start.len(),
                        out@.subrange(0, start.len() as int) == start,
                        forall|t: int| start.len() <= t < out@.len() ==> (#[trigger] out@[t] matches Outgoing::Line(_, l) && l@ == line@),
                    decreases members@.len() - j,
                {
                    let copy = line.clone();
                    assert(copy@ == line@);
                    let ghost prev = out@;
                    out.push(Outgoing::Line(members[j].id(), copy));
                    assert(out@.subrange(0, start.len() as int) =~= prev.subrange(0, start.len() as int));
                    j = j + 1;
                }
            }
            if c.member_count() > 0 {
                let ghost before = kept@;
                kept.push(c);
                proof {
                    assert forall|a: int, b: int| 0 <= a < b < kept@.len() implies (#[trigger] kept@[a]).name_view()
                        != (#[trigger] kept@[b]).name_view() by {
                        if b == kept@.len() - 1 {
                            assert(kept@[a] == before[a]);
                            let j = choose|j: int| n <= j < orig.len() && before[a].name_view() == orig[j].name_view();
                            assert(orig[n - 1].name_view() != orig[j].name_view());
                        } else {
                            assert(kept@[a] == before[a] && kept@[b] == before[b]);
                        }
                    }
                    assert forall|a: int| 0 <= a < kept@.len() implies exists|j: int| n - 1 <= j < orig.len() && (#[trigger] kept@[a]).name_view() == orig[j].name_view() by {
                        if a == kept@.len() - 1 {
                            assert(kept@[a].name_view() == orig[n - 1].name_view());
                        } else {
                            assert(kept@[a] == before[a]);
                            let j = choose|j: int| n <= j < orig.len() && before[a].name_view() == orig[j].name_view();
                            assert(n - 1 <= j < orig.len() && kept@[a].name_view() == orig[j].name_view());
                        }
                    }
                    assert forall|a: int| 0 <= a < kept@.len() implies (#[trigger] kept@[a]).wf() by {
                        if a < kept@.len() - 1 {
                            assert(kept@[a] == before[a]);
                        }
                    }
                    assert forall|a: int| 0 <= a < kept@.len() implies !ids_of((#[trigger] kept@[a]).view().members).contains(id) by {
                        if a < kept@.len() - 1 {
                            assert(kept@[a] == before[a]);
                        }
                    }
                }
            } else {
                proof {
                    assert forall|a: int| 0 <= a < kept@.len() implies exists|j: int| n - 1 <= j < orig.len() && (#[trigger] kept@[a]).name_view() == orig[j].name_view() by {
                        let j = choose|j: int| n <= j < orig.len() && kept@[a].name_view() == orig[j].name_view();
                        assert(n - 1 <= j < orig.len() && kept@[a].name_view() == orig[j].name_view());
                    }
                }
            }
            proof {
                assert(self.channels@ =~= orig.subrange(0, n - 1));
            }
        }
        self.channels = kept;
    }

    /// QUIT `[<reason>]`: the client leaves every channel, telling the other
    /// members, gives up its nickname and is disconnected.
    pub fn handle_quit(&mut self, id: ClientId, msg: &Message) -> (r: Vec<Outgoing>)
        requires
            old(self).wf(),
            msg.wf(),
        ensures
            quit_outcome(old(self), final(self), id, msg, r@),
    {
        let mut out: Vec<Outgoing> = Vec::new();
        let ci = match self.client_position(id) {
            Some(i) => i,
            None => {
                return out;
            },
        };
        let mask = self.clients[ci].user.public_hostmask().as_str();
        let mut payload: Vec<&[u8]> = Vec::new();
        if let Some(reason) = msg.param(0) {
            payload.push(reason);
        }
        let line = build_msg(mask, Command::QUIT, payload.as_slice());
        proof {
            old(self).lemma_index(id, ci as int);
        }
        assert(views(payload@) =~= if msg.params_view().len() > 0 {
            seq![msg.params_view()[0]]
        } else {
            Seq::<Seq<u8>>::empty()
        });
        assert(line@ == quit_line(old(self), id, msg));
        self.leave_all(id, &line, &mut out);
        let ghost before = self.clients@;
        let _gone = self.clients.remove(ci);
        proof {
            assert forall|a: int, b: int| 0 <= a < b < self.clients@.len() implies (#[trigger] self.clients@[a]).id
                != (#[trigger] self.clients@[b]).id by {
                let oa = if a < ci { a } else { a + 1 };
                let ob = if b < ci { b } else { b + 1 };
                assert(self.clients@[a] == before[oa] && self.clients@[b] == before[ob]);
            }
            assert forall|k: int| 0 <= k < self.clients@.len() implies (#[trigger] self.clients@[k]).user.wf() by {
                let ok = if k < ci { k } else { k + 1 };
                assert(self.clients@[k] == before[ok]);
            }
            assert forall|other: ClientId| other != id implies (self.has_client(other) <==> old(self).has_client(other)) by {
                if self.has_client(other) {
                    let k = choose|k: int| 0 <= k < self.clients@.len() && (#[trigger] self.clients@[k]).id == other;
                    let ok = if k < ci { k } else { k + 1 };
                    assert(before[ok].id == other);
                }
                if old(self).has_client(other) {
                    let k = choose|k: int| 0 <= k < before.len() && (#[trigger] before[k]).id == other;
                    assert(k != ci);
                    if k < ci {
                        assert(self.clients@[k].id == other);
                    } else {
                        assert(self.clients@[k - 1].id == other);
                    }
                }
            }
            if self.has_client(id) {
                let k = choose|k: int| 0 <= k < self.clients@.len() && (#[trigger] self.clients@[k]).id == id;
                let ok = if k < ci { k } else { k + 1 };
                assert(before[ok].id == id);
                assert(before[ci as int].id == id);
            }
        }
        out.push(Outgoing::Disconnect(id));
        out
    }

    /// MODE `<channel> *( ( "-" / "+" ) *<modes> *<modeparams> )`: a
    /// channel operator changes the channel's modes, in order; without
    /// changes the current flags are shown.
    pub fn handle_mode(&mut self, id: ClientId, msg: &Message) -> (r: Vec<Outgoing>)
        requires
            old(self).wf(),
            msg.wf(),
        ensures
            mode_outcome_of(old(self), final(self), id, msg, r@),
    {
        let mut out: Vec<Outgoing> = Vec::new();
        let ci = match self.client_position(id) {
            Some(i) => i,
            None => {
                return out;
            },
        };
        let target = match msg.param(0) {
            Some(p) => p,
            None => {
                out.push(self.reply(ci, ResponseCode::ERR_NEEDMOREPARAMS, &[]));
                return out;
            },
        };
        let name = match verify_receiver(target) {
            Some(Receiver::Channel(name)) => name,
            Some(Receiver::Nick(_)) => {
                return out;
            },
            None => {
                if target.len() > 0 && target[0] == 35 {
                    out.push(self.reply(ci, ResponseCode::ERR_NOSUCHCHANNEL, &[target]));
                } else {
                    out.push(self.reply(ci, ResponseCode::ERR_USERSDONTMATCH, &[]));
                }
                return out;
            },
        };
        proof {
            vstd::utf8::decode_utf8_encode_utf8(target@);
        }
        let position = self.channel_position(name.as_str().as_bytes());
        proof {
            if let Some(k) = position {
                vstd::utf8::encode_utf8_decode_utf8(self.channels@[k as int].name_view());
                vstd::utf8::encode_utf8_decode_utf8(name@);
                self.lemma_channel_named(name@, k as int);
            } else {
                assert forall|k: int| 0 <= k < self.channels@.len() implies (#[trigger] self.channels@[k]).name_view()
                    != name@ by {
                    vstd::utf8::encode_utf8_decode_utf8(self.channels@[k].name_view());
                    vstd::utf8::encode_utf8_decode_utf8(name@);
                }
            }
        }
        let k = match position {
            Some(k) => k,
            None => {
                out.push(self.reply(ci, ResponseCode::ERR_NOSUCHCHANNEL, &[target]));
                return out;
            },
        };
        if msg.param_count() <= 1 {
            let mut shown: Vec<u8> = Vec::new();
            shown.push(43);
            crate::message::append(&mut shown, self.channels[k].flags().as_slice());
            out.push(self.reply(ci, ResponseCode::RPL_CHANNELMODEIS, &[target, shown.as_slice()]));
            return out;
        }
        let is_op = self.channels[k].is_operator(id);
        if !is_op {
            out.push(self.reply(ci, ResponseCode::ERR_CHANOPRIVSNEEDED, &[target]));
            return out;
        }
        let mut params = msg.params();
        let _ = params.next();
        let changes = modes_do(params);
        let mask = self.clients[ci].user.public_hostmask().as_str();
        let mut channel = self.channels.remove(k);
        let ghost c0 = channel.view();
        let mut i: usize = 0;
        assert(changes_view(changes@).subrange(0, 0) =~= Seq::<(Action, ChannelMode, Option<Seq<u8>>)>::empty());
        while i < changes.len()
            invariant
                channel.wf(),
                channel.name_view() == name@,
                ci < self.clients@.len(),
                self.clients == old(self).clients,
                self.host == old(self).host,
                self.channels@ == old(self).channels@.remove(k as int),
                k <= self.channels@.len(),
                0 <= i <= changes@.len(),
                channel.view() == modes_applied(c0, changes_view(changes@).subrange(0, i as int)),
                self.clients@[ci as int].id == id,
                i == 0 ==> out@.len() == 0,
                changes@.len() == 1 && i == 1 ==> single_mode_lines(c0, id, changes_view(changes@)[0], out@),
            decreases changes@.len() - i,
        {
            let (action, mode, param) = changes[i];
            let ghost cv = channel.view();
            let outcome = channel.apply_mode(action, mode, param);
            assert(changes_view(changes@)[i as int] == (action, mode, opt_view(param)));
            proof {
                let cs = changes_view(changes@);
                assert(cs.subrange(0, i + 1).drop_last() =~= cs.subrange(0, i as int));
                assert(cs.subrange(0, i + 1).last() == cs[i as int]);
            }
            match outcome {
                ModeOutcome::Changed(p) => {
                    let mut flag: Vec<u8> = Vec::new();
                    match action {
                        Action::Add => flag.push(43),
                        Action::Remove => flag.push(45),
                        Action::Show => {},
                    }
                    flag.push(mode.letter());
                    let line = match &p {
                        Some(v) => build_msg(mask, Command::MODE, &[target, flag.as_slice(), v.as_slice()]),
                        None => build_msg(mask, Command::MODE, &[target, flag.as_slice()]),
                    };
                    let members = channel.members();
                    let ghost ms = channel.view().members;
                    let ghost start = out@.len();
                    let mut j: usize = 0;
                    while j < members.len()
                        invariant
                            members_view(members@) == ms,
                            j <= members@.len(),
                            out@.len() == start + j,
                            line_recipients(out@).subrange(start as int, out@.len() as int) == ids_of(ms).subrange(0, j as int),
                        decreases members@.len() - j,
                    {
                        out.push(Outgoing::Line(members[j].id(), line.clone()));
                        assert(line_recipients(out@).subrange(start as int, out@.len() as int) =~= ids_of(ms).subrange(
                            0,
                            j + 1,
                        ));
                        j = j + 1;
                    }
                    proof {
                        assert(ids_of(ms).subrange(0, ms.len() as int) =~= ids_of(ms));
                        if start == 0 {
                            assert(line_recipients(out@).subrange(0, out@.len() as int) =~= line_recipients(out@));
                        }
                    }
                },
                ModeOutcome::Listed => {
                    let (list_code, end_code, masks) = match mode {
                        ChannelMode::BanMask => (ResponseCode::RPL_BANLIST, ResponseCode::RPL_ENDOFBANLIST, channel.ban_masks()),
                        ChannelMode::ExceptionMask => (
                            ResponseCode::RPL_EXCEPTLIST,
                            ResponseCode::RPL_ENDOFEXCEPTLIST,
                            channel.except_masks(),
                        ),
                        _ => (ResponseCode::RPL_INVITELIST, ResponseCode::RPL_ENDOFINVITELIST, channel.invite_masks()),
                    };
                    let mut texts: Vec<Vec<u8>> = Vec::new();
                    let mut j: usize = 0;
                    while j < masks.len()
                        decreases masks@.len() - j,
                    {
                        texts.push(vstd::slice::slice_to_vec(masks[j].as_str().as_bytes()));
                        j = j + 1;
                    }
                    let session = &self.clients[ci];
                    let lines = list_reply(self.host.as_str(), session.user.nick(), list_code, end_code, target, None, &texts);
                    let ghost start = out@.len();
                    push_lines(&mut out, session.id, lines);
                    proof {
                        if start == 0 {
                            assert forall|t: int| 0 <= t < out@.len() implies (#[trigger] out@[t] matches Outgoing::Line(to, _)
                                && to == id) by {}
                        }
                    }
                },
                ModeOutcome::Unchanged => {},
            }
            i = i + 1;
        }
        assert(changes_view(changes@).subrange(0, changes@.len() as int) =~= changes_view(changes@));
        self.channels.insert(k, channel);
        proof {
            assert forall|a: int, b: int| 0 <= a < b < self.channels@.len() implies (
            #[trigger] self.channels@[a]).name_view() != (#[trigger] self.channels@[b]).name_view() by {
                assert(self.channels@[a].name_view() == old(self).channels@[a].name_view());
                assert(self.channels@[b].name_view() == old(self).channels@[b].name_view());
            }
            assert forall|a: int| 0 <= a < self.channels@.len() implies (#[trigger] self.channels@[a]).wf() by {
                if a != k {
                    assert(self.channels@[a] == old(self).channels@[a]);
                }
            }
            self.lemma_channel_named(name@, k as int);
        }
        out
    }


    /// The position of the client going by `nick`.
    fn position_of_nick(&self, nick: &[u8]) -> (r: Option<usize>)
        ensures
            match r {
                Some(i) => i < self.clients@.len() && encode_utf8(self.clients@[i as int].user.nick_view()) == nick@,
                None => forall|k: int|
                    0 <= k < self.clients@.len() ==> encode_utf8((#[trigger] self.clients@[k]).user.nick_view()) != nick@,
            },
    {
        let mut i: usize = 0;
        while i < self.clients.len()
            invariant
                0 <= i <= self.clients@.len(),
                forall|k: int| 0 <= k < i ==> encode_utf8((#[trigger] self.clients@[k]).user.nick_view()) != nick@,
            decreases self.clients@.len() - i,
        {
            if bytes_eq(self.clients[i].user.nick().as_bytes(), nick) {
                return Some(i);
            }
            i = i + 1;
        }
        None
    }

    /// PRIVMSG or NOTICE `<msgtarget> <text>`: to a channel, every other
    /// member receives the line when the sender may speak there; to a
    /// nickname, that client receives it. Errors are not replied to a
    /// NOTICE.
    pub fn handle_privmsg(&mut self, id: ClientId, msg: &Message, notice: bool) -> (r: Vec<Outgoing>)
        requires
            old(self).wf(),
            msg.wf(),
        ensures
            privmsg_outcome(old(self), final(self), id, msg, notice, r@),
    {
        let mut out: Vec<Outgoing> = Vec::new();
        let ci = match self.client_position(id) {
            Some(i) => i,
            None => {
                return out;
            },
        };
        proof {
            reveal_strlit("No recipient given");
            reveal_strlit("No such nick/channel");
        }
        let target = match msg.param(0) {
            Some(p) => p,
            None => {
                if !notice {
                    out.push(self.reply(ci, ResponseCode::ERR_NORECIPIENT, &["No recipient given".as_bytes()]));
                }
                return out;
            },
        };
        let cmd = if notice {
            Command::NOTICE
        } else {
            Command::PRIVMSG
        };
        let mask = self.clients[ci].user.public_hostmask().as_str();
        let mut payload: Vec<&[u8]> = Vec::new();
        payload.push(target);
        if let Some(text) = msg.param(1) {
            payload.push(text);
        }
        let line = build_msg(mask, cmd, payload.as_slice());
        proof {
            self.lemma_index(id, ci as int);
        }
        let ghost expected = relayed_line(old(self), id, msg, notice);
        assert(views(payload@) =~= if msg.params_view().len() > 1 {
            seq![msg.params_view()[0], msg.params_view()[1]]
        } else {
            seq![msg.params_view()[0]]
        });
        assert(line@ == expected);
        match verify_receiver(target) {
            Some(Receiver::Channel(name)) => {
                proof {
                    vstd::utf8::decode_utf8_encode_utf8(target@);
                }
                let position = self.channel_position(name.as_str().as_bytes());
                proof {
                    if let Some(k) = position {
                        vstd::utf8::encode_utf8_decode_utf8(self.channels@[k as int].name_view());
                        vstd::utf8::encode_utf8_decode_utf8(name@);
                        self.lemma_channel_named(name@, k as int);
                    } else {
                        assert forall|k: int| 0 <= k < self.channels@.len() implies (
                        #[trigger] self.channels@[k]).name_view() != name@ by {
                            vstd::utf8::encode_utf8_decode_utf8(self.channels@[k].name_view());
                            vstd::utf8::encode_utf8_decode_utf8(name@);
                        }
                    }
                }
                match position {
                    Some(k) => {
                        let targets = self.channels[k].recipients(id);
                        let mut j: usize = 0;
                        while j < targets.len()
                            invariant
                                0 <= j <= targets@.len(),
                                out@.len() == j,
                                line@ == expected,
                                line_recipients(out@) == targets@.subrange(0, j as int),
                                forall|t: int| 0 <= t < j ==> (#[trigger] out@[t] matches Outgoing::Line(_, l) && l@ == expected),
                            decreases targets@.len() - j,
                        {
                            let copy = line.clone();
                            assert(copy@ == line@);
                            out.push(Outgoing::Line(targets[j], copy));
                            assert(line_recipients(out@) =~= targets@.subrange(0, j + 1));
                            j = j + 1;
                        }
                        assert(targets@.subrange(0, targets@.len() as int) =~= targets@);
                    },
                    None => {
                        if !notice {
                            out.push(self.reply(ci, ResponseCode::ERR_NOSUCHNICK, &[target, "No such nick/channel".as_bytes()]));
                        }
                    },
                }
            },
            Some(Receiver::Nick(_)) => match self.position_of_nick(target) {
                Some(k) => {
                    assert(self.nick_owner(target@, self.clients@[k as int].id));
                    out.push(Outgoing::Line(self.clients[k].id, line));
                },
                None => {
                    proof {
                        if exists|x: ClientId| self.nick_owner(target@, x) {
                            let x = choose|x: ClientId| self.nick_owner(target@, x);
                            let k = choose|k: int|
                                0 <= k < self.clients@.len() && (#[trigger] self.clients@[k]).id == x && encode_utf8(
                                    self.clients@[k].user.nick_view(),
                                ) == target@;
                        }
                    }
                    if !notice {
                        out.push(self.reply(ci, ResponseCode::ERR_NOSUCHNICK, &[target, "No such nick/channel".as_bytes()]));
                    }
                },
            },
            None => {
                if !notice {
                    out.push(self.reply(ci, ResponseCode::ERR_NOSUCHNICK, &[target, "No such nick/channel".as_bytes()]));
                }
            },
        }
        out
    }


    /// The client `id` leaves the channel called `name`, telling its members
    /// (itself included) with a PART line; a channel left empty is removed.
    pub fn part_channel(&mut self, id: ClientId, name: &str, reason: Option<&[u8]>) -> (r: (
        Result<(), ResponseCode>,
        Vec<Outgoing>,
    ))
        requires
            old(self).wf(),
        ensures
            final(self).wf(),
            final(self).host_view() == old(self).host_view(),
            final(self).same_clients(old(self)),
            !old(self).has_client(id) ==> r.0 == Err::<(), ResponseCode>(ResponseCode::ERR_NOSUCHNICK),
            old(self).has_client(id) ==> match old(self).channel_named(name@) {
                None => r.0 == Err::<(), ResponseCode>(ResponseCode::ERR_NOSUCHCHANNEL) && final(self).channel_map()
                    == old(self).channel_map() && r.1@.len() == 0,
                Some(c) => if ids_of(c.members).contains(id) {
                    &&& r.0 == Ok::<(), ResponseCode>(())
                    &&& final(self).channel_map() == map_update(old(self).channel_map(), name@, parted(c, id))
                    &&& line_recipients(r.1@) == ids_of(c.members)
                    &&& forall|j: int| 0 <= j < r.1@.len() ==> (#[trigger] r.1@[j] matches Outgoing::Line(_, l) && l@
                        == part_line(encode_utf8(old(self).mask_of(id)), name.spec_bytes(), opt_view(reason)))
                } else {
                    r.0 == Err::<(), ResponseCode>(ResponseCode::ERR_NOTONCHANNEL) && final(self).channel_map()
                        == old(self).channel_map() && r.1@.len() == 0
                },
            },
    {
        let mut out: Vec<Outgoing> = Vec::new();
        let ci = match self.client_position(id) {
            Some(i) => i,
            None => {
                return (Err(ResponseCode::ERR_NOSUCHNICK), out);
            },
        };
        let position = self.channel_position(name.as_bytes());
        proof {
            vstd::utf8::encode_utf8_decode_utf8(name@);
            if let Some(k) = position {
                vstd::utf8::encode_utf8_decode_utf8(self.channels@[k as int].name_view());
                self.lemma_channel_named(name@, k as int);
            } else {
                assert forall|k: int| 0 <= k < self.channels@.len() implies (#[trigger] self.channels@[k]).name_view()
                    != name@ by {
                    vstd::utf8::encode_utf8_decode_utf8(self.channels@[k].name_view());
                }
            }
        }
        let k = match position {
            Some(k) => k,
            None => {
                return (Err(ResponseCode::ERR_NOSUCHCHANNEL), out);
            },
        };
        if !self.channels[k].is_member(id) {
            return (Err(ResponseCode::ERR_NOTONCHANNEL), out);
        }
        let mask = self.clients[ci].user.public_hostmask().as_str();
        let mut payload: Vec<&[u8]> = Vec::new();
        payload.push(name.as_bytes());
        if let Some(text) = reason {
            payload.push(text);
        }
        let line = build_msg(mask, Command::PART, payload.as_slice());
        proof {
            old(self).lemma_index(id, ci as int);
        }
        let ghost expected = part_line(encode_utf8(old(self).mask_of(id)), name.spec_bytes(), opt_view(reason));
        assert(views(payload@) =~= seq![name.spec_bytes()] + match opt_view(reason) {
            Some(t) => seq![t],
            None => Seq::<Seq<u8>>::empty(),
        });
        assert(line@ == expected);
        let mut channel = self.channels.remove(k);
        let members = channel.members();
        let ghost ms = channel.view().members;
        let mut j: usize = 0;
        while j < members.len()
            invariant
                members_view(members@) == ms,
                j <= members@.len(),
                out@.len() == j,
                line@ == expected,
                line_recipients(out@) == ids_of(ms).subrange(0, j as int),
                forall|t: int| 0 <= t < j ==> (#[trigger] out@[t] matches Outgoing::Line(_, l) && l@ == expected),
            decreases members@.len() - j,
        {
            let copy = line.clone();
            assert(copy@ == line@);
            out.push(Outgoing::Line(members[j].id(), copy));
            assert(line_recipients(out@) =~= ids_of(ms).subrange(0, j + 1));
            j = j + 1;
        }
        assert(ids_of(ms).subrange(0, ms.len() as int) =~= ids_of(ms));
        channel.remove_member(id);
        if channel.member_count() > 0 {
            self.channels.insert(k, channel);
            proof {
                assert forall|a: int, b: int| 0 <= a < b < self.channels@.len() implies (
                #[trigger] self.channels@[a]).name_view() != (#[trigger] self.channels@[b]).name_view() by {
                    assert(self.channels@[a].name_view() == old(self).channels@[a].name_view());
                    assert(self.channels@[b].name_view() == old(self).channels@[b].name_view());
                }
                assert forall|a: int| 0 <= a < self.channels@.len() implies (#[trigger] self.channels@[a]).wf() by {
                    if a != k {
                        assert(self.channels@[a] == old(self).channels@[a]);
                    }
                }
                self.lemma_channel_named(name@, k as int);
                assert forall|n: Seq<char>| n != name@ implies #[trigger] self.channel_named(n) == old(self).channel_named(n) by {
                    self.lemma_replaced_channel(old(self), k as int, n);
                }
                self.lemma_map_insert(old(self), name@, self.channels@[k as int].view());
            }
        } else {
            proof {
                assert forall|a: int, b: int| 0 <= a < b < self.channels@.len() implies (
                #[trigger] self.channels@[a]).name_view() != (#[trigger] self.channels@[b]).name_view() by {
                    let oa = if a < k { a } else { a + 1 };
                    let ob = if b < k { b } else { b + 1 };
                    assert(self.channels@[a] == old(self).channels@[oa] && self.channels@[b] == old(self).channels@[ob]);
                }
                assert forall|a: int| 0 <= a < self.channels@.len() implies (#[trigger] self.channels@[a]).wf() by {
                    let oa = if a < k { a } else { a + 1 };
                    assert(self.channels@[a] == old(self).channels@[oa]);
                }
                assert forall|a: int| 0 <= a < self.channels@.len() implies (#[trigger] self.channels@[a]).name_view() != name@ by {
                    let oa = if a < k { a } else { a + 1 };
                    assert(self.channels@[a] == old(self).channels@[oa]);
                    assert(old(self).channels@[oa].name_view() != old(self).channels@[k as int].name_view());
                }
                assert forall|n: Seq<char>| n != name@ implies #[trigger] self.channel_named(n) == old(self).channel_named(n) by {
                    self.lemma_removed_channel(old(self), k as int, n);
                }
                self.lemma_map_remove(old(self), name@);
            }
        }
        (Ok(()), out)
    }

    /// PART `<channel>{,<channel>} [<reason>]`.
    pub fn handle_part(&mut self, id: ClientId, msg: &Message) -> (r: Vec<Outgoing>)
        requires
            old(self).wf(),
            msg.wf(),
        ensures
            part_outcome(old(self), final(self), id, msg, r@),
    {
        let mut out: Vec<Outgoing> = Vec::new();
        let ci = match self.client_position(id) {
            Some(i) => i,
            None => {
                return out;
            },
        };
        let names = match msg.param(0) {
            Some(p) => match verify_list(p, ItemCheck::Channel, OnError::Skip) {
                Ok(v) => v,
                Err(_) => Vec::new(),
            },
            None => Vec::new(),
        };
        if names.len() == 0 {
            out.push(self.reply(ci, ResponseCode::ERR_NEEDMOREPARAMS, &[]));
            return out;
        }
        let reason = msg.param(1);
        let ghost nv = slices_view(names@);
        assert(nv.subrange(0, 0) =~= Seq::<Seq<u8>>::empty());
        let mut i: usize = 0;
        while i < names.len()
            invariant
                self.wf(),
                self.host_view() == old(self).host_view(),
                self.same_clients(old(self)),
                self.has_client(id),
                ci < self.clients@.len(),
                nv == slices_view(names@),
                0 <= i <= names@.len(),
                self.channel_map() == parts_applied(old(self).channel_map(), id, nv.subrange(0, i as int)),
                self.clients@[ci as int].id == id,
                nv == accepted(list_items(msg.params_view()[0]), ItemCheck::Channel),
                opt_view(reason) == (if msg.params_view().len() > 1 {
                    Some(msg.params_view()[1])
                } else {
                    None
                }),
                i == 0 ==> *self == *old(self) && out@.len() == 0,
                nv.len() == 1 && i == 1 && valid_utf8(nv[0]) && crate::misc::channel_ok(nv[0]) ==> single_part_lines(
                    old(self),
                    id,
                    msg,
                    nv[0],
                    out@,
                ),
            decreases names@.len() - i,
        {
            let name = names[i];
            let ghost before = *self;
            proof {
                assert(nv.subrange(0, i + 1).drop_last() =~= nv.subrange(0, i as int));
                assert(nv.subrange(0, i + 1).last() == name@);
            }
            if let Some(text) = crate::misc::verify_channel(name) {
                proof {
                    vstd::utf8::encode_utf8_decode_utf8(text@);
                    assert(map_get(before.channel_map(), text@) == before.channel_named(text@));
                }
                let (result, notices) = self.part_channel(id, text, reason);
                append_all(&mut out, notices);
                proof {
                    reveal_strlit("No such channel");
                    reveal_strlit("You're not on that channel");
                }
                match result {
                    Err(ResponseCode::ERR_NOSUCHCHANNEL) => {
                        out.push(self.reply(ci, ResponseCode::ERR_NOSUCHCHANNEL, &[name, "No such channel".as_bytes()]));
                    },
                    Err(code) => {
                        out.push(self.reply(ci, code, &[name, "You're not on that channel".as_bytes()]));
                    },
                    Ok(()) => {},
                }
            }
            i = i + 1;
        }
        assert(nv.subrange(0, nv.len() as int) =~= nv);
        out
    }


    /// The topic of the channel at position `k`, replied to the client at
    /// position `ci`.
    fn topic_reply(&self, ci: usize, k: usize, name: &[u8]) -> (r: Outgoing)
        requires
            ci < self.clients@.len(),
            k < self.channels@.len(),
        ensures
            r matches Outgoing::Line(to, _) && to == self.clients@[ci as int].id,
    {
        proof {
            reveal_strlit("No topic is set");
        }
        let topic = self.channels[k].topic();
        if topic.len() > 0 {
            self.reply(ci, ResponseCode::RPL_TOPIC, &[name, topic.as_bytes()])
        } else {
            self.reply(ci, ResponseCode::RPL_NOTOPIC, &[name, "No topic is set".as_bytes()])
        }
    }

    /// TOPIC `<channel> [<topic>]`: shows the topic, or sets it when the
    /// client may (see `may_set_topic`), telling every member.
    pub fn handle_topic(&mut self, id: ClientId, msg: &Message) -> (r: Vec<Outgoing>)
        requires
            old(self).wf(),
            msg.wf(),
        ensures
            topic_outcome(old(self), final(self), id, msg, r@),
    {
        let mut out: Vec<Outgoing> = Vec::new();
        let ci = match self.client_position(id) {
            Some(i) => i,
            None => {
                return out;
            },
        };
        proof {
            reveal_strlit("No such channel");
            reveal_strlit("You're not channel operator");
            reveal_strlit("You're not on that channel");
        }
        let target = match msg.param(0) {
            Some(p) => p,
            None => {
                out.push(self.reply(ci, ResponseCode::ERR_NEEDMOREPARAMS, &[]));
                return out;
            },
        };
        let name = match crate::misc::verify_channel(target) {
            Some(n) => n,
            None => {
                out.push(self.reply(ci, ResponseCode::ERR_NOSUCHCHANNEL, &[target, "No such channel".as_bytes()]));
                return out;
            },
        };
        let position = self.channel_position(name.as_bytes());
        proof {
            vstd::utf8::decode_utf8_encode_utf8(target@);
            vstd::utf8::encode_utf8_decode_utf8(name@);
            if let Some(k) = position {
                vstd::utf8::encode_utf8_decode_utf8(self.channels@[k as int].name_view());
                self.lemma_channel_named(name@, k as int);
                self.lemma_topic_named(name@, k as int);
            } else {
                assert forall|k: int| 0 <= k < self.channels@.len() implies (#[trigger] self.channels@[k]).name_view()
                    != name@ by {
                    vstd::utf8::encode_utf8_decode_utf8(self.channels@[k].name_view());
                }
            }
        }
        let k = match position {
            Some(k) => k,
            None => {
                out.push(self.reply(ci, ResponseCode::ERR_NOSUCHCHANNEL, &[target, "No such channel".as_bytes()]));
                return out;
            },
        };
        let member = self.channels[k].is_member(id);
        let new_topic = msg.param(1);
        if !member {
            if self.channels[k].is_secret() {
                out.push(self.reply(ci, ResponseCode::ERR_NOSUCHCHANNEL, &[target, "No such channel".as_bytes()]));
            } else if new_topic.is_none() {
                out.push(self.topic_reply(ci, k, target));
            } else {
                out.push(self.reply(ci, ResponseCode::ERR_NOTONCHANNEL, &[target, "You're not on that channel".as_bytes()]));
            }
            return out;
        }
        if self.channels[k].has_flag(ChannelMode::TopicProtect) && !self.channels[k].is_operator(id) {
            out.push(self.reply(ci, ResponseCode::ERR_CHANOPRIVSNEEDED, &[target, "You're not channel operator".as_bytes()]));
            return out;
        }
        let text = match new_topic {
            Some(t) => t,
            None => {
                out.push(self.topic_reply(ci, k, target));
                return out;
            },
        };
        let mut payload: Vec<&[u8]> = Vec::new();
        payload.push(target);
        payload.push(text);
        let line = build_msg(self.clients[ci].user.public_hostmask().as_str(), Command::TOPIC, payload.as_slice());
        proof {
            self.lemma_index(id, ci as int);
        }
        let ghost expected = wire_line(
            encode_utf8(old(self).mask_of(id)),
            command_name(Command::TOPIC),
            seq![msg.params_view()[0], msg.params_view()[1]],
        );
        assert(views(payload@) =~= seq![msg.params_view()[0], msg.params_view()[1]]);
        assert(line@ == expected);
        let mut channel = self.channels.remove(k);
        let members = channel.members();
        let ghost ms = channel.view().members;
        assert(out@.len() == 0);
        let mut j: usize = 0;
        while j < members.len()
            invariant
                members_view(members@) == ms,
                j <= members@.len(),
                out@.len() == j,
                line@ == expected,
                line_recipients(out@) == ids_of(ms).subrange(0, j as int),
                forall|t: int| 0 <= t < j ==> (#[trigger] out@[t] matches Outgoing::Line(_, l) && l@ == expected),
            decreases members@.len() - j,
        {
            let copy = line.clone();
            assert(copy@ == line@);
            out.push(Outgoing::Line(members[j].id(), copy));
            assert(line_recipients(out@) =~= ids_of(ms).subrange(0, j + 1));
            j = j + 1;
        }
        assert(ids_of(ms).subrange(0, ms.len() as int) =~= ids_of(ms));
        channel.set_topic(lossy_string(text));
        self.channels.insert(k, channel);
        proof {
            assert forall|a: int, b: int| 0 <= a < b < self.channels@.len() implies (
            #[trigger] self.channels@[a]).name_view() != (#[trigger] self.channels@[b]).name_view() by {
                assert(self.channels@[a].name_view() == old(self).channels@[a].name_view());
                assert(self.channels@[b].name_view() == old(self).channels@[b].name_view());
            }
            assert forall|a: int| 0 <= a < self.channels@.len() implies (#[trigger] self.channels@[a]).wf() by {
                if a != k {
                    assert(self.channels@[a] == old(self).channels@[a]);
                }
            }
            self.lemma_channel_named(name@, k as int);
            self.lemma_topic_named(name@, k as int);
            assert forall|n: Seq<char>| #[trigger] self.channel_named(n) == old(self).channel_named(n) by {
                self.lemma_same_views(old(self), n);
            }
        }
        out
    }

    /// Channel lookups that agree off `name` and give `v` at `name` make the
    /// channel map an insertion.
    proof fn lemma_map_insert(&self, before: &Server, name: Seq<char>, v: ChannelView)
        requires
            self.channel_named(name) == Some(v),
            forall|n: Seq<char>| n != name ==> #[trigger] self.channel_named(n) == before.channel_named(n),
        ensures
            self.channel_map() == before.channel_map().insert(name, v),
    {
        assert forall|n: Seq<char>| #[trigger] self.channel_map().contains_key(n) <==> before.channel_map().insert(name, v).contains_key(n) by {
            if n != name {
                assert(self.channel_named(n) == before.channel_named(n));
            }
        }
        assert(self.channel_map() =~= before.channel_map().insert(name, v));
    }

    /// Lookups that agree off `name`, with none at `name`, make the channel
    /// map a removal.
    proof fn lemma_map_remove(&self, before: &Server, name: Seq<char>)
        requires
            self.channel_named(name) is None,
            forall|n: Seq<char>| n != name ==> #[trigger] self.channel_named(n) == before.channel_named(n),
        ensures
            self.channel_map() == before.channel_map().remove(name),
    {
        assert forall|n: Seq<char>| #[trigger] self.channel_map().contains_key(n) <==> before.channel_map().remove(name).contains_key(n) by {
            if n != name {
                assert(self.channel_named(n) == before.channel_named(n));
            }
        }
        assert(self.channel_map() =~= before.channel_map().remove(name));
    }

    /// Removing one channel changes no other lookup.
    proof fn lemma_removed_channel(&self, before: &Server, k: int, n: Seq<char>)
        requires
            self.wf(),
            before.wf(),
            0 <= k < before.channels@.len(),
            self.channels@ == before.channels@.remove(k),
            n != before.channels@[k].name_view(),
        ensures
            self.channel_named(n) == before.channel_named(n),
    {
        if exists|i: int| 0 <= i < self.channels@.len() && (#[trigger] self.channels@[i]).name_view() == n {
            let i = choose|i: int| 0 <= i < self.channels@.len() && (#[trigger] self.channels@[i]).name_view() == n;
            let oi = if i < k { i } else { i + 1 };
            assert(self.channels@[i] == before.channels@[oi]);
            self.lemma_channel_named(n, i);
            before.lemma_channel_named(n, oi);
        } else {
            assert forall|i: int| 0 <= i < before.channels@.len() implies (#[trigger] before.channels@[i]).name_view() != n by {
                if i < k {
                    assert(self.channels@[i] == before.channels@[i]);
                } else if i > k {
                    assert(self.channels@[i - 1] == before.channels@[i]);
                }
            }
        }
    }

    /// Appending a channel with a new name changes no other lookup.
    proof fn lemma_appended_channel(&self, before: &Server, n: Seq<char>)
        requires
            self.wf(),
            before.wf(),
            self.channels@.len() == before.channels@.len() + 1,
            forall|a: int| 0 <= a < before.channels@.len() ==> #[trigger] self.channels@[a] == before.channels@[a],
            n != self.channels@.last().name_view(),
        ensures
            self.channel_named(n) == before.channel_named(n),
    {
        if exists|i: int| 0 <= i < self.channels@.len() && (#[trigger] self.channels@[i]).name_view() == n {
            let i = choose|i: int| 0 <= i < self.channels@.len() && (#[trigger] self.channels@[i]).name_view() == n;
            assert(i < before.channels@.len());
            self.lemma_channel_named(n, i);
            before.lemma_channel_named(n, i);
        } else {
            assert forall|i: int| 0 <= i < before.channels@.len() implies (#[trigger] before.channels@[i]).name_view() != n by {
                assert(self.channels@[i] == before.channels@[i]);
            }
        }
    }

    /// Replacing one channel by one of the same name changes only the
    /// lookup of that name.
    proof fn lemma_replaced_channel(&self, before: &Server, k: int, n: Seq<char>)
        requires
            before.wf(),
            forall|a: int, b: int|
                0 <= a < b < self.channels@.len() ==> (#[trigger] self.channels@[a]).name_view() != (
                #[trigger] self.channels@[b]).name_view(),
            0 <= k < self.channels@.len(),
            self.channels@.len() == before.channels@.len(),
            forall|a: int| 0 <= a < self.channels@.len() && a != k ==> #[trigger] self.channels@[a] == before.channels@[a],
            self.channels@[k].name_view() == before.channels@[k].name_view(),
        ensures
            n == self.channels@[k].name_view() ==> self.channel_named(n) == Some(self.channels@[k].view())
                && before.channel_named(n) == Some(before.channels@[k].view()),
            n != self.channels@[k].name_view() ==> self.channel_named(n) == before.channel_named(n),
    {
        before.lemma_channel_named(before.channels@[k].name_view(), k);
        let j = choose|i: int| 0 <= i < self.channels@.len() && (#[trigger] self.channels@[i]).name_view() == self.channels@[k].name_view();
        if j != k {
            if j < k {
                assert(self.channels@[j].name_view() != self.channels@[k].name_view());
            } else {
                assert(self.channels@[k].name_view() != self.channels@[j].name_view());
            }
        }
        if n != self.channels@[k].name_view() {
            if exists|i: int| 0 <= i < self.channels@.len() && (#[trigger] self.channels@[i]).name_view() == n {
                let i = choose|i: int| 0 <= i < self.channels@.len() && (#[trigger] self.channels@[i]).name_view() == n;
                assert(i != k);
                before.lemma_channel_named(n, i);
                let i2 = choose|i: int| 0 <= i < self.channels@.len() && (#[trigger] self.channels@[i]).name_view() == n;
                assert(i2 != k);
                assert(self.channels@[i2] == before.channels@[i2]);
                assert(before.channels@[i2].name_view() == n);
                if i2 != i {
                    if i2 < i {
                        assert(before.channels@[i2].name_view() != before.channels@[i].name_view());
                    } else {
                        assert(before.channels@[i].name_view() != before.channels@[i2].name_view());
                    }
                }
            } else {
                assert forall|i: int| 0 <= i < before.channels@.len() implies (#[trigger] before.channels@[i]).name_view() != n by {
                    if i != k {
                        assert(self.channels@[i] == before.channels@[i]);
                    }
                }
            }
        }
    }

    /// Channels whose views and names agree give the same lookups.
    proof fn lemma_same_views(&self, before: &Server, n: Seq<char>)
        requires
            self.wf(),
            before.wf(),
            self.channels@.len() == before.channels@.len(),
            forall|a: int| 0 <= a < self.channels@.len() ==> (#[trigger] self.channels@[a]).view() == before.channels@[a].view()
                && self.channels@[a].name_view() == before.channels@[a].name_view(),
        ensures
            self.channel_named(n) == before.channel_named(n),
    {
        if exists|i: int| 0 <= i < self.channels@.len() && (#[trigger] self.channels@[i]).name_view() == n {
            let i = choose|i: int| 0 <= i < self.channels@.len() && (#[trigger] self.channels@[i]).name_view() == n;
            self.lemma_channel_named(n, i);
            before.lemma_channel_named(n, i);
        } else {
            assert forall|i: int| 0 <= i < before.channels@.len() implies (#[trigger] before.channels@[i]).name_view() != n by {
                assert(self.channels@[i].name_view() == before.channels@[i].name_view());
            }
        }
    }

    proof fn lemma_topic_named(&self, name: Seq<char>, k: int)
        requires
            self.wf(),
            0 <= k < self.channels@.len(),
            self.channels@[k].name_view() == name,
        ensures
            self.topic_named(name) == Some(self.channels@[k].topic_view()),
    {
        let j = choose|i: int| 0 <= i < self.channels@.len() && (#[trigger] self.channels@[i]).name_view() == name;
        if j != k {
            if j < k {
                assert(self.channels@[j].name_view() != self.channels@[k].name_view());
            } else {
                assert(self.channels@[k].name_view() != self.channels@[j].name_view());
            }
        }
    }


    /// The position of the channel called `name` (as bytes), with what the
    /// lookup means for `channel_named`.
    fn find_channel(&self, name: &str) -> (r: Option<usize>)
        requires
            self.wf(),
        ensures
            match r {
                Some(k) => k < self.channels@.len() && self.channels@[k as int].name_view() == name@
                    && self.channel_named(name@) == Some(self.channels@[k as int].view()),
                None => self.channel_named(name@) is None,
            },
    {
        let position = self.channel_position(name.as_bytes());
        proof {
            vstd::utf8::encode_utf8_decode_utf8(name@);
            if let Some(k) = position {
                vstd::utf8::encode_utf8_decode_utf8(self.channels@[k as int].name_view());
                self.lemma_channel_named(name@, k as int);
            } else {
                assert forall|k: int| 0 <= k < self.channels@.len() implies (#[trigger] self.channels@[k]).name_view()
                    != name@ by {
                    vstd::utf8::encode_utf8_decode_utf8(self.channels@[k].name_view());
                }
            }
        }
        position
    }

    /// The member list of the channel at position `k` for the client at
    /// position `ci`; nothing for a secret channel the client is not in.
    fn names_reply(&self, ci: usize, k: usize, out: &mut Vec<Outgoing>)
        requires
            ci < self.clients@.len(),
            k < self.channels@.len(),
        ensures
            final(out)@.len() >= old(out)@.len(),
            final(out)@.subrange(0, old(out)@.len() as int) == old(out)@,
            names_visible(self.channels@[k as int].view(), self.clients@[ci as int].id) ==> final(out)@.len() == old(
                out,
            )@.len() + self.channels@[k as int].view().members.len() + 1
                && line_recipients(final(out)@.subrange(old(out)@.len() as int, final(out)@.len() as int)) == Seq::new(
                self.channels@[k as int].view().members.len() + 1,
                |i: int| self.clients@[ci as int].id,
            ),
            !names_visible(self.channels@[k as int].view(), self.clients@[ci as int].id) ==> final(out)@ == old(out)@,
            all_to(final(out)@.subrange(old(out)@.len() as int, final(out)@.len() as int), self.clients@[ci as int].id),
            names_visible(self.channels@[k as int].view(), self.clients@[ci as int].id) ==> forall|i: int|
                0 <= i < self.channels@[k as int].view().members.len() ==> (#[trigger] final(out)@[old(out)@.len() + i] matches Outgoing::Line(
                    _,
                    l,
                ) && l@ == names_line(
                    encode_utf8(self.host_view()),
                    encode_utf8(self.clients@[ci as int].user.nick_view()),
                    encode_utf8(self.channels@[k as int].name_view()),
                    self.channels@[k as int].view().members[i],
                )),
    {
        proof {
            reveal_strlit("=");
        }
        let channel = &self.channels[k];
        let session = &self.clients[ci];
        if channel.is_secret() && !channel.is_member(session.id) {
            return;
        }
        let members = channel.members();
        let ghost ms = channel.view().members;
        let mut names: Vec<Vec<u8>> = Vec::new();
        let mut j: usize = 0;
        while j < members.len()
            invariant
                members_view(members@) == ms,
                names@.len() == j,
                j <= members@.len(),
                forall|t: int| 0 <= t < j ==> (#[trigger] names@[t])@ == encode_utf8(
                    decoration_of(ms[t].op, ms[t].voice) + ms[t].nick,
                ),
            decreases members@.len() - j,
        {
            let decorated = members[j].decoration().concat(members[j].nick());
            assert(members@[j as int].view() == ms[j as int]);
            names.push(vstd::slice::slice_to_vec(decorated.as_str().as_bytes()));
            j = j + 1;
        }
        let marker = "=".as_bytes();
        let cname = channel.name().as_bytes();
        let lines = list_reply(
            self.host.as_str(),
            session.user.nick(),
            ResponseCode::RPL_NAMREPLY,
            ResponseCode::RPL_ENDOFNAMES,
            cname,
            Some(marker),
            &names,
        );
        let ghost before = out@;
        push_lines(out, session.id, lines);
        proof {
            assert(members_view(members@).len() == members@.len());
            assert(out@.subrange(0, before.len() as int) =~= before);
            assert forall|j: int| 0 <= j < out@.len() - before.len() implies (#[trigger] out@.subrange(before.len() as int, out@.len() as int)[j] matches Outgoing::Line(to, _) && to == session.id) by {
                assert(out@.subrange(before.len() as int, out@.len() as int)[j] == out@[before.len() + j]);
            }
            assert(line_recipients(out@.subrange(before.len() as int, out@.len() as int)) =~= Seq::new(
                channel.view().members.len() + 1,
                |i: int| session.id,
            ));
            assert forall|i: int| 0 <= i < ms.len() implies (#[trigger] out@[before.len() + i] matches Outgoing::Line(_, l)
                && l@ == names_line(
                encode_utf8(self.host_view()),
                encode_utf8(session.user.nick_view()),
                encode_utf8(channel.name_view()),
                ms[i],
            )) by {
                assert(marker_seq(Some(marker)) + seq![cname@, names@[i]@] =~= seq![
                    "=".spec_bytes(),
                    encode_utf8(channel.name_view()),
                    encode_utf8(decoration_of(ms[i].op, ms[i].voice) + ms[i].nick),
                ]);
            }
        }
    }

    /// NAMES `<channel>{,<channel>}`: the member list of each channel.
    pub fn handle_names(&mut self, id: ClientId, msg: &Message) -> (r: Vec<Outgoing>)
        requires
            old(self).wf(),
            msg.wf(),
        ensures
            names_outcome(old(self), final(self), id, msg, r@),
    {
        let mut out: Vec<Outgoing> = Vec::new();
        let ci = match self.client_position(id) {
            Some(i) => i,
            None => {
                return out;
            },
        };
        let names = match msg.param(0) {
            Some(p) => match verify_list(p, ItemCheck::Channel, OnError::Skip) {
                Ok(v) => v,
                Err(_) => Vec::new(),
            },
            None => Vec::new(),
        };
        let ghost nv = slices_view(names@);
        assert(nv.subrange(0, 0) =~= Seq::<Seq<u8>>::empty());
        let mut i: usize = 0;
        while i < names.len()
            invariant
                self.wf(),
                ci < self.clients@.len(),
                self.clients@[ci as int].id == id,
                nv == slices_view(names@),
                0 <= i <= names@.len(),
                all_to(out@, id),
                out@.len() == names_lines(*self, id, nv.subrange(0, i as int)),
                *self == *old(self),
                i == 0 ==> out@.len() == 0,
                old(self).has_client(id),
                nv.len() == 1 && i == 1 ==> single_names_lines(old(self), id, nv[0], out@),
            decreases names@.len() - i,
        {
            proof {
                assert(nv.subrange(0, i + 1).drop_last() =~= nv.subrange(0, i as int));
                assert(nv.subrange(0, i + 1).last() == names@[i as int]@);
            }
            let ghost before = out@;
            if let Some(text) = crate::misc::verify_channel(names[i]) {
                proof {
                    vstd::utf8::encode_utf8_decode_utf8(text@);
                }
                if let Some(k) = self.find_channel(text) {
                    self.names_reply(ci, k, &mut out);
                    proof {
                        self.lemma_index(id, ci as int);
                        vstd::utf8::decode_utf8_encode_utf8(names@[i as int]@);
                        if nv.len() == 1 && i == 0 {
                            assert(nv[0] == names@[0]@);
                            assert(decode_utf8(nv[0]) == text@);
                            assert(encode_utf8(self.channels@[k as int].name_view()) == nv[0]);
                            assert(self.clients@[ci as int].user.nick_view() == old(self).nick_of(id));
                            assert(old(self).channel_named(decode_utf8(nv[0])) == Some(self.channels@[k as int].view()));
                            let c = self.channels@[k as int].view();
                            if names_visible(c, id) {
                                assert forall|t: int| 0 <= t < c.members.len() implies (#[trigger] out@[t] matches Outgoing::Line(_, l)
                                    && l@ == names_line(
                                    encode_utf8(old(self).host_view()),
                                    encode_utf8(old(self).nick_of(id)),
                                    nv[0],
                                    c.members[t],
                                )) by {
                                    assert(before.len() + t == t);
                                }
                            }
                            assert(single_names_lines(old(self), id, nv[0], out@));
                        }
                        assert forall|j: int| 0 <= j < out@.len() implies (#[trigger] out@[j] matches Outgoing::Line(to, _)
                            && to == id) by {
                            if j < before.len() {
                                assert(out@[j] == out@.subrange(0, before.len() as int)[j]);
                            } else {
                                assert(out@.subrange(before.len() as int, out@.len() as int)[j - before.len()] == out@[j]);
                            }
                        }
                    }
                }
            }
            i = i + 1;
        }
        assert(nv.subrange(0, nv.len() as int) =~= nv);
        out
    }

    /// WHO `<channel> [o]`: one reply line per member (operators only with
    /// `o`), then the end of the list; only the end for a private or secret
    /// channel the client is not in.
    pub fn handle_who(&mut self, id: ClientId, msg: &Message) -> (r: Vec<Outgoing>)
        requires
            old(self).wf(),
            msg.wf(),
        ensures
            who_outcome(old(self), final(self), id, msg, r@),
    {
        let mut out: Vec<Outgoing> = Vec::new();
        let ci = match self.client_position(id) {
            Some(i) => i,
            None => {
                return out;
            },
        };
        let op_only = match msg.param(1) {
            Some(v) => v.len() == 1 && v[0] == 'o' as u8,
            None => false,
        };
        let mask = match msg.param(0) {
            Some(m) => m,
            None => {
                return out;
            },
        };
        let name = lossy_string(mask);
        let k = match self.find_channel(name.as_str()) {
            Some(k) => k,
            None => {
                return out;
            },
        };
        proof {
            reveal_strlit("H");
            reveal_strlit("0 ");
        }
        let channel = &self.channels[k];
        let session = &self.clients[ci];
        let hidden = (channel.has_flag(ChannelMode::Private) || channel.has_flag(ChannelMode::Secret))
            && !channel.is_member(id);
        proof {
            vstd::utf8::encode_utf8_decode_utf8(name@);
        }
        if !hidden {
            let members = channel.members();
            assert(members_view(members@).len() == members@.len());
            let mut j: usize = 0;
            while j < members.len()
                invariant
                    ci < self.clients@.len(),
                    self.clients@[ci as int].id == id,
                    j <= members@.len(),
                    all_to(out@, id),
                    !op_only ==> out@.len() == j,
                decreases members@.len() - j,
            {
                let m = &members[j];
                if !op_only || m.is_op() {
                    let flags = "H".to_owned().concat(m.decoration().as_str());
                    let rest = "0 ".to_owned().concat(m.realname());
                    out.push(
                        self.reply(
                            ci,
                            ResponseCode::RPL_WHOREPLY,
                            &[
                                mask,
                                m.username().as_bytes(),
                                m.hostname().as_bytes(),
                                self.host.as_str().as_bytes(),
                                m.nick().as_bytes(),
                                flags.as_str().as_bytes(),
                                rest.as_str().as_bytes(),
                            ],
                        ),
                    );
                }
                j = j + 1;
            }
        }
        let lines = list_reply(
            self.host.as_str(),
            session.user.nick(),
            ResponseCode::RPL_WHOREPLY,
            ResponseCode::RPL_ENDOFWHO,
            mask,
            None,
            &Vec::new(),
        );
        let ghost before = out@;
        push_lines(&mut out, session.id, lines);
        proof {
            assert forall|j: int| 0 <= j < out@.len() implies (#[trigger] out@[j] matches Outgoing::Line(to, _) && to == id) by {
                if j < before.len() {
                    assert(out@[j] == before[j]);
                }
            }
        }
        out
    }

    /// INVITE `<nickname> <channel>`: a member invites another client; in an
    /// invite-only channel only an operator may. The invited client goes on
    /// the channel's invite list and receives an INVITE.
    pub fn handle_invite(&mut self, id: ClientId, msg: &Message) -> (r: Vec<Outgoing>)
        requires
            old(self).wf(),
            msg.wf(),
        ensures
            invite_outcome(old(self), final(self), id, msg, r@),
    {
        let mut out: Vec<Outgoing> = Vec::new();
        let ci = match self.client_position(id) {
            Some(i) => i,
            None => {
                return out;
            },
        };
        proof {
            reveal_strlit("No such nick");
            reveal_strlit("You're not on that channel");
            reveal_strlit("is already on channel");
            reveal_strlit("You're not channel operator");
        }
        let (nick, chan) = match (msg.param(0), msg.param(1)) {
            (Some(n), Some(c)) => (n, c),
            _ => {
                out.push(self.reply(ci, ResponseCode::ERR_NEEDMOREPARAMS, &[]));
                return out;
            },
        };
        let name = match crate::misc::verify_channel(chan) {
            Some(n) => n,
            None => {
                out.push(self.reply(ci, ResponseCode::ERR_NOSUCHNICK, &[nick]));
                return out;
            },
        };
        proof {
            vstd::utf8::encode_utf8_decode_utf8(name@);
        }
        let ti = match self.position_of_nick(nick) {
            Some(t) => t,
            None => {
                proof {
                    if exists|x: ClientId| self.nick_owner(nick@, x) {
                        let x = choose|x: ClientId| self.nick_owner(nick@, x);
                        let k = choose|k: int|
                            0 <= k < self.clients@.len() && (#[trigger] self.clients@[k]).id == x && encode_utf8(
                                self.clients@[k].user.nick_view(),
                            ) == nick@;
                    }
                }
                out.push(self.reply(ci, ResponseCode::ERR_NOSUCHNICK, &[nick, "No such nick".as_bytes()]));
                return out;
            },
        };
        let target = self.clients[ti].id;
        assert(self.nick_owner(nick@, target));
        let invite = build_msg(self.clients[ci].user.public_hostmask().as_str(), Command::INVITE, &[nick, chan]);
        match self.find_channel(name) {
            None => {
                out.push(self.reply(ci, ResponseCode::RPL_INVITING, &[chan, nick]));
                out.push(Outgoing::Line(target, invite));
            },
            Some(k) => {
                let channel = &self.channels[k];
                if !channel.is_member(id) {
                    out.push(self.reply(ci, ResponseCode::ERR_NOTONCHANNEL, &[chan, "You're not on that channel".as_bytes()]));
                } else if channel.is_member(target) {
                    out.push(self.reply(ci, ResponseCode::ERR_USERONCHANNEL, &[nick, chan, "is already on channel".as_bytes()]));
                } else if channel.is_invite_only() && !channel.is_operator(id) {
                    out.push(self.reply(ci, ResponseCode::ERR_CHANOPRIVSNEEDED, &[chan, "You're not channel operator".as_bytes()]));
                } else {
                    out.push(self.reply(ci, ResponseCode::RPL_INVITING, &[chan, nick]));
                    out.push(Outgoing::Line(target, invite));
                    let mut channel = self.channels.remove(k);
                    channel.invite(target);
                    self.channels.insert(k, channel);
                    proof {
                        assert forall|n: Seq<char>|
                            match (#[trigger] old(self).channel_named(n), self.channel_named(n)) {
                                (Some(c), Some(d)) => d == (ChannelView { invited: d.invited, ..c }) && forall|x: ClientId|
                                    c.invited.contains(x) ==> d.invited.contains(x),
                                (None, None) => true,
                                _ => false,
                            } by {
                            self.lemma_replaced_channel(old(self), k as int, n);
                            crate::channel::lemma_with(old(self).channels@[k as int].view().invited, target);
                        }
                        assert forall|a: int, b: int| 0 <= a < b < self.channels@.len() implies (
                        #[trigger] self.channels@[a]).name_view() != (#[trigger] self.channels@[b]).name_view() by {
                            assert(self.channels@[a].name_view() == old(self).channels@[a].name_view());
                            assert(self.channels@[b].name_view() == old(self).channels@[b].name_view());
                        }
                        assert forall|a: int| 0 <= a < self.channels@.len() implies (#[trigger] self.channels@[a]).wf() by {
                            if a != k {
                                assert(self.channels@[a] == old(self).channels@[a]);
                            }
                        }
                    }
                }
            },
        }
        out
    }


    /// Routes a message from the client `id`. Unknown verbs get
    /// ERR_UNKNOWNCOMMAND; before registration completes only NICK, USER,
    /// CAP and QUIT are processed, everything else is dropped without reply.
    pub fn handle(&mut self, id: ClientId, msg: &Message) -> (r: Vec<Outgoing>)
        requires
            old(self).wf(),
            msg.wf(),
        ensures
            final(self).wf(),
            final(self).host_view() == old(self).host_view(),
            !old(self).has_client(id) ==> r@.len() == 0,
            !old(self).has_client(id) ==> *final(self) == *old(self),
            old(self).has_client(id) ==> match crate::command::command_from_bytes(msg.command_view()) {
                None => {
                    &&& *final(self) == *old(self)
                    &&& r@.len() == 1
                    &&& r@[0] matches Outgoing::Line(to, line) && to == id && is_reply(
                        line@,
                        encode_utf8(old(self).host_view()),
                        ResponseCode::ERR_UNKNOWNCOMMAND,
                    )
                },
                Some(cmd) => if !allowed(old(self).status_of(id), cmd) {
                    r@.len() == 0 && *final(self) == *old(self)
                } else {
                    dispatch_outcome(old(self), final(self), id, msg, cmd, r@)
                },
            },
    {
        let ci = match self.client_position(id) {
            Some(i) => i,
            None => {
                return Vec::new();
            },
        };
        let cmd = match msg.command() {
            Some(c) => c,
            None => {
                proof {
                    reveal_strlit("Unknown command");
                }
                let mut out: Vec<Outgoing> = Vec::new();
                out.push(self.reply(ci, ResponseCode::ERR_UNKNOWNCOMMAND, &[msg.command_bytes()]));
                return out;
            },
        };
        if !command_allowed(self.clients[ci].user.status(), cmd) {
            return Vec::new();
        }
        match cmd {
            Command::NICK => self.handle_nick(id, msg),
            Command::USER => self.handle_user(id, msg),
            Command::CAP => self.handle_cap(id, msg),
            Command::JOIN => self.handle_join(id, msg),
            Command::QUIT => self.handle_quit(id, msg),
            Command::MODE => self.handle_mode(id, msg),
            Command::PART => self.handle_part(id, msg),
            Command::TOPIC => self.handle_topic(id, msg),
            Command::NAMES => self.handle_names(id, msg),
            Command::WHO => self.handle_who(id, msg),
            Command::INVITE => self.handle_invite(id, msg),
            Command::PRIVMSG => self.handle_privmsg(id, msg, false),
            Command::NOTICE => self.handle_privmsg(id, msg, true),
            _ => Vec::new(),
        }
    }

    /// Forgets a client whose connection is gone.
    pub fn disconnect(&mut self, id: ClientId)
        requires
            old(self).wf(),
        ensures
            final(self).wf(),
            !final(self).has_client(id),
            final(self).host_view() == old(self).host_view(),
            final(self).channel_map() == old(self).channel_map(),
            forall|x: ClientId| x != id ==> (final(self).has_client(x) <==> old(self).has_client(x)),
            forall|x: ClientId|
                x != id && old(self).has_client(x) ==> final(self).status_of(x) == old(self).status_of(x)
                    && final(self).nick_of(x) == old(self).nick_of(x) && final(self).mask_of(x) == old(self).mask_of(x),
    {
        if let Some(ci) = self.client_position(id) {
            let ghost before = self.clients@;
            let _gone = self.clients.remove(ci);
            proof {
                assert forall|x: ClientId| x != id && old(self).has_client(x) implies self.has_client(x) && self.status_of(x)
                    == old(self).status_of(x) && self.nick_of(x) == old(self).nick_of(x) && self.mask_of(x)
                    == old(self).mask_of(x) by {
                    let k = old(self).client_index(x);
                    old(self).lemma_index(x, k);
                    assert(k != ci);
                    let nk = if k < ci { k } else { k - 1 };
                    assert(self.clients@[nk] == before[k]);
                    self.lemma_index_only(x, nk);
                }
                assert forall|x: ClientId| x != id && self.has_client(x) implies old(self).has_client(x) by {
                    let k = choose|k: int| 0 <= k < self.clients@.len() && (#[trigger] self.clients@[k]).id == x;
                    let ok = if k < ci { k } else { k + 1 };
                    assert(before[ok].id == x);
                }
                assert forall|a: int, b: int| 0 <= a < b < self.clients@.len() implies (#[trigger] self.clients@[a]).id
                    != (#[trigger] self.clients@[b]).id by {
                    let oa = if a < ci { a } else { a + 1 };
                    let ob = if b < ci { b } else { b + 1 };
                    assert(self.clients@[a] == before[oa] && self.clients@[b] == before[ob]);
                }
                assert forall|k: int| 0 <= k < self.clients@.len() implies (#[trigger] self.clients@[k]).user.wf() by {
                    let ok = if k < ci { k } else { k + 1 };
                    assert(self.clients@[k] == before[ok]);
                }
                if self.has_client(id) {
                    let k = choose|k: int| 0 <= k < self.clients@.len() && (#[trigger] self.clients@[k]).id == id;
                    let ok = if k < ci { k } else { k + 1 };
                    assert(before[ok].id == id);
                    assert(before[ci as int].id == id);
                }
            }
        }
    }

    /// Ids unique among the clients: the client found at `i` is the one `client_index` picks.
    proof fn lemma_index_only(&self, id: ClientId, i: int)
        requires
            forall|a: int, b: int|
                0 <= a < b < self.clients@.len() ==> (#[trigger] self.clients@[a]).id != (#[trigger] self.clients@[b]).id,
            0 <= i < self.clients@.len(),
            self.clients@[i].id == id,
        ensures
            self.has_client(id),
            self.client_index(id) == i,
    {
        let k = self.client_index(id);
        if k != i {
            if k < i {
                assert(self.clients@[k].id != self.clients@[i].id);
            } else {
                assert(self.clients@[i].id != self.clients@[k].id);
            }
        }
    }

    proof fn lemma_channel_named(&self, name: Seq<char>, k: int)
        requires
            self.wf(),
            0 <= k < self.channels@.len(),
            self.channels@[k].name_view() == name,
        ensures
            self.channel_named(name) == Some(self.channels@[k].view()),
    {
        let j = choose|i: int| 0 <= i < self.channels@.len() && (#[trigger] self.channels@[i]).name_view() == name;
        if j != k {
            if j < k {
                assert(self.channels@[j].name_view() != self.channels@[k].name_view());
            } else {
                assert(self.channels@[k].name_view() != self.channels@[j].name_view());
            }
        }
    }
}

/// Queues `lines` for the client `to`.
fn push_lines(out: &mut Vec<Outgoing>, to: ClientId, lines: Vec<Vec<u8>>)
    ensures
        final(out)@ == old(out)@ + Seq::new(lines@.len(), |i: int| Outgoing::Line(to, lines@[i])),
{
    let ghost all = lines@;
    let mut lines = lines;
    let mut rest: Vec<Outgoing> = Vec::new();
    while lines.len() > 0
        invariant
            rest@.len() + lines@.len() == all.len(),
            lines@ == all.subrange(rest@.len() as int, all.len() as int),
            rest@ == Seq::new(rest@.len(), |i: int| Outgoing::Line(to, all[i])),
        decreases lines@.len(),
    {
        let ghost k = rest@.len() as int;
        let l = lines.remove(0);
        assert(l == all[k]);
        rest.push(Outgoing::Line(to, l));
        assert(rest@ =~= Seq::new(rest@.len(), |i: int| Outgoing::Line(to, all[i])));
        assert(lines@ =~= all.subrange(rest@.len() as int, all.len() as int));
    }
    assert(rest@ =~= Seq::new(all.len(), |i: int| Outgoing::Line(to, all[i])));
    append_all(out, rest);
}

/// Moves every item of `more` to the end of `out`.
fn append_all(out: &mut Vec<Outgoing>, more: Vec<Outgoing>)
    ensures
        final(out)@ == old(out)@ + more@,
{
    let mut more = more;
    out.append(&mut more);
}

} // verus!
