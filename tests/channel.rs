use rauta::channel::{Channel, ChannelOp, Member, ModeOutcome, OpResult};
use rauta::client::ClientId;
use rauta::command::ResponseCode;
use rauta::message::Message;
use rauta::mode::{Action, ChannelMode};
use rauta::server::{Outgoing, Server};
use rauta::user::{HostMask, User};

fn member(n: u64, nick: &str) -> Member {
    let mut u = User::new("example.org".to_string());
    u.set_nick(nick.to_string());
    u.set_user(nick.to_string());
    Member::new(ClientId::from_parts(10, 20, n), &u)
}

#[test]
fn serial_joins_lose_nothing() {
    let mut c = Channel::new("#a".to_string());
    for n in 0..20u64 {
        assert_eq!(c.join(member(n, &format!("n{}", n)), None), Ok(true));
    }
    assert_eq!(c.member_count(), 20);
    let first = &c.members()[0];
    assert_eq!(first.id(), ClientId::from_parts(10, 20, 0));
    assert!(first.is_op());
    assert_eq!(first.decorated_nick(), "@n0");
    assert!(!c.members()[1].is_op());
    assert_eq!(c.join(member(3, "n3"), None), Ok(false));
    assert_eq!(c.member_count(), 20);
}

#[test]
fn full_channel_refuses() {
    let mut c = Channel::new("#a".to_string());
    assert_eq!(c.join(member(1, "a"), None), Ok(true));
    c.set_limit(Some(1));
    assert_eq!(c.join(member(2, "b"), None), Err(ResponseCode::ERR_CHANNELISFULL));
    assert_eq!(c.member_count(), 1);
    assert!(!c.is_member(ClientId::from_parts(10, 20, 2)));
}

#[test]
fn key_ban_and_invite() {
    let mut c = Channel::new("#a".to_string());
    c.set_password(Some(b"key".to_vec()));
    assert_eq!(c.join(member(1, "a"), None), Err(ResponseCode::ERR_BADCHANNELKEY));
    assert_eq!(c.join(member(1, "a"), Some(b"nope")), Err(ResponseCode::ERR_BADCHANNELKEY));
    assert_eq!(c.join(member(1, "a"), Some(b"key")), Ok(true));
    c.set_password(None);
    c.add_ban_mask(HostMask::new("*!*@*.org".to_string()));
    assert_eq!(c.join(member(2, "b"), None), Err(ResponseCode::ERR_BANNEDFROMCHAN));
    c.add_except_mask(HostMask::new("b!*@*".to_string()));
    assert_eq!(c.join(member(2, "b"), None), Ok(true));
    assert!(c.has_flag(ChannelMode::BanMask));
    c.add_ban_mask(HostMask::new("*!*@*.org".to_string()));
    assert_eq!(c.ban_masks().len(), 1);
    c.remove_ban_mask(HostMask::new("*!*@*.org".to_string()));
    assert!(c.ban_masks().is_empty());
    assert!(!c.has_flag(ChannelMode::BanMask));
    assert!(c.has_flag(ChannelMode::ExceptionMask));
    assert!(c.add_flag(ChannelMode::InviteOnly));
    assert!(!c.add_flag(ChannelMode::InviteOnly));
    assert_eq!(c.join(member(3, "c"), None), Err(ResponseCode::ERR_INVITEONLYCHAN));
    c.add_to_invite_list(ClientId::from_parts(10, 20, 3));
    assert_eq!(c.join(member(3, "c"), None), Ok(true));
    c.add_invite_mask(HostMask::new("d!*@*".to_string()));
    assert_eq!(c.join(member(4, "d"), None), Ok(true));
    assert!(c.remove_flag(ChannelMode::InviteOnly));
    assert!(!c.has_flag(ChannelMode::InviteOnly));
    assert_eq!(c.member_count(), 4);
    assert!(c.remove_member(ClientId::from_parts(10, 20, 4)));
    assert!(!c.remove_member(ClientId::from_parts(10, 20, 4)));
}

#[test]
fn member_privileges() {
    let mut m = member(1, "m");
    assert_eq!(m.decoration(), "");
    m.promote(ChannelMode::VoicePrivilege);
    assert_eq!(m.decorated_nick(), "+m");
    assert!(m.has_voice());
    m.promote(ChannelMode::OperatorPrivilege);
    assert_eq!(m.decorated_nick(), "@m");
    m.demote(ChannelMode::OperatorPrivilege);
    assert_eq!(m.decorated_nick(), "+m");
    assert!(m.mask_matches_any(&vec![HostMask::new("m!*@*".to_string())]));
    assert_eq!(m.flags(), b"v".to_vec());
    m.promote(ChannelMode::ChannelCreator);
    m.promote(ChannelMode::OperatorPrivilege);
    assert_eq!(m.flags(), b"Oov".to_vec());
    m.set_nick("mm".to_string());
    assert_eq!(m.decorated_nick(), "@mm");
    assert_eq!(m.nick(), "mm");
    let mut c = Channel::new("#n".to_string());
    assert_eq!(c.join(m, None), Ok(true));
    assert!(c.member_with_nick("mm").is_some());
    assert!(c.member_with_nick("m").is_none());
}

fn registered(server: &mut Server, n: u64, nick: &str) -> ClientId {
    let id = ClientId::from_parts(1, 2, n);
    server.connect(id, User::new("h".to_string()));
    for text in [format!("NICK {}", nick), format!("USER {} 0 * :R", nick)] {
        let msg = Message::new(text.into_bytes()).unwrap();
        server.handle(id, &msg);
    }
    id
}

#[test]
fn join_and_quit_through_the_server() {
    let mut server = Server::new("localhost".to_string());
    let a = registered(&mut server, 1, "a");
    let b = registered(&mut server, 2, "b");
    let out = server.handle(a, &Message::new(b"JOIN #x".to_vec()).unwrap());
    assert!(out.iter().any(|o| matches!(o, Outgoing::Line(to, l) if *to == a && l == b":a!a@h JOIN #x\r\n")));
    assert!(out.iter().any(|o| matches!(o, Outgoing::Line(to, l) if *to == a && l.starts_with(b":localhost 353 a = #x @a"))));
    let (r, _) = server.join_channel(b, "#x", None);
    assert_eq!(r, Ok(true));
    let out = server.handle(a, &Message::new(b"QUIT :bye".to_vec()).unwrap());
    assert!(out.iter().any(|o| matches!(o, Outgoing::Line(to, l) if *to == b && l == b":a!a@h QUIT bye\r\n")));
    assert!(matches!(out.last(), Some(Outgoing::Disconnect(to)) if *to == a));
    let (r, _) = server.join_channel(a, "#x", None);
    assert_eq!(r, Err(ResponseCode::ERR_NOSUCHNICK));
}

fn lines_to(out: &[Outgoing], id: ClientId) -> Vec<Vec<u8>> {
    out.iter()
        .filter_map(|o| match o {
            Outgoing::Line(to, l) if *to == id => Some(l.clone()),
            _ => None,
        })
        .collect()
}

#[test]
fn user_limit_through_the_server() {
    let mut server = Server::new("localhost".to_string());
    let a = registered(&mut server, 1, "a");
    let b = registered(&mut server, 2, "b");
    let c = registered(&mut server, 3, "c");
    server.handle(a, &Message::new(b"JOIN #x".to_vec()).unwrap());
    let out = server.handle(a, &Message::new(b"MODE #x +l 2".to_vec()).unwrap());
    assert_eq!(lines_to(&out, a), vec![b":a!a@h MODE #x +l 2\r\n".to_vec()]);
    let out = server.handle(b, &Message::new(b"JOIN #x".to_vec()).unwrap());
    assert!(lines_to(&out, b).iter().any(|l| l == b":b!b@h JOIN #x\r\n"));
    let out = server.handle(c, &Message::new(b"JOIN #x".to_vec()).unwrap());
    assert_eq!(lines_to(&out, c), vec![b":localhost 471 c #x\r\n".to_vec()]);
    assert!(lines_to(&out, a).is_empty());
    let shown = server.handle(a, &Message::new(b"MODE #x".to_vec()).unwrap());
    assert_eq!(lines_to(&shown, a), vec![b":localhost 324 a #x +tn\r\n".to_vec()]);
}

#[test]
fn mode_changes_through_the_server() {
    let mut server = Server::new("localhost".to_string());
    let a = registered(&mut server, 1, "a");
    let b = registered(&mut server, 2, "b");
    server.handle(a, &Message::new(b"JOIN #x".to_vec()).unwrap());
    server.handle(b, &Message::new(b"JOIN #x".to_vec()).unwrap());
    let denied = server.handle(b, &Message::new(b"MODE #x +i".to_vec()).unwrap());
    assert!(lines_to(&denied, b)[0].starts_with(b":localhost 482 b "));
    let out = server.handle(a, &Message::new(b"MODE #x +o b".to_vec()).unwrap());
    assert!(lines_to(&out, b).iter().any(|l| l == b":a!a@h MODE #x +o b\r\n"));
    let out = server.handle(a, &Message::new(b"MODE #x +b *!*@h".to_vec()).unwrap());
    assert!(out.is_empty());
    let listed = server.handle(a, &Message::new(b"MODE #x b".to_vec()).unwrap());
    assert_eq!(
        lines_to(&listed, a),
        vec![b":localhost 367 a #x *!*@h\r\n".to_vec(), b":localhost 368 a #x :End of list\r\n".to_vec()]
    );
    let missing = server.handle(a, &Message::new(b"MODE #nowhere +i".to_vec()).unwrap());
    assert!(lines_to(&missing, a)[0].starts_with(b":localhost 403 a "));
}

#[test]
fn channel_apply_mode() {
    let mut c = Channel::new("#a".to_string());
    assert_eq!(c.apply_mode(Action::Add, ChannelMode::UserLimit, Some(b"12")), ModeOutcome::Changed(Some(b"12".to_vec())));
    assert_eq!(c.limit(), Some(12));
    assert_eq!(c.apply_mode(Action::Add, ChannelMode::UserLimit, Some(b"x")), ModeOutcome::Unchanged);
    assert_eq!(c.apply_mode(Action::Remove, ChannelMode::UserLimit, None), ModeOutcome::Changed(None));
    assert_eq!(c.limit(), None);
    assert_eq!(c.apply_mode(Action::Add, ChannelMode::ChannelKey, Some(b"k")), ModeOutcome::Changed(None));
    assert_eq!(c.password(), &Some(b"k".to_vec()));
    assert_eq!(c.apply_mode(Action::Show, ChannelMode::BanMask, None), ModeOutcome::Listed);
    assert_eq!(c.apply_mode(Action::Add, ChannelMode::Secret, None), ModeOutcome::Changed(None));
    assert!(c.is_secret());
    assert_eq!(c.flags(), b"s".to_vec());
}

#[test]
fn part_reaps_empty_channels() {
    let mut server = Server::new("localhost".to_string());
    let a = registered(&mut server, 1, "a");
    let b = registered(&mut server, 2, "b");
    server.handle(a, &Message::new(b"JOIN #x".to_vec()).unwrap());
    server.handle(b, &Message::new(b"JOIN #x".to_vec()).unwrap());
    let out = server.handle(a, &Message::new(b"PART #x :later".to_vec()).unwrap());
    assert!(lines_to(&out, b).iter().any(|l| l == b":a!a@h PART #x later\r\n"));
    assert!(lines_to(&out, a).iter().any(|l| l == b":a!a@h PART #x later\r\n"));
    let again = server.handle(a, &Message::new(b"PART #x".to_vec()).unwrap());
    assert!(lines_to(&again, a)[0].starts_with(b":localhost 442 a #x"));
    let (r, _) = server.part_channel(b, "#x", None);
    assert_eq!(r, Ok(()));
    let (r, _) = server.part_channel(b, "#x", None);
    assert_eq!(r, Err(ResponseCode::ERR_NOSUCHCHANNEL));
    let none = server.handle(a, &Message::new(b"PART".to_vec()).unwrap());
    assert!(lines_to(&none, a)[0].starts_with(b":localhost 461 a"));
}

#[test]
fn list_replies_end_once() {
    let items = vec![b"x".to_vec(), b"y".to_vec()];
    let lines = rauta::client::list_reply(
        "srv",
        "n",
        ResponseCode::RPL_NAMREPLY,
        ResponseCode::RPL_ENDOFNAMES,
        b"#c",
        Some(b"="),
        &items,
    );
    assert_eq!(
        lines,
        vec![
            b":srv 353 n = #c x\r\n".to_vec(),
            b":srv 353 n = #c y\r\n".to_vec(),
            b":srv 366 n #c :End of list\r\n".to_vec()
        ]
    );
    let empty = rauta::client::list_reply("srv", "n", ResponseCode::RPL_BANLIST, ResponseCode::RPL_ENDOFBANLIST, b"#c", None, &Vec::new());
    assert_eq!(empty, vec![b":srv 368 n #c :End of list\r\n".to_vec()]);
}

#[test]
fn topic_names_who_invite() {
    let mut server = Server::new("localhost".to_string());
    let a = registered(&mut server, 1, "a");
    let b = registered(&mut server, 2, "b");
    let c = registered(&mut server, 3, "c");
    server.handle(a, &Message::new(b"JOIN #x".to_vec()).unwrap());
    let out = server.handle(a, &Message::new(b"TOPIC #x :news today".to_vec()).unwrap());
    assert_eq!(lines_to(&out, a), vec![b":a!a@h TOPIC #x :news today\r\n".to_vec()]);
    let shown = server.handle(b, &Message::new(b"TOPIC #x".to_vec()).unwrap());
    assert_eq!(lines_to(&shown, b), vec![b":localhost 332 b #x :news today\r\n".to_vec()]);
    let refused = server.handle(b, &Message::new(b"TOPIC #x :mine".to_vec()).unwrap());
    assert!(lines_to(&refused, b)[0].starts_with(b":localhost 442 b "));
    let names = server.handle(b, &Message::new(b"NAMES #x".to_vec()).unwrap());
    assert_eq!(
        lines_to(&names, b),
        vec![b":localhost 353 b = #x @a\r\n".to_vec(), b":localhost 366 b #x :End of list\r\n".to_vec()]
    );
    let who = server.handle(b, &Message::new(b"WHO #x".to_vec()).unwrap());
    assert_eq!(
        lines_to(&who, b),
        vec![
            b":localhost 352 b #x a h localhost a H@ :0 R\r\n".to_vec(),
            b":localhost 315 b #x :End of list\r\n".to_vec()
        ]
    );
    server.handle(a, &Message::new(b"MODE #x +i".to_vec()).unwrap());
    let denied = server.handle(c, &Message::new(b"JOIN #x".to_vec()).unwrap());
    assert!(lines_to(&denied, c)[0].starts_with(b":localhost 473 c "));
    let inv = server.handle(a, &Message::new(b"INVITE c #x".to_vec()).unwrap());
    assert_eq!(lines_to(&inv, a), vec![b":localhost 341 a #x c\r\n".to_vec()]);
    assert_eq!(lines_to(&inv, c), vec![b":a!a@h INVITE c #x\r\n".to_vec()]);
    let joined = server.handle(c, &Message::new(b"JOIN #x".to_vec()).unwrap());
    assert!(lines_to(&joined, c).iter().any(|l| l == b":c!c@h JOIN #x\r\n"));
}

#[test]
fn posted_operations_apply_in_order() {
    let mut c = Channel::new("#q".to_string());
    let mut ops = Vec::new();
    for n in 0..16u64 {
        ops.push(ChannelOp::Join(member(n, &format!("m{}", n)), None));
    }
    ops.push(ChannelOp::Mode(Action::Add, ChannelMode::UserLimit, Some(b"16".to_vec())));
    ops.push(ChannelOp::Join(member(99, "late"), None));
    ops.push(ChannelOp::Part(ClientId::from_parts(10, 20, 5)));
    ops.push(ChannelOp::Invite(ClientId::from_parts(10, 20, 77)));
    let results = c.apply_all(ops);
    assert_eq!(results.len(), 20);
    assert!(results[..16].iter().all(|r| matches!(r, OpResult::Joined(Ok(true)))));
    assert!(matches!(results[17], OpResult::Joined(Err(ResponseCode::ERR_CHANNELISFULL))));
    assert!(matches!(results[18], OpResult::Parted(true)));
    assert_eq!(c.member_count(), 15);
    assert!(c.members()[0].is_op());
    assert_eq!(c.members()[0].id(), ClientId::from_parts(10, 20, 0));
    assert!(!c.is_member(ClientId::from_parts(10, 20, 5)));
}
