use rauta::handler::{verify_list, ItemCheck, JoinRequest, OnError, ParseError, Subcommand};
use rauta::message::Message;
use rauta::misc::{is_reserved_nick, valid_channel, valid_nick, verify_channel, verify_nick, verify_receiver, Receiver};
use rauta::mode::Action::{Add, Remove, Show};
use rauta::mode::ChannelMode::{BanMask, ExceptionMask, OperatorPrivilege};
use rauta::mode::{modes_do, Action, ChannelMode};
use rauta::user::HostMask;

#[test]
fn mode_parser() {
    let msgs: Vec<&[u8]> = vec![
        &*b"MODE &oulu +b *!*@*.edu +e *!*@*.bu.edu",
        &*b"MODE #bu +be *!*@*.edu *!*@*.bu.edu",
        &*b"MODE #bu b",
        &*b"MODE #test -oo Guest",
        &*b"MODE #bu +g",
    ];
    let modes: Vec<Vec<(Action, ChannelMode, Option<&[u8]>)>> = vec![
        vec![(Add, BanMask, Some(&*b"*!*@*.edu")), (Add, ExceptionMask, Some(&*b"*!*@*.bu.edu"))],
        vec![(Add, BanMask, Some(&*b"*!*@*.edu")), (Add, ExceptionMask, Some(&*b"*!*@*.bu.edu"))],
        vec![(Show, BanMask, None)],
        vec![(Remove, OperatorPrivilege, Some(&*b"Guest")), (Remove, OperatorPrivilege, None)],
        Vec::new(),
    ];
    for (msg, expected) in msgs.iter().zip(modes.iter()) {
        let m = Message::new(msg.to_vec()).unwrap();
        let mut params = m.params();
        let _ = params.next();
        let got = modes_do(params);
        assert_eq!(&got, expected);
    }
}

#[test]
fn show_consumes_no_parameter() {
    let m = Message::new(b"MODE #bu b *!*@*.edu".to_vec()).unwrap();
    let mut params = m.params();
    let _ = params.next();
    let got = modes_do(params);
    assert_eq!(got, vec![(Action::Show, ChannelMode::BanMask, None), (Action::Show, ChannelMode::ExceptionMask, None)]);
}

#[test]
fn mode_letters() {
    assert_eq!(ChannelMode::from_byte(b'I'), Some(ChannelMode::InvitationMask));
    assert_eq!(ChannelMode::from_byte(b'g'), None);
    assert_eq!(ChannelMode::UserLimit.letter(), b'l');
    assert!(ChannelMode::ChannelKey.has_parameter());
    assert!(!ChannelMode::Secret.has_parameter());
}

#[test]
fn mask_matching() {
    assert!(HostMask::new("*!*@*.com".to_string()).matches("a!b@example.com"));
    assert!(!HostMask::new("*!*@*.com".to_string()).matches("*!*@*.edu"));
    assert!(!HostMask::new("*!*@*.com".to_string()).matches("*!*@*.cop"));
    assert!(!HostMask::new("*!*@*.com".to_string()).matches("*!*@*.coma"));
    assert!(HostMask::new("*!*@example.com".to_string()).matches("a!b@example.com"));
    assert!(HostMask::new("foo!*@*.com".to_string()).matches("foo!bar@example.com"));
    assert!(!HostMask::new("foo!*@*.com".to_string()).matches("baz!bar@example.com"));
    assert!(HostMask::new("*!bar@*.com".to_string()).matches("foo!bar@example.com"));
    assert!(!HostMask::new("*!bar@*.com".to_string()).matches("foo!baz@example.com"));
}

#[test]
fn mask_matching_edges() {
    assert!(!HostMask::new("*!*@*.com".to_string()).matches("a!b@example.org"));
    assert!(HostMask::new("a!b@*".to_string()).matches("a!b@"));
    assert!(HostMask::new("a!b@*".to_string()).matches("a!b@anything.at.all"));
    assert!(HostMask::new("*".to_string()).matches(""));
    assert!(!HostMask::new("".to_string()).matches("x"));
    assert!(HostMask::new("".to_string()).matches(""));
}

#[test]
fn mask_parts() {
    let m = HostMask::from_parts("nick", "user", "host.example");
    assert_eq!(m.as_str(), "nick!user@host.example");
    assert_eq!(m.nick().unwrap(), b"nick");
    assert_eq!(m.user().unwrap(), b"user");
    assert_eq!(m.host().unwrap(), b"host.example");
}

#[test]
fn test_nickname_validation() {
    assert!(valid_nick("FooBar123"));
    assert_eq!(valid_nick("FooBar1234"), false);
    assert_eq!(valid_nick("1FooBar12"), false);
}

#[test]
fn test_channel_name_validation() {
    assert!(valid_channel("#Foobar"));
    assert_eq!(valid_channel("Foobar"), false);
    assert_eq!(valid_channel("#Foo,bar"), false);
    assert_eq!(valid_channel("Foo bar"), false);
}

#[test]
fn raw_names() {
    assert_eq!(verify_nick(b"[a]-b"), Some("[a]-b"));
    assert_eq!(verify_nick(&[0xff, b'a']), None);
    assert_eq!(verify_nick(b"a b"), None);
    assert_eq!(verify_channel(b"&local"), Some("&local"));
    assert_eq!(verify_channel(&[b'#', 0xc3]), None);
    assert!(matches!(verify_receiver(b"#chan"), Some(Receiver::Channel(ref n)) if n == "#chan"));
    assert!(matches!(verify_receiver(b"bob"), Some(Receiver::Nick(ref n)) if n == "bob"));
    assert!(verify_receiver(b"9x").is_none());
    assert!(is_reserved_nick(b"NickServ"));
    assert!(is_reserved_nick(b"*"));
    assert!(!is_reserved_nick(b"nickserv"));
}

#[test]
fn join_parse_destinations() {
    let msg = Message::new(b"JOIN #hello,#world pass".to_vec()).unwrap();
    let h = JoinRequest::from_message(&msg).ok().unwrap();
    let mut c = h.channels.iter();
    let mut p = h.passwords.iter();
    let name = *c.next().unwrap();
    let pw = p.next().copied();
    assert_eq!(name, b"#hello");
    assert_eq!(pw, Some(&b"pass"[..]));
    let name = *c.next().unwrap();
    let pw = p.next().copied();
    assert_eq!(name, b"#world");
    assert_eq!(pw, None);
}

#[test]
fn join_parse_errors() {
    let none = Message::new(b"JOIN".to_vec()).unwrap();
    assert!(matches!(JoinRequest::from_message(&none), Err((rauta::command::ResponseCode::ERR_NEEDMOREPARAMS, _))));
    let bad = Message::new(b"JOIN #a,b".to_vec()).unwrap();
    assert!(matches!(JoinRequest::from_message(&bad), Err((rauta::command::ResponseCode::ERR_NEEDMOREPARAMS, _))));
    let many = Message::new(b"JOIN #1,#2,#3,#4,#5,#6,#7,#8,#9,#10,#11".to_vec()).unwrap();
    assert!(matches!(JoinRequest::from_message(&many), Err((rauta::command::ResponseCode::ERR_TOOMANYTARGETS, _))));
}

#[test]
fn comma_lists() {
    let ok = verify_list(b"#a,,#b", ItemCheck::Channel, OnError::Fail).ok().unwrap();
    assert_eq!(ok, vec![&b"#a"[..], &b""[..], &b"#b"[..]]);
    let eleven = verify_list(b"x,#2,#3,#4,#5,#6,#7,#8,#9,#10,#11", ItemCheck::Channel, OnError::Fail);
    assert!(matches!(eleven, Err(ParseError::TooMany)));
    let ten = verify_list(b"#1,#2,#3,#4,#5,#6,#7,#8,#9,#10", ItemCheck::Channel, OnError::Fail);
    assert_eq!(ten.ok().unwrap().len(), 10);
    assert!(matches!(verify_list(b"#a,x", ItemCheck::Channel, OnError::Fail), Err(ParseError::Malformed(x)) if x == b"x"));
    let skipped = verify_list(b"#a,x,#c", ItemCheck::Channel, OnError::Skip).ok().unwrap();
    assert_eq!(skipped, vec![&b"#a"[..], &b"#c"[..]]);
}

#[test]
fn cap_subcommands() {
    assert_eq!(Subcommand::from_slice(b"END"), Some(Subcommand::END));
    assert_eq!(Subcommand::from_slice(b"end"), None);
    assert_eq!(Subcommand::CLEAR.as_slice(), "CLEAR");
    assert_eq!(Subcommand::NAK.as_bytes(), b"NAK".to_vec());
}
