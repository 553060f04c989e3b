use rauta::client::{build_msg, build_response, ipv4_bits, ipv6_bits, ClientId};
use rauta::command::{Command, ResponseCode};
use rauta::message::Message;

#[test]
fn message_parser() {
    let m = Message::new("@tag :prefix JOIN #channel".as_bytes().to_vec()).unwrap();
    assert_eq!(m.prefix().unwrap(), b"prefix");
    assert_eq!(m.command().unwrap().name(), b"JOIN".to_vec());
    assert_eq!(m.params().next().unwrap(), b"#channel");
}

fn round_trip(line: &str) {
    let m = Message::new(line.as_bytes().to_vec()).unwrap();
    let mut expected = line.as_bytes().to_vec();
    expected.extend_from_slice(b"\r\n");
    assert_eq!(m.encode(), expected);
}

#[test]
fn encode_parse_round_trip() {
    round_trip(":nick!user@host PRIVMSG #chan :hello world");
    round_trip("NICK a");
    round_trip("USER a 0 * :A");
    round_trip("CAP END");
    round_trip(":server 001 a :Welcome");
    round_trip("PART #a :");
}

#[test]
fn parse_drops_empty_middles_and_keeps_trailing() {
    let m = Message::new(b"MODE  #a   +b  x :a b  c".to_vec()).unwrap();
    assert!(m.prefix().is_none());
    assert_eq!(m.command_bytes(), b"MODE");
    assert_eq!(m.param_count(), 4);
    assert_eq!(m.param(0).unwrap(), b"#a");
    assert_eq!(m.param(1).unwrap(), b"+b");
    assert_eq!(m.param(2).unwrap(), b"x");
    assert_eq!(m.param(3).unwrap(), b"a b  c");
    assert!(m.has_trailing());
    assert!(m.param(4).is_none());
}

#[test]
fn tags_without_prefix_are_dropped() {
    let m = Message::new(b"@tag JOIN #channel".to_vec()).unwrap();
    assert!(m.prefix().is_none());
    assert_eq!(m.command_bytes(), b"JOIN");
    assert_eq!(m.param(0).unwrap(), b"#channel");
    assert_eq!(m.param_count(), 1);
}

#[test]
fn parse_errors() {
    assert!(Message::new(Vec::new()).is_err());
    assert!(Message::new(b"@tags-without-end".to_vec()).is_err());
    assert!(Message::new(b":prefix-only".to_vec()).is_err());
    assert!(Message::new(b":prefix ".to_vec()).is_err());
    assert!(Message::new(vec![0xc3, 0xa9, b' ', b'x']).is_err());
}

#[test]
fn unknown_verb_is_no_command() {
    let m = Message::new(b"FOO bar".to_vec()).unwrap();
    assert!(m.command().is_none());
    assert_eq!(m.command_bytes(), b"FOO");
    assert_eq!(m.into_vec(), b"FOO bar".to_vec());
}

#[test]
fn command_names() {
    assert_eq!(Command::from_slice(b"PRIVMSG"), Some(Command::PRIVMSG));
    assert_eq!(Command::from_str("CAP"), Some(Command::CAP));
    assert_eq!(Command::from_slice(b"privmsg"), None);
    assert_eq!(Command::RESPONSE(ResponseCode::RPL_WELCOME).name(), b"001".to_vec());
    assert_eq!(Command::RESPONSE(ResponseCode::ERR_CHANNELISFULL).name(), b"471".to_vec());
    assert_eq!(ResponseCode::ERR_USERSDONTMATCH.code(), 502);
}

#[test]
fn building_lines() {
    let r = build_response("localhost", ResponseCode::ERR_NICKNAMEINUSE, "a", &[b"b", b"Nickname is already in use"]);
    assert_eq!(r, b":localhost 433 a b :Nickname is already in use\r\n".to_vec());
    let m = build_msg("a!b@c", Command::JOIN, &[b"#chan"]);
    assert_eq!(m, b":a!b@c JOIN #chan\r\n".to_vec());
    let t = build_msg("a!b@c", Command::PRIVMSG, &[b"#chan", b"two words"]);
    assert_eq!(t, b":a!b@c PRIVMSG #chan :two words\r\n".to_vec());
    let e = build_msg("a!b@c", Command::PART, &[b"#chan", b""]);
    assert_eq!(e, b":a!b@c PART #chan :\r\n".to_vec());
    let c = build_msg("a!b@c", Command::PRIVMSG, &[b"#chan", b":)"]);
    assert_eq!(c, b":a!b@c PRIVMSG #chan ::)\r\n".to_vec());
    let n = build_msg("p", Command::NICK, &[b"a"]);
    assert_eq!(n, b":p NICK a\r\n".to_vec());
    let q = build_msg("a!b@c", Command::QUIT, &[]);
    assert_eq!(q, b":a!b@c QUIT\r\n".to_vec());
}

#[test]
fn client_ids() {
    assert_eq!(ipv4_bits(127, 0, 0, 1), 0x7f000001);
    assert_eq!(ipv6_bits(0x1234, 0x5678), 0x12345678);
    let a = ClientId::from_parts(1, 2, 3);
    assert_eq!(a.addresses, (1u64 << 32) | 2);
    assert_eq!(a.token(), (((1u64 << 32) | 2) ^ 3) as usize);
    let b = ClientId::new(1, 2);
    assert_eq!(b.addresses, a.addresses);
}
