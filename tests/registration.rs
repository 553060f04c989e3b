use rauta::client::ClientId;
use rauta::command::{Command, ResponseCode};
use rauta::message::Message;
use rauta::registration::{command_allowed, continue_registration, on_nick, on_user, suspend_registration};
use rauta::server::{Outgoing, Server};
use rauta::user::{Phase, Status, User};

#[test]
fn cap_end_twice_welcomes_once() {
    let s = Status::Negotiating(Phase::Registered);
    let (s1, w1) = continue_registration(s);
    assert_eq!((s1, w1), (Status::Registered, true));
    let (s2, w2) = continue_registration(s1);
    assert_eq!((s2, w2), (Status::Registered, false));
}

#[test]
fn transitions() {
    assert_eq!(on_nick(Status::Connected), (Status::NickRegistered, false));
    assert_eq!(on_nick(Status::NameRegistered), (Status::Registered, true));
    assert_eq!(on_nick(Status::Negotiating(Phase::Connected)), (Status::Negotiating(Phase::NickRegistered), false));
    assert_eq!(on_nick(Status::Negotiating(Phase::NameRegistered)), (Status::Negotiating(Phase::Registered), false));
    assert_eq!(on_user(Status::NickRegistered), Ok((Status::Registered, true)));
    assert_eq!(on_user(Status::Connected), Ok((Status::NameRegistered, false)));
    assert_eq!(on_user(Status::Registered), Err(ResponseCode::ERR_ALREADYREGISTRED));
    assert_eq!(suspend_registration(Status::NickRegistered), Status::Negotiating(Phase::NickRegistered));
    assert_eq!(suspend_registration(Status::Negotiating(Phase::Connected)), Status::Negotiating(Phase::Connected));
    assert!(command_allowed(Status::Connected, Command::CAP));
    assert!(!command_allowed(Status::NickRegistered, Command::JOIN));
    assert!(command_allowed(Status::Registered, Command::JOIN));
}

fn line(server: &mut Server, id: ClientId, text: &str) -> Vec<Vec<u8>> {
    let msg = Message::new(text.as_bytes().to_vec()).unwrap();
    server
        .handle(id, &msg)
        .into_iter()
        .filter_map(|o| match o {
            Outgoing::Line(to, l) if to == id => Some(l),
            _ => None,
        })
        .collect()
}

fn starts_with(l: &[u8], prefix: &str) -> bool {
    l.starts_with(prefix.as_bytes())
}

#[test]
fn registration() {
    let mut server = Server::new("localhost".to_string());
    let id = ClientId::from_parts(1, 2, 3);
    server.connect(id, User::new("client.example".to_string()));
    let mut got = Vec::new();
    got.extend(line(&mut server, id, "CAP END"));
    got.extend(line(&mut server, id, "NICK Nick"));
    got.extend(line(&mut server, id, "USER Nick 0 * :Test user"));
    assert_eq!(got.len(), 1);
    assert!(starts_with(&got[0], ":localhost 001 Nick"));
}

#[test]
fn welcome_after_nick_user_cap_end() {
    let mut server = Server::new("localhost".to_string());
    let id = ClientId::from_parts(1, 2, 3);
    server.connect(id, User::new("h".to_string()));
    let mut got = Vec::new();
    got.extend(line(&mut server, id, "NICK a"));
    got.extend(line(&mut server, id, "USER a 0 * :A"));
    got.extend(line(&mut server, id, "CAP END"));
    let welcomes: Vec<&Vec<u8>> = got.iter().filter(|l| starts_with(l, ":localhost 001 a ")).collect();
    assert_eq!(welcomes.len(), 1);
    assert_eq!(welcomes[0], &b":localhost 001 a :Welcome to the Internet Relay Network a!a@h\r\n".to_vec());
    assert!(line(&mut server, id, "CAP END").is_empty());
}

#[test]
fn negotiation_defers_welcome() {
    let mut server = Server::new("localhost".to_string());
    let id = ClientId::from_parts(1, 2, 3);
    server.connect(id, User::new("h".to_string()));
    let ls = line(&mut server, id, "CAP LS");
    assert_eq!(ls, vec![b":localhost CAP * LS\r\n".to_vec()]);
    assert!(line(&mut server, id, "NICK a").is_empty());
    assert!(line(&mut server, id, "USER a 0 * :A").is_empty());
    let end = line(&mut server, id, "CAP END");
    assert_eq!(end.len(), 1);
    assert!(starts_with(&end[0], ":localhost 001 a "));
    assert!(line(&mut server, id, "CAP END").is_empty());
}

#[test]
fn gate_drops_commands_before_registration() {
    let mut server = Server::new("localhost".to_string());
    let id = ClientId::from_parts(1, 2, 3);
    server.connect(id, User::new("h".to_string()));
    assert!(line(&mut server, id, "JOIN #a").is_empty());
    let unknown = line(&mut server, id, "FOO");
    assert_eq!(unknown.len(), 1);
    assert!(starts_with(&unknown[0], ":localhost 421 * "));
}

#[test]
fn nick_errors() {
    let mut server = Server::new("localhost".to_string());
    let a = ClientId::from_parts(1, 2, 3);
    let b = ClientId::from_parts(1, 2, 4);
    server.connect(a, User::new("h".to_string()));
    server.connect(b, User::new("h".to_string()));
    assert!(line(&mut server, a, "NICK taken").is_empty());
    let inuse = line(&mut server, b, "NICK taken");
    assert!(starts_with(&inuse[0], ":localhost 433 "));
    let reserved = line(&mut server, b, "NICK NickServ");
    assert!(starts_with(&reserved[0], ":localhost 432 "));
    let bad = server.handle(b, &Message::new(vec![b'N', b'I', b'C', b'K', b' ', 0xff]).unwrap());
    assert!(matches!(&bad[0], Outgoing::Line(_, l) if starts_with(l, ":localhost 432 ")));
    let none = line(&mut server, b, "NICK");
    assert!(starts_with(&none[0], ":localhost 431 "));
    let cap = line(&mut server, b, "CAP BOGUS");
    assert!(starts_with(&cap[0], ":localhost 410 "));
}

#[test]
fn user_errors() {
    let mut server = Server::new("localhost".to_string());
    let a = ClientId::from_parts(1, 2, 3);
    server.connect(a, User::new("h".to_string()));
    let short = line(&mut server, a, "USER a 0 *");
    assert!(starts_with(&short[0], ":localhost 461 "));
    assert!(line(&mut server, a, "USER a 0 * :A").is_empty());
    let again = line(&mut server, a, "USER a 0 * :A");
    assert!(starts_with(&again[0], ":localhost 462 "));
}

#[test]
fn user_state() {
    let mut u = User::new("host".to_string());
    assert_eq!(u.nick(), "*");
    assert_eq!(u.realname(), "John Doe");
    assert_eq!(u.public_hostmask().as_str(), "*!@host");
    let old = u.set_nick("bob".to_string());
    assert_eq!(old, "*");
    u.set_user("b".to_string());
    u.set_realname("Bob".to_string());
    assert_eq!(u.real_hostmask().as_str(), "bob!b@host");
    u.set_status(Status::Registered);
    assert_eq!(u.status(), Status::Registered);
    assert_eq!(u.host(), "host");
    assert_eq!(u.user(), "b");
}

fn register_client(server: &mut Server, n: u64, nick: &str) -> ClientId {
    let id = ClientId::from_parts(1, 2, n);
    server.connect(id, User::new("h".to_string()));
    line(server, id, "CAP END");
    line(server, id, &format!("NICK {}", nick));
    let got = line(server, id, &format!("USER {} 0 * :Test user", nick));
    assert!(starts_with(&got[0], &format!(":localhost 001 {}", nick)));
    id
}

#[test]
fn privmsg_privmsg_notice() {
    let mut server = Server::new("localhost".to_string());
    let id = register_client(&mut server, 1, "privmsg_test");
    assert!(line(&mut server, id, "NOTICE #nonexisting :Hello").is_empty());
    let got = line(&mut server, id, "PRIVMSG #nonexisting2 :Hello");
    assert!(starts_with(&got[0], ":localhost 401 privmsg_test #nonexisting2"));
}

#[test]
fn privmsg_delivery() {
    let mut server = Server::new("localhost".to_string());
    let a = register_client(&mut server, 1, "a");
    let b = register_client(&mut server, 2, "b");
    let c = register_client(&mut server, 3, "c");
    line(&mut server, a, "JOIN #x");
    line(&mut server, b, "JOIN #x");
    let out = server.handle(a, &Message::new(b"PRIVMSG #x :hi there".to_vec()).unwrap());
    let to: Vec<ClientId> = out.iter().map(|o| match o {
        Outgoing::Line(t, _) => *t,
        Outgoing::Disconnect(t) => *t,
    }).collect();
    assert_eq!(to, vec![b]);
    assert!(matches!(&out[0], Outgoing::Line(_, l) if l == b":a!a@h PRIVMSG #x :hi there\r\n"));
    let outsider = server.handle(c, &Message::new(b"PRIVMSG #x :hello".to_vec()).unwrap());
    assert!(outsider.is_empty());
    line(&mut server, a, "MODE #x -n");
    let out = server.handle(c, &Message::new(b"PRIVMSG #x :hello".to_vec()).unwrap());
    assert_eq!(out.len(), 2);
    line(&mut server, a, "MODE #x +m");
    let muted = server.handle(b, &Message::new(b"PRIVMSG #x :quiet".to_vec()).unwrap());
    assert!(muted.is_empty());
    let direct = server.handle(a, &Message::new(b"PRIVMSG c :psst".to_vec()).unwrap());
    assert!(matches!(&direct[0], Outgoing::Line(t, l) if *t == c && l == b":a!a@h PRIVMSG c psst\r\n"));
}

#[test]
fn resending_own_nick_is_in_use() {
    let mut server = Server::new("localhost".to_string());
    let id = ClientId::from_parts(1, 2, 3);
    server.connect(id, User::new("h".to_string()));
    assert!(line(&mut server, id, "NICK a").is_empty());
    let again = line(&mut server, id, "NICK a");
    assert_eq!(again, vec![b":localhost 433 a a :Nickname is already in use\r\n".to_vec()]);
    let got = line(&mut server, id, "USER a 0 * :A");
    assert!(starts_with(&got[0], ":localhost 001 a "));
}
