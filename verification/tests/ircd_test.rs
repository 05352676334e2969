use gossamer::buffer::BufferPool;
use gossamer::client::ClientEvent;
use gossamer::irc::IrcMessage;
use gossamer::ircd::{on_registration, privmsg_line, privmsg_target, send_welcome};
use gossamer::network::Network;

fn network() -> Network {
    let mut net = Network::new("hub.a".to_string());
    net.subnet_add("dev".to_string()).ok().unwrap();
    net
}

fn sent(events: &[ClientEvent]) -> Vec<String> {
    events
        .iter()
        .map(|e| match e {
            ClientEvent::Send(s) => s.clone(),
            ClientEvent::RegistrationSuccess(id) => format!("ok {}", id),
            ClientEvent::RegistrationNickTaken => "taken".to_string(),
        })
        .collect()
}

#[test]
fn welcome_lines() {
    let mut net = network();
    let id = net
        .client_add(0, "alex".to_string(), "a".to_string(), "h".to_string(), "A".to_string())
        .ok()
        .unwrap();
    let lines = sent(&send_welcome(&net, id));
    assert_eq!(lines.len(), 7);
    assert_eq!(lines[0], ":hub.a 001 alex :Welcome to the NAME Internet Relay Chat Network alex\r\n");
    assert_eq!(lines[1], ":hub.a 002 alex :Your host is hub.a, running version VERSION\r\n");
    assert_eq!(lines[2], ":hub.a 003 alex :This server was created DATE\r\n");
    assert!(lines[3].starts_with(":hub.a 004 alex hub.a gossamircd-0.1 "));
    assert!(lines[4].starts_with(":hub.a 005 alex CALLERID "));
    assert!(lines[5].starts_with(":hub.a 005 alex CHANTYPES=# "));
    assert_eq!(lines[6], ":hub.a MODE alex :+ix\r\n");
}

#[test]
fn registration_succeeds_then_nick_is_taken() {
    let mut net = network();
    let events = on_registration(&mut net, "Alex".to_string(), "a".to_string(), "A".to_string());
    let lines = sent(&events);
    assert_eq!(lines.len(), 8);
    assert_eq!(lines[0], "ok 0");
    assert_eq!(lines[7], ":hub.a MODE Alex :+ix\r\n");
    assert_eq!(net.state.client_by_id(0).host, "127.0.0.1");
    let events = on_registration(&mut net, "ALEX".to_string(), "b".to_string(), "B".to_string());
    assert_eq!(sent(&events), vec!["taken".to_string()]);
}

#[test]
fn privmsg_is_addressed_by_nick() {
    let mut net = network();
    let alice = net
        .client_add(0, "alice".to_string(), "al".to_string(), "h1".to_string(), "A".to_string())
        .ok()
        .unwrap();
    let bob = net
        .client_add(0, "Bob".to_string(), "bo".to_string(), "h2".to_string(), "B".to_string())
        .ok()
        .unwrap();
    let mut pool = BufferPool::new(64, 2);
    let mut buf = pool.take().ok().unwrap();
    buf.append("PRIVMSG bob :hello there").unwrap();
    let msg = match IrcMessage::from(buf) {
        Ok(IrcMessage::Privmsg(m)) => m,
        _ => panic!("expected a private message"),
    };
    let to = privmsg_target(&net, &msg).unwrap();
    assert_eq!(to, bob);
    let line = privmsg_line(&net, alice, to, &msg);
    assert_eq!(line, ":alice!al@h1 PRIVMSG Bob :hello there\r\n");

    let mut buf = pool.take().ok().unwrap();
    buf.append("PRIVMSG nobody :x").unwrap();
    let msg = match IrcMessage::from(buf) {
        Ok(IrcMessage::Privmsg(m)) => m,
        _ => panic!("expected a private message"),
    };
    assert!(privmsg_target(&net, &msg).is_none());
}
