use gossamer::link::{Client, Message};
use gossamer::network::Network;

/// Two nodes and the ids under which each knows the other.
struct Pair {
    a: Network,
    b: Network,
    b_at_a: u32,
    a_at_b: u32,
}

fn deliver(to: &mut Network, from: u32, out: Vec<(u32, Message)>, expected: u32) {
    for (id, msg) in out {
        assert_eq!(id, expected);
        assert!(to.accepts_message(from, &msg), "message refused");
        to.on_link_message(from, msg);
    }
}

impl Pair {
    /// Runs the two nodes until neither has anything left to send.
    fn settle(&mut self) {
        loop {
            let out_a = self.a.take_outbox();
            let out_b = self.b.take_outbox();
            if out_a.is_empty() && out_b.is_empty() {
                return;
            }
            deliver(&mut self.b, self.a_at_b, out_a, self.b_at_a);
            deliver(&mut self.a, self.b_at_a, out_b, self.a_at_b);
        }
    }

    fn start(mut a: Network, mut b: Network) -> Pair {
        let b_name = b.state.server_by_id(0).name.clone();
        let a_name = a.state.server_by_id(0).name.clone();
        let b_at_a = a.link_new(b_name).ok().unwrap();
        let a_at_b = b.link_new(a_name).ok().unwrap();
        let mut pair = Pair { a, b, b_at_a, a_at_b };
        pair.settle();
        pair
    }

    fn stop(&mut self) {
        self.a.link_closed(self.b_at_a);
        self.b.link_closed(self.a_at_b);
    }
}

#[test]
fn test_link() {
    let mut a = Network::new("hub.a".to_string());
    let b = Network::new("hub.b".to_string());
    a.subnet_add("test".to_string()).ok().unwrap();
    let pair = Pair::start(a, b);
    let linked_b = pair.b.state.server_by_id(1);
    assert_eq!(linked_b.name, "hub.a");
    let sn_b = pair.b.state.subnet_by_name("test");
    assert!(sn_b.is_some(), "Subnet should exist on hub.b");
}

#[test]
fn test_client_link() {
    let mut a = Network::new("hub.a".to_string());
    let b = Network::new("hub.b".to_string());
    let sn = a.subnet_add("dev".to_string()).ok().unwrap();
    a.client_add(
        sn,
        "test".to_string(),
        "test".to_string(),
        "test.client".to_string(),
        "Test Client".to_string(),
    )
    .ok()
    .unwrap();
    let mut pair = Pair::start(a, b);
    let client = pair.b.state.client_by_nick(sn, "test");
    assert!(client.is_some(), "Client should exist on hub.b");
    pair.b
        .client_add(
            sn,
            "test2".to_string(),
            "test2".to_string(),
            "test.client".to_string(),
            "Test Client".to_string(),
        )
        .ok()
        .unwrap();
    pair.settle();
    let client = pair.a.state.client_by_nick(sn, "test2");
    assert!(client.is_some(), "Client should exist on hub.a");
}

#[test]
fn test_netsplit() {
    let mut a = Network::new("hub.a".to_string());
    let b = Network::new("hub.b".to_string());
    let sn = a.subnet_add("dev".to_string()).ok().unwrap();
    a.client_add(
        sn,
        "test".to_string(),
        "test".to_string(),
        "test.client".to_string(),
        "Test Client".to_string(),
    )
    .ok()
    .unwrap();
    let mut pair = Pair::start(a, b);
    let client = pair.b.state.client_by_nick(sn, "test");
    assert!(client.is_some(), "Client should exist on hub.b");
    pair.stop();
    let client = pair.b.state.client_by_nick(sn, "test");
    assert!(client.is_none(), "Client should not exist on hub.b");
}

#[test]
fn announced_client_keeps_its_details_and_server() {
    let mut a = Network::new("Hub.A".to_string());
    let b = Network::new("hub.b".to_string());
    let sn = a.subnet_add("Dev".to_string()).ok().unwrap();
    let id = a
        .client_add(sn, "Alice".to_string(), "al".to_string(), "h.example".to_string(), "Al Ice".to_string())
        .ok()
        .unwrap();
    let pair = Pair::start(a, b);
    let at_b = pair.b.state.client_by_nick(sn, "alice").unwrap();
    let c = pair.b.state.client_by_id(at_b);
    assert_eq!(c.nick, "Alice");
    assert_eq!(c.ident, "al");
    assert_eq!(c.host, "h.example");
    assert_eq!(c.gecos, "Al Ice");
    assert_eq!(c.server, pair.a_at_b);
    assert_eq!(pair.a.state.client_by_id(id).server, 0);
}

#[test]
fn client_add_is_announced_to_every_link() {
    let mut net = Network::new("hub.a".to_string());
    let sn = net.subnet_add("dev".to_string()).ok().unwrap();
    let b = net.link_new("hub.b".to_string()).ok().unwrap();
    let c = net.link_new("hub.c".to_string()).ok().unwrap();
    let _ = net.take_outbox();
    net.client_add(sn, "Bob".to_string(), "b".to_string(), "h".to_string(), "B".to_string())
        .ok()
        .unwrap();
    let out = net.take_outbox();
    assert_eq!(out.len(), 2);
    assert_eq!(out[0].0, b);
    assert_eq!(out[1].0, c);
    for (_, m) in out {
        match m {
            Message::Client(cl) => {
                assert_eq!(cl.server, "hub.a");
                assert_eq!(cl.subnet, "dev");
                assert_eq!(cl.nick, "Bob");
            }
            _ => panic!("expected a client announcement"),
        }
    }
    assert!(net
        .client_add(sn, "BOB".to_string(), "b".to_string(), "h".to_string(), "B".to_string())
        .is_err());
    assert!(net.take_outbox().is_empty());
}

#[test]
fn client_from_net_with_taken_nick_is_dropped() {
    let mut net = Network::new("hub.a".to_string());
    let sn = net.subnet_add("dev".to_string()).ok().unwrap();
    let b = net.link_new("hub.b".to_string()).ok().unwrap();
    let c = net.link_new("hub.c".to_string()).ok().unwrap();
    net.client_add(sn, "Bob".to_string(), "b".to_string(), "h".to_string(), "B".to_string())
        .ok()
        .unwrap();
    let _ = net.take_outbox();
    let msg = Message::Client(Client {
        server: "hub.b".to_string(),
        subnet: "dev".to_string(),
        nick: "bob".to_string(),
        ident: "x".to_string(),
        host: "y".to_string(),
        gecos: "z".to_string(),
    });
    assert!(net.accepts_message(b, &msg));
    net.on_link_message(b, msg);
    assert!(net.take_outbox().is_empty());
    assert_eq!(net.state.server_by_id(b).clients.len(), 0);
    let msg = Message::Client(Client {
        server: "hub.b".to_string(),
        subnet: "dev".to_string(),
        nick: "carol".to_string(),
        ident: "x".to_string(),
        host: "y".to_string(),
        gecos: "z".to_string(),
    });
    net.on_link_message(b, msg);
    let out = net.take_outbox();
    assert_eq!(out.len(), 1);
    assert_eq!(out[0].0, c);
    assert!(net.state.client_by_nick(sn, "carol").is_some());
}

#[test]
fn client_from_net_needs_known_names() {
    let mut net = Network::new("hub.a".to_string());
    net.subnet_add("dev".to_string()).ok().unwrap();
    let b = net.link_new("hub.b".to_string()).ok().unwrap();
    let msg = Message::Client(Client {
        server: "hub.x".to_string(),
        subnet: "dev".to_string(),
        nick: "n".to_string(),
        ident: "i".to_string(),
        host: "h".to_string(),
        gecos: "g".to_string(),
    });
    assert!(!net.accepts_message(b, &msg));
    let msg = Message::Client(Client {
        server: "hub.b".to_string(),
        subnet: "ops".to_string(),
        nick: "n".to_string(),
        ident: "i".to_string(),
        host: "h".to_string(),
        gecos: "g".to_string(),
    });
    assert!(!net.accepts_message(b, &msg));
}

#[test]
fn burst_lists_clients_after_servers_and_subnets() {
    let mut net = Network::new("hub.a".to_string());
    let sn = net.subnet_add("dev".to_string()).ok().unwrap();
    net.client_add(sn, "Bob".to_string(), "b".to_string(), "h".to_string(), "B".to_string())
        .ok()
        .unwrap();
    let _b = net.link_new("hub.b".to_string()).ok().unwrap();
    let c = net.link_new("hub.c".to_string()).ok().unwrap();
    let out = net.take_outbox();
    let to_c: Vec<&Message> = out.iter().filter(|(id, _)| *id == c).map(|(_, m)| m).collect();
    assert_eq!(to_c.len(), 3);
    assert!(matches!(to_c[0], Message::Server(s) if s.name == "hub.b"));
    assert!(matches!(to_c[1], Message::Subnet(s) if s.name == "dev"));
    assert!(matches!(to_c[2], Message::Client(cl) if cl.nick == "Bob" && cl.server == "hub.a"));
}

#[test]
fn link_closed_drops_the_servers_and_clients_behind_it() {
    let mut net = Network::new("hub.a".to_string());
    let sn = net.subnet_add("dev".to_string()).ok().unwrap();
    let b = net.link_new("hub.b".to_string()).ok().unwrap();
    let c = net.link_new("hub.c".to_string()).ok().unwrap();
    let local = net
        .client_add(sn, "Loc".to_string(), "l".to_string(), "h".to_string(), "L".to_string())
        .ok()
        .unwrap();
    for (srv, nick) in [("hub.b", "onb"), ("hub.c", "onc")] {
        let from = if srv == "hub.b" { b } else { c };
        let msg = Message::Client(Client {
            server: srv.to_string(),
            subnet: "dev".to_string(),
            nick: nick.to_string(),
            ident: "i".to_string(),
            host: "h".to_string(),
            gecos: "g".to_string(),
        });
        net.on_link_message(from, msg);
    }
    let _ = net.take_outbox();
    net.link_closed(b);
    assert_eq!(net.link_ids(), vec![c]);
    assert!(!net.state.has_server(b));
    assert!(net.state.has_server(c));
    assert!(net.state.client_by_nick(sn, "onb").is_none());
    assert!(net.state.client_by_nick(sn, "onc").is_some());
    assert_eq!(net.state.client_by_nick(sn, "loc"), Some(local));
    assert!(net.take_outbox().is_empty());
    assert_eq!(net.state.server_by_id(0).downlinks.len(), 1);
}
