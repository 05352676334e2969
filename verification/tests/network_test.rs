use gossamer::link::{Message, Subnet, SyncRequest, SyncResponse};
use gossamer::network::Network;

fn names(out: &[(u32, Message)]) -> Vec<(u32, String)> {
    out.iter()
        .map(|(id, m)| {
            let text = match m {
                Message::Hello(h) => format!("hello {}", h.name),
                Message::Subnet(s) => format!("subnet {}", s.name),
                Message::Server(s) => format!("server {} {}", s.name, s.hub_lname),
                Message::SyncRequest(r) => format!("syncreq {}", r.from),
                Message::SyncResponse(r) => format!("syncresp {} {}", r.from, r.to),
                Message::Client(c) => format!("client {}", c.nick),
            };
            (*id, text)
        })
        .collect()
}

#[test]
fn hello_names_the_local_server() {
    let net = Network::new("hub.a".to_string());
    assert!(matches!(net.hello(), Message::Hello(h) if h.name == "hub.a"));
}

#[test]
fn subnet_add_is_broadcast_to_links() {
    let mut net = Network::new("hub.a".to_string());
    let b = net.link_new("hub.b".to_string()).ok().unwrap();
    let c = net.link_new("hub.c".to_string()).ok().unwrap();
    let _ = net.take_outbox();
    let sn = net.subnet_add("dev".to_string()).ok().unwrap();
    assert_eq!(sn, 0);
    let out = net.take_outbox();
    assert_eq!(names(&out), vec![(b, "subnet dev".to_string()), (c, "subnet dev".to_string())]);
    assert!(net.subnet_add("dev".to_string()).is_err());
    assert!(net.take_outbox().is_empty());
}

#[test]
fn link_new_bursts_servers_then_subnets() {
    let mut net = Network::new("hub.a".to_string());
    net.subnet_add("dev".to_string()).ok().unwrap();
    let b = net.link_new("Hub.B".to_string()).ok().unwrap();
    assert_eq!(b, 1);
    assert_eq!(names(&net.take_outbox()), vec![(b, "subnet dev".to_string())]);
    let c = net.link_new("hub.c".to_string()).ok().unwrap();
    assert_eq!(
        names(&net.take_outbox()),
        vec![(c, "server Hub.B hub.a".to_string()), (c, "subnet dev".to_string())]
    );
    assert_eq!(net.link_ids(), vec![b, c]);
    assert!(net.link_new("HUB.B".to_string()).is_err());
    assert_eq!(net.link_ids(), vec![b, c]);
}

#[test]
fn subnet_from_net_is_not_echoed() {
    let mut net = Network::new("hub.a".to_string());
    let b = net.link_new("hub.b".to_string()).ok().unwrap();
    let c = net.link_new("hub.c".to_string()).ok().unwrap();
    let _ = net.take_outbox();
    let msg = Message::Subnet(Subnet { name: "test".to_string() });
    assert!(net.accepts_message(b, &msg));
    assert_eq!(net.on_link_message(b, msg), None);
    assert_eq!(net.state.subnet_by_name("test"), Some(0));
    assert_eq!(names(&net.take_outbox()), vec![(c, "subnet test".to_string())]);
    let again = Message::Subnet(Subnet { name: "test".to_string() });
    assert!(!net.accepts_message(c, &again));
}

#[test]
fn sync_request_is_passed_on_and_answered() {
    let mut net = Network::new("Hub.A".to_string());
    let b = net.link_new("hub.b".to_string()).ok().unwrap();
    let c = net.link_new("hub.c".to_string()).ok().unwrap();
    let _ = net.take_outbox();
    let msg = Message::SyncRequest(SyncRequest { from: "hub.b".to_string() });
    assert!(net.accepts_message(b, &msg));
    assert_eq!(net.on_link_message(b, msg), None);
    assert_eq!(
        names(&net.take_outbox()),
        vec![(c, "syncreq hub.b".to_string()), (b, "syncresp hub.a hub.b".to_string())]
    );
}

#[test]
fn sync_response_for_us_names_the_responder() {
    let mut net = Network::new("hub.a".to_string());
    let b = net.link_new("hub.b".to_string()).ok().unwrap();
    let _ = net.take_outbox();
    let msg = Message::SyncResponse(SyncResponse { from: "hub.b".to_string(), to: "hub.a".to_string() });
    assert!(net.accepts_message(b, &msg));
    assert_eq!(net.on_link_message(b, msg), Some(b));
    assert!(net.take_outbox().is_empty());
    let unknown = Message::SyncResponse(SyncResponse { from: "hub.b".to_string(), to: "nowhere".to_string() });
    assert!(!net.accepts_message(b, &unknown));
}

#[test]
fn sync_response_for_another_server_is_routed() {
    let mut net = Network::new("hub.a".to_string());
    let b = net.link_new("hub.b".to_string()).ok().unwrap();
    let c = net.link_new("hub.c".to_string()).ok().unwrap();
    let _ = net.take_outbox();
    let msg = Message::SyncResponse(SyncResponse { from: "hub.c".to_string(), to: "hub.b".to_string() });
    assert_eq!(net.on_link_message(c, msg), None);
    assert_eq!(names(&net.take_outbox()), vec![(b, "syncresp hub.c hub.b".to_string())]);
}

#[test]
fn sync_asks_every_link() {
    let mut net = Network::new("Hub.A".to_string());
    let b = net.link_new("hub.b".to_string()).ok().unwrap();
    let _ = net.take_outbox();
    net.sync();
    assert_eq!(names(&net.take_outbox()), vec![(b, "syncreq Hub.A".to_string())]);
}

#[test]
fn two_nodes_learn_of_each_other() {
    let mut a = Network::new("hub.a".to_string());
    let mut b = Network::new("hub.b".to_string());
    a.subnet_add("test".to_string()).ok().unwrap();
    let b_at_a = a.link_new("hub.b".to_string()).ok().unwrap();
    let a_at_b = b.link_new("hub.a".to_string()).ok().unwrap();
    let _ = b.take_outbox();
    for (to, msg) in a.take_outbox() {
        assert_eq!(to, b_at_a);
        if b.accepts_message(a_at_b, &msg) {
            b.on_link_message(a_at_b, msg);
        }
    }
    assert_eq!(b.state.server_by_id(1).name, "hub.a");
    assert!(b.state.subnet_by_name("test").is_some());
}

#[test]
fn clients_join_through_the_node() {
    let mut net = Network::new("hub.a".to_string());
    let sn = net.subnet_add("dev".to_string()).ok().unwrap();
    let id = net
        .client_add(sn, "Test".to_string(), "t".to_string(), "h".to_string(), "T".to_string())
        .ok()
        .unwrap();
    assert_eq!(net.state.client_by_nick(sn, "test"), Some(id));
    assert_eq!(net.state.client_by_id(id).server, 0);
}
