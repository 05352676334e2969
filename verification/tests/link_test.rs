use gossamer::link::{Hello, LinkAction, LinkState, Message, Subnet};

#[test]
fn fresh_link_registers_its_peer() {
    let st = LinkState::new();
    let act = st.process(Message::Hello(Hello { name: "hub.b".to_string() }));
    assert!(matches!(act, LinkAction::Register(name) if name == "hub.b"));
}

#[test]
fn established_link_delivers_messages() {
    let mut st = LinkState::new();
    st.registered(Ok(3));
    let act = st.process(Message::Subnet(Subnet { name: "dev".to_string() }));
    assert!(matches!(act, LinkAction::Deliver(3, Message::Subnet(s)) if s.name == "dev"));
}

#[test]
fn duplicate_copies_every_field() {
    let m = Message::Subnet(Subnet { name: "dev".to_string() });
    assert!(matches!(m.duplicate(), Message::Subnet(s) if s.name == "dev"));
}
