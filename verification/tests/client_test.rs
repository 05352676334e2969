use gossamer::client::{ClientAction, ClientConnection, ClientError, ClientEvent};
use gossamer::codec::LineCodec;
use gossamer::irc::IrcMessage;

const NOTICE: &str =
    ":hub.a NOTICE * :*** Looking up your hostname...\r\n:hub.a NOTICE * :*** Found your hostname\r\n";

fn drained(conn: &mut ClientConnection) {
    let n = conn.sendq_bytes().len();
    conn.sendq_written(n);
}

#[test]
fn new_connection_queues_notices() {
    let conn = ClientConnection::new("hub.a".to_string());
    assert_eq!(conn.sendq_bytes(), NOTICE.as_bytes());
    assert_eq!(conn.sendq_room(), 4096 - NOTICE.len());
    assert!(conn.should_read());
    assert_eq!(conn.process_disconnect(), None);
}

#[test]
fn sendq_written_keeps_the_rest() {
    let mut conn = ClientConnection::new("hub.a".to_string());
    conn.sendq_written(10);
    assert_eq!(conn.sendq_bytes(), &NOTICE.as_bytes()[10..]);
    drained(&mut conn);
    assert!(conn.sendq_bytes().is_empty());
    assert_eq!(conn.sendq_room(), 4096);
}

#[test]
fn write_sendq_writes_at_the_front() {
    let mut conn = ClientConnection::new("hub.a".to_string());
    conn.write_sendq(b"XY");
    let mut expected: Vec<u8> = b"XY".to_vec();
    expected.extend_from_slice(&NOTICE.as_bytes()[2..]);
    expected.extend_from_slice(&[0u8, 0u8]);
    assert_eq!(conn.sendq_bytes(), &expected[..]);
    drained(&mut conn);
    conn.write_sendq(b"hello");
    assert_eq!(conn.sendq_bytes(), b"hello");
}

#[test]
fn registration_after_nick_and_user() {
    let mut conn = ClientConnection::new("hub.a".to_string());
    let mut codec = LineCodec::new(8);
    let acts = conn.process_bytes(b"NICK alex\r\n", &mut codec).ok().unwrap();
    assert!(acts.is_empty());
    assert!(conn.should_read());
    let acts = conn
        .process_bytes(b"USER al * * :Alex Smith\r\n", &mut codec)
        .ok()
        .unwrap();
    assert_eq!(acts.len(), 1);
    match &acts[0] {
        ClientAction::AttemptRegistration { nick, ident, gecos } => {
            assert_eq!(nick, "alex");
            assert_eq!(ident, "al");
            assert_eq!(gecos, "Alex Smith");
        }
        _ => panic!("expected a registration"),
    }
    assert!(!conn.should_read());
}

#[test]
fn lines_after_registering_wait() {
    let mut conn = ClientConnection::new("hub.a".to_string());
    let mut codec = LineCodec::new(8);
    let acts = conn
        .process_bytes(b"USER a * * :r\r\nNICK a\r\nNICK b\r\n", &mut codec)
        .ok()
        .unwrap();
    assert_eq!(acts.len(), 1);
    assert!(!conn.should_read());
    assert!(!codec.is_empty());
    conn.process_event(ClientEvent::RegistrationSuccess(4));
    assert!(conn.should_read());
    assert_eq!(conn.process_disconnect(), Some(4));
}

#[test]
fn nick_taken_reopens_registration() {
    let mut conn = ClientConnection::new("hub.a".to_string());
    drained(&mut conn);
    let mut codec = LineCodec::new(8);
    conn.process_bytes(b"NICK alex\r\nUSER a * * :r\r\n", &mut codec)
        .ok()
        .unwrap();
    assert!(conn.event_fits(&ClientEvent::RegistrationNickTaken));
    conn.process_event(ClientEvent::RegistrationNickTaken);
    assert_eq!(
        conn.sendq_bytes(),
        ":hub.a 433 alex :Nickname is already in use\r\n".as_bytes()
    );
    assert!(conn.should_read());
    let acts = conn.process_bytes(b"NICK alex2\r\n", &mut codec).ok().unwrap();
    match &acts[0] {
        ClientAction::AttemptRegistration { nick, .. } => assert_eq!(nick, "alex2"),
        _ => panic!("expected a registration"),
    }
}

#[test]
fn nick_taken_only_while_registering() {
    let conn = ClientConnection::new("hub.a".to_string());
    assert!(!conn.event_fits(&ClientEvent::RegistrationNickTaken));
    assert!(conn.event_fits(&ClientEvent::Send("x".to_string())));
    assert!(!conn.event_fits(&ClientEvent::Send("x".repeat(4096))));
}

#[test]
fn registered_messages_go_to_the_server() {
    let mut conn = ClientConnection::new("hub.a".to_string());
    conn.process_event(ClientEvent::RegistrationSuccess(7));
    let mut codec = LineCodec::new(8);
    let acts = conn
        .process_bytes(b"PRIVMSG bob :hi there\r\n", &mut codec)
        .ok()
        .unwrap();
    assert_eq!(acts.len(), 1);
    match &acts[0] {
        ClientAction::Message(7, IrcMessage::Privmsg(m)) => {
            assert_eq!(m.target(), "bob");
            assert_eq!(m.message(), "hi there");
        }
        _ => panic!("expected a private message"),
    }
}

#[test]
fn send_event_queues_the_line() {
    let mut conn = ClientConnection::new("hub.a".to_string());
    drained(&mut conn);
    conn.process_event(ClientEvent::Send("PING :x\r\n".to_string()));
    assert_eq!(conn.sendq_bytes(), b"PING :x\r\n");
}

#[test]
fn privmsg_before_registering_is_refused() {
    let mut conn = ClientConnection::new("hub.a".to_string());
    let mut codec = LineCodec::new(8);
    let res = conn.process_bytes(b"PRIVMSG bob :hi\r\n", &mut codec);
    assert!(matches!(res, Err(ClientError::UnexpectedMessage)));
}

#[test]
fn unknown_command_is_refused() {
    let mut conn = ClientConnection::new("hub.a".to_string());
    let mut codec = LineCodec::new(8);
    let res = conn.process_bytes(b"JOIN #x\r\n", &mut codec);
    assert!(matches!(res, Err(ClientError::UnsupportedCommand)));
}

#[test]
fn wrong_argument_count_is_refused() {
    let mut conn = ClientConnection::new("hub.a".to_string());
    let mut codec = LineCodec::new(8);
    let res = conn.process_bytes(b"NICK\r\n", &mut codec);
    assert!(matches!(res, Err(ClientError::WrongArgCount)));
}

#[test]
fn no_buffer_left_is_refused() {
    let mut conn = ClientConnection::new("hub.a".to_string());
    conn.process_event(ClientEvent::RegistrationSuccess(1));
    let mut codec = LineCodec::new(1);
    let res = conn.process_bytes(b"PRIVMSG a :b\r\nPRIVMSG a :c\r\n", &mut codec);
    assert!(matches!(res, Err(ClientError::RecvQExhausted)));
}

#[test]
fn lines_left_after_a_stall_stay_with_the_codec() {
    let mut conn = ClientConnection::new("hub.a".to_string());
    let mut codec = LineCodec::new(10);
    let mut input = vec![b'\n'; 511];
    input.extend_from_slice(b"NICK alex\r\n");
    let res = conn.process_bytes(&input, &mut codec);
    assert!(matches!(res, Ok(ref acts) if acts.is_empty()));
    assert!(!codec.is_empty());
}

#[test]
fn lines_that_fit_are_all_handled() {
    let mut conn = ClientConnection::new("hub.a".to_string());
    let mut codec = LineCodec::new(10);
    let res = conn.process_bytes(b"NICK alex\r\nUSER alex * * :Alex\r\n", &mut codec);
    assert!(matches!(res, Ok(ref acts) if acts.len() == 1));
    assert!(!conn.should_read());
}

#[test]
fn too_much_left_after_handling_is_an_overflow() {
    let mut conn = ClientConnection::new("hub.a".to_string());
    let mut codec = LineCodec::new(10);
    let mut input = b"NICK alex\r\nUSER alex * * :Alex\r\n".to_vec();
    input.extend_from_slice(&vec![b'z'; 600]);
    let res = conn.process_bytes(&input, &mut codec);
    assert!(matches!(res, Err(ClientError::RecvQOverflow)));
}
