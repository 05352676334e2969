use gossamer::buffer::BufferPool;
use gossamer::irc::{eq_ignore_ascii_case, IrcMessage, IrcMessageError};

fn message(line: &str) -> Result<IrcMessage, IrcMessageError> {
    let mut pool = BufferPool::new(line.len(), 1);
    let mut buf = pool.take().ok().unwrap();
    buf.append(line).unwrap();
    IrcMessage::from(buf)
}

#[test]
fn commands_are_matched_in_any_case() {
    assert!(eq_ignore_ascii_case(b"nIcK", b"NICK"));
    assert!(!eq_ignore_ascii_case(b"NICKS", b"NICK"));
    assert!(matches!(message("nick alex"), Ok(IrcMessage::NickRequest(m)) if m.nick() == "alex"));
}

#[test]
fn user_message_fields() {
    match message("USER id * * :Real Name") {
        Ok(IrcMessage::User(m)) => {
            assert_eq!(m.ident(), "id");
            assert_eq!(m.gecos(), "Real Name");
        }
        _ => panic!("expected a USER message"),
    }
}

#[test]
fn wrong_argument_count_is_an_error() {
    assert!(matches!(message("NICK a b"), Err(IrcMessageError::WrongArgCount(_))));
    assert!(matches!(message("PRIVMSG bob"), Err(IrcMessageError::WrongArgCount(_))));
}
