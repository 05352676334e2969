use gossamer::buffer::BufferPool;
use gossamer::raw::RawMessage;

fn parse(msg: &'static str) -> RawMessage {
    let mut pool = BufferPool::new(msg.len(), 1);
    let mut buf = pool.take().expect("read from buffer pool");
    buf.append(msg).unwrap();

    RawMessage::parse(buf)
}

#[test]
fn test_raw_nick() {
    let msg = parse("NICK alex");
    assert_eq!(msg.len(), 2);
    assert_eq!(msg.arg(0), "NICK");
    assert_eq!(msg.arg(1), "alex");
}

#[test]
fn test_raw_basic_command() {
    let msg = parse("NICK alex");
    assert_eq!(msg.len(), 2);
    assert_eq!(msg.command(), "NICK");
}

#[test]
fn test_raw_prefixed_command() {
    let msg = parse(":alex!alex@alex QUIT :Quit message");
    assert_eq!(msg.len(), 3);
    assert_eq!(msg.arg(0), "alex!alex@alex");
    assert_eq!(msg.command(), "QUIT");
    assert_eq!(msg.arg(2), "Quit message");
}

#[test]
fn test_raw_rest_empty() {
    let msg = parse(":alex!alex@alex QUIT :");
    assert_eq!(msg.len(), 3);
    assert_eq!(msg.arg(2), "");
}

#[test]
fn test_raw_rest() {
    let msg = parse("USER alex * * :Real name goes here");
    assert_eq!(msg.len(), 5);
    assert_eq!(msg.arg(4), "Real name goes here");
}

#[test]
fn raw_seventh_argument_is_dropped() {
    let msg = parse("CMD a b c d e f g");
    assert_eq!(msg.len(), 7);
    assert_eq!(msg.arg(6), "g");
    let msg = parse("CMD a b c d e f g h");
    assert_eq!(msg.len(), 8);
    assert_eq!(msg.arg(7), "h");
}

#[test]
fn raw_collapses_repeated_spaces() {
    let msg = parse("PRIVMSG   bob   :hi there");
    assert_eq!(msg.len(), 3);
    assert_eq!(msg.arg(1), "bob");
    assert_eq!(msg.arg(2), "hi there");
    assert_eq!(msg.command_index(), 0);
}

#[test]
fn raw_prefix_moves_the_command() {
    let msg = parse(":p NICK x");
    assert_eq!(msg.command_index(), 1);
    assert_eq!(msg.command(), "NICK");
}

#[test]
fn raw_tokens_come_back_as_arguments() {
    let tokens = ["PRIVMSG", "bob", "x:y"];
    let line = format!("{} :hi : there", tokens.join(" "));
    let mut pool = BufferPool::new(line.len(), 1);
    let mut buf = pool.take().expect("read from buffer pool");
    buf.append(&line).unwrap();
    let msg = RawMessage::parse(buf);
    assert_eq!(msg.len(), 4);
    for (i, t) in tokens.iter().enumerate() {
        assert_eq!(msg.arg(i), *t);
    }
    assert_eq!(msg.arg(3), "hi : there");
    assert_eq!(msg.command(), "PRIVMSG");
}

#[test]
fn raw_arguments_hold_no_spaces_but_the_rest() {
    let msg = parse("  JOIN   #a  b :c d  ");
    assert_eq!(msg.len(), 4);
    for i in 0..3 {
        assert!(!msg.arg(i).is_empty());
        assert!(!msg.arg(i).contains(' '));
    }
    assert_eq!(msg.arg(3), "c d  ");
}
