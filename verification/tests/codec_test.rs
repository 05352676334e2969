use gossamer::codec::LineCodec;

#[test]
fn test_codec_single_line() {
    let mut codec = LineCodec::new(10);
    let mut res = codec.add_bytes("Hello world\n".as_bytes());
    assert_eq!(res.next().unwrap().as_str(), "Hello world");
    assert_eq!(res.next().is_none(), true);
    res.finish().unwrap();
    assert_eq!(codec.is_empty(), true);
}

#[test]
fn test_codec_multi_line() {
    let mut codec = LineCodec::new(10);
    let mut res = codec.add_bytes("Hello\rDear\r\nWorld\n\n\n".as_bytes());
    assert_eq!(res.next().unwrap().as_str(), "Hello");
    assert_eq!(res.next().unwrap().as_str(), "Dear");
    assert_eq!(res.next().unwrap().as_str(), "World");
    assert_eq!(res.next().is_none(), true);
    res.finish().unwrap();
    assert_eq!(codec.is_empty(), true);
}

#[test]
fn test_codec_split_line() {
    let mut codec = LineCodec::new(10);
    let mut res = codec.add_bytes("Hello ".as_bytes());
    assert_eq!(res.next().is_none(), true);
    res.finish().unwrap();
    let mut res = codec.add_bytes("world\n".as_bytes());
    assert_eq!(res.next().unwrap().as_str(), "Hello world");
    assert_eq!(res.next().is_none(), true);
    res.finish().unwrap();
    assert_eq!(codec.is_empty(), true);
}

#[test]
fn test_codec_long_line() {
    let mut codec = LineCodec::new(10);
    let mut res = codec.add_bytes(&['a' as u8; 1000]);
    assert_eq!(
        res.next().unwrap().as_str(),
        std::str::from_utf8(&['a' as u8; 512]).unwrap()
    );
    assert_eq!(res.next().is_none(), true);
    res.finish().unwrap();
    assert_eq!(codec.is_empty(), true);
}

#[test]
fn codec_drops_invalid_utf8_lines() {
    let mut codec = LineCodec::new(10);
    let bytes: Vec<u8> = vec![0xff, 0xfe, b'\n', b'o', b'k', b'\n'];
    let mut res = codec.add_bytes(&bytes);
    assert_eq!(res.next().unwrap().as_str(), "ok");
    assert!(res.next().is_none());
    res.finish().unwrap();
    assert!(codec.is_empty());
}

#[test]
fn codec_chunking_does_not_change_lines() {
    let whole = "NICK a\r\nUSER b * * :c d\r\n";
    let mut one = LineCodec::new(10);
    let mut lines_one: Vec<String> = Vec::new();
    {
        let mut it = one.add_bytes(whole.as_bytes());
        while let Some(b) = it.next() {
            lines_one.push(b.as_str().to_string());
        }
        it.finish().unwrap();
    }
    let mut two = LineCodec::new(10);
    let mut lines_two: Vec<String> = Vec::new();
    for chunk in whole.as_bytes().chunks(3) {
        let mut it = two.add_bytes(chunk);
        while let Some(b) = it.next() {
            lines_two.push(b.as_str().to_string());
        }
        it.finish().unwrap();
    }
    assert_eq!(lines_one, vec!["NICK a".to_string(), "USER b * * :c d".to_string()]);
    assert_eq!(lines_one, lines_two);
}

#[test]
fn codec_pending_line_waits_for_its_end() {
    let mut codec = LineCodec::new(10);
    {
        let mut it = codec.add_bytes(b"abc");
        assert!(it.next().is_none());
        it.finish().unwrap();
    }
    assert!(!codec.is_empty());
    let mut it = codec.lines();
    assert!(it.next().is_none());
    it.finish().unwrap();
}

#[test]
fn codec_cuts_long_line_and_skips_its_rest() {
    let mut codec = LineCodec::new(10);
    let mut input = vec![b'a'; 600];
    input.extend_from_slice(b"\nb\n");
    let mut it = codec.add_bytes(&input);
    assert_eq!(it.next().unwrap().as_str(), "a".repeat(512));
    assert_eq!(it.next().unwrap().as_str(), "b");
    assert!(it.next().is_none());
    it.finish().unwrap();
    assert!(codec.is_empty());
}

#[test]
fn codec_stops_once_a_full_buffer_of_empty_lines_is_skipped() {
    let mut codec = LineCodec::new(10);
    let mut input = vec![b'\n'; 511];
    input.extend_from_slice(b"abc\n");
    let mut it = codec.add_bytes(&input);
    assert!(it.next().is_none());
    it.finish().unwrap();
    assert!(!codec.is_empty());
    let mut it = codec.lines();
    assert_eq!(it.next().unwrap().as_str(), "abc");
    assert!(it.next().is_none());
    it.finish().unwrap();
    assert!(codec.is_empty());
}

#[test]
fn codec_finish_reports_bytes_that_did_not_fit() {
    let mut codec = LineCodec::new(1);
    let mut input = b"x\n".to_vec();
    input.extend_from_slice(&vec![b'y'; 600]);
    let mut it = codec.add_bytes(&input);
    let first = it.next().unwrap();
    assert_eq!(first.as_str(), "x");
    assert!(it.finish().is_err());
}

#[test]
fn codec_finish_keeps_unread_input() {
    let mut codec = LineCodec::new(10);
    let it = codec.add_bytes("a\nb\n".as_bytes());
    it.finish().unwrap();
    assert!(!codec.is_empty());
    let mut it = codec.lines();
    assert_eq!(it.next().unwrap().as_str(), "a");
    assert_eq!(it.next().unwrap().as_str(), "b");
    assert!(it.next().is_none());
    it.finish().unwrap();
    assert!(codec.is_empty());
}

#[test]
fn codec_keeps_a_leading_line_end() {
    let mut codec = LineCodec::new(10);
    let it = codec.add_bytes(b"\n");
    it.finish().unwrap();
    assert!(!codec.is_empty());
}

#[test]
fn codec_lines_gives_buffered_lines() {
    let mut codec = LineCodec::new(10);
    let mut it = codec.add_bytes("a\nb\n".as_bytes());
    assert_eq!(it.next().unwrap().as_str(), "a");
    it.finish().unwrap();
    let mut it2 = codec.lines();
    assert_eq!(it2.next().unwrap().as_str(), "b");
    assert!(it2.next().is_none());
    it2.finish().unwrap();
    assert!(codec.is_empty());
}
