use lrcp::codec::{FrameError, Message};

#[test]
fn parse_connect() {
    let input = b"/connect/1234567/";
    let expected = Message::Connect { session: 1234567 };
    assert_eq!(expected, Message::parse(input).unwrap());
    assert_eq!(expected.serialize(), input);
}

#[test]
fn parse_data_simple() {
    let input = b"/data/1234567/13/abc/";
    let expected = Message::Data {
        session: 1234567,
        pos: 13,
        data: b"abc".to_vec(),
    };
    assert_eq!(expected, Message::parse(input).unwrap());
    assert_eq!(expected.serialize(), input);
}

#[test]
fn parse_data_escape() {
    let input = b"/data/1234567/13/foo\\/bar\\\\baz/";
    let expected = Message::Data {
        session: 1234567,
        pos: 13,
        data: b"foo/bar\\baz".to_vec(),
    };
    assert_eq!(expected, Message::parse(input).unwrap());
    assert_eq!(expected.serialize(), input);
}

#[test]
fn parse_data_escape_invalid() {
    let input = b"/data/1234567/13/illegal data/has too many/parts/";
    assert!(Message::parse(input).is_err());
}

#[test]
fn parse_ack() {
    let input = b"/ack/1234567/1024/";
    let expected = Message::Ack {
        session: 1234567,
        len: 1024,
    };
    assert_eq!(expected, Message::parse(input).unwrap());
    assert_eq!(expected.serialize(), input);
}

#[test]
fn parse_close() {
    let input = b"/close/1234567/";
    let expected = Message::Close { session: 1234567 };
    assert_eq!(expected, Message::parse(input).unwrap());
    assert_eq!(expected.serialize(), input);
}

#[test]
fn escaped_payload_scenario() {
    let input = b"/data/1/13/foo\\/bar\\\\baz/";
    let msg = Message::parse(input).unwrap();
    assert_eq!(
        msg,
        Message::Data {
            session: 1,
            pos: 13,
            data: b"foo/bar\\baz".to_vec()
        }
    );
    assert_eq!(msg.serialize(), input.to_vec());
}

#[test]
fn escape_order_is_left_to_right() {
    // `\\` then `/`: an escaped backslash followed by a bare slash.
    assert_eq!(Message::parse(b"/data/1/0/a\\\\/b/"), Err(FrameError));
    // `\\\/`: an escaped backslash, then an escaped slash.
    let msg = Message::parse(b"/data/1/0/\\\\\\//").unwrap();
    assert_eq!(
        msg,
        Message::Data {
            session: 1,
            pos: 0,
            data: b"\\/".to_vec()
        }
    );
    assert_eq!(msg.serialize(), b"/data/1/0/\\\\\\//".to_vec());
}

#[test]
fn empty_payload_round_trips() {
    let msg = Message::parse(b"/data/5/7//").unwrap();
    assert_eq!(
        msg,
        Message::Data {
            session: 5,
            pos: 7,
            data: vec![]
        }
    );
    assert_eq!(msg.serialize(), b"/data/5/7//".to_vec());
}

#[test]
fn malformed_frames_are_refused() {
    let bad: [&[u8]; 17] = [
        b"",
        b"/",
        b"/connect/1",
        b"/connect//",
        b"/connect/x/",
        b"/connect/01/",
        b"/connect/+1/",
        b"/connect/1/2/",
        b"/connect/18446744073709551616/",
        b"/hello/1/",
        b"/ack/1/",
        b"/ack/1/2/3/",
        b"/close/1/2/",
        b"/data/1/2/",
        b"/data/1/2/a\\b/",
        b"/data/1/2/ab\\/",
        b"/data/1/",
    ];
    for b in bad {
        assert_eq!(Message::parse(b), Err(FrameError), "{:?}", b);
    }
}

#[test]
fn largest_numbers_round_trip() {
    let input = b"/ack/18446744073709551615/0/";
    let msg = Message::parse(input).unwrap();
    assert_eq!(
        msg,
        Message::Ack {
            session: u64::MAX,
            len: 0
        }
    );
    assert_eq!(msg.serialize(), input.to_vec());
}

#[test]
fn serialize_escapes_payload() {
    let msg = Message::Data {
        session: 2,
        pos: 3,
        data: b"a/b\\c".to_vec(),
    };
    assert_eq!(msg.serialize(), b"/data/2/3/a\\/b\\\\c/".to_vec());
    assert_eq!(Message::parse(&msg.serialize()).unwrap(), msg);
}
