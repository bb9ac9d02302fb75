use lrcp::codec::Message;
use lrcp::registry::Registry;

const PEER: u32 = 7;

fn frame(b: &[u8]) -> Message {
    Message::parse(b).unwrap()
}

fn reply_bytes(reg: &mut Registry<u32>, b: &[u8]) -> Option<Vec<u8>> {
    reg.handle(frame(b), PEER).reply.map(|m| m.serialize())
}

#[test]
fn connect_is_acknowledged() {
    let mut reg = Registry::new();
    assert_eq!(reply_bytes(&mut reg, b"/connect/1/"), Some(b"/ack/1/0/".to_vec()));
    assert!(reg.contains(1));
    let s = reg.session(1).unwrap();
    assert_eq!(s.peer, PEER);
    assert_eq!(s.delivered_bytes, 0);
    assert_eq!(s.sent_bytes, 0);
    assert_eq!(s.outbound_ack, 0);
    assert!(s.pending.is_empty());
    assert!(!s.should_close);
}

#[test]
fn repeated_connect_keeps_state() {
    let mut reg = Registry::new();
    reg.handle(frame(b"/connect/1/"), PEER);
    reg.handle(frame(b"/data/1/0/abc/"), PEER);
    reg.queue_outbound(1, b"xyz");
    let r = reg.handle(frame(b"/connect/1/"), 99);
    assert_eq!(r.reply.unwrap().serialize(), b"/ack/1/0/".to_vec());
    let s = reg.session(1).unwrap();
    assert_eq!(s.peer, PEER);
    assert_eq!(s.delivered_bytes, 3);
    assert_eq!(s.sent_bytes, 3);
    assert_eq!(s.pending.len(), 1);
}

#[test]
fn data_in_order_is_delivered() {
    let mut reg = Registry::new();
    reg.handle(frame(b"/connect/1/"), PEER);
    let r = reg.handle(frame(b"/data/1/0/hello\n/"), PEER);
    assert_eq!(r.reply.unwrap().serialize(), b"/ack/1/6/".to_vec());
    assert_eq!(r.deliver, Some(b"hello\n".to_vec()));
    assert!(!r.flush);
    assert_eq!(reg.session(1).unwrap().delivered_bytes, 6);
}

#[test]
fn duplicate_data_is_delivered_once() {
    let mut reg = Registry::new();
    reg.handle(frame(b"/connect/1/"), PEER);
    let first = reg.handle(frame(b"/data/1/0/hello\n/"), PEER);
    assert_eq!(first.deliver, Some(b"hello\n".to_vec()));
    for _ in 0..3 {
        let again = reg.handle(frame(b"/data/1/0/hello\n/"), PEER);
        assert_eq!(again.deliver, None);
        assert_eq!(again.reply.unwrap().serialize(), b"/ack/1/6/".to_vec());
    }
    assert_eq!(reg.session(1).unwrap().delivered_bytes, 6);
}

#[test]
fn data_out_of_order_is_discarded() {
    let mut reg = Registry::new();
    reg.handle(frame(b"/connect/1/"), PEER);
    let r = reg.handle(frame(b"/data/1/50/abc/"), PEER);
    assert_eq!(r.reply.unwrap().serialize(), b"/ack/1/0/".to_vec());
    assert_eq!(r.deliver, None);
    assert_eq!(reg.session(1).unwrap().delivered_bytes, 0);
}

#[test]
fn empty_data_delivers_nothing() {
    let mut reg = Registry::new();
    reg.handle(frame(b"/connect/1/"), PEER);
    let r = reg.handle(frame(b"/data/1/0//"), PEER);
    assert_eq!(r.reply.unwrap().serialize(), b"/ack/1/0/".to_vec());
    assert_eq!(r.deliver, None);
}

#[test]
fn unknown_session_is_ignored_or_closed() {
    let mut reg: Registry<u32> = Registry::new();
    assert_eq!(reply_bytes(&mut reg, b"/data/4/0/abc/"), None);
    assert_eq!(reply_bytes(&mut reg, b"/ack/4/3/"), None);
    assert_eq!(reply_bytes(&mut reg, b"/close/4/"), Some(b"/close/4/".to_vec()));
    assert!(!reg.contains(4));
    assert!(reg.retransmit(4).is_none());
    assert!(reg.queue_outbound(4, b"abc").is_empty());
}

#[test]
fn ack_clears_pending_segment() {
    let mut reg = Registry::new();
    reg.handle(frame(b"/connect/1/"), PEER);
    let sent = reg.queue_outbound(1, b"olleh\n");
    assert_eq!(sent.len(), 1);
    assert_eq!(sent[0].serialize(), b"/data/1/0/olleh\n/".to_vec());
    assert_eq!(reg.retransmit(1).unwrap().len(), 1);
    let r = reg.handle(frame(b"/ack/1/6/"), PEER);
    assert!(r.reply.is_none());
    let s = reg.session(1).unwrap();
    assert!(s.pending.is_empty());
    assert_eq!(s.outbound_ack, 6);
    assert!(reg.retransmit(1).unwrap().is_empty());
}

#[test]
fn stale_ack_is_ignored() {
    let mut reg = Registry::new();
    reg.handle(frame(b"/connect/1/"), PEER);
    reg.queue_outbound(1, b"abcdef");
    reg.handle(frame(b"/ack/1/4/"), PEER);
    let r = reg.handle(frame(b"/ack/1/2/"), PEER);
    assert!(r.reply.is_none());
    let s = reg.session(1).unwrap();
    assert_eq!(s.outbound_ack, 4);
    assert_eq!(s.pending.len(), 1);
}

#[test]
fn ack_beyond_sent_closes_session() {
    let mut reg = Registry::new();
    reg.handle(frame(b"/connect/1/"), PEER);
    reg.queue_outbound(1, b"hello\n");
    assert_eq!(reply_bytes(&mut reg, b"/ack/1/999999/"), Some(b"/close/1/".to_vec()));
    assert!(!reg.contains(1));
    assert_eq!(reply_bytes(&mut reg, b"/data/1/0/abc/"), None);
    assert!(reg.retransmit(1).is_none());
}

#[test]
fn close_waits_for_outstanding_data() {
    let mut reg = Registry::new();
    reg.handle(frame(b"/connect/1/"), PEER);
    reg.queue_outbound(1, b"hello\n");
    let r = reg.handle(frame(b"/close/1/"), PEER);
    assert!(r.reply.is_none());
    assert!(r.flush);
    assert!(reg.session(1).unwrap().should_close);
    assert_eq!(reg.retransmit(1).unwrap().len(), 1);
    let again = reg.handle(frame(b"/close/1/"), PEER);
    assert!(again.reply.is_none());
    assert!(!again.flush);
    assert_eq!(reply_bytes(&mut reg, b"/data/1/0/abc/"), None);
    assert_eq!(reply_bytes(&mut reg, b"/ack/1/3/"), None);
    assert!(reg.contains(1));
    assert_eq!(reply_bytes(&mut reg, b"/ack/1/6/"), Some(b"/close/1/".to_vec()));
    assert!(!reg.contains(1));
}

#[test]
fn close_with_everything_acknowledged() {
    let mut reg = Registry::new();
    reg.handle(frame(b"/connect/1/"), PEER);
    assert_eq!(reply_bytes(&mut reg, b"/close/1/"), Some(b"/close/1/".to_vec()));
    assert!(!reg.contains(1));
    assert_eq!(reply_bytes(&mut reg, b"/connect/1/"), Some(b"/ack/1/0/".to_vec()));
    assert_eq!(reg.session(1).unwrap().delivered_bytes, 0);
}

#[test]
fn long_output_is_cut_into_chunks() {
    let mut reg = Registry::new();
    reg.handle(frame(b"/connect/9/"), PEER);
    reg.queue_outbound(9, b"ab");
    let data = vec![b'/'; 1000];
    let sent = reg.queue_outbound(9, &data);
    assert_eq!(sent.len(), 3);
    let mut total = 0usize;
    let mut pos = 2u64;
    for m in &sent {
        match m {
            Message::Data { session, pos: p, data } => {
                assert_eq!(*session, 9);
                assert_eq!(*p, pos);
                assert!(!data.is_empty() && data.len() <= 450);
                pos += data.len() as u64;
                total += data.len();
            }
            _ => panic!("not a DATA frame"),
        }
        assert!(m.serialize().len() <= 1000);
    }
    assert_eq!(total, 1000);
    let s = reg.session(9).unwrap();
    assert_eq!(s.sent_bytes, 1002);
    assert_eq!(s.pending.len(), 4);
    reg.handle(frame(b"/ack/9/452/"), PEER);
    let left = reg.retransmit(9).unwrap();
    assert_eq!(left.len(), 2);
    assert_eq!(left[..], sent[1..]);
}

#[test]
fn counters_never_decrease() {
    let mut reg = Registry::new();
    reg.handle(frame(b"/connect/3/"), PEER);
    reg.queue_outbound(3, b"0123456789");
    let frames: [&[u8]; 8] = [
        b"/data/3/0/abc/",
        b"/ack/3/5/",
        b"/data/3/0/abc/",
        b"/ack/3/2/",
        b"/data/3/3/de/",
        b"/data/3/1/zz/",
        b"/ack/3/7/",
        b"/connect/3/",
    ];
    let mut delivered = 0;
    let mut acked = 0;
    for f in frames {
        reg.handle(frame(f), PEER);
        let s = reg.session(3).unwrap();
        assert!(s.delivered_bytes >= delivered);
        assert!(s.outbound_ack >= acked);
        delivered = s.delivered_bytes;
        acked = s.outbound_ack;
    }
    assert_eq!(delivered, 5);
    assert_eq!(acked, 7);
}
