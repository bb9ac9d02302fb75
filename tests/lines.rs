use lrcp::lines::LineReverser;

#[test]
fn complete_lines_are_reversed() {
    let mut r = LineReverser::new();
    assert_eq!(r.push(b"hello\nwor"), b"olleh\n".to_vec());
    assert_eq!(r.push(b"ld\n\nab"), b"dlrow\n\n".to_vec());
    assert_eq!(r.finish(), b"ba".to_vec());
    assert_eq!(r.finish(), Vec::<u8>::new());
}

#[test]
fn partial_line_waits() {
    let mut r = LineReverser::new();
    assert!(r.push(b"abc").is_empty());
    assert!(r.push(b"").is_empty());
    assert_eq!(r.push(b"d\n"), b"dcba\n".to_vec());
}
