use lib::rt::Buf;

#[test]
fn buffer_appends_and_truncates() {
    let mut b: Buf<8> = Buf::new();
    assert_eq!(b.as_bytes(), b"");
    b.write_str("abc");
    b.write_str("def");
    assert_eq!(b.as_bytes(), b"abcdef");
    assert_eq!(b.as_str(), "abcdef");
    b.write_str("ghij");
    assert_eq!(b.as_bytes(), b"abcdefgh");
    b.clear();
    assert_eq!(b.as_bytes(), b"");
    let d: Buf<4> = Buf::default();
    assert_eq!(d.as_bytes(), b"");
}
