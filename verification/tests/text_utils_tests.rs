use penguin_game::text_utils::{concat_chunks, read_u16_le, read_u32_le, split_while, starts_with, string_from_utf8};

#[test]
fn text_utils_split_while_empty() {
    let (left, right) = split_while(b"aaaabcd", |c| *c == b'?');
    assert_eq!((left, right), (&b""[..], &b"aaaabcd"[..]));
}

#[test]
fn text_utils_split_while_empty_string() {
    let (left, right) = split_while(b"", |c| *c == b'?');
    assert_eq!((left, right), (&b""[..], &b""[..]));
}

#[test]
fn text_utils_split_while_mixed() {
    let (left, right) = split_while(b"aaaabcd", |c| *c == b'a');
    assert_eq!((left, right), (&b"aaaa"[..], &b"bcd"[..]));
}

#[test]
fn concat_bytes_works() {
    let test = concat_chunks(&[&b"foo\x00"[..], &b"bar"[..], &b"baz"[..]]);
    assert_eq!(test.as_slice(), b"foo\x00barbaz");
}

#[test]
fn concat_of_nothing_is_empty() {
    let test = concat_chunks(&[]);
    assert!(test.is_empty());
}

#[test]
fn rc_from_utf8_works() {
    assert_eq!(string_from_utf8(b"banana"), Some("banana".to_string()));
}

#[test]
fn rc_from_utf8_fail() {
    assert!(string_from_utf8(b"\xd8\x00").is_none());
}

#[test]
fn little_endian_integers() {
    let bytes = [0x34u8, 0x12, 0x78, 0x56, 0xff];
    assert_eq!(read_u16_le(&bytes, 0), 0x1234);
    assert_eq!(read_u32_le(&bytes, 0), 0x5678_1234);
    assert_eq!(read_u32_le(&bytes, 1), 0xff56_7812);
}

#[test]
fn prefix_checks() {
    assert!(starts_with(b"apple banana", b"apple"));
    assert!(starts_with(b"apple", b""));
    assert!(!starts_with(b"app", b"apple"));
    assert!(!starts_with(b"apricot", b"apple"));
}
