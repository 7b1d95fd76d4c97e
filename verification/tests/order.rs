use torrent_metainfo::decimal::{magnitude, push_decimal, push_integer_text};
use torrent_metainfo::lexical::{bytes_eq, bytes_lt};

#[test]
fn byte_strings_order_lexicographically() {
    assert!(bytes_lt(b"", b"a"));
    assert!(bytes_lt(b"a", b"b"));
    assert!(bytes_lt(b"a", b"aa"));
    assert!(bytes_lt(b"ab", b"b"));
    assert!(bytes_lt(b"Z", b"a"));
    assert!(bytes_lt(&[0x7f], &[0x80]));
    assert!(bytes_lt(b"length", b"name"));
    assert!(bytes_lt(b"name", b"piece length"));
    assert!(bytes_lt(b"piece length", b"pieces"));
    assert!(!bytes_lt(b"", b""));
    assert!(!bytes_lt(b"a", b"a"));
    assert!(!bytes_lt(b"b", b"a"));
    assert!(!bytes_lt(b"aa", b"a"));
    assert!(!bytes_lt(&[0x80], &[0x7f]));
}

#[test]
fn order_agrees_with_slices() {
    let samples: [&[u8]; 7] = [b"", b"a", b"ab", b"abc", b"b", &[0, 255], &[255]];
    for a in samples {
        for b in samples {
            assert_eq!(bytes_lt(a, b), a < b);
            assert_eq!(bytes_eq(a, b), a == b);
        }
    }
}

#[test]
fn numerals_are_minimal() {
    let mut out = Vec::new();
    push_decimal(&mut out, 0);
    out.push(b' ');
    push_decimal(&mut out, 7);
    out.push(b' ');
    push_decimal(&mut out, 10);
    out.push(b' ');
    push_decimal(&mut out, 9007);
    out.push(b' ');
    push_decimal(&mut out, u64::MAX);
    assert_eq!(out, b"0 7 10 9007 18446744073709551615".to_vec());
}

#[test]
fn signed_numerals_carry_a_minus() {
    let mut out = b"<".to_vec();
    push_integer_text(&mut out, -120);
    out.push(b'|');
    push_integer_text(&mut out, 0);
    out.push(b'|');
    push_integer_text(&mut out, i64::MIN);
    assert_eq!(out, b"<-120|0|-9223372036854775808".to_vec());
    assert_eq!(magnitude(-5), 5);
    assert_eq!(magnitude(5), 5);
    assert_eq!(magnitude(i64::MIN), 9223372036854775808);
    assert_eq!(magnitude(i64::MAX), 9223372036854775807);
}
