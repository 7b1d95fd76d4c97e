use torrent_metainfo::decode::{decode, decode_byte_string, decode_integer, decode_value_at, BencodeSyntaxError};
use torrent_metainfo::encode::{encode, encode_bytes_into, encode_into};
use torrent_metainfo::grammar::SyntaxKind;
use torrent_metainfo::value::{copy_bytes, BencodeValue, Dictionary};

fn failure(kind: SyntaxKind, offset: usize) -> BencodeSyntaxError {
    BencodeSyntaxError { kind, offset }
}

fn bytes(text: &str) -> BencodeValue {
    BencodeValue::ByteString(text.as_bytes().to_vec())
}

fn dictionary(pairs: Vec<(&str, BencodeValue)>) -> BencodeValue {
    let mut d = Dictionary::new();
    for (key, value) in pairs {
        d.insert(key.as_bytes().to_vec(), value);
    }
    BencodeValue::Dictionary(d)
}

/// Values of bounded depth, built by a small deterministic generator.
fn generated(seed: u64, depth: u32) -> BencodeValue {
    let next = seed.wrapping_mul(6364136223846793005).wrapping_add(1442695040888963407);
    let kind = if depth == 0 { (next >> 33) % 2 } else { (next >> 33) % 4 };
    match kind {
        0 => BencodeValue::Integer((next >> 7) as i64 - (1 << 56)),
        1 => {
            let len = ((next >> 40) % 40) as usize;
            BencodeValue::ByteString((0..len).map(|i| (next >> (i % 57)) as u8).collect())
        }
        2 => {
            let len = (next >> 45) % 4;
            BencodeValue::List((0..len).map(|i| generated(next ^ i, depth - 1)).collect())
        }
        _ => {
            let len = (next >> 45) % 5;
            let mut d = Dictionary::new();
            for i in 0..len {
                let key = vec![(next >> (8 * i)) as u8, (next >> (8 * i + 3)) as u8];
                d.insert(key, generated(next ^ (i + 17), depth - 1));
            }
            BencodeValue::Dictionary(d)
        }
    }
}

#[test]
fn non_numeric_length_prefix_is_malformed_length() {
    assert_eq!(decode_byte_string(b"abc", 0), Err(failure(SyntaxKind::MalformedLength, 0)));
    assert_eq!(decode_byte_string(b"", 0), Err(failure(SyntaxKind::MalformedLength, 0)));
    assert_eq!(decode_byte_string(b":abc", 0), Err(failure(SyntaxKind::MalformedLength, 0)));
    assert_eq!(decode(b"5x:ab"), Err(failure(SyntaxKind::MalformedLength, 0)));
    assert_eq!(decode(b"l3abce"), Err(failure(SyntaxKind::MalformedLength, 1)));
}

#[test]
fn declared_length_beyond_input_is_truncated() {
    assert_eq!(decode_byte_string(b"5:ab", 0), Err(failure(SyntaxKind::TruncatedInput, 0)));
    assert_eq!(decode(b"5:ab"), Err(failure(SyntaxKind::TruncatedInput, 0)));
    assert_eq!(decode(b"5"), Err(failure(SyntaxKind::TruncatedInput, 0)));
    assert_eq!(
        decode(b"99999999999999999999999999999999:ab"),
        Err(failure(SyntaxKind::TruncatedInput, 0))
    );
}

#[test]
fn input_that_ends_early_is_truncated() {
    assert_eq!(decode(b""), Err(failure(SyntaxKind::TruncatedInput, 0)));
    assert_eq!(decode(b"l"), Err(failure(SyntaxKind::TruncatedInput, 1)));
    assert_eq!(decode(b"li1e"), Err(failure(SyntaxKind::TruncatedInput, 4)));
    assert_eq!(decode(b"d"), Err(failure(SyntaxKind::TruncatedInput, 1)));
    assert_eq!(decode(b"d1:a"), Err(failure(SyntaxKind::TruncatedInput, 4)));
    assert_eq!(decode(b"d1:ai1e"), Err(failure(SyntaxKind::TruncatedInput, 7)));
}

#[test]
fn unknown_leading_byte_is_invalid_tag() {
    assert_eq!(decode(b"abc"), Err(failure(SyntaxKind::InvalidTag, 0)));
    assert_eq!(decode(b"e"), Err(failure(SyntaxKind::InvalidTag, 0)));
    assert_eq!(decode(b"-1"), Err(failure(SyntaxKind::InvalidTag, 0)));
    assert_eq!(decode(b"li1exe"), Err(failure(SyntaxKind::InvalidTag, 4)));
    assert_eq!(decode(b"d1:a?e"), Err(failure(SyntaxKind::InvalidTag, 4)));
}

#[test]
fn malformed_integers_are_refused() {
    for text in [
        &b"ie"[..],
        b"i-e",
        b"i01e",
        b"i00e",
        b"i-0e",
        b"i-01e",
        b"i12",
        b"i12x",
        b"i",
        b"i-",
        b"i+1e",
        b"i 1e",
        b"i1-e",
        b"i9223372036854775808e",
        b"i-9223372036854775809e",
        b"i99999999999999999999999999e",
    ] {
        assert_eq!(decode(text), Err(failure(SyntaxKind::MalformedInteger, 0)), "{:?}", text);
    }
    assert_eq!(decode(b"li1ei01ee"), Err(failure(SyntaxKind::MalformedInteger, 4)));
    assert_eq!(decode_integer(b"42", 0), Err(failure(SyntaxKind::MalformedInteger, 0)));
    assert_eq!(decode_integer(b"i1e", 3), Err(failure(SyntaxKind::MalformedInteger, 3)));
}

#[test]
fn integers_decode() {
    assert_eq!(decode(b"i0e"), Ok((BencodeValue::Integer(0), 3)));
    assert_eq!(decode(b"i42e"), Ok((BencodeValue::Integer(42), 4)));
    assert_eq!(decode(b"i-1e"), Ok((BencodeValue::Integer(-1), 4)));
    assert_eq!(decode(b"i10e"), Ok((BencodeValue::Integer(10), 4)));
    assert_eq!(decode(b"i9223372036854775807e"), Ok((BencodeValue::Integer(i64::MAX), 21)));
    assert_eq!(decode(b"i-9223372036854775808e"), Ok((BencodeValue::Integer(i64::MIN), 22)));
    assert_eq!(decode_integer(b"xi7e", 1), Ok((7, 4)));
}

#[test]
fn byte_strings_decode() {
    assert_eq!(decode(b"0:"), Ok((bytes(""), 2)));
    assert_eq!(decode(b"3:abc"), Ok((bytes("abc"), 5)));
    assert_eq!(decode(b"03:abc"), Ok((bytes("abc"), 6)));
    assert_eq!(decode(b"1::"), Ok((bytes(":"), 3)));
    assert_eq!(decode_byte_string(b"i1e2:hi", 3), Ok((b"hi".to_vec(), 7)));
    let long = vec![7u8; 300];
    let mut input = b"300:".to_vec();
    input.extend_from_slice(&long);
    assert_eq!(decode(&input), Ok((BencodeValue::ByteString(long), 304)));
}

#[test]
fn lists_decode() {
    assert_eq!(decode(b"le"), Ok((BencodeValue::List(vec![]), 2)));
    assert_eq!(
        decode(b"li1e3:abclee"),
        Ok((
            BencodeValue::List(vec![
                BencodeValue::Integer(1),
                bytes("abc"),
                BencodeValue::List(vec![])
            ]),
            12
        ))
    );
}

#[test]
fn dictionaries_decode() {
    assert_eq!(decode(b"de"), Ok((BencodeValue::Dictionary(Dictionary::new()), 2)));
    assert_eq!(
        decode(b"d1:ai1e1:b2:xye"),
        Ok((dictionary(vec![("a", BencodeValue::Integer(1)), ("b", bytes("xy"))]), 15))
    );
}

#[test]
fn keys_out_of_order_are_accepted_and_sorted() {
    let (value, next) = decode(b"d1:bi2e1:ai1e2:aai3ee").unwrap();
    assert_eq!(next, 21);
    assert_eq!(encode(&value), b"d1:ai1e2:aai3e1:bi2ee".to_vec());
    match &value {
        BencodeValue::Dictionary(d) => {
            assert_eq!(d.len(), 3);
            assert_eq!(d.key_at(0), &b"a".to_vec());
            assert_eq!(d.key_at(1), &b"aa".to_vec());
            assert_eq!(d.key_at(2), &b"b".to_vec());
            assert_eq!(d.value_at(1), &BencodeValue::Integer(3));
        }
        other => panic!("not a dictionary: {:?}", other),
    }
}

#[test]
fn key_that_is_no_byte_string_is_malformed_dictionary() {
    assert_eq!(decode(b"di1ei2ee"), Err(failure(SyntaxKind::MalformedDictionary, 1)));
    assert_eq!(decode(b"dlei2ee"), Err(failure(SyntaxKind::MalformedDictionary, 1)));
    assert_eq!(decode(b"ddei2ee"), Err(failure(SyntaxKind::MalformedDictionary, 1)));
    assert_eq!(decode(b"dxe"), Err(failure(SyntaxKind::MalformedDictionary, 1)));
    assert_eq!(decode(b"d1:ai1ei2ei3ee"), Err(failure(SyntaxKind::MalformedDictionary, 7)));
}

#[test]
fn repeated_key_is_duplicate_key() {
    assert_eq!(decode(b"d1:ai1e1:ai2ee"), Err(failure(SyntaxKind::DuplicateKey, 7)));
    assert_eq!(decode(b"d1:ai1e1:bi2e1:ai3ee"), Err(failure(SyntaxKind::DuplicateKey, 13)));
    assert_eq!(decode(b"d1:ai1e01:ai2ee"), Err(failure(SyntaxKind::DuplicateKey, 7)));
}

#[test]
fn decode_reports_the_remainder() {
    let input = b"i1ei2e";
    let (first, next) = decode(input).unwrap();
    assert_eq!(first, BencodeValue::Integer(1));
    assert_eq!(&input[next..], b"i2e");
    assert_eq!(decode_value_at(input, next), Ok((BencodeValue::Integer(2), 6)));
    assert_eq!(decode_value_at(input, 6), Err(failure(SyntaxKind::TruncatedInput, 6)));
    assert_eq!(decode_value_at(input, 9), Err(failure(SyntaxKind::TruncatedInput, 9)));
    assert_eq!(decode_byte_string(input, 9), Err(failure(SyntaxKind::MalformedLength, 9)));
}

#[test]
fn values_encode_in_canonical_form() {
    assert_eq!(encode(&BencodeValue::Integer(0)), b"i0e".to_vec());
    assert_eq!(encode(&BencodeValue::Integer(-17)), b"i-17e".to_vec());
    assert_eq!(encode(&BencodeValue::Integer(1000)), b"i1000e".to_vec());
    assert_eq!(encode(&BencodeValue::Integer(i64::MAX)), b"i9223372036854775807e".to_vec());
    assert_eq!(encode(&BencodeValue::Integer(i64::MIN)), b"i-9223372036854775808e".to_vec());
    assert_eq!(encode(&bytes("")), b"0:".to_vec());
    assert_eq!(encode(&bytes("hello world")), b"11:hello world".to_vec());
    assert_eq!(encode(&BencodeValue::List(vec![])), b"le".to_vec());
    assert_eq!(encode(&BencodeValue::Dictionary(Dictionary::new())), b"de".to_vec());
    assert_eq!(
        encode(&BencodeValue::List(vec![BencodeValue::Integer(1), bytes("a")])),
        b"li1e1:ae".to_vec()
    );
}

#[test]
fn encode_into_appends() {
    let mut out = b"xx".to_vec();
    encode_into(&BencodeValue::Integer(5), &mut out);
    encode_bytes_into(b"abc", &mut out);
    assert_eq!(out, b"xxi5e3:abc".to_vec());
}

#[test]
fn dictionary_encodes_in_key_order() {
    let mut d = Dictionary::new();
    d.insert(b"zeta".to_vec(), BencodeValue::Integer(1));
    d.insert(b"alpha".to_vec(), BencodeValue::Integer(2));
    d.insert(b"mid".to_vec(), BencodeValue::ByteString(b"x".to_vec()));
    d.insert(b"".to_vec(), BencodeValue::Integer(0));
    d.insert(vec![0xff], BencodeValue::Integer(9));
    d.insert(b"alphabet".to_vec(), BencodeValue::Integer(3));
    let encoded = encode(&BencodeValue::Dictionary(d));
    let mut expected = b"d0:i0e5:alphai2e8:alphabeti3e3:mid1:x4:zetai1e1:".to_vec();
    expected.push(0xff);
    expected.extend_from_slice(b"i9ee");
    assert_eq!(encoded, expected);
}

#[test]
fn insertion_order_does_not_matter() {
    let keys: [&[u8]; 4] = [b"b", b"a", b"ab", b"c"];
    let orders: [[usize; 4]; 4] = [[0, 1, 2, 3], [3, 2, 1, 0], [1, 3, 0, 2], [2, 0, 3, 1]];
    let mut first: Option<BencodeValue> = None;
    for order in orders {
        let mut d = Dictionary::new();
        for index in order {
            d.insert(keys[index].to_vec(), BencodeValue::Integer(index as i64));
        }
        let value = BencodeValue::Dictionary(d);
        assert_eq!(encode(&value), b"d1:ai1e2:abi2e1:bi0e1:ci3ee".to_vec());
        match &first {
            None => first = Some(value),
            Some(other) => assert_eq!(&value, other),
        }
    }
}

#[test]
fn insert_replaces_the_value_under_a_key() {
    let mut d = Dictionary::new();
    assert!(d.is_empty());
    d.insert(b"k".to_vec(), BencodeValue::Integer(1));
    d.insert(b"k".to_vec(), BencodeValue::Integer(2));
    assert_eq!(d.len(), 1);
    assert!(!d.is_empty());
    assert_eq!(d.get(b"k"), Some(&BencodeValue::Integer(2)));
    assert_eq!(d.get(b"j"), None);
    assert!(d.contains_key(b"k"));
    assert!(!d.contains_key(b"kk"));
    assert!(!d.contains_key(b""));
}

#[test]
fn decoding_inverts_encoding() {
    for seed in 0..400u64 {
        let value = generated(seed, 3);
        let encoded = encode(&value);
        assert_eq!(decode(&encoded), Ok((value.clone(), encoded.len())), "seed {}", seed);
        let mut longer = encoded.clone();
        longer.extend_from_slice(b"trailing");
        assert_eq!(decode(&longer), Ok((value, encoded.len())), "seed {}", seed);
    }
}

#[test]
fn clone_is_a_deep_copy() {
    let value = dictionary(vec![
        ("list", BencodeValue::List(vec![BencodeValue::Integer(1), bytes("two")])),
        ("inner", dictionary(vec![("k", bytes("v"))])),
    ]);
    let copy = value.clone();
    assert_eq!(copy, value);
    assert_eq!(encode(&copy), encode(&value));
    let d = match value {
        BencodeValue::Dictionary(d) => d,
        other => panic!("not a dictionary: {:?}", other),
    };
    assert_eq!(d.clone(), d);
    assert_eq!(copy_bytes(b"abc"), b"abc".to_vec());
}
