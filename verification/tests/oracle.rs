use serde_bencode::value::Value;
use std::collections::HashMap;
use torrent_metainfo::decode::decode;
use torrent_metainfo::encode::encode;
use torrent_metainfo::value::{BencodeValue, Dictionary};

fn to_outside(value: &BencodeValue) -> Value {
    match value {
        BencodeValue::Integer(n) => Value::Int(*n),
        BencodeValue::ByteString(bytes) => Value::Bytes(bytes.clone()),
        BencodeValue::List(items) => Value::List(items.iter().map(to_outside).collect()),
        BencodeValue::Dictionary(d) => {
            let mut map = HashMap::new();
            for i in 0..d.len() {
                map.insert(d.key_at(i).clone(), to_outside(d.value_at(i)));
            }
            Value::Dict(map)
        }
    }
}

fn sample() -> BencodeValue {
    let mut inner = Dictionary::new();
    inner.insert(b"piece length".to_vec(), BencodeValue::Integer(16384));
    inner.insert(b"length".to_vec(), BencodeValue::Integer(0));
    inner.insert(b"name".to_vec(), BencodeValue::ByteString(b"n".to_vec()));
    inner.insert(b"pieces".to_vec(), BencodeValue::ByteString(vec![0, 1, 2, 255]));
    let mut outer = Dictionary::new();
    outer.insert(b"info".to_vec(), BencodeValue::Dictionary(inner));
    outer.insert(
        b"announce-list".to_vec(),
        BencodeValue::List(vec![
            BencodeValue::List(vec![BencodeValue::ByteString(b"udp://a".to_vec())]),
            BencodeValue::Integer(-5),
        ]),
    );
    outer.insert(b"announce".to_vec(), BencodeValue::ByteString(b"http://t".to_vec()));
    BencodeValue::Dictionary(outer)
}

#[test]
fn encoding_agrees_with_serde_bencode() {
    let value = sample();
    let ours = encode(&value);
    let theirs = serde_bencode::to_bytes(&to_outside(&value)).unwrap();
    assert_eq!(ours, theirs);
}

#[test]
fn decoding_agrees_with_serde_bencode() {
    let input = b"d4:spaml1:a1:bi-3ee3:cow3:moo1:zd1:yi0e1:xleee";
    let (ours, next) = decode(input).unwrap();
    assert_eq!(next, input.len());
    let theirs: Value = serde_bencode::from_bytes(input).unwrap();
    assert_eq!(to_outside(&ours), theirs);
}
