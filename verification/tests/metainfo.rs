use sha1::{Digest, Sha1};
use torrent_metainfo::decode::{decode, BencodeSyntaxError};
use torrent_metainfo::encode::encode;
use torrent_metainfo::grammar::SyntaxKind;
use torrent_metainfo::metainfo::{
    compute_info_digest, compute_info_hash, render_digest, MetaInfo, TorrentError,
};
use torrent_metainfo::schema::{find_fields, Field, SchemaViolation};
use torrent_metainfo::value::{BencodeValue, Dictionary};

fn blob() -> Vec<u8> {
    (0u8..40).map(|i| i.wrapping_mul(7).wrapping_add(3)).collect()
}

/// The minimal torrent, with the info keys in the order length, piece length,
/// pieces, name.
fn minimal_info() -> Vec<u8> {
    let mut info = b"d6:lengthi10e12:piece lengthi5e6:pieces40:".to_vec();
    info.extend_from_slice(&blob());
    info.extend_from_slice(b"4:name3:abce");
    info
}

fn minimal_file() -> Vec<u8> {
    let mut file = b"d8:announce3:foo4:info".to_vec();
    file.extend_from_slice(&minimal_info());
    file.push(b'e');
    file
}

fn canonical_info() -> Vec<u8> {
    let mut info = b"d6:lengthi10e4:name3:abc12:piece lengthi5e6:pieces40:".to_vec();
    info.extend_from_slice(&blob());
    info.push(b'e');
    info
}

fn independent_hash(encoded_info: &[u8]) -> String {
    hex::encode(Sha1::digest(encoded_info))
}

fn info_entries() -> Vec<(&'static str, BencodeValue)> {
    vec![
        ("pieces", BencodeValue::ByteString(blob())),
        ("piece length", BencodeValue::Integer(5)),
        ("length", BencodeValue::Integer(10)),
        ("name", BencodeValue::ByteString(b"abc".to_vec())),
    ]
}

fn tree(root: Vec<(&str, BencodeValue)>) -> BencodeValue {
    let mut d = Dictionary::new();
    for (key, value) in root {
        d.insert(key.as_bytes().to_vec(), value);
    }
    BencodeValue::Dictionary(d)
}

fn torrent_with_info(info: Vec<(&str, BencodeValue)>) -> Vec<u8> {
    encode(&tree(vec![
        ("announce", BencodeValue::ByteString(b"foo".to_vec())),
        ("info", tree(info)),
    ]))
}

fn schema_error(violation: SchemaViolation) -> Result<MetaInfo, TorrentError> {
    Err(TorrentError::Schema(violation))
}

#[test]
fn minimal_file_parses_end_to_end() {
    let torrent = MetaInfo::from_bytes(&minimal_file()).unwrap();
    assert_eq!(torrent.announce(), "foo");
    assert_eq!(torrent.info().length(), 10);
    assert_eq!(torrent.info().piece_length(), 5);
    assert_eq!(torrent.info().name(), "abc");
    assert_eq!(torrent.info().pieces(), &blob()[..]);
    assert_eq!(torrent.piece_hashes().len(), 2);
    assert_eq!(torrent.piece_hashes()[0], hex::encode(&blob()[..20]));
    assert_eq!(torrent.piece_hashes()[1], hex::encode(&blob()[20..]));
    assert_eq!(torrent.info_hash().len(), 40);
    assert!(torrent
        .info_hash()
        .chars()
        .all(|c| c.is_ascii_digit() || ('a'..='f').contains(&c)));
    assert_eq!(torrent.info_hash(), independent_hash(&canonical_info()));
}

#[test]
fn byte_between_the_two_closing_marks_is_refused() {
    let mut file = b"d8:announce3:foo4:info".to_vec();
    file.extend_from_slice(&minimal_info());
    let offset = file.len();
    file.extend_from_slice(b" e");
    assert_eq!(
        MetaInfo::from_bytes(&file),
        Err(TorrentError::Syntax(BencodeSyntaxError {
            kind: SyntaxKind::MalformedDictionary,
            offset
        }))
    );
}

#[test]
fn info_hash_is_of_the_canonical_encoding_not_of_the_file_bytes() {
    let torrent = MetaInfo::from_bytes(&minimal_file()).unwrap();
    assert_ne!(minimal_info(), canonical_info());
    assert_ne!(torrent.info_hash(), independent_hash(&minimal_info()));
    assert_eq!(torrent.info_hash(), independent_hash(&canonical_info()));
}

#[test]
fn reordered_keys_give_the_same_info_hash() {
    let mut reordered = b"d4:infod4:name3:abc6:pieces40:".to_vec();
    reordered.extend_from_slice(&blob());
    reordered.extend_from_slice(b"12:piece lengthi5e6:lengthi10ee8:announce3:fooe");
    let a = MetaInfo::from_bytes(&minimal_file()).unwrap();
    let b = MetaInfo::from_bytes(&reordered).unwrap();
    assert_eq!(a.info_hash(), b.info_hash());
    assert_eq!(a, b);
}

#[test]
fn extra_keys_of_the_info_dictionary_enter_the_info_hash() {
    let mut entries = info_entries();
    entries.push(("private", BencodeValue::Integer(1)));
    let with_extra = MetaInfo::from_bytes(&torrent_with_info(entries.clone())).unwrap();
    let plain = MetaInfo::from_bytes(&torrent_with_info(info_entries())).unwrap();
    assert_ne!(with_extra.info_hash(), plain.info_hash());
    assert_eq!(with_extra.info_hash(), independent_hash(&encode(&tree(entries))));
    assert_eq!(with_extra.info(), plain.info());
}

#[test]
fn extra_keys_of_the_root_are_passed_over() {
    let file = encode(&tree(vec![
        ("announce", BencodeValue::ByteString(b"foo".to_vec())),
        ("comment", BencodeValue::ByteString(b"hello".to_vec())),
        ("creation date", BencodeValue::Integer(1700000000)),
        ("info", tree(info_entries())),
    ]));
    let torrent = MetaInfo::from_bytes(&file).unwrap();
    assert_eq!(torrent, MetaInfo::from_bytes(&minimal_file()).unwrap());
}

#[test]
fn bytes_after_the_root_value_are_passed_over() {
    let mut file = minimal_file();
    file.extend_from_slice(b"\n garbage");
    assert_eq!(MetaInfo::from_bytes(&file), MetaInfo::from_bytes(&minimal_file()));
    assert!(MetaInfo::from_bytes(&file).is_ok());
}

#[test]
fn missing_announce_is_reported() {
    let file = encode(&tree(vec![("info", tree(info_entries()))]));
    assert_eq!(
        MetaInfo::from_bytes(&file),
        schema_error(SchemaViolation::MissingField(Field::Announce))
    );
}

#[test]
fn missing_info_is_reported() {
    let file = encode(&tree(vec![("announce", BencodeValue::ByteString(b"foo".to_vec()))]));
    assert_eq!(
        MetaInfo::from_bytes(&file),
        schema_error(SchemaViolation::MissingField(Field::Info))
    );
}

#[test]
fn missing_pieces_is_reported() {
    let entries = info_entries().into_iter().filter(|(k, _)| *k != "pieces").collect();
    assert_eq!(
        MetaInfo::from_bytes(&torrent_with_info(entries)),
        schema_error(SchemaViolation::MissingField(Field::Pieces))
    );
}

#[test]
fn missing_piece_length_is_reported() {
    let entries = info_entries().into_iter().filter(|(k, _)| *k != "piece length").collect();
    assert_eq!(
        MetaInfo::from_bytes(&torrent_with_info(entries)),
        schema_error(SchemaViolation::MissingField(Field::PieceLength))
    );
}

#[test]
fn missing_length_is_reported() {
    let entries = info_entries().into_iter().filter(|(k, _)| *k != "length").collect();
    assert_eq!(
        MetaInfo::from_bytes(&torrent_with_info(entries)),
        schema_error(SchemaViolation::MissingField(Field::Length))
    );
}

#[test]
fn missing_name_is_reported() {
    let entries = info_entries().into_iter().filter(|(k, _)| *k != "name").collect();
    assert_eq!(
        MetaInfo::from_bytes(&torrent_with_info(entries)),
        schema_error(SchemaViolation::MissingField(Field::Name))
    );
}

#[test]
fn missing_field_names_the_field() {
    assert_eq!(Field::Announce.name(), "announce");
    assert_eq!(Field::Info.name(), "info");
    assert_eq!(Field::Pieces.name(), "pieces");
    assert_eq!(Field::PieceLength.name(), "piece length");
    assert_eq!(Field::Length.name(), "length");
    assert_eq!(Field::Name.name(), "name");
    for field in [
        Field::Announce,
        Field::Info,
        Field::Pieces,
        Field::PieceLength,
        Field::Length,
        Field::Name,
    ] {
        assert_eq!(field.key_bytes(), field.name().as_bytes().to_vec());
    }
}

#[test]
fn field_of_the_wrong_kind_counts_as_missing() {
    let root_list = encode(&BencodeValue::List(vec![]));
    assert_eq!(
        MetaInfo::from_bytes(&root_list),
        schema_error(SchemaViolation::MissingField(Field::Announce))
    );
    let announce_integer =
        encode(&tree(vec![("announce", BencodeValue::Integer(1)), ("info", tree(info_entries()))]));
    assert_eq!(
        MetaInfo::from_bytes(&announce_integer),
        schema_error(SchemaViolation::MissingField(Field::Announce))
    );
    let info_string = encode(&tree(vec![
        ("announce", BencodeValue::ByteString(b"foo".to_vec())),
        ("info", BencodeValue::ByteString(b"x".to_vec())),
    ]));
    assert_eq!(
        MetaInfo::from_bytes(&info_string),
        schema_error(SchemaViolation::MissingField(Field::Info))
    );
    let mut entries = info_entries();
    entries[2] = ("length", BencodeValue::Integer(-1));
    assert_eq!(
        MetaInfo::from_bytes(&torrent_with_info(entries)),
        schema_error(SchemaViolation::MissingField(Field::Length))
    );
    let mut entries = info_entries();
    entries[1] = ("piece length", BencodeValue::ByteString(b"5".to_vec()));
    assert_eq!(
        MetaInfo::from_bytes(&torrent_with_info(entries)),
        schema_error(SchemaViolation::MissingField(Field::PieceLength))
    );
}

#[test]
fn blob_that_is_no_multiple_of_twenty_is_refused() {
    let mut entries = info_entries();
    entries[0] = ("pieces", BencodeValue::ByteString(vec![1u8; 39]));
    assert_eq!(
        MetaInfo::from_bytes(&torrent_with_info(entries)),
        schema_error(SchemaViolation::InvalidPieceBlob)
    );
}

#[test]
fn empty_blob_gives_no_piece_hashes() {
    let mut entries = info_entries();
    entries[0] = ("pieces", BencodeValue::ByteString(vec![]));
    let torrent = MetaInfo::from_bytes(&torrent_with_info(entries)).unwrap();
    assert!(torrent.piece_hashes().is_empty());
}

#[test]
fn piece_length_that_is_not_positive_is_refused() {
    for n in [0, -1, i64::MIN] {
        let mut entries = info_entries();
        entries[1] = ("piece length", BencodeValue::Integer(n));
        assert_eq!(
            MetaInfo::from_bytes(&torrent_with_info(entries)),
            schema_error(SchemaViolation::InvalidPieceLength)
        );
    }
}

#[test]
fn text_that_is_not_utf8_is_refused() {
    let file = encode(&tree(vec![
        ("announce", BencodeValue::ByteString(vec![0xff, 0xfe])),
        ("info", tree(info_entries())),
    ]));
    assert_eq!(
        MetaInfo::from_bytes(&file),
        schema_error(SchemaViolation::InvalidEncoding(Field::Announce))
    );
    let mut entries = info_entries();
    entries[3] = ("name", BencodeValue::ByteString(vec![b'a', 0xc3]));
    assert_eq!(
        MetaInfo::from_bytes(&torrent_with_info(entries)),
        schema_error(SchemaViolation::InvalidEncoding(Field::Name))
    );
}

#[test]
fn utf8_is_read_or_refused() {
    let cases: Vec<(Vec<u8>, Option<&str>)> = vec![
        (b"plain".to_vec(), Some("plain")),
        (vec![], Some("")),
        (vec![0xc3, 0xa9], Some("\u{e9}")),
        (vec![0xf0, 0x9f, 0x98, 0x80], Some("\u{1f600}")),
        (vec![0xff], None),
        (vec![0xc3], None),
        (vec![0xc0, 0x80], None),
        (vec![0xed, 0xa0, 0x80], None),
        (vec![0xf4, 0x90, 0x80, 0x80], None),
    ];
    for (bytes, expected) in cases {
        let mut entries = info_entries();
        entries[3] = ("name", BencodeValue::ByteString(bytes.clone()));
        let parsed = MetaInfo::from_bytes(&torrent_with_info(entries));
        match expected {
            Some(text) => assert_eq!(parsed.unwrap().info().name(), text),
            None => assert_eq!(parsed, schema_error(SchemaViolation::InvalidEncoding(Field::Name))),
        }
        let digest = [0u8; 20];
        let text = String::from_utf8(bytes).ok();
        let direct = MetaInfo::assemble(1, 0, vec![], Some(String::new()), text, &digest);
        assert_eq!(direct.is_ok(), expected.is_some());
    }
}

#[test]
fn text_is_read_as_utf8() {
    let mut entries = info_entries();
    entries[3] = ("name", BencodeValue::ByteString("caf\u{e9} \u{1f600}".as_bytes().to_vec()));
    let torrent = MetaInfo::from_bytes(&torrent_with_info(entries)).unwrap();
    assert_eq!(torrent.info().name(), "caf\u{e9} \u{1f600}");
}

#[test]
fn syntax_errors_come_through() {
    assert_eq!(
        MetaInfo::from_bytes(b"abc"),
        Err(TorrentError::Syntax(BencodeSyntaxError { kind: SyntaxKind::InvalidTag, offset: 0 }))
    );
    assert_eq!(
        MetaInfo::from_bytes(b"d8:announce3:fo"),
        Err(TorrentError::Syntax(BencodeSyntaxError {
            kind: SyntaxKind::TruncatedInput,
            offset: 11
        }))
    );
    assert_eq!(
        MetaInfo::from_bytes(b""),
        Err(TorrentError::Syntax(BencodeSyntaxError {
            kind: SyntaxKind::TruncatedInput,
            offset: 0
        }))
    );
}

#[test]
fn parsing_twice_gives_the_same() {
    assert_eq!(MetaInfo::from_bytes(&minimal_file()), MetaInfo::from_bytes(&minimal_file()));
    assert_eq!(MetaInfo::from_bytes(b"i1"), MetaInfo::from_bytes(b"i1"));
}

#[test]
fn failure_to_acquire_the_bytes_is_io_failure() {
    assert_eq!(MetaInfo::from_acquired(None), Err(TorrentError::IoFailure));
    let file = minimal_file();
    assert_eq!(MetaInfo::from_acquired(Some(&file)), MetaInfo::from_bytes(&file));
}

#[test]
fn from_value_reads_a_tree() {
    let (root, _) = decode(&minimal_file()).unwrap();
    assert_eq!(MetaInfo::from_value(&root), Ok(MetaInfo::from_bytes(&minimal_file()).unwrap()));
    assert_eq!(
        MetaInfo::from_value(&BencodeValue::Integer(3)),
        Err(SchemaViolation::MissingField(Field::Announce))
    );
}

#[test]
fn find_fields_borrows_the_fields() {
    let (root, _) = decode(&minimal_file()).unwrap();
    let fields = find_fields(&root).ok().unwrap();
    assert_eq!(fields.announce, &b"foo".to_vec());
    assert_eq!(fields.name, &b"abc".to_vec());
    assert_eq!(fields.pieces, &blob());
    assert_eq!(fields.piece_length, 5);
    assert_eq!(fields.length, 10);
    assert_eq!(encode(fields.info), canonical_info());
    assert_eq!(compute_info_hash(fields.info), independent_hash(&canonical_info()));
}

#[test]
fn assemble_checks_the_rules_in_order() {
    let digest = [0xabu8; 20];
    let ok = || Some("x".to_string());
    assert_eq!(
        MetaInfo::assemble(0, 1, vec![0; 19], None, None, &digest),
        Err(SchemaViolation::InvalidPieceBlob)
    );
    assert_eq!(
        MetaInfo::assemble(0, 1, vec![0; 20], None, None, &digest),
        Err(SchemaViolation::InvalidPieceLength)
    );
    assert_eq!(
        MetaInfo::assemble(1, 1, vec![0; 20], None, None, &digest),
        Err(SchemaViolation::InvalidEncoding(Field::Announce))
    );
    assert_eq!(
        MetaInfo::assemble(1, 1, vec![0; 20], ok(), None, &digest),
        Err(SchemaViolation::InvalidEncoding(Field::Name))
    );
    let torrent =
        MetaInfo::assemble(7, 9, vec![0; 20], ok(), Some("n".to_string()), &digest).unwrap();
    assert_eq!(torrent.announce(), "x");
    assert_eq!(torrent.info().name(), "n");
    assert_eq!(torrent.info().piece_length(), 7);
    assert_eq!(torrent.info().length(), 9);
    assert_eq!(torrent.info_hash(), "ab".repeat(20));
    assert_eq!(torrent.piece_hashes(), &vec!["00".repeat(20)]);
}

#[test]
fn info_hash_of_a_tree() {
    assert_eq!(
        compute_info_hash(&BencodeValue::Dictionary(Dictionary::new())),
        independent_hash(b"de")
    );
    assert_eq!(
        compute_info_hash(&BencodeValue::Dictionary(Dictionary::new())),
        "600ccd1b71569232d01d110bc63e906beab04d8c"
    );
    assert_eq!(
        compute_info_hash(&BencodeValue::ByteString(b"abc".to_vec())),
        independent_hash(b"3:abc")
    );
    assert_eq!(
        compute_info_hash(&BencodeValue::Integer(-7)),
        independent_hash(b"i-7e")
    );
    let (root, _) = decode(&minimal_file()).unwrap();
    let info = match &root {
        BencodeValue::Dictionary(d) => d.get(b"info").unwrap(),
        other => panic!("not a dictionary: {:?}", other),
    };
    assert_eq!(
        compute_info_hash(info),
        MetaInfo::from_bytes(&minimal_file()).unwrap().info_hash()
    );
}

#[test]
fn digest_is_sha1_of_the_encoding() {
    let empty = BencodeValue::ByteString(vec![]);
    assert_eq!(render_digest(&compute_info_digest(&empty)), independent_hash(b"0:"));
    let list = BencodeValue::List(vec![]);
    assert_eq!(compute_info_digest(&list)[..], Sha1::digest(b"le")[..]);
    assert_ne!(compute_info_digest(&list), compute_info_digest(&empty));
}

#[test]
fn digest_renders_as_forty_characters() {
    let mut digest = [0u8; 20];
    for (i, byte) in digest.iter_mut().enumerate() {
        *byte = (i as u8) * 13;
    }
    assert_eq!(render_digest(&digest), "000d1a2734414e5b6875828f9ca9b6c3d0ddeaf7");
}
