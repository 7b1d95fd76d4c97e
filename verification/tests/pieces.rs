use torrent_metainfo::pieces::parse_piece_hashes;

#[test]
fn blob_of_whole_digests_gives_one_hash_each() {
    for k in 0..6usize {
        let blob: Vec<u8> = (0..20 * k).map(|i| (i * 31 + k) as u8).collect();
        let hashes = parse_piece_hashes(&blob);
        assert_eq!(hashes.len(), k);
        let mut joined = Vec::new();
        for hash in &hashes {
            assert_eq!(hash.len(), 40);
            assert!(hash.chars().all(|c| c.is_ascii_digit() || ('a'..='f').contains(&c)));
            joined.extend_from_slice(&hex::decode(hash).unwrap());
        }
        assert_eq!(joined, blob);
    }
}

#[test]
fn piece_hashes_keep_the_order_of_the_blob() {
    let mut blob = vec![0x11u8; 20];
    blob.extend_from_slice(&[0xfeu8; 20]);
    assert_eq!(parse_piece_hashes(&blob), vec!["11".repeat(20), "fe".repeat(20)]);
}

#[test]
fn bytes_left_over_make_a_shorter_last_hash() {
    let blob = vec![0xa0u8; 25];
    assert_eq!(parse_piece_hashes(&blob), vec!["a0".repeat(20), "a0".repeat(5)]);
    assert_eq!(parse_piece_hashes(&[1, 2, 3]), vec!["010203".to_string()]);
    assert_eq!(parse_piece_hashes(&[]), Vec::<String>::new());
}

#[test]
fn hex_is_lowercase_high_nibble_first() {
    assert_eq!(
        parse_piece_hashes(&[0x00, 0x0f, 0xf0, 0xab, 0x9c, 0xff]),
        vec!["000ff0ab9cff".to_string()]
    );
    assert_eq!(parse_piece_hashes(b"Hello world!"), vec!["48656c6c6f20776f726c6421".to_string()]);
    let all: Vec<u8> = (0u8..=255).collect();
    let joined: String = parse_piece_hashes(&all).concat();
    assert_eq!(joined.len(), 512);
    assert_eq!(hex::decode(&joined).unwrap(), all);
    assert_eq!(joined, joined.to_lowercase());
}
