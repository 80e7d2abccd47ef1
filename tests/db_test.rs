use commandblock::{
    is_local_player_key, is_player_key, is_player_record_key, parse_player_record,
    parse_remote_players, write_to_bytes, Compression, Endian, NbtValue, RawZlibCompressor,
    ZlibCompressor,
};

fn record(v: i32) -> Vec<u8> {
    // a little-endian root without the file header
    let mut doc = write_to_bytes(Some(""), NbtValue::Int(v), Compression::Uncompressed, Endian::Little)
        .unwrap();
    doc.drain(..8);
    doc
}

#[test]
fn player_keys_are_told_by_prefix() {
    assert!(is_local_player_key(b"~local_player"));
    assert!(is_local_player_key(b"~local_player_extra"));
    assert!(!is_local_player_key(b"~local"));
    assert!(is_player_key(b"player_1234"));
    assert!(!is_player_key(b"playe"));
    assert!(!is_player_key(b"xplayer_"));
    assert!(is_player_record_key(b"~local_player"));
    assert!(is_player_record_key(b"player_"));
    assert!(!is_player_record_key(b"chunk"));
}

#[test]
fn player_record_decodes_without_header() {
    assert_eq!(parse_player_record(&record(7)), Some(NbtValue::Int(7)));
    assert_eq!(parse_player_record(&[0x03, 0x00]), None);
}

#[test]
fn remote_players_keep_the_last_record() {
    let entries = vec![
        (b"player_a".to_vec(), record(1)),
        (b"chunk".to_vec(), vec![0xff]),
        (b"player_b".to_vec(), record(2)),
    ];
    let parent = parse_remote_players(&entries).unwrap();
    assert_eq!(
        parent,
        NbtValue::Compound(vec![(String::new(), NbtValue::Int(2))])
    );
    let none = parse_remote_players(&vec![(b"player_a".to_vec(), vec![0x03])]);
    assert_eq!(none, None);
    let empty = parse_remote_players(&vec![]).unwrap();
    assert_eq!(empty, NbtValue::Compound(vec![]));
}

#[test]
fn block_compressors_round_trip() {
    let block: Vec<u8> = (0..200u32).map(|i| (i % 7) as u8).collect();
    let z = ZlibCompressor::new(6);
    let packed = z.encode(block.clone());
    assert_ne!(packed, block);
    assert_eq!(z.decode(packed).unwrap(), block);
    let raw = RawZlibCompressor::new(10);
    let packed = raw.encode(block.clone());
    assert_ne!(packed, block);
    assert_eq!(raw.decode(packed).unwrap(), block);
    assert!(raw.decode(vec![0xff, 0xff, 0xff]).is_err());
}
