use commandblock::{
    read_from_bytes, write_to_bytes, Compression, Endian, NbtError, NbtReader, NbtValue,
    NbtWriter,
};

fn sample() -> NbtValue {
    NbtValue::Compound(vec![
        ("byte".to_string(), NbtValue::Byte(-5)),
        ("short".to_string(), NbtValue::Short(-300)),
        ("int".to_string(), NbtValue::Int(-70000)),
        ("long".to_string(), NbtValue::Long(i64::MIN)),
        ("float".to_string(), NbtValue::Float(1.5f32.to_bits())),
        ("double".to_string(), NbtValue::Double((-2.25f64).to_bits())),
        ("bytes".to_string(), NbtValue::ByteArray(vec![-1, 0, 127])),
        ("text".to_string(), NbtValue::String("h\u{e9}llo \u{1F600}".to_string())),
        (
            "list".to_string(),
            NbtValue::List(vec![NbtValue::Int(1), NbtValue::Int(-2)]),
        ),
        ("empty".to_string(), NbtValue::List(vec![])),
        (
            "nested".to_string(),
            NbtValue::Compound(vec![("x".to_string(), NbtValue::IntArray(vec![3, -4]))]),
        ),
        ("longs".to_string(), NbtValue::LongArray(vec![i64::MAX, -1])),
    ])
}

fn encode(value: NbtValue, endian: Endian) -> Vec<u8> {
    let mut w = NbtWriter::new(endian);
    w.write_nbt_value(value).unwrap();
    w.into_bytes()
}

#[test]
fn round_trip_big_endian() {
    let bytes = write_to_bytes(Some("root"), sample(), Compression::Uncompressed, Endian::Big).unwrap();
    let (name, value) = read_from_bytes(&bytes, Compression::Uncompressed, Endian::Big).unwrap();
    assert_eq!(name, "root");
    assert_eq!(value, sample());
}

#[test]
fn round_trip_little_endian() {
    let bytes =
        write_to_bytes(Some("root"), sample(), Compression::Uncompressed, Endian::Little).unwrap();
    let (name, value) = read_from_bytes(&bytes, Compression::Uncompressed, Endian::Little).unwrap();
    assert_eq!(name, "root");
    assert_eq!(value, sample());
}

#[test]
fn round_trip_through_gzip_and_zlib() {
    for compression in [Compression::Gzip, Compression::Zlib] {
        let plain =
            write_to_bytes(None, sample(), Compression::Uncompressed, Endian::Big).unwrap();
        let packed = write_to_bytes(None, sample(), compression, Endian::Big).unwrap();
        assert_ne!(packed, plain);
        let (name, value) = read_from_bytes(&packed, compression, Endian::Big).unwrap();
        assert_eq!(name, "Data");
        assert_eq!(value, sample());
    }
}

#[test]
fn gzip_stream_starts_with_its_magic() {
    let packed = write_to_bytes(None, NbtValue::Int(1), Compression::Gzip, Endian::Big).unwrap();
    assert_eq!(&packed[..2], &[0x1f, 0x8b]);
}

#[test]
fn corrupt_compressed_stream_is_an_io_error() {
    let r = read_from_bytes(&[1, 2, 3, 4], Compression::Gzip, Endian::Big);
    assert!(matches!(r, Err(NbtError::IoError(_))));
    let r = read_from_bytes(&[1, 2, 3, 4], Compression::Zlib, Endian::Big);
    assert!(matches!(r, Err(NbtError::IoError(_))));
}

#[test]
fn endian_symmetry() {
    let big = write_to_bytes(Some("n"), sample(), Compression::Uncompressed, Endian::Big).unwrap();
    let little =
        write_to_bytes(Some("n"), sample(), Compression::Uncompressed, Endian::Little).unwrap();
    assert_ne!(big, little);
    assert_eq!(little.len(), big.len() + 8);
    let a = read_from_bytes(&big, Compression::Uncompressed, Endian::Big).unwrap();
    let b = read_from_bytes(&little, Compression::Uncompressed, Endian::Little).unwrap();
    assert_eq!(a, b);
}

#[test]
fn root_byte_with_empty_name() {
    let data = [0x01, 0x00, 0x00, 0x7F];
    let (name, value) = NbtReader::new(&data, Endian::Big).parse_data().unwrap();
    assert_eq!(name, "");
    assert_eq!(value, NbtValue::Byte(127));
}

#[test]
fn list_of_two_bytes_in_both_orders() {
    let big = [0x01, 0x00, 0x00, 0x00, 0x02, 0x7F, 0x7F];
    let little = [0x01, 0x02, 0x00, 0x00, 0x00, 0x7F, 0x7F];
    let expected = NbtValue::List(vec![NbtValue::Byte(127), NbtValue::Byte(127)]);
    assert_eq!(
        NbtReader::new(&big, Endian::Big).parse_nbt_value(0x09).unwrap(),
        expected
    );
    assert_eq!(
        NbtReader::new(&little, Endian::Little).parse_nbt_value(0x09).unwrap(),
        expected
    );
}

#[test]
fn compound_with_one_byte_member() {
    let data = [0x01, 0x00, 0x02, 0x41, 0x42, 0x7F, 0x00];
    let value = NbtReader::new(&data, Endian::Big).parse_nbt_value(0x0A).unwrap();
    assert_eq!(
        value,
        NbtValue::Compound(vec![("AB".to_string(), NbtValue::Byte(127))])
    );
}

#[test]
fn little_endian_header_carries_root_length() {
    let value = NbtValue::Compound(vec![("AB".to_string(), NbtValue::Byte(127))]);
    let bytes = write_to_bytes(Some(""), value, Compression::Uncompressed, Endian::Little).unwrap();
    assert_eq!(&bytes[..4], &[0x03, 0x00, 0x00, 0x00]);
    let len = u32::from_le_bytes([bytes[4], bytes[5], bytes[6], bytes[7]]) as usize;
    assert_eq!(len, bytes.len() - 8);
    assert_eq!(
        &bytes[8..],
        &[0x0A, 0x00, 0x00, 0x01, 0x02, 0x00, 0x41, 0x42, 0x7F, 0x00]
    );
}

#[test]
fn big_endian_root_defaults_to_data() {
    let bytes = write_to_bytes(None, NbtValue::Short(1), Compression::Uncompressed, Endian::Big).unwrap();
    assert_eq!(bytes, vec![0x02, 0x00, 0x04, b'D', b'a', b't', b'a', 0x00, 0x01]);
}

#[test]
fn end_root_is_a_single_byte() {
    let bytes = write_to_bytes(Some("x"), NbtValue::End, Compression::Uncompressed, Endian::Big).unwrap();
    assert_eq!(bytes, vec![0x00]);
    let (name, value) = read_from_bytes(&bytes, Compression::Uncompressed, Endian::Big).unwrap();
    assert_eq!(name, "");
    assert_eq!(value, NbtValue::End);
}

#[test]
fn empty_list_is_written_with_end_code() {
    assert_eq!(encode(NbtValue::List(vec![]), Endian::Big), vec![0, 0, 0, 0, 0]);
    assert_eq!(encode(NbtValue::List(vec![]), Endian::Little), vec![0, 0, 0, 0, 0]);
    let data = [0x05, 0x00, 0x00, 0x00, 0x00];
    assert_eq!(
        NbtReader::new(&data, Endian::Big).parse_nbt_value(0x09).unwrap(),
        NbtValue::List(vec![])
    );
}

#[test]
fn mixed_list_is_rejected_and_writes_nothing() {
    let mut w = NbtWriter::new(Endian::Big);
    let r = w.write_nbt_value(NbtValue::List(vec![NbtValue::Byte(1), NbtValue::Short(2)]));
    assert!(matches!(r, Err(NbtError::InvalidListType(2))));
    assert!(w.into_bytes().is_empty());
}

#[test]
fn end_member_is_rejected() {
    let mut w = NbtWriter::new(Endian::Big);
    let r = w.write_nbt_value(NbtValue::Compound(vec![("e".to_string(), NbtValue::End)]));
    assert!(matches!(r, Err(NbtError::InvalidCompoundType(0))));
}

#[test]
fn overlong_string_is_rejected() {
    let mut w = NbtWriter::new(Endian::Big);
    let r = w.write_nbt_value(NbtValue::String("a".repeat(70000)));
    assert!(matches!(r, Err(NbtError::InvalidStringLength(70000))));
}

#[test]
fn numbers_are_written_in_the_chosen_order() {
    assert_eq!(encode(NbtValue::Int(0x01020304), Endian::Big), vec![1, 2, 3, 4]);
    assert_eq!(encode(NbtValue::Int(0x01020304), Endian::Little), vec![4, 3, 2, 1]);
    assert_eq!(encode(NbtValue::Short(-2), Endian::Big), vec![0xff, 0xfe]);
    assert_eq!(encode(NbtValue::Byte(-1), Endian::Big), vec![0xff]);
    assert_eq!(
        encode(NbtValue::Long(-2), Endian::Little),
        vec![0xfe, 0xff, 0xff, 0xff, 0xff, 0xff, 0xff, 0xff]
    );
    assert_eq!(
        encode(NbtValue::Float(1.0f32.to_bits()), Endian::Big),
        vec![0x3f, 0x80, 0x00, 0x00]
    );
}

#[test]
fn string_length_counts_bytes() {
    assert_eq!(
        encode(NbtValue::String("\u{e9}".to_string()), Endian::Big),
        vec![0x00, 0x02, 0xc3, 0xa9]
    );
}

#[test]
fn unknown_tag_code_is_rejected() {
    let r = NbtReader::new(&[0x00], Endian::Big).parse_nbt_value(13);
    assert!(matches!(r, Err(NbtError::InvalidTagType(13))));
    let r = NbtReader::new(&[0x0D, 0x00, 0x00], Endian::Big).parse_data();
    assert!(matches!(r, Err(NbtError::InvalidTagType(13))));
    let r = NbtReader::new(&[0x0E, 0x00, 0x00, 0x00, 0x01], Endian::Big).parse_nbt_value(9);
    assert!(matches!(r, Err(NbtError::InvalidTagType(14))));
}

#[test]
fn short_input_is_an_io_error() {
    let r = NbtReader::new(&[0x7F], Endian::Big).parse_nbt_value(3);
    assert!(matches!(r, Err(NbtError::IoError(_))));
    let r = NbtReader::new(&[0x01, 0x02, 0x03], Endian::Little).parse_data();
    assert!(matches!(r, Err(NbtError::IoError(_))));
    let r = NbtReader::new(&[0x0A, 0x00, 0x00, 0x01], Endian::Big).parse_data();
    assert!(matches!(r, Err(NbtError::IoError(_))));
}

#[test]
fn negative_counts_are_rejected() {
    let neg = [0xff, 0xff, 0xff, 0xff];
    let r = NbtReader::new(&neg, Endian::Big).parse_nbt_value(7);
    assert!(matches!(r, Err(NbtError::InvalidByteArrayLength(0xffff_ffff))));
    let r = NbtReader::new(&neg, Endian::Big).parse_nbt_value(11);
    assert!(matches!(r, Err(NbtError::InvalidIntArrayLength(0xffff_ffff))));
    let r = NbtReader::new(&neg, Endian::Big).parse_nbt_value(12);
    assert!(matches!(r, Err(NbtError::InvalidLongArrayLength(0xffff_ffff))));
    let list = [0x01, 0x80, 0x00, 0x00, 0x00];
    let r = NbtReader::new(&list, Endian::Big).parse_nbt_value(9);
    assert!(matches!(r, Err(NbtError::InvalidListLength(0x8000_0000))));
}

#[test]
fn invalid_utf8_is_replaced() {
    let data = [0x00, 0x02, 0x41, 0xff];
    let value = NbtReader::new(&data, Endian::Big).parse_nbt_value(8).unwrap();
    assert_eq!(value, NbtValue::String("A\u{FFFD}".to_string()));
}

#[test]
fn duplicate_names_keep_the_last_value() {
    let data = [
        0x01, 0x00, 0x01, 0x61, 0x01, 0x01, 0x00, 0x01, 0x62, 0x02, 0x01, 0x00, 0x01, 0x61, 0x03,
        0x00,
    ];
    let value = NbtReader::new(&data, Endian::Big).parse_nbt_value(10).unwrap();
    assert_eq!(
        value,
        NbtValue::Compound(vec![
            ("a".to_string(), NbtValue::Byte(3)),
            ("b".to_string(), NbtValue::Byte(2)),
        ])
    );
}

#[test]
fn list_of_end_values_reads_no_payload() {
    let data = [0x00, 0x00, 0x00, 0x00, 0x03];
    let value = NbtReader::new(&data, Endian::Big).parse_nbt_value(9).unwrap();
    assert_eq!(value, NbtValue::List(vec![NbtValue::End, NbtValue::End, NbtValue::End]));
}

#[test]
fn payload_round_trip_through_reader_and_writer() {
    for endian in [Endian::Big, Endian::Little] {
        let bytes = encode(sample(), endian);
        let mut reader = NbtReader::new(&bytes, endian);
        assert_eq!(reader.parse_nbt_value(sample().to_binary()).unwrap(), sample());
    }
}

#[test]
fn write_data_uses_default_root_names() {
    let mut big = NbtWriter::new(Endian::Big);
    big.write_data(None, NbtValue::new()).unwrap();
    assert_eq!(
        big.into_bytes(),
        vec![0x0A, 0x00, 0x04, b'D', b'a', b't', b'a', 0x00]
    );
    let mut little = NbtWriter::new(Endian::Little);
    little.write_data(None, NbtValue::new()).unwrap();
    assert_eq!(
        little.into_bytes(),
        vec![0x03, 0x00, 0x00, 0x00, 0x04, 0x00, 0x00, 0x00, 0x0A, 0x00, 0x00, 0x00]
    );
}

#[test]
fn unknown_element_code_is_reported_before_the_count() {
    let data = [0xFF, 0xFF, 0xFF, 0xFF, 0xFF];
    let r = NbtReader::new(&data, Endian::Big).parse_nbt_value(0x09);
    assert!(matches!(r, Err(NbtError::InvalidTagType(0xFF))));
}

#[test]
fn rewritten_little_header_gets_the_exact_length() {
    // a header whose length field is wrong: it is not read further
    let data = [
        0x03, 0x00, 0x00, 0x00, 0x63, 0x00, 0x00, 0x00, 0x0A, 0x00, 0x00, 0x01, 0x02, 0x00, 0x41,
        0x42, 0x7F, 0x00,
    ];
    let (name, value) = NbtReader::new(&data, Endian::Little).parse_data().unwrap();
    let mut w = NbtWriter::new(Endian::Little);
    w.write_data(Some(&name), value).unwrap();
    let out = w.into_bytes();
    assert_eq!(&out[..4], &data[..4]);
    assert_eq!(&out[4..8], &((out.len() - 8) as i32).to_le_bytes());
    assert_eq!(&out[8..], &data[8..]);
}
