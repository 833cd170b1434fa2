use binary_parser::{decode_uint, encode_uint, BinaryParser, BinaryParserError, IoErrorKind, SeekFrom};

fn rewound(parser: BinaryParser) -> BinaryParser {
    let mut parser = parser.finish_writes().unwrap();
    parser.seek(SeekFrom::Start(0)).unwrap();
    parser
}

#[test]
fn u32_little_endian_bytes() {
    let mut p = BinaryParser::new();
    p.write_u32(0x0102_0304).unwrap();
    assert_eq!(p.to_buf().unwrap(), vec![0x04, 0x03, 0x02, 0x01]);
}

#[test]
fn u32_big_endian_bytes() {
    let mut p = BinaryParser::new();
    p.set_big_endian(true);
    p.write_u32(0x0102_0304).unwrap();
    assert_eq!(p.to_buf().unwrap(), vec![0x01, 0x02, 0x03, 0x04]);
}

#[test]
fn u16_and_u64_bytes_in_both_orders() {
    let mut p = BinaryParser::new();
    p.write_u16(0xBEEF).unwrap();
    p.write_u64(0x0102_0304_0506_0708).unwrap();
    p.set_big_endian(true);
    p.write_u16(0xBEEF).unwrap();
    p.write_u64(0x0102_0304_0506_0708).unwrap();
    assert_eq!(
        p.to_buf().unwrap(),
        vec![
            0xEF, 0xBE, 8, 7, 6, 5, 4, 3, 2, 1, //
            0xBE, 0xEF, 1, 2, 3, 4, 5, 6, 7, 8,
        ]
    );
}

#[test]
fn signed_values_are_twos_complement() {
    let mut p = BinaryParser::new();
    p.write_i8(-1).unwrap();
    p.write_i16(-2).unwrap();
    p.write_i32(-3).unwrap();
    p.write_i64(i64::MIN).unwrap();
    assert_eq!(
        p.to_buf().unwrap(),
        vec![0xFF, 0xFE, 0xFF, 0xFD, 0xFF, 0xFF, 0xFF, 0, 0, 0, 0, 0, 0, 0, 0x80]
    );
}

#[test]
fn signed_big_endian_bytes() {
    let mut p = BinaryParser::new();
    p.set_big_endian(true);
    p.write_i16(-2).unwrap();
    p.write_i32(i32::MIN).unwrap();
    assert_eq!(p.to_buf().unwrap(), vec![0xFF, 0xFE, 0x80, 0, 0, 0]);
}

fn round_trip_all(big_endian: bool) {
    let mut p = BinaryParser::new();
    p.set_big_endian(big_endian);
    p.write_u8(0xAB).unwrap();
    p.write_u16(0xBEEF).unwrap();
    p.write_u32(0xDEAD_BEEF).unwrap();
    p.write_u64(u64::MAX - 5).unwrap();
    p.write_i8(-128).unwrap();
    p.write_i16(-12345).unwrap();
    p.write_i32(i32::MIN).unwrap();
    p.write_i64(-1_234_567_890_123).unwrap();
    p.write_i8(127).unwrap();
    p.write_i64(i64::MAX).unwrap();
    let end = p.position();
    let mut p = rewound(p);
    assert_eq!(p.read_u8().unwrap(), 0xAB);
    assert_eq!(p.read_u16().unwrap(), 0xBEEF);
    assert_eq!(p.read_u32().unwrap(), 0xDEAD_BEEF);
    assert_eq!(p.read_u64().unwrap(), u64::MAX - 5);
    assert_eq!(p.read_i8().unwrap(), -128);
    assert_eq!(p.read_i16().unwrap(), -12345);
    assert_eq!(p.read_i32().unwrap(), i32::MIN);
    assert_eq!(p.read_i64().unwrap(), -1_234_567_890_123);
    assert_eq!(p.read_i8().unwrap(), 127);
    assert_eq!(p.read_i64().unwrap(), i64::MAX);
    assert_eq!(p.position(), end);
    assert_eq!(end, 1 + 2 + 4 + 8 + 1 + 2 + 4 + 8 + 1 + 8);
}

#[test]
fn round_trip_little_endian() {
    round_trip_all(false);
}

#[test]
fn round_trip_big_endian() {
    round_trip_all(true);
}

#[test]
fn endianness_is_not_retroactive() {
    let mut p = BinaryParser::new();
    p.write_u16(0x0102).unwrap();
    p.set_big_endian(true);
    p.write_u16(0x0102).unwrap();
    let mut p = rewound(p);
    assert!(p.is_big_endian());
    assert_eq!(p.read_u16().unwrap(), 0x0201);
    assert_eq!(p.read_u16().unwrap(), 0x0102);
}

#[test]
fn arrays_round_trip() {
    for be in [false, true] {
        let mut p = BinaryParser::new();
        p.set_big_endian(be);
        p.write_u8_array(&[1, 2, 3]).unwrap();
        p.write_u16_array(&[0x0102, 0xFFFE]).unwrap();
        p.write_u32_array(&[7, 0x8000_0000]).unwrap();
        p.write_u64_array(&[u64::MAX, 0]).unwrap();
        p.write_i8_array(&[-1, 1]).unwrap();
        p.write_i16_array(&[-300, 300]).unwrap();
        p.write_i32_array(&[-70000, 70000]).unwrap();
        p.write_i64_array(&[i64::MIN, i64::MAX]).unwrap();
        let mut p = rewound(p);
        assert_eq!(p.read_u8_array(3).unwrap(), vec![1, 2, 3]);
        assert_eq!(p.read_u16_array(2).unwrap(), vec![0x0102, 0xFFFE]);
        assert_eq!(p.read_u32_array(2).unwrap(), vec![7, 0x8000_0000]);
        assert_eq!(p.read_u64_array(2).unwrap(), vec![u64::MAX, 0]);
        assert_eq!(p.read_i8_array(2).unwrap(), vec![-1, 1]);
        assert_eq!(p.read_i16_array(2).unwrap(), vec![-300, 300]);
        assert_eq!(p.read_i32_array(2).unwrap(), vec![-70000, 70000]);
        assert_eq!(p.read_i64_array(2).unwrap(), vec![i64::MIN, i64::MAX]);
        assert_eq!(p.position(), 3 + 4 + 8 + 16 + 2 + 4 + 8 + 16);
    }
}

#[test]
fn u16_array_bytes() {
    let mut p = BinaryParser::new();
    p.write_u16_array(&[0x0102, 0x0304]).unwrap();
    assert_eq!(p.to_buf().unwrap(), vec![2, 1, 4, 3]);
}

#[test]
fn empty_array_reads_nothing() {
    let mut p = BinaryParser::from_buf(vec![1, 2]);
    assert_eq!(p.read_u32_array(0).unwrap(), Vec::<u32>::new());
    assert_eq!(p.position(), 0);
}

#[test]
fn short_read_is_an_io_error_and_ends_at_the_end() {
    let mut p = BinaryParser::from_buf(vec![1, 2, 3]);
    assert_eq!(
        p.read_u32(),
        Err(BinaryParserError::Io(IoErrorKind::UnexpectedEof))
    );
    assert_eq!(p.position(), 3);
}

#[test]
fn short_array_read_fails_whole() {
    let mut p = BinaryParser::from_buf(vec![1, 0, 2, 0, 3]);
    assert_eq!(
        p.read_u16_array(3),
        Err(BinaryParserError::Io(IoErrorKind::UnexpectedEof))
    );
    assert_eq!(p.position(), 5);
}

#[test]
fn read_at_the_end_fails() {
    let mut p = BinaryParser::new();
    assert_eq!(
        p.read_u8(),
        Err(BinaryParserError::Io(IoErrorKind::UnexpectedEof))
    );
    assert_eq!(
        p.read_i64(),
        Err(BinaryParserError::Io(IoErrorKind::UnexpectedEof))
    );
}

#[test]
fn encode_and_decode_agree() {
    assert_eq!(encode_uint(0x0102_03, 3, false), vec![3, 2, 1]);
    assert_eq!(encode_uint(0x0102_03, 3, true), vec![1, 2, 3]);
    assert_eq!(encode_uint(0x1234, 1, false), vec![0x34]);
    assert_eq!(encode_uint(5, 0, true), Vec::<u8>::new());
    assert_eq!(decode_uint(&[3, 2, 1], false), 0x0102_03);
    assert_eq!(decode_uint(&[3, 2, 1], true), 0x0302_01);
    assert_eq!(decode_uint(&[], true), 0);
    assert_eq!(decode_uint(&[0xFF; 8], false), u64::MAX);
}

#[test]
fn generic_width_round_trip() {
    let mut p = BinaryParser::new();
    p.set_big_endian(true);
    p.write_uint(0x0A0B0C, 3).unwrap();
    assert_eq!(p.position(), 3);
    let mut p = rewound(p);
    assert_eq!(p.read_uint(3).unwrap(), 0x0A0B0C);
}

#[test]
fn array_write_that_does_not_fit_writes_nothing() {
    let mut p = BinaryParser::from_buf(vec![1]);
    p.seek(SeekFrom::Start(u64::MAX)).unwrap();
    assert_eq!(
        p.write_u8_array(&[1, 2]),
        Err(BinaryParserError::Io(IoErrorKind::InvalidInput))
    );
    assert_eq!(p.write_u32_array(&[]), Ok(()));
    assert_eq!(p.position(), u64::MAX);
    assert_eq!(p.to_buf().unwrap(), vec![1]);
}
