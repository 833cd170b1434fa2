use binary_parser::{BinaryParser, BinaryParserError, IoErrorKind, SeekFrom};

#[test]
fn null_string_round_trip() {
    let mut p = BinaryParser::new();
    p.write_u16(0xFFFF).unwrap();
    p.write_null_string("abc").unwrap();
    p.write_u8(0x55).unwrap();
    let mut p = p.finish_writes().unwrap();
    p.seek(SeekFrom::Start(2)).unwrap();
    assert_eq!(p.read_null_string().unwrap(), "abc");
    assert_eq!(p.position(), 2 + 3 + 1);
    assert_eq!(p.read_u8().unwrap(), 0x55);
}

#[test]
fn null_string_bytes() {
    let mut p = BinaryParser::new();
    p.write_null_string("hi").unwrap();
    assert_eq!(p.to_buf().unwrap(), vec![b'h', b'i', 0]);
}

#[test]
fn string_bytes_have_no_terminator() {
    let mut p = BinaryParser::new();
    p.write_string("hé").unwrap();
    assert_eq!(p.position(), 3);
    assert_eq!(p.to_buf().unwrap(), vec![b'h', 0xC3, 0xA9]);
}

#[test]
fn fixed_string_round_trip() {
    let mut p = BinaryParser::new();
    p.write_string("grüße").unwrap();
    let len = p.position() as usize;
    assert_eq!(len, 7);
    p.seek(SeekFrom::Start(0)).unwrap();
    assert_eq!(p.read_string(len).unwrap(), "grüße");
    assert_eq!(p.position(), 7);
}

#[test]
fn empty_null_string() {
    let mut p = BinaryParser::from_buf(vec![0, b'x', 0]);
    assert_eq!(p.read_null_string().unwrap(), "");
    assert_eq!(p.position(), 1);
    assert_eq!(p.read_null_string().unwrap(), "x");
    assert_eq!(p.position(), 3);
}

#[test]
fn null_string_at_the_end_is_an_io_error() {
    let mut p = BinaryParser::new();
    assert_eq!(
        p.read_null_string(),
        Err(BinaryParserError::Io(IoErrorKind::UnexpectedEof))
    );
    assert_eq!(p.position(), 0);
}

#[test]
fn null_string_without_terminator_is_an_io_error() {
    let mut p = BinaryParser::from_buf(vec![b'a', b'b', b'c']);
    assert_eq!(
        p.read_null_string(),
        Err(BinaryParserError::Io(IoErrorKind::UnexpectedEof))
    );
    assert_eq!(p.position(), 3);
}

#[test]
fn unterminated_bad_text_is_an_io_error_not_a_decode_error() {
    let mut p = BinaryParser::from_buf(vec![0, 0xFF, 0xFE]);
    assert_eq!(p.read_null_string().unwrap(), "");
    assert_eq!(
        p.read_null_string(),
        Err(BinaryParserError::Io(IoErrorKind::UnexpectedEof))
    );
    assert_eq!(p.position(), 3);
}

#[test]
fn null_string_beyond_the_end_is_an_io_error_and_stays() {
    let mut p = BinaryParser::from_buf(vec![b'a', 0]);
    p.seek(SeekFrom::Start(9)).unwrap();
    assert_eq!(
        p.read_null_string(),
        Err(BinaryParserError::Io(IoErrorKind::UnexpectedEof))
    );
    assert_eq!(p.position(), 9);
}

#[test]
fn last_string_of_the_buffer_keeps_all_its_bytes() {
    let mut p = BinaryParser::from_buf(vec![b'a', b'b', b'c', 0]);
    assert_eq!(p.read_null_string().unwrap(), "abc");
    assert_eq!(p.position(), 4);
}

#[test]
fn invalid_utf8_is_a_decode_error() {
    let mut p = BinaryParser::from_buf(vec![b'a', 0xFF, 0xFE, b'b', 7]);
    let r = p.read_string(4);
    assert!(matches!(r, Err(BinaryParserError::Utf8(_))));
    assert_eq!(p.position(), 4);
    assert_eq!(p.read_u8().unwrap(), 7);
}

#[test]
fn invalid_utf8_in_a_null_string_is_a_decode_error() {
    let mut p = BinaryParser::from_buf(vec![0xC3, 0x28, 0, 9]);
    let r = p.read_null_string();
    assert!(matches!(r, Err(BinaryParserError::Utf8(_))));
    assert_eq!(p.position(), 3);
    assert_eq!(p.read_u8().unwrap(), 9);
}

#[test]
fn decode_error_reports_how_much_was_valid() {
    let mut p = BinaryParser::from_buf(vec![b'o', b'k', 0x80]);
    match p.read_string(3) {
        Err(BinaryParserError::Utf8(e)) => assert_eq!(e.valid_up_to(), 2),
        other => panic!("expected a decode error, got {:?}", other),
    }
}

#[test]
fn truncated_multibyte_sequence_is_a_decode_error() {
    let mut p = BinaryParser::from_buf(vec![0xE2, 0x82]);
    assert!(matches!(p.read_string(2), Err(BinaryParserError::Utf8(_))));
    assert_eq!(p.position(), 2);
}

#[test]
fn short_string_read_is_an_io_error() {
    let mut p = BinaryParser::from_buf(vec![0xFF, 0xFF]);
    assert_eq!(
        p.read_string(3),
        Err(BinaryParserError::Io(IoErrorKind::UnexpectedEof))
    );
    assert_eq!(p.position(), 2);
}

#[test]
fn decoded_text_is_not_the_raw_bytes() {
    let mut p = BinaryParser::from_buf(vec![0xE2, 0x82, 0xAC]);
    let text = p.read_string(3).unwrap();
    assert_eq!(text.chars().count(), 1);
    assert_eq!(text, "€");
}
