use binary_parser::align::power_of_two;
use binary_parser::{BinaryParser, BinaryParserError, IoErrorKind, SeekFrom};

#[test]
fn new_parser_is_empty() {
    let p = BinaryParser::new();
    assert_eq!(p.position(), 0);
    assert_eq!(p.len(), 0);
    assert!(!p.is_big_endian());
    assert!(!p.pending_writes());
    assert_eq!(p.to_buf_const(), Some(&vec![]));
    assert_eq!(p.active_base(), 0);
}

#[test]
fn default_parser_is_new() {
    let p = BinaryParser::default();
    assert_eq!(p.position(), 0);
    assert_eq!(p.to_buf().unwrap(), Vec::<u8>::new());
}

#[test]
fn from_buf_starts_at_zero() {
    let mut p = BinaryParser::from_buf(vec![9, 8, 7]);
    assert_eq!(p.position(), 0);
    assert_eq!(p.len(), 3);
    assert_eq!(p.read_buf(3).unwrap(), vec![9, 8, 7]);
    assert_eq!(p.position(), 3);
}

#[test]
fn read_buf_of_nothing() {
    let mut p = BinaryParser::from_buf(vec![1]);
    assert_eq!(p.read_buf(0).unwrap(), Vec::<u8>::new());
    assert_eq!(p.position(), 0);
}

#[test]
fn read_buf_past_the_end() {
    let mut p = BinaryParser::from_buf(vec![1, 2, 3, 4]);
    p.seek(SeekFrom::Start(2)).unwrap();
    assert_eq!(
        p.read_buf(3),
        Err(BinaryParserError::Io(IoErrorKind::UnexpectedEof))
    );
    assert_eq!(p.position(), 4);
}

#[test]
fn read_beyond_the_end_of_the_buffer() {
    let mut p = BinaryParser::from_buf(vec![1, 2]);
    p.seek(SeekFrom::Start(10)).unwrap();
    assert_eq!(p.read_buf(0).unwrap(), Vec::<u8>::new());
    assert_eq!(p.position(), 10);
    assert_eq!(
        p.read_buf(1),
        Err(BinaryParserError::Io(IoErrorKind::UnexpectedEof))
    );
    assert_eq!(p.position(), 2);
}

#[test]
fn seek_from_start_current_and_end() {
    let mut p = BinaryParser::from_buf(vec![0; 10]);
    p.seek(SeekFrom::Start(4)).unwrap();
    assert_eq!(p.position(), 4);
    p.seek(SeekFrom::Current(3)).unwrap();
    assert_eq!(p.position(), 7);
    p.seek(SeekFrom::Current(-7)).unwrap();
    assert_eq!(p.position(), 0);
    p.seek(SeekFrom::End(-2)).unwrap();
    assert_eq!(p.position(), 8);
    p.seek(SeekFrom::End(5)).unwrap();
    assert_eq!(p.position(), 15);
}

#[test]
fn seek_before_the_start_fails_and_stays() {
    let mut p = BinaryParser::from_buf(vec![0; 10]);
    p.seek(SeekFrom::Start(3)).unwrap();
    assert_eq!(
        p.seek(SeekFrom::Current(-4)),
        Err(BinaryParserError::Io(IoErrorKind::InvalidInput))
    );
    assert_eq!(p.position(), 3);
    assert_eq!(
        p.seek(SeekFrom::End(-11)),
        Err(BinaryParserError::Io(IoErrorKind::InvalidInput))
    );
    assert_eq!(p.position(), 3);
}

#[test]
fn seek_beyond_the_largest_position_fails() {
    let mut p = BinaryParser::new();
    p.seek(SeekFrom::Start(u64::MAX)).unwrap();
    assert_eq!(p.position(), u64::MAX);
    assert_eq!(
        p.seek(SeekFrom::Current(1)),
        Err(BinaryParserError::Io(IoErrorKind::InvalidInput))
    );
    assert_eq!(p.position(), u64::MAX);
}

#[test]
fn write_overwrites_and_extends() {
    let mut p = BinaryParser::from_buf(vec![1, 2, 3, 4]);
    p.seek(SeekFrom::Start(2)).unwrap();
    p.write_buf(&[9, 9, 9]).unwrap();
    assert_eq!(p.position(), 5);
    assert_eq!(p.to_buf().unwrap(), vec![1, 2, 9, 9, 9]);
}

#[test]
fn write_inside_keeps_the_tail() {
    let mut p = BinaryParser::from_buf(vec![1, 2, 3, 4, 5]);
    p.seek(SeekFrom::Start(1)).unwrap();
    p.write_buf(&[8, 9]).unwrap();
    assert_eq!(p.to_buf().unwrap(), vec![1, 8, 9, 4, 5]);
}

#[test]
fn write_beyond_the_end_fills_the_gap_with_zeros() {
    let mut p = BinaryParser::from_buf(vec![1, 2]);
    p.seek(SeekFrom::Start(5)).unwrap();
    p.write_u8(7).unwrap();
    assert_eq!(p.to_buf().unwrap(), vec![1, 2, 0, 0, 0, 7]);
}

#[test]
fn empty_write_beyond_the_end_fills_the_gap() {
    let mut p = BinaryParser::from_buf(vec![1]);
    p.seek(SeekFrom::Start(3)).unwrap();
    p.write_buf(&[]).unwrap();
    assert_eq!(p.position(), 3);
    assert_eq!(p.to_buf().unwrap(), vec![1, 0, 0]);
}

#[test]
fn write_at_the_largest_position_fails() {
    let mut p = BinaryParser::from_buf(vec![1]);
    p.seek(SeekFrom::Start(u64::MAX)).unwrap();
    assert_eq!(
        p.write_u8(1),
        Err(BinaryParserError::Io(IoErrorKind::InvalidInput))
    );
    assert_eq!(p.position(), u64::MAX);
    assert_eq!(p.to_buf().unwrap(), vec![1]);
}

#[test]
fn read_until_takes_the_delimiter() {
    let mut p = BinaryParser::from_buf(vec![5, 6, 0, 7, 0]);
    assert_eq!(p.read_until(0), vec![5, 6, 0]);
    assert_eq!(p.position(), 3);
    assert_eq!(p.read_until(9), vec![7, 0]);
    assert_eq!(p.position(), 5);
    assert_eq!(p.read_until(0), Vec::<u8>::new());
    assert_eq!(p.position(), 5);
}

#[test]
fn bases_stack_up() {
    let mut p = BinaryParser::from_buf(vec![0; 16]);
    assert_eq!(p.active_base(), 0);
    p.seek(SeekFrom::Start(4)).unwrap();
    p.push_base();
    p.seek(SeekFrom::Start(9)).unwrap();
    p.push_base();
    assert_eq!(p.active_base(), 9);
    p.pop_base();
    assert_eq!(p.active_base(), 4);
    p.pop_base();
    assert_eq!(p.active_base(), 0);
    p.pop_base();
    assert_eq!(p.active_base(), 0);
    assert_eq!(p.position(), 9);
}

#[test]
fn align_seek_moves_to_the_next_multiple() {
    let mut p = BinaryParser::from_buf(vec![0; 4]);
    p.seek(SeekFrom::Start(5)).unwrap();
    p.align_seek(4).unwrap();
    assert_eq!(p.position(), 8);
    p.align_seek(4).unwrap();
    assert_eq!(p.position(), 8);
    p.align_seek(16).unwrap();
    assert_eq!(p.position(), 16);
    p.align_seek(1).unwrap();
    assert_eq!(p.position(), 16);
    assert_eq!(p.len(), 4);
}

#[test]
fn align_seek_beyond_the_largest_position_fails() {
    let mut p = BinaryParser::new();
    p.seek(SeekFrom::Start(u64::MAX - 1)).unwrap();
    assert_eq!(
        p.align_seek(8),
        Err(BinaryParserError::Io(IoErrorKind::InvalidInput))
    );
    assert_eq!(p.position(), u64::MAX - 1);
}

#[test]
fn align_write_pads_with_zeros() {
    let mut p = BinaryParser::new();
    p.write_buf(&[1, 2, 3, 4, 5]).unwrap();
    p.align_write(8).unwrap();
    assert_eq!(p.position(), 8);
    assert_eq!(p.to_buf_const(), Some(&vec![1, 2, 3, 4, 5, 0, 0, 0]));
}

#[test]
fn align_write_twice_is_align_write_once() {
    let mut once = BinaryParser::new();
    once.write_buf(&[1, 2, 3]).unwrap();
    once.align_write(4).unwrap();
    let mut twice = BinaryParser::new();
    twice.write_buf(&[1, 2, 3]).unwrap();
    twice.align_write(4).unwrap();
    twice.align_write(4).unwrap();
    assert_eq!(once.position(), 4);
    assert_eq!(twice.position(), 4);
    assert_eq!(once.to_buf().unwrap(), vec![1, 2, 3, 0]);
    assert_eq!(twice.to_buf().unwrap(), vec![1, 2, 3, 0]);
}

#[test]
fn align_write_when_aligned_writes_nothing() {
    let mut p = BinaryParser::from_buf(vec![1, 2]);
    p.seek(SeekFrom::Start(8)).unwrap();
    p.align_write(8).unwrap();
    assert_eq!(p.position(), 8);
    assert_eq!(p.to_buf().unwrap(), vec![1, 2]);
}

#[test]
fn align_write_overwrites_with_zeros() {
    let mut p = BinaryParser::from_buf(vec![9; 6]);
    p.seek(SeekFrom::Start(1)).unwrap();
    p.align_write(4).unwrap();
    assert_eq!(p.to_buf().unwrap(), vec![9, 0, 0, 0, 9, 9]);
}

#[test]
fn powers_of_two() {
    assert!(power_of_two(1));
    assert!(power_of_two(2));
    assert!(power_of_two(4096));
    assert!(power_of_two(1 << 63));
    assert!(!power_of_two(0));
    assert!(!power_of_two(3));
    assert!(!power_of_two(12));
    assert!(!power_of_two(u64::MAX));
}

#[test]
fn error_messages() {
    assert_eq!(
        BinaryParserError::Io(IoErrorKind::UnexpectedEof).message(),
        "IO error"
    );
    assert_eq!(
        BinaryParserError::Io(IoErrorKind::Other).message(),
        "IO error"
    );
    let mut p = BinaryParser::from_buf(vec![0xFF]);
    let err = p.read_string(1).unwrap_err();
    assert_eq!(err.message(), "UTF8 parse error");
}
