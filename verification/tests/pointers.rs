use binary_parser::{BinaryParser, BinaryParserError, IoErrorKind, SeekFrom, WriteOp};

#[test]
fn read_pointer_without_base_is_absolute() {
    // offset 6 at position 0, then a sibling byte, target at 6
    let mut p = BinaryParser::from_buf(vec![6, 0, 0, 0, 0x11, 0, 0x22, 0x33]);
    let at_target = p
        .read_pointer(|r: &mut BinaryParser| {
            let pos = r.position();
            let v = r.read_u8()?;
            Ok((pos, v))
        })
        .unwrap();
    assert_eq!(at_target, (6, 0x22));
    assert_eq!(p.position(), 4);
    assert_eq!(p.read_u8().unwrap(), 0x11);
}

#[test]
fn read_pointer_is_relative_to_the_active_base() {
    let mut p = BinaryParser::from_buf(vec![0xAA, 0xAA, 6, 0, 0, 0, 0x10, 0x20, 0x30]);
    p.seek(SeekFrom::Start(2)).unwrap();
    p.push_base();
    let (pos, v) = p
        .read_pointer(|r: &mut BinaryParser| {
            let pos = r.position();
            let v = r.read_u8()?;
            Ok((pos, v))
        })
        .unwrap();
    // target T = 8, base B = 2, raw field = T - B = 6
    assert_eq!(pos, 8);
    assert_eq!(v, 0x30);
    assert_eq!(p.position(), 6);
}

#[test]
fn popped_base_falls_back_to_zero() {
    let mut p = BinaryParser::from_buf(vec![0xAA, 0xAA, 6, 0, 0, 0, 0x10, 0x20, 0x30]);
    p.seek(SeekFrom::Start(2)).unwrap();
    p.push_base();
    p.pop_base();
    let (pos, v) = p
        .read_pointer(|r: &mut BinaryParser| {
            let pos = r.position();
            let v = r.read_u8()?;
            Ok((pos, v))
        })
        .unwrap();
    assert_eq!(pos, 6);
    assert_eq!(v, 0x10);
    assert_eq!(p.position(), 6);
}

#[test]
fn only_the_last_base_is_active() {
    let mut p = BinaryParser::from_buf(vec![1, 0, 0, 0, 0xA, 0xB, 0xC, 0xD, 0xE, 0xF]);
    p.seek(SeekFrom::Start(2)).unwrap();
    p.push_base();
    p.seek(SeekFrom::Start(7)).unwrap();
    p.push_base();
    p.seek(SeekFrom::Start(0)).unwrap();
    let v = p.read_pointer(|r: &mut BinaryParser| r.read_u8()).unwrap();
    assert_eq!(v, 0xE);
    p.pop_base();
    p.seek(SeekFrom::Start(0)).unwrap();
    let v = p.read_pointer(|r: &mut BinaryParser| r.read_u8()).unwrap();
    assert_eq!(v, 0);
}

#[test]
fn read_pointer_restores_the_cursor_when_the_callback_fails() {
    let mut p = BinaryParser::from_buf(vec![200, 0, 0, 0, 0x77]);
    let r: Result<u8, BinaryParserError> = p.read_pointer(|r: &mut BinaryParser| r.read_u8());
    assert_eq!(r, Err(BinaryParserError::Io(IoErrorKind::UnexpectedEof)));
    assert_eq!(p.position(), 4);
    assert_eq!(p.read_u8().unwrap(), 0x77);
}

#[test]
fn read_pointer_on_a_short_field_fails_without_running_the_callback() {
    let mut p = BinaryParser::from_buf(vec![1, 2, 3]);
    let mut ran = false;
    let r: Result<u8, BinaryParserError> = p.read_pointer(|_r: &mut BinaryParser| {
        ran = true;
        Ok(0)
    });
    assert_eq!(r, Err(BinaryParserError::Io(IoErrorKind::UnexpectedEof)));
    assert!(!ran);
    assert_eq!(p.position(), 3);
}

#[test]
fn read_pointer_beyond_the_largest_position_fails() {
    let mut p = BinaryParser::from_buf(vec![1, 0, 0, 0]);
    p.seek(SeekFrom::Start(u64::MAX)).unwrap();
    p.push_base();
    p.seek(SeekFrom::Start(0)).unwrap();
    let r: Result<u8, BinaryParserError> = p.read_pointer(|r: &mut BinaryParser| r.read_u8());
    assert_eq!(r, Err(BinaryParserError::Io(IoErrorKind::InvalidInput)));
    assert_eq!(p.position(), 4);
}

#[test]
fn read_pointer_follows_the_byte_order() {
    let mut p = BinaryParser::from_buf(vec![0, 0, 0, 5, 0, 0x42]);
    p.set_big_endian(true);
    let v = p.read_pointer(|r: &mut BinaryParser| r.read_u8()).unwrap();
    assert_eq!(v, 0x42);
}

#[test]
fn write_pointer_reserves_four_bytes_and_waits() {
    let mut p = BinaryParser::new();
    p.write_u8(1).unwrap();
    p.write_pointer(vec![WriteOp::U8(9)]).unwrap();
    assert_eq!(p.position(), 5);
    assert!(p.pending_writes());
    assert_eq!(p.to_buf_const(), None);
    assert_eq!(p.len(), 1);
}

#[test]
fn finish_writes_patches_the_slot_with_the_content_start() {
    let mut p = BinaryParser::new();
    p.write_u8(1).unwrap();
    p.write_pointer(vec![WriteOp::U16(0xBEEF)]).unwrap();
    p.write_u8(2).unwrap();
    let p = p.finish_writes().unwrap();
    assert!(!p.pending_writes());
    assert_eq!(p.position(), 8);
    assert_eq!(
        p.to_buf_const(),
        Some(&vec![1, 6, 0, 0, 0, 2, 0xEF, 0xBE])
    );
}

#[test]
fn pointer_write_ignores_the_base_stack() {
    let mut p = BinaryParser::new();
    p.write_u32(0).unwrap();
    p.push_base();
    p.write_pointer(vec![WriteOp::U8(0x5A)]).unwrap();
    let mut p = p.finish_writes().unwrap();
    assert_eq!(p.to_buf_const(), Some(&vec![0, 0, 0, 0, 8, 0, 0, 0, 0x5A]));
    // read back without a base: lands on the content
    p.pop_base();
    p.seek(SeekFrom::Start(4)).unwrap();
    let (pos, v) = p
        .read_pointer(|r: &mut BinaryParser| Ok((r.position(), r.read_u8()?)))
        .unwrap();
    assert_eq!((pos, v), (8, 0x5A));
}

#[test]
fn siblings_are_emitted_before_nested_pointers() {
    let mut p = BinaryParser::new();
    p.write_pointer(vec![
        WriteOp::U8(0xA0),
        WriteOp::Pointer(vec![WriteOp::U8(0xA1)]),
    ])
    .unwrap();
    p.write_pointer(vec![
        WriteOp::U8(0xB0),
        WriteOp::Pointer(vec![WriteOp::U8(0xB1)]),
    ])
    .unwrap();
    let bytes = p.to_buf().unwrap();
    assert_eq!(
        bytes,
        vec![
            8, 0, 0, 0, // slot of A: A's content starts at 8
            13, 0, 0, 0, // slot of B: B's content starts at 13
            0xA0, 18, 0, 0, 0, // A, and its pointer to A1
            0xB0, 19, 0, 0, 0, // B, and its pointer to B1
            0xA1, // A1
            0xB1, // B1
        ]
    );
}

#[test]
fn three_levels_are_emitted_level_by_level() {
    let mut p = BinaryParser::new();
    p.write_pointer(vec![
        WriteOp::U8(1),
        WriteOp::Pointer(vec![WriteOp::U8(3), WriteOp::Pointer(vec![WriteOp::U8(5)])]),
    ])
    .unwrap();
    p.write_pointer(vec![WriteOp::U8(2), WriteOp::Pointer(vec![WriteOp::U8(4)])])
        .unwrap();
    let bytes = p.to_buf().unwrap();
    let content: Vec<u8> = bytes.iter().copied().filter(|b| (1..=5).contains(b)).collect();
    assert_eq!(content, vec![1, 2, 3, 4, 5]);
    assert_eq!(bytes.len(), 8 + 5 + 5 + 5 + 1 + 1);
}

#[test]
fn finish_writes_with_nothing_pending_changes_nothing() {
    let mut p = BinaryParser::new();
    p.write_buf(&[1, 2, 3]).unwrap();
    p.seek(SeekFrom::Start(1)).unwrap();
    let p = p.finish_writes().unwrap();
    assert_eq!(p.position(), 1);
    assert_eq!(p.to_buf_const(), Some(&vec![1, 2, 3]));
}

#[test]
fn resolve_writes_in_place() {
    let mut p = BinaryParser::new();
    p.write_pointer(vec![WriteOp::Buf(vec![7, 7])]).unwrap();
    p.resolve_writes().unwrap();
    assert!(!p.pending_writes());
    assert_eq!(p.to_buf_const(), Some(&vec![4, 0, 0, 0, 7, 7]));
}

#[test]
fn a_failing_task_stops_resolution_and_keeps_what_was_done() {
    let mut p = BinaryParser::new();
    p.write_pointer(vec![WriteOp::U8(1)]).unwrap();
    p.write_pointer(vec![WriteOp::Seek(SeekFrom::Current(-100))])
        .unwrap();
    p.write_pointer(vec![WriteOp::U8(3)]).unwrap();
    assert_eq!(
        p.resolve_writes(),
        Err(BinaryParserError::Io(IoErrorKind::InvalidInput))
    );
    assert!(p.pending_writes());
    assert_eq!(p.len(), 13);
    let mut p = p;
    p.seek(SeekFrom::Start(0)).unwrap();
    assert_eq!(p.read_u32().unwrap(), 12);
    assert_eq!(p.read_u32().unwrap(), 0);
}

#[test]
fn finish_writes_reports_a_failing_task() {
    let mut p = BinaryParser::new();
    p.write_pointer(vec![WriteOp::AlignWrite(3)]).unwrap();
    assert!(matches!(
        p.finish_writes(),
        Err(BinaryParserError::Io(IoErrorKind::InvalidInput))
    ));
}

#[test]
fn every_operation_of_a_task() {
    let mut p = BinaryParser::new();
    p.write_pointer(vec![
        WriteOp::U8(1),
        WriteOp::U16(0x0203),
        WriteOp::U32(0x0405_0607),
        WriteOp::U64(0x0809_0A0B_0C0D_0E0F),
        WriteOp::BigEndian(true),
        WriteOp::I8(-1),
        WriteOp::I16(-2),
        WriteOp::I32(-3),
        WriteOp::I64(-4),
        WriteOp::Buf(vec![0xAA, 0xBB]),
        WriteOp::Str("hi".to_string()),
        WriteOp::NullStr("yo".to_string()),
        WriteOp::AlignWrite(8),
        WriteOp::Seek(SeekFrom::Current(2)),
        WriteOp::U8(0x99),
    ])
    .unwrap();
    let bytes = p.to_buf().unwrap();
    let mut expected: Vec<u8> = vec![0, 0, 0, 4];
    expected.extend([1, 3, 2, 7, 6, 5, 4, 0xF, 0xE, 0xD, 0xC, 0xB, 0xA, 9, 8]);
    expected.extend([0xFF, 0xFF, 0xFE, 0xFF, 0xFF, 0xFF, 0xFD]);
    expected.extend([0xFF, 0xFF, 0xFF, 0xFF, 0xFF, 0xFF, 0xFF, 0xFC]);
    expected.extend([0xAA, 0xBB, b'h', b'i', b'y', b'o', 0]);
    assert_eq!(expected.len(), 41);
    expected.extend([0; 7]);
    expected.extend([0, 0, 0x99]);
    assert_eq!(bytes, expected);
}

#[test]
fn the_slot_is_written_in_the_byte_order_in_force_after_the_task() {
    let mut p = BinaryParser::new();
    p.write_pointer(vec![WriteOp::BigEndian(true), WriteOp::U8(1)])
        .unwrap();
    assert_eq!(p.to_buf().unwrap(), vec![0, 0, 0, 4, 1]);
}

#[test]
fn apply_and_run_carry_out_operations_at_once() {
    let mut p = BinaryParser::new();
    p.apply(WriteOp::U16(0x0102)).unwrap();
    p.run(vec![WriteOp::U8(3), WriteOp::Buf(vec![4, 5])]).unwrap();
    assert_eq!(p.to_buf_const(), Some(&vec![2, 1, 3, 4, 5]));
    assert_eq!(
        p.run(vec![
            WriteOp::U8(6),
            WriteOp::Seek(SeekFrom::End(-100)),
            WriteOp::U8(7)
        ]),
        Err(BinaryParserError::Io(IoErrorKind::InvalidInput))
    );
    assert_eq!(p.to_buf_const(), Some(&vec![2, 1, 3, 4, 5, 6]));
}

#[test]
fn null_string_pointer_round_trip() {
    let mut p = BinaryParser::new();
    p.write_null_string_pointer("first").unwrap();
    p.write_null_string_pointer("second").unwrap();
    p.write_u8(0xEE).unwrap();
    let mut p = p.finish_writes().unwrap();
    assert_eq!(
        p.to_buf_const().unwrap()[..9],
        [9, 0, 0, 0, 15, 0, 0, 0, 0xEE]
    );
    p.seek(SeekFrom::Start(0)).unwrap();
    assert_eq!(p.read_null_string_pointer().unwrap(), "first");
    assert_eq!(p.position(), 4);
    assert_eq!(p.read_null_string_pointer().unwrap(), "second");
    assert_eq!(p.position(), 8);
    assert_eq!(p.read_u8().unwrap(), 0xEE);
}

#[test]
fn null_string_pointer_with_bad_text_restores_the_cursor() {
    let mut p = BinaryParser::from_buf(vec![4, 0, 0, 0, 0xFF, 0]);
    assert!(matches!(
        p.read_null_string_pointer(),
        Err(BinaryParserError::Utf8(_))
    ));
    assert_eq!(p.position(), 4);
}

#[test]
fn write_pointer_at_the_largest_position_fails_but_stays_queued() {
    let mut p = BinaryParser::new();
    p.seek(SeekFrom::Start(u64::MAX - 2)).unwrap();
    assert_eq!(
        p.write_pointer(vec![]),
        Err(BinaryParserError::Io(IoErrorKind::InvalidInput))
    );
    assert_eq!(p.position(), u64::MAX - 2);
    assert!(p.pending_writes());
}

#[test]
fn sub_parser_starts_at_zero_and_has_its_own_bases() {
    let mut parent = BinaryParser::from_buf(vec![0xFF, 0xFF, 0xFF, 1, 2, 3, 4, 5, 6, 7, 8, 0xEE]);
    parent.seek(SeekFrom::Start(3)).unwrap();
    parent.push_base();
    parent.set_big_endian(true);
    let mut sub = parent.read_parser(8).unwrap();
    assert_eq!(sub.position(), 0);
    assert_eq!(sub.len(), 8);
    assert_eq!(sub.active_base(), 0);
    assert!(!sub.is_big_endian());
    assert_eq!(sub.read_u8().unwrap(), 1);
    sub.seek(SeekFrom::Start(6)).unwrap();
    sub.push_base();
    assert_eq!(sub.active_base(), 6);
    assert_eq!(parent.active_base(), 3);
    assert_eq!(parent.position(), 11);
    assert_eq!(parent.read_u8().unwrap(), 0xEE);
    assert_eq!(sub.read_u16().unwrap(), 0x0807);
}

#[test]
fn sub_parser_past_the_end_fails() {
    let mut parent = BinaryParser::from_buf(vec![1, 2, 3]);
    assert!(matches!(
        parent.read_parser(8),
        Err(BinaryParserError::Io(IoErrorKind::UnexpectedEof))
    ));
    assert_eq!(parent.position(), 3);
}

#[test]
fn write_parser_resolves_the_inner_pointers_first() {
    let mut inner = BinaryParser::new();
    inner.write_pointer(vec![WriteOp::U8(0x42)]).unwrap();
    let mut outer = BinaryParser::new();
    outer.write_u8(0xAA).unwrap();
    outer.write_parser(inner).unwrap();
    assert_eq!(outer.position(), 6);
    assert_eq!(outer.to_buf().unwrap(), vec![0xAA, 4, 0, 0, 0, 0x42]);
}

#[test]
fn write_parser_with_a_failing_task_writes_nothing() {
    let mut inner = BinaryParser::new();
    inner.write_u8(1).unwrap();
    inner
        .write_pointer(vec![WriteOp::Seek(SeekFrom::Current(-50))])
        .unwrap();
    let mut outer = BinaryParser::new();
    outer.write_u8(0xAA).unwrap();
    assert_eq!(
        outer.write_parser(inner),
        Err(BinaryParserError::Io(IoErrorKind::InvalidInput))
    );
    assert_eq!(outer.to_buf().unwrap(), vec![0xAA]);
}

#[test]
fn a_task_may_leave_the_cursor_anywhere() {
    let mut p = BinaryParser::new();
    p.write_pointer(vec![WriteOp::Seek(SeekFrom::Start(2))]).unwrap();
    let p = p.finish_writes().unwrap();
    assert_eq!(p.position(), 2);
    assert_eq!(p.to_buf_const(), Some(&vec![4, 0, 0, 0]));
}

#[test]
fn a_task_may_set_bases_and_align_the_cursor() {
    let mut p = BinaryParser::new();
    p.write_pointer(vec![
        WriteOp::U8(1),
        WriteOp::PushBase,
        WriteOp::AlignSeek(4),
        WriteOp::U8(2),
        WriteOp::AlignSeek(6),
    ])
    .unwrap();
    assert_eq!(
        p.resolve_writes(),
        Err(BinaryParserError::Io(IoErrorKind::InvalidInput))
    );
    assert_eq!(p.active_base(), 5);
    assert_eq!(p.position(), 9);
    assert_eq!(p.to_buf_const(), Some(&vec![0, 0, 0, 0, 1, 0, 0, 0, 2]));
    p.apply(WriteOp::PopBase).unwrap();
    assert_eq!(p.active_base(), 0);
}

#[test]
fn null_string_pointer_to_an_unterminated_string_is_an_io_error() {
    let mut p = BinaryParser::from_buf(vec![5, 0, 0, 0, 0x77, b'a', b'b']);
    assert_eq!(
        p.read_null_string_pointer(),
        Err(BinaryParserError::Io(IoErrorKind::UnexpectedEof))
    );
    assert_eq!(p.position(), 4);
    assert_eq!(p.read_u8().unwrap(), 0x77);
}

#[test]
fn emission_order_inside_a_buffer() {
    let mut p = BinaryParser::from_buf(vec![9; 24]);
    p.seek(SeekFrom::Start(2)).unwrap();
    p.write_pointer(vec![
        WriteOp::Buf(vec![0xA0]),
        WriteOp::Pointer(vec![WriteOp::Buf(vec![0xA1])]),
    ])
    .unwrap();
    p.write_pointer(vec![
        WriteOp::Buf(vec![0xB0]),
        WriteOp::Pointer(vec![WriteOp::Buf(vec![0xB1])]),
    ])
    .unwrap();
    let p = p.finish_writes().unwrap();
    assert_eq!(p.position(), 22);
    assert_eq!(
        p.to_buf_const(),
        Some(&vec![
            9, 9, //
            10, 0, 0, 0, // slot of A
            15, 0, 0, 0, // slot of B
            0xA0, 20, 0, 0, 0, // A and its pointer
            0xB0, 21, 0, 0, 0, // B and its pointer
            0xA1, 0xB1, //
            9, 9,
        ])
    );
}

#[test]
fn slots_receive_increasing_positions() {
    let mut p = BinaryParser::new();
    p.write_u16(0xFFFF).unwrap();
    p.write_pointer(vec![
        WriteOp::Str("first".to_string()),
        WriteOp::AlignWrite(4),
        WriteOp::Pointer(vec![WriteOp::U32(1)]),
    ])
    .unwrap();
    p.write_pointer(vec![
        WriteOp::Pointer(vec![WriteOp::U32(2)]),
        WriteOp::NullStr("second".to_string()),
    ])
    .unwrap();
    let mut p = p.finish_writes().unwrap();
    p.seek(SeekFrom::Start(2)).unwrap();
    let off_a = p.read_u32().unwrap();
    let off_b = p.read_u32().unwrap();
    assert_eq!(off_a, 10);
    p.seek(SeekFrom::Start(16)).unwrap();
    let off_a1 = p.read_u32().unwrap();
    assert_eq!(off_b, 20);
    let off_b1 = p.read_u32().unwrap();
    assert!(off_a < off_b && off_b < off_a1 && off_a1 < off_b1);
    assert_eq!((off_a1, off_b1), (31, 35));
    p.seek(SeekFrom::Start(31)).unwrap();
    assert_eq!(p.read_u32().unwrap(), 1);
    assert_eq!(p.read_u32().unwrap(), 2);
}
