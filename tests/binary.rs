use diagnostics::{BinaryDecoder, BinaryEncoder, DecodeError, FileId, Position, Span};

#[test]
fn integers_round_trip() {
    let mut e = BinaryEncoder::new();
    e.emit_u8(7);
    e.emit_u16(0x1234);
    e.emit_u32(0xdead_beef);
    e.emit_u64(u64::MAX - 5);
    e.emit_u128(1 << 100);
    e.emit_usize(42);
    e.emit_i8(-3);
    e.emit_i16(-300);
    e.emit_i32(-70000);
    e.emit_i64(i64::MIN);
    e.emit_i128(-1);
    e.emit_isize(-9);
    e.emit_bool(true);
    e.emit_bool(false);
    e.emit_unit();
    assert_eq!(e.data().len(), 1 + 2 + 4 + 8 + 16 + 8 + 1 + 2 + 4 + 8 + 16 + 8 + 2);
    let mut d = BinaryDecoder::new(e.data());
    assert_eq!(d.read_u8(), Ok(7));
    assert_eq!(d.read_u16(), Ok(0x1234));
    assert_eq!(d.read_u32(), Ok(0xdead_beef));
    assert_eq!(d.read_u64(), Ok(u64::MAX - 5));
    assert_eq!(d.read_u128(), Ok(1 << 100));
    assert_eq!(d.read_usize(), Ok(42));
    assert_eq!(d.read_i8(), Ok(-3));
    assert_eq!(d.read_i16(), Ok(-300));
    assert_eq!(d.read_i32(), Ok(-70000));
    assert_eq!(d.read_i64(), Ok(i64::MIN));
    assert_eq!(d.read_i128(), Ok(-1));
    assert_eq!(d.read_isize(), Ok(-9));
    assert_eq!(d.read_bool(), Ok(true));
    assert_eq!(d.read_bool(), Ok(false));
    assert_eq!(d.read_unit(), Ok(()));
    assert_eq!(d.read_u8(), Err(DecodeError::UnexpectedEnd));
}

#[test]
fn byte_layout_is_little_endian() {
    let mut e = BinaryEncoder::new();
    e.emit_u16(0x0102);
    e.emit_u32(0x0a0b0c0d);
    e.emit_char('A');
    assert_eq!(e.data(), &[2, 1, 0x0d, 0x0c, 0x0b, 0x0a, 65, 0, 0, 0]);
}

#[test]
fn strings_and_chars_round_trip() {
    let mut e = BinaryEncoder::new();
    e.emit_str("héllo");
    e.emit_char('∂');
    e.emit_str("");
    let mut d = BinaryDecoder::new(e.data());
    assert_eq!(d.read_str(), Ok("héllo".to_string()));
    assert_eq!(d.read_char(), Ok('∂'));
    assert_eq!(d.read_str(), Ok(String::new()));
}

#[test]
fn bad_input_is_rejected() {
    let mut e = BinaryEncoder::new();
    e.emit_u32(0xd800);
    let mut d = BinaryDecoder::new(e.data());
    assert_eq!(d.read_char(), Err(DecodeError::InvalidChar));

    let mut e = BinaryEncoder::new();
    e.emit_usize(2);
    e.emit_bytes(&[0xff, 0xfe]);
    let mut d = BinaryDecoder::new(e.data());
    assert_eq!(d.read_str(), Err(DecodeError::InvalidUtf8));

    let mut e = BinaryEncoder::new();
    e.emit_usize(10);
    e.emit_bytes(b"abc");
    let mut d = BinaryDecoder::new(e.data());
    assert_eq!(d.read_str(), Err(DecodeError::UnexpectedEnd));

    let mut d = BinaryDecoder::new(&[1, 2, 3]);
    assert_eq!(d.read_u32(), Err(DecodeError::UnexpectedEnd));
    assert_eq!(d.read_u16(), Ok(0x0201));
}

#[test]
fn spans_round_trip() {
    let s = Span {
        file: FileId(3),
        start: Position { offset: 120, line: 4, col: 9 },
        end: Position { offset: 131, line: 5, col: 2 },
    };
    let mut e = BinaryEncoder::new();
    e.emit_u8(0xaa);
    s.encode(&mut e);
    FileId(7).encode(&mut e);
    assert_eq!(e.data().len(), 1 + 56 + 8);
    assert_eq!(&e.data()[1..9], &[3, 0, 0, 0, 0, 0, 0, 0]);
    let mut d = BinaryDecoder::new(e.data());
    assert_eq!(d.read_u8(), Ok(0xaa));
    assert_eq!(Span::decode(&mut d), Ok(s));
    assert_eq!(FileId::decode(&mut d), Ok(FileId(7)));
    assert_eq!(Position::decode(&mut d), Err(DecodeError::UnexpectedEnd));
}

#[test]
fn short_span_input_fails_without_moving() {
    let mut e = BinaryEncoder::new();
    Position { offset: 1, line: 2, col: 3 }.encode(&mut e);
    let mut d = BinaryDecoder::new(e.data());
    assert_eq!(Span::decode(&mut d), Err(DecodeError::UnexpectedEnd));
    assert_eq!(d.remaining(), 24);
    assert_eq!(Position::decode(&mut d), Ok(Position { offset: 1, line: 2, col: 3 }));
    assert_eq!(d.remaining(), 0);
}
