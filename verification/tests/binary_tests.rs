use tc_manager::binary::{Reader, Writer, MAX_SEQUENCE_ITEMS};

#[test]
fn primitives_round_trip() {
    let mut w = Writer::new();
    w.u8(0xAB);
    w.u16(0x1234).unwrap();
    w.i16(-7).unwrap();
    w.u32(0xDEAD_BEEF).unwrap();
    w.i64(-42).unwrap();
    w.u64(u64::MAX).unwrap();
    w.boolean(true);
    w.boolean(false);
    w.string("hi").unwrap();
    w.bytes_u16(&[1, 2, 3]).unwrap();
    w.point((-13, 21)).unwrap();
    w.count_i64(5).unwrap();

    let mut r = Reader::new(&w.data);
    assert_eq!(r.u8().unwrap(), 0xAB);
    assert_eq!(r.u16().unwrap(), 0x1234);
    assert_eq!(r.i16().unwrap(), -7);
    assert_eq!(r.u32().unwrap(), 0xDEAD_BEEF);
    assert_eq!(r.i64().unwrap(), -42);
    assert_eq!(r.u64().unwrap(), u64::MAX);
    assert!(r.boolean().unwrap());
    assert!(!r.boolean().unwrap());
    assert_eq!(r.string().unwrap(), "hi");
    assert_eq!(r.bytes_u16().unwrap(), vec![1, 2, 3]);
    assert_eq!(r.point().unwrap(), (-13, 21));
    assert_eq!(r.count_i64("test").unwrap(), 5);
    r.finish().unwrap();
}

#[test]
fn boolean_rejects_garbage() {
    let bytes = [42u8];
    let mut r = Reader::new(&bytes);
    let err = r.boolean().unwrap_err();
    assert!(err.starts_with("CIRCUIT_BAD_BOOLEAN|"), "got: {err}");
}

#[test]
fn truncation_reports_offset() {
    let bytes = [1u8, 2, 3];
    let mut r = Reader::new(&bytes);
    r.u16().unwrap();
    let err = r.u16().unwrap_err();
    assert!(err.starts_with("CIRCUIT_TRUNCATED|"), "got: {err}");
    assert!(err.contains("offset 2"), "got: {err}");
}

#[test]
fn count_i64_rejects_huge() {
    let bytes = (MAX_SEQUENCE_ITEMS + 1).to_le_bytes();
    let mut r = Reader::new(&bytes);
    let err = r.count_i64("components").unwrap_err();
    assert!(err.starts_with("CIRCUIT_BAD_COUNT|components="), "got: {err}");
}

#[test]
fn finish_rejects_trailing_bytes() {
    let bytes = [1u8, 2, 3];
    let mut r = Reader::new(&bytes);
    r.u8().unwrap();
    let err = r.finish().unwrap_err();
    assert!(err.starts_with("CIRCUIT_TRAILING|"), "got: {err}");
}

#[test]
fn utf8_error_codes() {
    let bytes = [0x02, 0x00, 0x80, 0x81];
    let mut r = Reader::new(&bytes);
    let err = r.string().unwrap_err();
    assert!(err.starts_with("CIRCUIT_UTF8|"), "got: {err}");
}

#[test]
fn little_endian_layout_is_exact() {
    let mut w = Writer::new();
    w.u16(0x1234).unwrap();
    w.i16(-2).unwrap();
    w.u32(0x0102_0304).unwrap();
    assert_eq!(w.data, vec![0x34, 0x12, 0xFE, 0xFF, 0x04, 0x03, 0x02, 0x01]);
}

#[test]
fn negative_count_is_rejected() {
    let bytes = (-1i64).to_le_bytes();
    let mut r = Reader::new(&bytes);
    let err = r.count_i64("wires").unwrap_err();
    assert!(err.starts_with("CIRCUIT_BAD_COUNT|wires=-1"), "got: {err}");
}

#[test]
fn take_advances_position() {
    let bytes = [9u8, 8, 7, 6];
    let mut r = Reader::new(&bytes);
    assert_eq!(r.take(3).unwrap(), &[9u8, 8, 7][..]);
    assert_eq!(r.position(), 3);
    assert!(r.take(2).is_err());
    assert_eq!(r.position(), 3);
}

#[test]
fn string_too_long_is_rejected() {
    let long = "a".repeat(0x1_0000);
    let mut w = Writer::new();
    assert!(w.string(&long).is_err());
}

#[test]
fn failed_reads_stop_past_what_was_read() {
    let data = [3u8, 0, b'a'];
    let mut r = Reader::new(&data);
    assert!(r.string().is_err());
    assert_eq!(r.position(), 2);
    let bad = [2u8, 0, 0xff, 0xfe];
    let mut r = Reader::new(&bad);
    assert!(r.string().is_err());
    assert_eq!(r.position(), 4);
    let pt = [1u8, 0, 7];
    let mut r = Reader::new(&pt);
    assert!(r.point().is_err());
    assert_eq!(r.position(), 2);
    let count = (-1i64).to_le_bytes();
    let mut r = Reader::new(&count);
    assert!(r.count_i64("wires").is_err());
    assert_eq!(r.position(), 8);
    let short = [1u8];
    let mut r = Reader::new(&short);
    assert!(r.bytes_u16().is_err());
    assert_eq!(r.position(), 0);
}
