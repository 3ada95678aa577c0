use bytes::BytesMut;
use slcan::canframe::CanFrame;
use slcan::line::{CodecError, LineCodec};
use slcan::protocols::transport::isotp::slice_to_frame_payload;
use slcan::slcan::{
    check_serial_line, find_cr, frame_to_serial_line, hex_to_u32, parse_serial_line,
    u32_to_hex_canid, CanFrameCodec,
};

#[test]
fn new_frame_is_empty_standard_data_frame() {
    let f = CanFrame::new();
    assert_eq!(f.id, 0);
    assert!(!f.ext);
    assert!(!f.rtr);
    assert_eq!(f.length, 0);
    assert_eq!(f.data, [0u8; 8]);
}

#[test]
fn hex_to_u32_lengths() {
    assert_eq!(hex_to_u32(b""), None);
    assert_eq!(hex_to_u32(b"123456789"), None);
    assert_eq!(hex_to_u32(b"7"), Some(7));
    assert_eq!(hex_to_u32(b"12345678"), Some(0x12345678));
    assert_eq!(hex_to_u32(b"99999999"), Some(0x99999999));
}

#[test]
fn hex_to_u32_refuses_other_bytes() {
    assert_eq!(hex_to_u32(b"12G"), None);
    assert_eq!(hex_to_u32(b"x12"), None);
    assert_eq!(hex_to_u32(b"1 2"), None);
}

#[test]
fn hex_to_u32_letters_count_from_zero() {
    assert_eq!(hex_to_u32(b"A"), Some(0));
    assert_eq!(hex_to_u32(b"F"), Some(5));
    assert_eq!(hex_to_u32(b"f"), Some(5));
    assert_eq!(hex_to_u32(b"1b"), Some(0x11));
    assert_eq!(hex_to_u32(b"7FF"), Some(0x755));
}

#[test]
fn canid_into_short_buffer() {
    let mut data = vec![b'x'; 2];
    u32_to_hex_canid(0x123, &mut data[..]);
    assert_eq!(data, b"12");
    let mut data = vec![b'x'; 5];
    u32_to_hex_canid(0x800, &mut data[..]);
    assert_eq!(data, b"800xx");
    let mut data = vec![b'x'; 9];
    u32_to_hex_canid(0x801, &mut data[..]);
    assert_eq!(data, b"00000801x");
    let mut data = vec![b'x'; 8];
    u32_to_hex_canid(0xABCDEF12, &mut data[..]);
    assert_eq!(data, b"ABCDEF12");
}

#[test]
fn serial_line_of_each_kind() {
    let mut f = CanFrame::new();
    f.id = 0x7ff;
    assert_eq!(frame_to_serial_line(f), b"t7FF0\r");
    f.rtr = true;
    assert_eq!(frame_to_serial_line(f), b"r7FF0\r");
    f.ext = true;
    f.id = 0x1abcdef;
    f.length = 8;
    f.data = [0, 1, 2, 3, 0xfe, 0xff, 0x10, 0x9a];
    assert_eq!(frame_to_serial_line(f), b"R01ABCDEF800010203FEFF109A\r");
    f.rtr = false;
    assert_eq!(frame_to_serial_line(f), b"T01ABCDEF800010203FEFF109A\r");
}

#[test]
fn serial_line_with_mismatched_identifier_width() {
    // An extended frame with a small identifier: three digits, then zero bytes.
    let mut f = CanFrame::new();
    f.ext = true;
    f.id = 0x12;
    assert_eq!(frame_to_serial_line(f), b"T012\0\0\0\0\00\r");
    // A standard frame with a large identifier: only three of the eight digits.
    let mut f = CanFrame::new();
    f.id = 0x1000;
    f.length = 1;
    f.data[0] = 0x5a;
    assert_eq!(frame_to_serial_line(f), b"t00015A\r");
}

#[test]
fn serial_line_ignores_payload_past_length() {
    let mut f = CanFrame::new();
    f.id = 0x100;
    f.length = 2;
    f.data = [0x11, 0x22, 0x33, 0x44, 0x55, 0x66, 0x77, 0x88];
    assert_eq!(frame_to_serial_line(f), b"t10021122\r");
}

#[test]
fn parse_full_extended_frame() {
    let f = parse_serial_line(b"T1234567880102030405060708\r").unwrap();
    assert!(f.ext);
    assert!(!f.rtr);
    assert_eq!(f.id, 0x12345678);
    assert_eq!(f.length, 8);
    assert_eq!(f.data, [1, 2, 3, 4, 5, 6, 7, 8]);
}

#[test]
fn parse_unknown_letter_as_standard_data_frame() {
    let f = parse_serial_line(b"x4561ff").unwrap();
    assert!(!f.ext);
    assert!(!f.rtr);
    assert_eq!(f.id, 0x456);
    assert_eq!(f.length, 1);
    assert_eq!(f.data[0], 0xff);
}

#[test]
fn parse_identifier_letters_count_from_zero() {
    let f = parse_serial_line(b"t7FF0").unwrap();
    assert_eq!(f.id, 0x755);
}

#[test]
fn check_serial_line_cases() {
    assert!(check_serial_line(b"t1230"));
    assert!(check_serial_line(b"t1231aF\r"));
    assert!(check_serial_line(b"T12345678100"));
    assert!(!check_serial_line(b""));
    assert!(!check_serial_line(b"t123"));
    assert!(!check_serial_line(b"t12G0"));
    assert!(!check_serial_line(b"t1239"));
    assert!(!check_serial_line(b"t1231a"));
    assert!(!check_serial_line(b"t1231aZ"));
    assert!(!check_serial_line(b"T1230\r"));
}

#[test]
fn find_cr_cases() {
    assert_eq!(find_cr(b""), None);
    assert_eq!(find_cr(b"abc"), None);
    assert_eq!(find_cr(b"\r"), Some(0));
    assert_eq!(find_cr(b"ab\rc\r"), Some(2));
}

#[test]
fn codec_decodes_one_line_at_a_time() {
    let mut codec = CanFrameCodec;
    let mut buf = BytesMut::from(&b"t1231aF\rR123456780\rt12"[..]);
    assert!(codec.can_decode(&buf));
    let f = codec.decode(&mut buf).unwrap();
    assert_eq!(f.id, 0x123);
    assert_eq!(f.data[0], 0xaf);
    assert_eq!(&buf[..], b"R123456780\rt12");
    let f = codec.decode(&mut buf).unwrap();
    assert!(f.ext && f.rtr);
    assert_eq!(f.id, 0x12345678);
    assert_eq!(&buf[..], b"t12");
    assert!(codec.can_decode(&buf));
    assert!(codec.decode(&mut buf).is_none());
    assert_eq!(&buf[..], b"t12");
}

#[test]
fn codec_reports_unreadable_line() {
    let codec = CanFrameCodec;
    let buf = BytesMut::from(&b"t12\rt1230\r"[..]);
    assert!(!codec.can_decode(&buf));
    let buf = BytesMut::from(&b"garbage without end"[..]);
    assert!(codec.can_decode(&buf));
}

#[test]
fn codec_encode_appends_line() {
    let mut codec = CanFrameCodec;
    let mut buf = BytesMut::from(&b"xy"[..]);
    let mut f = CanFrame::new();
    f.id = 0x321;
    f.length = 2;
    f.data[0] = 0xde;
    f.data[1] = 0xad;
    codec.encode(f, &mut buf);
    assert_eq!(&buf[..], b"xyt3212DEAD\r");
}

#[test]
fn codec_roundtrip_decimal_identifiers() {
    let mut codec = CanFrameCodec;
    let mut buf = BytesMut::new();
    let mut f = CanFrame::new();
    f.ext = true;
    f.rtr = false;
    f.id = 0x19283746;
    f.length = 3;
    f.data = [0xab, 0xcd, 0xef, 9, 9, 9, 9, 9];
    codec.encode(f, &mut buf);
    let g = codec.decode(&mut buf).unwrap();
    assert_eq!(g.id, f.id);
    assert_eq!(g.ext, f.ext);
    assert_eq!(g.rtr, f.rtr);
    assert_eq!(g.length, 3);
    assert_eq!(g.data, [0xab, 0xcd, 0xef, 0, 0, 0, 0, 0]);
    assert!(buf.is_empty());
}

#[test]
fn line_codec_cases() {
    let mut codec = LineCodec;
    let mut buf = BytesMut::from(&b"hello\rw\xc3\xb6rld\r\xff\rtail"[..]);
    assert_eq!(codec.decode(&mut buf).unwrap(), Some("hello\r".to_string()));
    assert_eq!(codec.decode(&mut buf).unwrap(), Some("w\u{f6}rld\r".to_string()));
    assert!(matches!(codec.decode(&mut buf), Err(CodecError::InvalidString)));
    assert_eq!(&buf[..], b"tail");
    assert_eq!(codec.decode(&mut buf).unwrap(), None);
    assert_eq!(&buf[..], b"tail");
}

#[test]
fn payload_of_short_and_long_slices() {
    assert_eq!(slice_to_frame_payload(b""), [0u8; 8]);
    assert_eq!(slice_to_frame_payload(b"abc"), [b'a', b'b', b'c', 0, 0, 0, 0, 0]);
    assert_eq!(slice_to_frame_payload(b"0123456789"), *b"01234567");
}

#[test]
fn canonical_lines_write_back_unchanged() {
    for line in [
        &b"T12345678100\r"[..],
        &b"R123456780\r"[..],
        &b"t1230\r"[..],
        &b"r1230\r"[..],
        &b"t8002FF0A\r"[..],
    ] {
        let f = parse_serial_line(line).unwrap();
        assert_eq!(frame_to_serial_line(f), line);
    }
}

#[test]
fn lower_case_payload_writes_back_upper_case() {
    let f = parse_serial_line(b"t1231aF").unwrap();
    assert_eq!(frame_to_serial_line(f), b"t1231AF\r");
}

#[test]
fn identifier_with_letters_does_not_read_back() {
    let mut f = CanFrame::new();
    f.id = 0x7ff;
    let line = frame_to_serial_line(f);
    assert_eq!(parse_serial_line(&line).unwrap().id, 0x755);
}

#[test]
fn encoded_frame_is_cut_from_stream_before_the_rest() {
    let mut codec = CanFrameCodec;
    let mut buf = BytesMut::new();
    let mut f = CanFrame::new();
    f.id = 0x512;
    f.rtr = true;
    codec.encode(f, &mut buf);
    buf.extend_from_slice(b"T1234");
    let g = codec.decode(&mut buf).unwrap();
    assert_eq!(g.id, 0x512);
    assert!(g.rtr);
    assert!(!g.ext);
    assert_eq!(g.length, 0);
    assert_eq!(&buf[..], b"T1234");
}
