use slcan::canframe::CanFrame;
use slcan::protocols::transport::isotp::slice_to_frame_payload;
use slcan::slcan::{frame_to_serial_line, hex_digit_to_int, parse_serial_line, u32_to_hex_canid};
use std::str;

#[test]
fn test_slice_to_payload() {
    let d = b"abcdefghijklmopqrstuvwxyz";
    let res = slice_to_frame_payload(&d[0..8]);
    assert_eq!(*b"abcdefgh", res);
    let res = slice_to_frame_payload(&d[1..9]);
    assert_eq!(*b"bcdefghi", res);
}

#[test]
fn test_u32_to_hex_canid() {
    let mut data = vec![0; 10];

    u32_to_hex_canid(255, &mut data[..]);
    assert_eq!(str::from_utf8(&data[0..3]).unwrap(), "0FF");

    u32_to_hex_canid(0x01, &mut data[..]);
    assert_eq!(str::from_utf8(&data[0..3]).unwrap(), "001");

    u32_to_hex_canid(0x20000000, &mut data[..]);
    assert_eq!(str::from_utf8(&data[0..8]).unwrap(), "20000000");

    u32_to_hex_canid(0x10000, &mut data[..]);
    assert_eq!(str::from_utf8(&data[0..8]).unwrap(), "00010000");
}

#[test]
fn test_hex_digit_to_int() {
    assert_eq!(hex_digit_to_int(b'0'), 0);
    assert_eq!(hex_digit_to_int(b'9'), 9);
    assert_eq!(hex_digit_to_int(b'a'), 10);
    assert_eq!(hex_digit_to_int(b'A'), 10);
    assert_eq!(hex_digit_to_int(b'f'), 15);
    assert_eq!(hex_digit_to_int(b'F'), 15);
}

#[test]
fn test_parse_slcan_frames() {
    let frame = parse_serial_line(b"T12345678100").unwrap();
    assert_eq!(frame.id, 0x12345678);
    assert_eq!(frame.length, 1);
    assert_eq!(frame.data[0], 0);
    assert!(frame.ext);
    assert!(!frame.rtr);

    let frame = parse_serial_line(b"R123456780").unwrap();
    assert_eq!(frame.id, 0x12345678);
    assert_eq!(frame.length, 0);
    assert!(frame.ext);
    assert!(frame.rtr);

    let frame = parse_serial_line(b"t1230").unwrap();
    assert!(!frame.ext);
    assert!(!frame.rtr);
    assert_eq!(frame.id, 0x123);
    assert_eq!(frame.length, 0);

    let frame = parse_serial_line(b"t1231aF").unwrap();
    assert!(!frame.ext);
    assert!(!frame.rtr);
    assert_eq!(frame.id, 0x123);
    assert_eq!(frame.length, 1);
    assert_eq!(frame.data[0], 0xaf);

    let frame = parse_serial_line(b"r1230").unwrap();
    assert!(!frame.ext);
    assert!(frame.rtr);
}

#[test]
fn test_frame_to_serial_line() {
    let frame = CanFrame {
        id: 0x12345678,
        length: 1,
        data: [0; 8],
        ext: true,
        rtr: false,
    };

    let line = frame_to_serial_line(frame);
    assert_eq!(line, b"T12345678100\r");

    let frame = CanFrame {
        id: 0x12345678,
        ext: true,
        rtr: true,
        length: 0,
        data: [0; 8],
    };
    let line = frame_to_serial_line(frame);
    assert_eq!(line, b"R123456780\r");

    let frame = CanFrame {
        id: 0x123,
        ext: false,
        rtr: false,
        length: 0,
        data: [0; 8],
    };
    let line = frame_to_serial_line(frame);
    assert_eq!(line, b"t1230\r");

    let frame = CanFrame {
        id: 0x123,
        ext: false,
        rtr: false,
        length: 1,
        data: [0xaf, 0x00, 0x00, 0x00, 0x00, 0x00, 0x00, 0x00],
    };
    let line = frame_to_serial_line(frame);
    assert_eq!(line, b"t1231AF\r");

    let frame = CanFrame {
        id: 0x123,
        ext: false,
        rtr: true,
        length: 0,
        data: [0; 8],
    };
    let line = frame_to_serial_line(frame);
    assert_eq!(line, b"r1230\r");
}
