use coding::{
    decode_fixed32, decode_fixed64, encode_fixed32, encode_fixed64, encode_varint32,
    encode_varint64, get_length_prefixed_slice, get_varint32, get_varint64, put_fixed32,
    put_fixed64, put_length_prefixed_slice, put_varint32, put_varint64, varint32_length,
    varint64_length,
};

fn varint32_of(v: u32) -> Vec<u8> {
    let mut out = Vec::new();
    put_varint32(&mut out, v);
    out
}

fn varint64_of(v: u64) -> Vec<u8> {
    let mut out = Vec::new();
    put_varint64(&mut out, v);
    out
}

#[test]
fn fixed32_bytes_are_little_endian() {
    let mut out = vec![0xEEu8];
    put_fixed32(&mut out, 0x0403_0201);
    assert_eq!(out, vec![0xEE, 0x01, 0x02, 0x03, 0x04]);
}

#[test]
fn fixed64_bytes_are_little_endian() {
    let mut out = Vec::new();
    put_fixed64(&mut out, 0x0807_0605_0403_0201);
    assert_eq!(out, vec![1, 2, 3, 4, 5, 6, 7, 8]);
}

#[test]
fn fixed32_round_trips() {
    for v in [0u32, 1, 255, 256, 0x1234_5678, u32::MAX - 1, u32::MAX] {
        let mut out = Vec::new();
        put_fixed32(&mut out, v);
        assert_eq!(out.len(), 4);
        assert_eq!(decode_fixed32(&out), v);
    }
}

#[test]
fn fixed64_round_trips() {
    for v in [0u64, 1, 0xFF, 0x1_0000_0000, 0x0123_4567_89AB_CDEF, u64::MAX] {
        let mut out = Vec::new();
        put_fixed64(&mut out, v);
        assert_eq!(out.len(), 8);
        assert_eq!(decode_fixed64(&out), v);
    }
}

#[test]
fn encode_fixed_keeps_following_bytes() {
    let mut buf = [9u8; 10];
    encode_fixed32(&mut buf, 0xA1B2_C3D4);
    assert_eq!(buf, [0xD4, 0xC3, 0xB2, 0xA1, 9, 9, 9, 9, 9, 9]);
    encode_fixed64(&mut buf, 0x1122_3344_5566_7788);
    assert_eq!(buf, [0x88, 0x77, 0x66, 0x55, 0x44, 0x33, 0x22, 0x11, 9, 9]);
}

#[test]
fn decode_fixed_reads_only_its_width() {
    let input = [0x78u8, 0x56, 0x34, 0x12, 0xFF, 0xFF, 0xFF, 0xFF, 0xAA];
    assert_eq!(decode_fixed32(&input), 0x1234_5678);
    assert_eq!(decode_fixed64(&input), 0xFFFF_FFFF_1234_5678);
}

#[test]
fn varint_of_300() {
    assert_eq!(varint32_of(300), vec![0xAC, 0x02]);
    assert_eq!(varint64_of(300), vec![0xAC, 0x02]);
    let input = [0xACu8, 0x02];
    let (rest, v) = get_varint32(&input).unwrap();
    assert_eq!(v, 300);
    assert!(rest.is_empty());
}

#[test]
fn varint_lengths() {
    assert_eq!(varint32_length(0), 1);
    assert_eq!(varint32_length(127), 1);
    assert_eq!(varint32_length(128), 2);
    assert_eq!(varint32_length(16383), 2);
    assert_eq!(varint32_length(16384), 3);
    assert_eq!(varint32_length(u32::MAX), 5);
    assert_eq!(varint64_length(0), 1);
    assert_eq!(varint64_length(1 << 35), 6);
    assert_eq!(varint64_length(u64::MAX), 10);
}

#[test]
fn varint_length_matches_bytes_written() {
    for v in [0u32, 1, 127, 128, 300, 16383, 16384, 1 << 21, 1 << 28, u32::MAX] {
        assert_eq!(varint32_of(v).len(), varint32_length(v));
    }
    for v in [0u64, 127, 128, 1 << 35, 1 << 56, 1 << 63, u64::MAX] {
        assert_eq!(varint64_of(v).len(), varint64_length(v));
    }
}

#[test]
fn varint_boundary_values() {
    assert_eq!(varint32_of(0), vec![0x00]);
    assert_eq!(varint32_of(u32::MAX), vec![0xFF, 0xFF, 0xFF, 0xFF, 0x0F]);
    let max64 = varint64_of(u64::MAX);
    assert_eq!(max64.len(), 10);
    assert_eq!(max64[9], 0x01);
    assert_eq!(get_varint32(&varint32_of(0)), Some((&[][..], 0)));
    assert_eq!(get_varint32(&varint32_of(u32::MAX)), Some((&[][..], u32::MAX)));
    assert_eq!(get_varint64(&max64), Some((&[][..], u64::MAX)));
    assert_eq!(get_varint64(&varint64_of(0)), Some((&[][..], 0)));
}

#[test]
fn varint_round_trips_leave_the_rest() {
    for v in [0u32, 1, 127, 128, 300, 16384, 1 << 28, u32::MAX] {
        let mut buf = varint32_of(v);
        buf.extend_from_slice(&[0x80, 0x07]);
        let (rest, got) = get_varint32(&buf).unwrap();
        assert_eq!(got, v);
        assert_eq!(rest, &[0x80, 0x07]);
    }
    for v in [0u64, 300, 1 << 40, u64::MAX] {
        let mut buf = varint64_of(v);
        buf.push(0x33);
        let (rest, got) = get_varint64(&buf).unwrap();
        assert_eq!(got, v);
        assert_eq!(rest, &[0x33]);
    }
}

#[test]
fn encode_varint_into_buffer() {
    let mut buf = [0x55u8; 12];
    let n = encode_varint32(&mut buf, 300);
    assert_eq!(n, 2);
    assert_eq!(buf[..4], [0xAC, 0x02, 0x55, 0x55]);
    let n = encode_varint64(&mut buf, u64::MAX);
    assert_eq!(n, 10);
    assert_eq!(buf[9..], [0x01, 0x55, 0x55]);
}

#[test]
fn truncated_varint_fails() {
    assert_eq!(get_varint32(&[]), None);
    assert_eq!(get_varint32(&[0x80]), None);
    assert_eq!(get_varint32(&[0xFF, 0xFF, 0xFF, 0xFF]), None);
    assert_eq!(get_varint32(&[0x80, 0x80, 0x80, 0x80, 0x80]), None);
    assert_eq!(get_varint32(&[0x80, 0x80, 0x80, 0x80, 0x80, 0x01]), None);
    assert_eq!(get_varint64(&[0xFF; 9]), None);
    assert_eq!(get_varint64(&[0xFF; 10]), None);
    let mut long = vec![0x80u8; 10];
    long.push(0x01);
    assert_eq!(get_varint64(&long), None);
}

#[test]
fn fifth_varint32_byte_keeps_low_bits() {
    let input = [0x80u8, 0x80, 0x80, 0x80, 0x7F];
    assert_eq!(get_varint32(&input), Some((&[][..], 0xF000_0000)));
    let input = [0xFFu8, 0xFF, 0xFF, 0xFF, 0x7F, 0x09];
    assert_eq!(get_varint32(&input), Some((&[0x09][..], u32::MAX)));
}

#[test]
fn length_prefixed_round_trips() {
    let mut buf = Vec::new();
    put_length_prefixed_slice(&mut buf, b"hello");
    assert_eq!(buf, vec![5, b'h', b'e', b'l', b'l', b'o']);
    put_length_prefixed_slice(&mut buf, b"");
    let (rest, first) = get_length_prefixed_slice(&buf).unwrap();
    assert_eq!(first, b"hello");
    assert_eq!(rest, &[0]);
    let (rest, second) = get_length_prefixed_slice(rest).unwrap();
    assert!(second.is_empty());
    assert!(rest.is_empty());
}

#[test]
fn length_prefixed_long_body() {
    let body: Vec<u8> = (0..300u32).map(|i| (i % 251) as u8).collect();
    let mut buf = Vec::new();
    put_length_prefixed_slice(&mut buf, &body);
    assert_eq!(buf.len(), 2 + 300);
    assert_eq!(buf[..2], [0xAC, 0x02]);
    let (rest, got) = get_length_prefixed_slice(&buf).unwrap();
    assert_eq!(got, &body[..]);
    assert!(rest.is_empty());
}

#[test]
fn length_prefixed_short_body_fails() {
    let mut buf = varint32_of(5);
    buf.extend_from_slice(&[0x01, 0x02]);
    assert_eq!(get_length_prefixed_slice(&buf), None);
}

#[test]
fn length_prefixed_bad_length_fails() {
    assert_eq!(get_length_prefixed_slice(&[]), None);
    assert_eq!(get_length_prefixed_slice(&[0x81]), None);
}
