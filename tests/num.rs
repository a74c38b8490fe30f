use cram_codec::error::Error;
use cram_codec::num::vlq::{
    read_sint7, read_sint7_64, read_uint7, read_uint7_64, uint7_size_of, write_sint7,
    write_sint7_64, write_uint7, write_uint7_64, zigzag_decode_i32, zigzag_decode_i64,
    zigzag_encode_i32, zigzag_encode_i64,
};
use cram_codec::num::itf8::{read_itf8, write_itf8};
use cram_codec::num::ltf8::{read_ltf8, write_ltf8};
use cram_codec::num::{int_size_of, write_header_int, write_int, read_header_int};
use cram_codec::version::Version;

#[test]
fn vlq_test_read_uint7() {
    fn t(data: &[u8], expected: u32) {
        let mut src = data;
        assert_eq!(read_uint7(&mut src), Ok(expected));
    }
    t(&[0x00], 0);
    t(&[0x7f], 127);
    t(&[0x81, 0x00], 128);
    t(&[0xc0, 0x00], 8192);
    t(&[0xff, 0x7f], 16383);
    t(&[0x81, 0x80, 0x00], 16384);
    t(&[0xff, 0xff, 0x7f], 2097151);
    t(&[0x81, 0x80, 0x80, 0x00], 2097152);
    t(&[0xc0, 0x80, 0x80, 0x00], 134217728);
    t(&[0xff, 0xff, 0xff, 0x7f], 268435455);
}

#[test]
fn vlq_test_read_sint7() {
    fn t(data: &[u8], expected: i32) {
        let mut src = data;
        assert_eq!(read_sint7(&mut src), Ok(expected));
    }
    t(&[0x00], 0);
    t(&[0x01], -1);
    t(&[0x02], 1);
    t(&[0x03], -2);
    t(&[0x04], 2);
}

#[test]
fn vlq_test_read_uint7_64() {
    fn t(data: &[u8], expected: u64) {
        let mut src = data;
        assert_eq!(read_uint7_64(&mut src), Ok(expected));
    }
    t(&[0x00], 0);
    t(&[0x7f], 127);
    t(&[0x81, 0x00], 128);
}

#[test]
fn vlq_test_read_sint7_64() {
    fn t(data: &[u8], expected: i64) {
        let mut src = data;
        assert_eq!(read_sint7_64(&mut src), Ok(expected));
    }
    t(&[0x00], 0);
    t(&[0x01], -1);
    t(&[0x02], 1);
    t(&[0x03], -2);
    t(&[0x04], 2);
}

#[test]
fn test_read_uint7_overflow() {
    let data: &[u8] = &[0x80, 0x80, 0x80, 0x80, 0x80, 0x00];
    let result = read_uint7(&mut &data[..]);
    assert!(result.is_err());
    assert_eq!(result.unwrap_err().kind(), Error::InvalidData);
}

#[test]
fn test_read_uint7_64_overflow() {
    let data: &[u8] = &[0x80, 0x80, 0x80, 0x80, 0x80, 0x80, 0x80, 0x80, 0x80, 0x80, 0x00];
    let result = read_uint7_64(&mut &data[..]);
    assert!(result.is_err());
    assert_eq!(result.unwrap_err().kind(), Error::InvalidData);
}

#[test]
fn test_zigzag_decode_i32() {
    assert_eq!(zigzag_decode_i32(0), 0);
    assert_eq!(zigzag_decode_i32(1), -1);
    assert_eq!(zigzag_decode_i32(2), 1);
    assert_eq!(zigzag_decode_i32(3), -2);
    assert_eq!(zigzag_decode_i32(4), 2);
    assert_eq!(zigzag_decode_i32(4294967294), 2147483647);
    assert_eq!(zigzag_decode_i32(4294967295), i32::MIN);
}

#[test]
fn test_zigzag_decode_i64() {
    assert_eq!(zigzag_decode_i64(0), 0);
    assert_eq!(zigzag_decode_i64(1), -1);
    assert_eq!(zigzag_decode_i64(2), 1);
    assert_eq!(zigzag_decode_i64(3), -2);
}

#[test]
fn test_write_uint7() {
    fn t(buf: &mut Vec<u8>, n: u32, expected: &[u8]) {
        buf.clear();
        write_uint7(buf, n).unwrap();
        assert_eq!(buf, expected);
    }
    let mut buf = Vec::new();
    t(&mut buf, 0, &[0x00]);
    t(&mut buf, 127, &[0x7f]);
    t(&mut buf, 128, &[0x81, 0x00]);
    t(&mut buf, 8192, &[0xc0, 0x00]);
    t(&mut buf, 16383, &[0xff, 0x7f]);
    t(&mut buf, 16384, &[0x81, 0x80, 0x00]);
    t(&mut buf, 2097151, &[0xff, 0xff, 0x7f]);
    t(&mut buf, 2097152, &[0x81, 0x80, 0x80, 0x00]);
    t(&mut buf, 134217728, &[0xc0, 0x80, 0x80, 0x00]);
    t(&mut buf, 268435455, &[0xff, 0xff, 0xff, 0x7f]);
}

#[test]
fn test_write_sint7() {
    fn t(buf: &mut Vec<u8>, n: i32, expected: &[u8]) {
        buf.clear();
        write_sint7(buf, n).unwrap();
        assert_eq!(buf, expected);
    }
    let mut buf = Vec::new();
    t(&mut buf, 0, &[0x00]);
    t(&mut buf, -1, &[0x01]);
    t(&mut buf, 1, &[0x02]);
    t(&mut buf, -2, &[0x03]);
    t(&mut buf, 2, &[0x04]);
}

#[test]
fn test_write_uint7_64() {
    fn t(buf: &mut Vec<u8>, n: u64, expected: &[u8]) {
        buf.clear();
        write_uint7_64(buf, n).unwrap();
        assert_eq!(buf, expected);
    }
    let mut buf = Vec::new();
    t(&mut buf, 0, &[0x00]);
    t(&mut buf, 127, &[0x7f]);
    t(&mut buf, 128, &[0x81, 0x00]);
}

#[test]
fn test_write_sint7_64() {
    fn t(buf: &mut Vec<u8>, n: i64, expected: &[u8]) {
        buf.clear();
        write_sint7_64(buf, n).unwrap();
        assert_eq!(buf, expected);
    }
    let mut buf = Vec::new();
    t(&mut buf, 0, &[0x00]);
    t(&mut buf, -1, &[0x01]);
    t(&mut buf, 1, &[0x02]);
    t(&mut buf, -2, &[0x03]);
    t(&mut buf, 2, &[0x04]);
}

#[test]
fn test_zigzag_encode_i32() {
    assert_eq!(zigzag_encode_i32(0), 0);
    assert_eq!(zigzag_encode_i32(-1), 1);
    assert_eq!(zigzag_encode_i32(1), 2);
    assert_eq!(zigzag_encode_i32(-2), 3);
    assert_eq!(zigzag_encode_i32(2), 4);
    assert_eq!(zigzag_encode_i32(i32::MAX), 4294967294);
    assert_eq!(zigzag_encode_i32(i32::MIN), 4294967295);
}

#[test]
fn test_zigzag_encode_i64() {
    assert_eq!(zigzag_encode_i64(0), 0);
    assert_eq!(zigzag_encode_i64(-1), 1);
    assert_eq!(zigzag_encode_i64(1), 2);
    assert_eq!(zigzag_encode_i64(-2), 3);
}

#[test]
fn test_uint7_size_of() {
    assert_eq!(uint7_size_of(0), 1);
    assert_eq!(uint7_size_of(127), 1);
    assert_eq!(uint7_size_of(128), 2);
    assert_eq!(uint7_size_of(16383), 2);
    assert_eq!(uint7_size_of(16384), 3);
}

#[test]
fn test_write_uint7_max() {
    let mut buf = Vec::new();
    write_uint7(&mut buf, u32::MAX).unwrap();
    assert_eq!(buf, &[0x8f, 0xff, 0xff, 0xff, 0x7f]);
    assert_eq!(uint7_size_of(u32::MAX), 5);
}

#[test]
fn test_write_uint7_64_large() {
    let mut buf = Vec::new();
    write_uint7_64(&mut buf, u64::MAX).unwrap();
    assert_eq!(buf.len(), 10);
}

#[test]
fn test_vlq_round_trip_u32() {
    let values = [0u32, 1, 127, 128, 255, 256, 16383, 16384, u32::MAX];
    for &val in &values {
        let mut buf = Vec::new();
        write_uint7(&mut buf, val).unwrap();
        let mut src = &buf[..];
        assert_eq!(read_uint7(&mut src), Ok(val));
    }
}

#[test]
fn test_vlq_round_trip_i32() {
    let values = [0i32, 1, -1, 2, -2, 127, -128, i32::MAX, i32::MIN];
    for &val in &values {
        let mut buf = Vec::new();
        write_sint7(&mut buf, val).unwrap();
        let mut src = &buf[..];
        assert_eq!(read_sint7(&mut src), Ok(val));
    }
}

#[test]
fn test_vlq_round_trip_u64() {
    let values = [0u64, 1, 127, 128, 16383, 16384, u32::MAX as u64, u64::MAX];
    for &val in &values {
        let mut buf = Vec::new();
        write_uint7_64(&mut buf, val).unwrap();
        let mut src = &buf[..];
        assert_eq!(read_uint7_64(&mut src), Ok(val));
    }
}

#[test]
fn test_vlq_round_trip_i64() {
    let values = [0i64, 1, -1, 127, -128, i32::MAX as i64, i32::MIN as i64, i64::MAX, i64::MIN];
    for &val in &values {
        let mut buf = Vec::new();
        write_sint7_64(&mut buf, val).unwrap();
        let mut src = &buf[..];
        assert_eq!(read_sint7_64(&mut src), Ok(val));
    }
}

#[test]
fn test_int_size_of() {
    let v3 = Version::default();
    assert_eq!(int_size_of(v3, 0), 1);
    assert_eq!(int_size_of(v3, 1877), 2);
    assert_eq!(int_size_of(v3, 480665), 3);
    assert_eq!(int_size_of(v3, 123050342), 4);
    assert_eq!(int_size_of(v3, 1968805474), 5);
    assert_eq!(int_size_of(v3, -1), 5);
    let v4 = Version::new(4, 0);
    assert_eq!(int_size_of(v4, 0), 1);
    assert_eq!(int_size_of(v4, 127), 1);
    assert_eq!(int_size_of(v4, 128), 2);
    assert_eq!(int_size_of(v4, 16383), 2);
    assert_eq!(int_size_of(v4, 16384), 3);
}

#[test]
fn itf8_round_trip_edges() {
    for &val in &[0i32, 1, 127, 128, 16383, 16384, 2097151, 2097152, 268435455, 268435456, i32::MAX, -1, i32::MIN] {
        let mut buf = Vec::new();
        write_itf8(&mut buf, val).unwrap();
        let mut src = &buf[..];
        assert_eq!(read_itf8(&mut src), Ok(val));
        assert!(src.is_empty());
    }
}

#[test]
fn itf8_known_bytes() {
    let mut buf = Vec::new();
    write_itf8(&mut buf, 128).unwrap();
    assert_eq!(buf, [0x80, 0x80]);
    buf.clear();
    write_itf8(&mut buf, -1).unwrap();
    assert_eq!(buf, [0xff, 0xff, 0xff, 0xff, 0x0f]);
    let mut src: &[u8] = &[0xe0, 0x45, 0x4f, 0x46];
    assert_eq!(read_itf8(&mut src), Ok(4_542_278));
    let mut short: &[u8] = &[0xc0, 0x01];
    assert_eq!(read_itf8(&mut short), Err(Error::UnexpectedEof));
}

#[test]
fn ltf8_round_trip_edges() {
    for &val in &[0i64, 1, 127, 128, 16384, 1 << 28, 1 << 35, 1 << 42, 1 << 49, 1 << 56, i64::MAX, -1, i64::MIN] {
        let mut buf = Vec::new();
        write_ltf8(&mut buf, val).unwrap();
        let mut src = &buf[..];
        assert_eq!(read_ltf8(&mut src), Ok(val));
        assert!(src.is_empty());
    }
    let mut buf = Vec::new();
    write_ltf8(&mut buf, -1).unwrap();
    assert_eq!(buf.len(), 9);
    assert_eq!(buf[0], 0xff);
}

#[test]
fn int_128_by_version() {
    let mut buf = Vec::new();
    write_int(&mut buf, Version::v3_0(), 128).unwrap();
    assert_eq!(buf.len(), 2);
    buf.clear();
    write_int(&mut buf, Version::v4_0(), 128).unwrap();
    assert_eq!(buf, [0x81, 0x00]);
    buf.clear();
    assert!(write_int(&mut buf, Version::v3_0(), -1).is_ok());
    buf.clear();
    assert_eq!(write_int(&mut buf, Version::v4_0(), -1), Err(Error::InvalidInput));
    buf.clear();
    write_header_int(&mut buf, Version::v4_0(), -1).unwrap();
    assert_eq!(buf, [0x8f, 0xff, 0xff, 0xff, 0x7f]);
    let mut src = &buf[..];
    assert_eq!(read_header_int(&mut src, Version::v4_0()), Ok(-1));
}
