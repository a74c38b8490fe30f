use cram_codec::encoding::read::{
    consume_any_encoding, read_beta_codec, read_byte_array_length_codec,
    read_byte_array_stop_codec, read_byte_encoding, read_const_byte_codec, read_const_int_codec,
    read_external_codec, read_gamma_codec, read_golomb_codec, read_golomb_rice_codec,
    read_huffman_codec, read_integer_encoding, read_kind, read_subexp_codec, read_varint_codec,
};
use cram_codec::encoding::write::{
    write_beta_codec, write_byte_array_length_codec, write_byte_array_stop_codec,
    write_const_byte_codec, write_const_int_codec, write_external_codec, write_gamma_codec,
    write_golomb_codec, write_golomb_rice_codec, write_huffman_codec, write_integer_encoding,
    write_subexp_codec, write_varint_signed_codec, write_varint_unsigned_codec,
};
use cram_codec::encoding::{Byte, Encoding, Integer, Kind};
use cram_codec::error::Error;
use cram_codec::version::Version;

#[test]
fn test_read_kind() {
    fn t(src: &[u8], expected: Kind, version: Version) {
        let mut src = src;
        assert_eq!(read_kind(&mut src, version), Ok(expected));
    }
    let v3 = Version::v3_0();
    let v4 = Version::v4_0();
    t(&[0x00], Kind::Null, v3);
    t(&[0x01], Kind::External, v3);
    t(&[0x02], Kind::Golomb, v3);
    t(&[0x03], Kind::Huffman, v3);
    t(&[0x04], Kind::ByteArrayLength, v3);
    t(&[0x05], Kind::ByteArrayStop, v3);
    t(&[0x06], Kind::Beta, v3);
    t(&[0x07], Kind::Subexp, v3);
    t(&[0x08], Kind::GolombRice, v3);
    t(&[0x09], Kind::Gamma, v3);
    t(&[0x29], Kind::VarintUnsigned, v4);
    t(&[0x2a], Kind::VarintSigned, v4);
    t(&[0x2b], Kind::ConstByte, v4);
    t(&[0x2c], Kind::ConstInt, v4);
    assert!(matches!(read_kind(&mut &[0x0a][..], v3), Err(e) if e.kind() == Error::InvalidData));
    assert!(matches!(read_kind(&mut &[0x29][..], v3), Err(e) if e.kind() == Error::InvalidData));
}

#[test]
fn v4_kinds_rejected_on_v3() {
    for kind in [41u8, 42, 43, 44] {
        let src = [kind, 1, 5];
        assert_eq!(read_integer_encoding(&mut &src[..], Version::v3_0()).map(|_| ()), Err(Error::InvalidData));
        assert_eq!(read_byte_encoding(&mut &src[..], Version::v3_0()).map(|_| ()), Err(Error::InvalidData));
    }
}

#[test]
fn test_read_const_byte_codec() {
    let src = [1, 0xff];
    assert_eq!(read_const_byte_codec(&mut &src[..], Version::v3_0()), Ok(0xff));
}

#[test]
fn test_read_const_int_codec() {
    let src = [1, 42];
    assert_eq!(read_const_int_codec(&mut &src[..], Version::v3_0()), Ok(42));
}

#[test]
fn test_read_external_codec() {
    let src = [1, 5];
    assert_eq!(read_external_codec(&mut &src[..], Version::v3_0()), Ok(5));
}

#[test]
fn test_read_golomb_codec() {
    let src = [2, 1, 10];
    assert_eq!(read_golomb_codec(&mut &src[..], Version::v3_0()), Ok((1, 10)));
}

#[test]
fn test_read_huffman_codec() {
    let src = [4, 1, 65, 1, 0];
    let (alphabet, bit_lens) = read_huffman_codec(&mut &src[..], Version::v3_0()).unwrap();
    assert_eq!(alphabet, [65]);
    assert_eq!(bit_lens, [0]);
}

#[test]
fn test_read_byte_array_length_codec() {
    let src = [6, 1, 1, 13, 1, 1, 21];
    let (len_encoding, value_encoding) =
        read_byte_array_length_codec(&mut &src[..], Version::v3_0()).unwrap();
    assert_eq!(len_encoding, Encoding::new(Integer::External { block_content_id: 13 }));
    assert_eq!(value_encoding, Encoding::new(Byte::External { block_content_id: 21 }));
}

#[test]
fn test_read_byte_array_stop_codec() {
    let src = [2, 0, 8];
    assert_eq!(read_byte_array_stop_codec(&mut &src[..], Version::v3_0()), Ok((0, 8)));
}

#[test]
fn test_read_beta_codec() {
    let src = [2, 0, 8];
    assert_eq!(read_beta_codec(&mut &src[..], Version::v3_0()), Ok((0, 8)));
}

#[test]
fn test_read_subexp_codec() {
    let src = [2, 0, 1];
    assert_eq!(read_subexp_codec(&mut &src[..], Version::v3_0()), Ok((0, 1)));
}

#[test]
fn test_read_golomb_rice_codec() {
    let src = [2, 1, 3];
    assert_eq!(read_golomb_rice_codec(&mut &src[..], Version::v3_0()), Ok((1, 3)));
}

#[test]
fn test_read_gamma_codec() {
    let src = [1, 1];
    assert_eq!(read_gamma_codec(&mut &src[..], Version::v3_0()), Ok(1));
}

#[test]
fn test_read_varint_codec() {
    let src = [2, 5, 0];
    assert_eq!(read_varint_codec(&mut &src[..], Version::v4_0()), Ok((5, 0)));
}

#[test]
fn test_read_integer_encoding_varint_unsigned() {
    let src = [41, 2, 3, 0];
    let encoding = read_integer_encoding(&mut &src[..], Version::v4_0()).unwrap();
    assert_eq!(encoding, Encoding::new(Integer::VarintUnsigned { block_content_id: 3, offset: 0 }));
}

#[test]
fn test_read_integer_encoding_varint_signed() {
    let src = [42, 2, 5, 0];
    let encoding = read_integer_encoding(&mut &src[..], Version::v4_0()).unwrap();
    assert_eq!(encoding, Encoding::new(Integer::VarintSigned { block_content_id: 5, offset: 0 }));
}

#[test]
fn test_read_integer_encoding_const_int() {
    let src = [44, 1, 84];
    let encoding = read_integer_encoding(&mut &src[..], Version::v4_0()).unwrap();
    assert_eq!(encoding, Encoding::new(Integer::ConstInt { value: 42 }));
}

#[test]
fn test_read_byte_encoding_const_byte_v4() {
    let src = [43, 1, 0x41];
    let encoding = read_byte_encoding(&mut &src[..], Version::v4_0()).unwrap();
    assert_eq!(encoding, Encoding::new(Byte::Constant { value: 0x41 }));
}

#[test]
fn consume_skips_whole_encoding() {
    let src = [3, 4, 1, 65, 1, 0, 0xaa];
    let mut s = &src[..];
    consume_any_encoding(&mut s, Version::v3_0()).unwrap();
    assert_eq!(s, &[0xaa]);
}

#[test]
fn test_write_external_codec() {
    let mut buf = Vec::new();
    write_external_codec(&mut buf, 5, Version::default()).unwrap();
    assert_eq!(buf, [1, 1, 5]);
}

#[test]
fn test_write_golomb_codec() {
    let mut buf = Vec::new();
    write_golomb_codec(&mut buf, 1, 10, Version::default()).unwrap();
    assert_eq!(buf, [2, 2, 1, 10]);
}

#[test]
fn test_write_huffman_codec() {
    let mut buf = Vec::new();
    write_huffman_codec(&mut buf, &[65], &[0], Version::default()).unwrap();
    assert_eq!(buf, [3, 4, 1, 65, 1, 0]);
}

#[test]
fn test_write_byte_array_length_codec() {
    let len_encoding = Encoding::new(Integer::External { block_content_id: 13 });
    let value_encoding = Encoding::new(Byte::External { block_content_id: 21 });
    let mut buf = Vec::new();
    write_byte_array_length_codec(&mut buf, &len_encoding, &value_encoding, Version::default()).unwrap();
    assert_eq!(buf, [4, 6, 1, 1, 13, 1, 1, 21]);
}

#[test]
fn test_write_byte_array_stop_codec() {
    let mut buf = Vec::new();
    write_byte_array_stop_codec(&mut buf, 0x00, 8, Version::default()).unwrap();
    assert_eq!(buf, [5, 2, 0, 8]);
}

#[test]
fn test_write_beta_codec() {
    let mut buf = Vec::new();
    write_beta_codec(&mut buf, 0, 8, Version::default()).unwrap();
    assert_eq!(buf, [6, 2, 0, 8]);
}

#[test]
fn test_write_subexp_codec() {
    let mut buf = Vec::new();
    write_subexp_codec(&mut buf, 0, 1, Version::default()).unwrap();
    assert_eq!(buf, [7, 2, 0, 1]);
}

#[test]
fn test_write_golomb_rice_codec() {
    let mut buf = Vec::new();
    write_golomb_rice_codec(&mut buf, 1, 3, Version::default()).unwrap();
    assert_eq!(buf, [8, 2, 1, 3]);
}

#[test]
fn test_write_gamma_codec() {
    let mut buf = Vec::new();
    write_gamma_codec(&mut buf, 1, Version::default()).unwrap();
    assert_eq!(buf, [9, 1, 1]);
}

#[test]
fn test_write_varint_unsigned_codec() {
    let mut buf = Vec::new();
    write_varint_unsigned_codec(&mut buf, 5, 0, Version::v4_0()).unwrap();
    assert_eq!(buf, [41, 2, 5, 0]);
}

#[test]
fn test_write_varint_signed_codec() {
    let mut buf = Vec::new();
    write_varint_signed_codec(&mut buf, 3, 0, Version::v4_0()).unwrap();
    assert_eq!(buf, [42, 2, 3, 0]);
}

#[test]
fn test_write_const_byte_codec() {
    let mut buf = Vec::new();
    write_const_byte_codec(&mut buf, 0x41, Version::v4_0()).unwrap();
    assert_eq!(buf, [43, 1, 0x41]);
}

#[test]
fn test_write_const_int_codec() {
    let mut buf = Vec::new();
    write_const_int_codec(&mut buf, 42, Version::v4_0()).unwrap();
    assert_eq!(buf, [44, 1, 84]);
}

#[test]
fn integer_encoding_write_then_read() {
    let encodings = [
        Integer::External { block_content_id: 7 },
        Integer::Golomb { offset: -3, m: 5 },
        Integer::Huffman { alphabet: vec![1, 2, 3], bit_lens: vec![1, 2, 2] },
        Integer::Beta { offset: 1, len: 3 },
        Integer::Gamma { offset: 5 },
    ];
    for e in encodings {
        let enc = Encoding::new(e);
        let mut buf = Vec::new();
        write_integer_encoding(&mut buf, &enc, Version::v3_0()).unwrap();
        let decoded = read_integer_encoding(&mut &buf[..], Version::v3_0()).unwrap();
        assert_eq!(decoded, enc);
    }
}

#[test]
fn negative_content_id_cannot_be_written_on_v4() {
    let mut buf = Vec::new();
    assert_eq!(write_external_codec(&mut buf, -1, Version::v4_0()), Err(Error::InvalidInput));
}
