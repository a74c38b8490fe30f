use cram_codec::bits::{BitReader, BitWriter};
use cram_codec::huffman::{build_canonical_code_book, CanonicalHuffmanDecoder, CanonicalHuffmanEncoder};

#[test]
fn huffman_test_decode() {
    let symbols = [0x4e, 0x44, 0x4c];
    let bit_lens = [1, 2, 2];
    let decoder = CanonicalHuffmanDecoder::new(&symbols, &bit_lens);
    let data = [0b01011000];
    let mut reader = BitReader::new(&data[..]);
    assert_eq!(decoder.decode(&mut reader), Ok(0x4e));
    assert_eq!(decoder.decode(&mut reader), Ok(0x44));
    assert_eq!(decoder.decode(&mut reader), Ok(0x4c));
    assert_eq!(decoder.decode(&mut reader), Ok(0x4e));
}

#[test]
fn huffman_test_encode() {
    let symbols = [0x4e, 0x44, 0x4c];
    let bit_lens = [1, 2, 2];
    let encoder = CanonicalHuffmanEncoder::new(&symbols, &bit_lens);
    let mut writer = BitWriter::default();
    encoder.encode(&mut writer, 0x4e).unwrap();
    encoder.encode(&mut writer, 0x44).unwrap();
    encoder.encode(&mut writer, 0x4c).unwrap();
    encoder.encode(&mut writer, 0x4e).unwrap();
    let data = writer.finish().unwrap();
    assert_eq!(data, [0b01011000]);
}

#[test]
fn test_round_trip() {
    let symbols = [65, 66, 67, 68, 69, 70];
    let bit_lens = [1, 3, 3, 3, 4, 4];
    let encoder = CanonicalHuffmanEncoder::new(&symbols, &bit_lens);
    let decoder = CanonicalHuffmanDecoder::new(&symbols, &bit_lens);
    let values = [65, 66, 67, 68, 69, 70, 65, 65];
    let mut writer = BitWriter::default();
    for &v in &values {
        encoder.encode(&mut writer, v).unwrap();
    }
    let data = writer.finish().unwrap();
    let mut reader = BitReader::new(&data);
    for &expected in &values {
        assert_eq!(decoder.decode(&mut reader), Ok(expected));
    }
}

#[test]
fn test_single_symbol_encode() {
    let symbols = [42];
    let bit_lens = [0];
    let encoder = CanonicalHuffmanEncoder::new(&symbols, &bit_lens);
    let mut writer = BitWriter::default();
    encoder.encode(&mut writer, 42).unwrap();
    encoder.encode(&mut writer, 42).unwrap();
    let data = writer.finish().unwrap();
    assert!(data.is_empty());
}

#[test]
fn single_symbol_decodes_from_empty_input() {
    let decoder = CanonicalHuffmanDecoder::new(&[42], &[0]);
    let data: [u8; 0] = [];
    let mut reader = BitReader::new(&data);
    assert_eq!(decoder.decode(&mut reader), Ok(42));
    assert_eq!(decoder.decode(&mut reader), Ok(42));
}

#[test]
fn test_build_canonical_code_book() {
    let symbols = [65, 66, 67, 68, 69, 70];
    let bit_lens = [1, 3, 3, 3, 4, 4];
    let code_book = build_canonical_code_book(&symbols, &bit_lens);
    assert_eq!(code_book.len(), 6);
    let get = |s: i32| {
        let e = code_book.iter().find(|e| e.symbol == s).unwrap();
        (e.code, e.len)
    };
    assert_eq!(get(65), (0b0, 1));
    assert_eq!(get(66), (0b100, 3));
    assert_eq!(get(67), (0b101, 3));
    assert_eq!(get(68), (0b110, 3));
    assert_eq!(get(69), (0b1110, 4));
    assert_eq!(get(70), (0b1111, 4));
}

#[test]
fn unknown_symbol_is_invalid() {
    let encoder = CanonicalHuffmanEncoder::new(&[1, 2], &[1, 1]);
    let mut writer = BitWriter::default();
    assert!(encoder.encode(&mut writer, 3).is_err());
}
