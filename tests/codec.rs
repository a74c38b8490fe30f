use cram_codec::bits::{BitReader, BitWriter};
use cram_codec::codec::{ExternalDataReaders, ExternalDataWriters};
use cram_codec::encoding::{Encoding, Integer};

fn dec(core: &[u8], enc: Integer) -> i64 {
    let mut r = BitReader::new(core);
    let mut ext = ExternalDataReaders::new();
    Encoding::new(enc).decode(&mut r, &mut ext).unwrap()
}

#[test]
fn integer_test_decode() {
    fn t(core_data: Option<&[u8]>, encoding: &Encoding<Integer>, expected: i64) {
        let core_data = core_data.unwrap_or(&[0b10000000]);
        let mut core_data_reader = BitReader::new(core_data);
        let external_data = [0x0d];
        let mut external_data_readers = ExternalDataReaders::new();
        external_data_readers.insert(1, &external_data[..]);
        let actual = encoding.decode(&mut core_data_reader, &mut external_data_readers).unwrap();
        assert_eq!(expected, actual);
    }
    t(None, &Encoding::new(Integer::External { block_content_id: 1 }), 13);
    t(None, &Encoding::new(Integer::huffman(vec![0x4e], vec![0])), 0x4e);
    t(None, &Encoding::new(Integer::Beta { offset: 1, len: 3 }), 3);
    t(Some(&[0b00011010]), &Encoding::new(Integer::Gamma { offset: 5 }), 8);
    t(None, &Encoding::new(Integer::ConstInt { value: 42 }), 42);
}

fn dec_ext(external_data: &[u8], enc: Integer) -> i64 {
    let core_data = [0b10000000];
    let mut core_data_reader = BitReader::new(&core_data[..]);
    let mut external_data_readers = ExternalDataReaders::new();
    external_data_readers.insert(1, external_data);
    Encoding::new(enc).decode(&mut core_data_reader, &mut external_data_readers).unwrap()
}

#[test]
fn test_decode_varint_unsigned() {
    assert_eq!(dec_ext(&[0x81, 0x00], Integer::VarintUnsigned { block_content_id: 1, offset: 0 }), 128);
}

#[test]
fn test_decode_varint_unsigned_with_offset() {
    assert_eq!(dec_ext(&[0x05], Integer::VarintUnsigned { block_content_id: 1, offset: -1 }), 4);
}

#[test]
fn test_decode_varint_signed() {
    assert_eq!(dec_ext(&[0x03], Integer::VarintSigned { block_content_id: 1, offset: 0 }), -2);
}

#[test]
fn test_decode_varint_signed_with_offset() {
    assert_eq!(dec_ext(&[0x04], Integer::VarintSigned { block_content_id: 1, offset: 10 }), 12);
}

#[test]
fn integer_test_encode() {
    let mut core_data_writer = BitWriter::default();
    let block_content_id = 1;
    let mut external_data_writers = ExternalDataWriters::new();
    external_data_writers.insert(block_content_id);
    let encoding = Encoding::new(Integer::External { block_content_id: 1 });
    encoding.encode(&mut core_data_writer, &mut external_data_writers, 0x0d).unwrap();
    let actual_core_data = core_data_writer.finish().unwrap();
    assert!(actual_core_data.is_empty());
    assert_eq!(external_data_writers.get(block_content_id).unwrap(), &vec![0x0d]);
}

#[test]
fn test_decode_golomb() {
    assert_eq!(dec(&[0b00101000], Integer::Golomb { offset: 0, m: 5 }), 11);
    assert_eq!(dec(&[0b00101000], Integer::Golomb { offset: 10, m: 5 }), 1);
    assert_eq!(dec(&[0b11100000], Integer::Golomb { offset: 0, m: 5 }), 3);
}

#[test]
fn test_decode_golomb_rice() {
    assert_eq!(dec(&[0b00110100], Integer::GolombRice { offset: 0, log2_m: 3 }), 21);
    assert_eq!(dec(&[0b11000000], Integer::GolombRice { offset: 5, log2_m: 2 }), -3);
}

#[test]
fn test_decode_subexp() {
    assert_eq!(dec(&[0b01100000], Integer::Subexp { offset: 0, k: 2 }), 3);
    assert_eq!(dec(&[0b10001000], Integer::Subexp { offset: 0, k: 2 }), 1);
    assert_eq!(dec(&[0b01000000], Integer::Subexp { offset: 3, k: 2 }), -1);
    assert_eq!(dec(&[0b00000000], Integer::Subexp { offset: 0, k: 0 }), 0);
    assert_eq!(dec(&[0b10000000], Integer::Subexp { offset: 0, k: 0 }), 0);
}

#[test]
fn test_decode_golomb_with_m_1() {
    assert_eq!(dec(&[0b10000000], Integer::Golomb { offset: 0, m: 1 }), 0);
    assert_eq!(dec(&[0b01000000], Integer::Golomb { offset: 0, m: 1 }), 1);
    assert_eq!(dec(&[0b00010000], Integer::Golomb { offset: 0, m: 1 }), 3);
}

#[test]
fn test_decode_golomb_rice_with_log2_m_0() {
    assert_eq!(dec(&[0b10000000], Integer::GolombRice { offset: 0, log2_m: 0 }), 0);
    assert_eq!(dec(&[0b01000000], Integer::GolombRice { offset: 0, log2_m: 0 }), 1);
    assert_eq!(dec(&[0b00100000], Integer::GolombRice { offset: 5, log2_m: 0 }), -3);
}

fn round_trip(enc: Integer, values: &[i64]) {
    let encoding = Encoding::new(enc);
    let mut w = BitWriter::default();
    let mut ext = ExternalDataWriters::new();
    ext.insert(1);
    for &v in values {
        encoding.encode(&mut w, &mut ext, v).unwrap();
    }
    let core = w.finish().unwrap();
    let ext_bytes = ext.get(1).unwrap().clone();
    let mut r = BitReader::new(&core);
    let mut readers = ExternalDataReaders::new();
    readers.insert(1, &ext_bytes);
    for &v in values {
        assert_eq!(encoding.decode(&mut r, &mut readers), Ok(v));
    }
}

#[test]
fn integer_codecs_round_trip() {
    round_trip(Integer::External { block_content_id: 1 }, &[0, 1, 127, 128, -1, i32::MAX as i64]);
    round_trip(Integer::VarintUnsigned { block_content_id: 1, offset: 0 }, &[0, 1, 300, i64::MAX]);
    round_trip(Integer::VarintSigned { block_content_id: 1, offset: 7 }, &[-5, 0, 9, 1 << 40]);
    round_trip(Integer::Beta { offset: 1, len: 5 }, &[-1, 0, 30]);
    round_trip(Integer::Gamma { offset: 1 }, &[0, 1, 2, 1000]);
    round_trip(Integer::GolombRice { offset: 0, log2_m: 3 }, &[0, 7, 8, 100]);
    round_trip(Integer::Golomb { offset: 0, m: 5 }, &[0, 1, 2, 3, 4, 5, 11, 99]);
    round_trip(Integer::Huffman { alphabet: vec![65, 66, 67, 68, 69, 70], bit_lens: vec![1, 3, 3, 3, 4, 4] }, &[65, 70, 66, 69]);
    round_trip(Integer::Subexp { offset: 0, k: 2 }, &[0, 1, 3]);
}

#[test]
fn golomb_scenario_bits() {
    let mut w = BitWriter::default();
    let mut ext = ExternalDataWriters::new();
    Encoding::new(Integer::Golomb { offset: 0, m: 5 }).encode(&mut w, &mut ext, 11).unwrap();
    assert_eq!(w.finish().unwrap(), [0b00101000]);
}

#[test]
fn missing_external_stream_is_invalid() {
    let core = [0u8];
    let mut r = BitReader::new(&core);
    let mut ext = ExternalDataReaders::new();
    assert!(Encoding::new(Integer::External { block_content_id: 9 }).decode(&mut r, &mut ext).is_err());
}

#[test]
fn subexp_round_trip_all_groups() {
    round_trip(Integer::Subexp { offset: 0, k: 2 }, &[0, 3, 4, 5, 7, 8, 31, 32, 1000, 123456, i32::MAX as i64]);
    round_trip(Integer::Subexp { offset: 3, k: 0 }, &[-3, -2, 0, 5, 70000]);
    round_trip(Integer::Subexp { offset: 0, k: 31 }, &[0, i32::MAX as i64]);
    round_trip(Integer::Subexp { offset: 0, k: 29 }, &[(1 << 30) + 5, i32::MAX as i64]);
}

#[test]
fn subexp_group_one_bits() {
    let mut w = BitWriter::default();
    let mut ext = ExternalDataWriters::new();
    Encoding::new(Integer::Subexp { offset: 0, k: 2 }).encode(&mut w, &mut ext, 5).unwrap();
    // group 1: "10", then 5 in k + 1 = 3 bits
    assert_eq!(w.finish().unwrap(), [0b10101000]);
}

#[test]
fn rejected_values_leave_writer_untouched() {
    let mut w = BitWriter::default();
    let mut ext = ExternalDataWriters::new();
    w.write_bit(true);
    assert!(Encoding::new(Integer::Gamma { offset: 0 }).encode(&mut w, &mut ext, 0).is_err());
    assert!(Encoding::new(Integer::Golomb { offset: 0, m: 0 }).encode(&mut w, &mut ext, 3).is_err());
    assert!(Encoding::new(Integer::Subexp { offset: 0, k: 2 }).encode(&mut w, &mut ext, -1).is_err());
    assert_eq!(w.finish().unwrap(), [0b10000000]);
    let core = [0xffu8];
    let mut r = BitReader::new(&core);
    let mut readers = ExternalDataReaders::new();
    assert!(Encoding::new(Integer::GolombRice { offset: 0, log2_m: 40 }).decode(&mut r, &mut readers).is_err());
    assert_eq!(r.pos, 0);
}
