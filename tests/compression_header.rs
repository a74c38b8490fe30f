use std::collections::HashSet;

use cram_codec::compression_header::data_series_encodings::{data_series_encodings_len, DataSeriesEncodings};
use cram_codec::compression_header::preservation_map::{encode, Key, PreservationMap, TryFromByteArrayError};
use cram_codec::encoding::{Encoding, Integer};
use cram_codec::version::Version;

#[test]
fn test_try_from_u8_array_for_key() {
    assert_eq!(Key::try_from([b'R', b'N']), Ok(Key::RecordsHaveNames));
    assert_eq!(Key::try_from([b'A', b'P']), Ok(Key::AlignmentStartsAreDeltas));
    assert_eq!(Key::try_from([b'R', b'R']), Ok(Key::ExternalReferenceSequenceIsRequired));
    assert_eq!(Key::try_from([b'S', b'M']), Ok(Key::SubstitutionMatrix));
    assert_eq!(Key::try_from([b'T', b'D']), Ok(Key::TagSets));
    assert_eq!(Key::try_from([b'Q', b'O']), Ok(Key::QualityScoreOrientation));
    assert_eq!(Key::try_from([b'Z', b'Z']), Err(TryFromByteArrayError([b'Z', b'Z'])));
}

#[test]
fn test_from_key_for_u8_array() {
    assert_eq!(Key::RecordsHaveNames.to_bytes(), [b'R', b'N']);
    assert_eq!(Key::AlignmentStartsAreDeltas.to_bytes(), [b'A', b'P']);
    assert_eq!(Key::ExternalReferenceSequenceIsRequired.to_bytes(), [b'R', b'R']);
    assert_eq!(Key::SubstitutionMatrix.to_bytes(), [b'S', b'M']);
    assert_eq!(Key::TagSets.to_bytes(), [b'T', b'D']);
    assert_eq!(Key::QualityScoreOrientation.to_bytes(), [b'Q', b'O']);
}

#[test]
fn test_data_series_encodings_len() {
    let encodings = DataSeriesEncodings::default();
    assert_eq!(data_series_encodings_len(&encodings), 0);
    let encodings = DataSeriesEncodings::init(Version::default());
    assert_eq!(data_series_encodings_len(&encodings), 28);
    let encodings = DataSeriesEncodings {
        bam_flags: Some(Encoding::new(Integer::External { block_content_id: 1 })),
        cram_flags: Some(Encoding::new(Integer::External { block_content_id: 2 })),
        read_lengths: Some(Encoding::new(Integer::External { block_content_id: 4 })),
        alignment_starts: Some(Encoding::new(Integer::External { block_content_id: 5 })),
        read_group_ids: Some(Encoding::new(Integer::External { block_content_id: 6 })),
        tag_set_ids: Some(Encoding::new(Integer::External { block_content_id: 13 })),
        ..Default::default()
    };
    assert_eq!(data_series_encodings_len(&encodings), 6);
}

#[test]
fn init_v4_uses_varints() {
    let e = DataSeriesEncodings::init(Version::v4_0());
    assert_eq!(e.bam_flags(), Some(&Encoding::new(Integer::VarintUnsigned { block_content_id: 1, offset: 0 })));
    assert_eq!(e.reference_sequence_ids(), Some(&Encoding::new(Integer::VarintSigned { block_content_id: 3, offset: 0 })));
    let e3 = DataSeriesEncodings::init(Version::v3_0());
    assert_eq!(e3.quality_scores().is_some(), true);
    assert_eq!(e3.mapping_qualities(), Some(&Encoding::new(Integer::External { block_content_id: 26 })));
}

#[test]
fn prune_keeps_only_used_ids() {
    let mut e = DataSeriesEncodings::init(Version::v3_0());
    let used: HashSet<i32> = [1, 4, 28].into_iter().collect();
    e.retain_used_content_ids(&used);
    assert_eq!(data_series_encodings_len(&e), 3);
    assert!(e.bam_flags().is_some());
    assert!(e.read_lengths().is_some());
    assert!(e.quality_scores().is_some());
    assert!(e.cram_flags().is_none());
}

#[test]
fn preservation_map_order() {
    let pm = PreservationMap::new(true, false, true, vec![1, 2, 3, 4, 5], vec![9]);
    let v3 = encode(&pm, Version::v3_0());
    assert_eq!(v3, [5, b'R', b'N', 1, b'A', b'P', 0, b'R', b'R', 1, b'S', b'M', 1, 2, 3, 4, 5, b'T', b'D', 9]);
    let v4 = encode(&pm, Version::v4_0());
    assert_eq!(&v4[..1], &[6]);
    assert_eq!(&v4[v4.len() - 3..], &[b'Q', b'O', 1]);
}

use cram_codec::compression_header::tag_encodings::{read_tag_encodings, tag_encoding, write_tag_encodings};
use cram_codec::encoding::{Byte, ByteArray};

#[test]
fn tag_encodings_round_trip() {
    let entries = vec![(4_542_278i32 & 0xffff, tag_encoding(4_542_278 & 0xffff, Version::v3_0())), (7, tag_encoding(7, Version::v3_0()))];
    let mut buf = Vec::new();
    write_tag_encodings(&mut buf, &entries, Version::v3_0()).unwrap();
    let read = read_tag_encodings(&mut &buf[..], Version::v3_0()).unwrap();
    assert_eq!(read, entries);
}

#[test]
fn tag_encoding_bytes() {
    let entries = vec![(7i32, tag_encoding(7, Version::v3_0()))];
    let mut buf = Vec::new();
    write_tag_encodings(&mut buf, &entries, Version::v3_0()).unwrap();
    // array length, entry count, id 7, ByteArrayLength(External 7, External 7)
    assert_eq!(buf, [10, 1, 7, 4, 6, 1, 1, 7, 1, 1, 7]);
    let v4 = tag_encoding(7, Version::v4_0());
    assert_eq!(
        v4,
        Encoding::new(ByteArray::ByteArrayLength {
            len_encoding: Encoding::new(Integer::VarintUnsigned { block_content_id: 7, offset: 0 }),
            value_encoding: Encoding::new(Byte::External { block_content_id: 7 }),
        })
    );
}
