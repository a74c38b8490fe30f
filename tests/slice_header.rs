use cram_codec::container_header::ReferenceSequenceContext;
use cram_codec::error::Error;
use cram_codec::slice_header::{write_header, SliceHeader};
use cram_codec::version::Version;

fn header() -> SliceHeader {
    SliceHeader {
        reference_sequence_context: ReferenceSequenceContext::Unmapped,
        record_count: 3,
        record_counter: 8,
        block_count: 4,
        block_content_ids: vec![1, 2],
        embedded_reference_bases_block_content_id: None,
        reference_md5: None,
        optional_tags: Vec::new(),
    }
}

#[test]
fn slice_header_reference_id_is_signed() {
    let mut v3 = Vec::new();
    write_header(&mut v3, &header(), Version::v3_0()).unwrap();
    assert_eq!(&v3[..5], &[0xff, 0xff, 0xff, 0xff, 0x0f]);
    let mut v4 = Vec::new();
    write_header(&mut v4, &header(), Version::v4_0()).unwrap();
    // zigzag(-1) == 1 in a slice header, unlike the container header's bitcast
    assert_eq!(v4[0], 0x01);
    assert_eq!(&v4[1..9], &[0x00, 0x00, 0x03, 0x08, 0x04, 0x02, 0x01, 0x02]);
    // embedded reference id -1 is written as the bits of -1
    assert_eq!(&v4[9..14], &[0x8f, 0xff, 0xff, 0xff, 0x7f]);
    assert_eq!(&v4[14..], &[0u8; 16]);
}

#[test]
fn slice_header_with_md5_and_tags() {
    let mut h = header();
    h.reference_md5 = Some(vec![7u8; 16]);
    h.optional_tags = vec![9, 9];
    h.embedded_reference_bases_block_content_id = Some(5);
    let mut buf = Vec::new();
    write_header(&mut buf, &h, Version::v3_0()).unwrap();
    assert_eq!(&buf[buf.len() - 3..], &[2, 9, 9]);
    assert_eq!(&buf[buf.len() - 19..buf.len() - 3], &[7u8; 16]);
    h.reference_md5 = Some(vec![1, 2]);
    assert_eq!(write_header(&mut Vec::new(), &h, Version::v3_0()), Err(Error::InvalidInput));
}

#[test]
fn negative_block_ids_rejected_on_v4() {
    let mut h = header();
    h.block_content_ids = vec![1, -4];
    assert_eq!(write_header(&mut Vec::new(), &h, Version::v4_0()), Err(Error::InvalidInput));
    assert!(write_header(&mut Vec::new(), &h, Version::v3_0()).is_ok());
}

use cram_codec::slice_header::read_header_inner;

fn fixture() -> [u8; 29] {
    [
        0x02, 0x03, 0x05, 0x08, 0x0d, 0x01, 0x01, 0x15, 0xff, 0xff, 0xff, 0xff, 0x0f, 0x57, 0xb2,
        0x96, 0xa3, 0x16, 0x0a, 0x2c, 0xac, 0x9c, 0x83, 0x33, 0x12, 0x6f, 0xf2, 0x7e, 0xf7,
    ]
}

fn expected() -> SliceHeader {
    SliceHeader {
        reference_sequence_context: ReferenceSequenceContext::some(2, 3, 7),
        record_count: 8,
        record_counter: 13,
        block_count: 1,
        block_content_ids: vec![21],
        embedded_reference_bases_block_content_id: None,
        reference_md5: Some(vec![
            0x57, 0xb2, 0x96, 0xa3, 0x16, 0x0a, 0x2c, 0xac, 0x9c, 0x83, 0x33, 0x12, 0x6f, 0xf2, 0x7e,
            0xf7,
        ]),
        optional_tags: Vec::new(),
    }
}

#[test]
fn test_read_header_inner() {
    let src = fixture();
    assert_eq!(read_header_inner(&mut &src[..], Version::v3_0()), Ok(expected()));
}

#[test]
fn test_read_header_inner_v2() {
    let src = fixture();
    assert_eq!(read_header_inner(&mut &src[..], Version::v2_1()), Ok(expected()));
}

#[test]
fn slice_header_write_then_read() {
    let mut h = header();
    h.reference_sequence_context = ReferenceSequenceContext::some(4, 100, 250);
    h.embedded_reference_bases_block_content_id = Some(9);
    h.reference_md5 = Some(vec![3u8; 16]);
    for v in [Version::v3_0(), Version::v4_0()] {
        let mut buf = Vec::new();
        write_header(&mut buf, &h, v).unwrap();
        assert_eq!(read_header_inner(&mut &buf[..], v), Ok(h.clone()));
    }
    let mut unmapped = header();
    unmapped.reference_sequence_context = ReferenceSequenceContext::Unmapped;
    let mut buf = Vec::new();
    write_header(&mut buf, &unmapped, Version::v4_0()).unwrap();
    assert_eq!(read_header_inner(&mut &buf[..], Version::v4_0()), Ok(unmapped));
}

#[test]
fn truncated_md5_is_early_end() {
    let src = fixture();
    assert_eq!(read_header_inner(&mut &src[..20], Version::v3_0()), Err(Error::UnexpectedEof));
}
