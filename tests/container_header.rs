use cram_codec::container_header::{
    build_eof_container, read_header, write_eof_container, write_header, Header,
    ReferenceSequenceContext,
};
use cram_codec::error::Error;
use cram_codec::version::Version;

#[test]
fn test_read_header() {
    let src = [
        0x90, 0x00, 0x00, 0x00, 0x02, 0x03, 0x05, 0x08, 0x0d, 0x15, 0x22, 0x02, 0x37, 0x59, 0x21,
        0xf7, 0x9c, 0xed,
    ];
    let mut actual = Header::default();
    let len = read_header(&mut &src[..], &mut actual, Version::v3_0()).unwrap();
    let expected = Header {
        reference_sequence_context: ReferenceSequenceContext::some(2, 3, 7),
        record_count: 8,
        record_counter: 13,
        base_count: 21,
        block_count: 34,
        landmarks: vec![55, 89],
    };
    assert_eq!(len, 144);
    assert_eq!(actual, expected);
}

#[test]
fn test_read_header_with_eof() {
    let src = [
        0x0f, 0x00, 0x00, 0x00, 0xff, 0xff, 0xff, 0xff, 0x0f, 0xe0, 0x45, 0x4f, 0x46, 0x00, 0x00,
        0x00, 0x00, 0x01, 0x00, 0x05, 0xbd, 0xd9, 0x4f,
    ];
    let mut header = Header::default();
    let len = read_header(&mut &src[..], &mut header, Version::v3_0()).unwrap();
    assert_eq!(len, 0);
    assert_eq!(header, Header::default());
}

#[test]
fn test_read_header_with_a_checksum_mismatch() {
    let src = [
        0x0f, 0x00, 0x00, 0x00, 0xff, 0xff, 0xff, 0xff, 0x0f, 0xe0, 0x45, 0x4f, 0x46, 0x00, 0x00,
        0x00, 0x00, 0x01, 0x00, 0x00, 0x00, 0x00, 0x00,
    ];
    let mut header = Header::default();
    assert!(matches!(
        read_header(&mut &src[..], &mut header, Version::v3_0()),
        Err(e) if e.kind() == Error::InvalidData,
    ));
}

#[test]
fn truncated_header_reads_as_end() {
    let src = [0x90, 0x00, 0x00, 0x00, 0x02];
    let mut header = Header::default();
    assert_eq!(read_header(&mut &src[..], &mut header, Version::v3_0()), Ok(0));
}

#[test]
fn eof_container_round_trip_each_version() {
    for v in [Version::v2_0(), Version::v2_1(), Version::v3_0(), Version::v3_1(), Version::v4_0()] {
        let eof = build_eof_container(v).unwrap();
        let mut header = Header::default();
        assert_eq!(read_header(&mut &eof[..], &mut header, v), Ok(0), "version {:?}", v);
    }
    let mut buf = Vec::new();
    write_eof_container(&mut buf, Version::v3_0()).unwrap();
    assert_eq!(buf.len(), 38);
}

#[test]
fn header_write_then_read() {
    let header = Header {
        reference_sequence_context: ReferenceSequenceContext::some(2, 3, 7),
        record_count: 8,
        record_counter: 13,
        base_count: 21,
        block_count: 34,
        landmarks: vec![55, 89],
    };
    for v in [Version::v2_1(), Version::v3_0(), Version::v4_0()] {
        let mut buf = Vec::new();
        write_header(&mut buf, &header, 144, v).unwrap();
        let mut actual = Header::default();
        assert_eq!(read_header(&mut &buf[..], &mut actual, v), Ok(144));
        assert_eq!(actual, header);
    }
    let mut buf = Vec::new();
    write_header(&mut buf, &header, 144, Version::v3_0()).unwrap();
    assert_eq!(buf, [0x90, 0x00, 0x00, 0x00, 0x02, 0x03, 0x05, 0x08, 0x0d, 0x15, 0x22, 0x02, 0x37, 0x59, 0x21, 0xf7, 0x9c, 0xed]);
}

#[test]
fn context_rules() {
    assert_eq!(ReferenceSequenceContext::try_from(-1, 0, 0), Ok(ReferenceSequenceContext::Unmapped));
    assert_eq!(ReferenceSequenceContext::try_from(-1, 0, 5), Err(Error::InvalidData));
    assert_eq!(ReferenceSequenceContext::try_from(-2, 0, 0), Ok(ReferenceSequenceContext::Many));
    assert_eq!(ReferenceSequenceContext::try_from(-2, 4, 0), Err(Error::InvalidData));
    assert_eq!(ReferenceSequenceContext::try_from(0, 0, 1), Err(Error::InvalidData));
}
