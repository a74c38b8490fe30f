use cram_codec::container::container_layout;
use cram_codec::block::{build_blocks, write_block, Block, CompressionMethod, ContentType, Encoder};
use cram_codec::error::Error;
use cram_codec::version::Version;

#[test]
fn test_write_block() {
    let block = Block {
        compression_method: CompressionMethod::Raw,
        content_type: ContentType::ExternalData,
        content_id: 1,
        uncompressed_size: 4,
        src: b"ndls".to_vec(),
    };
    let mut buf = Vec::new();
    write_block(&mut buf, &block, Version::default()).unwrap();
    let expected = [0x00, 0x04, 0x01, 0x04, 0x04, b'n', b'd', b'l', b's', 0xd7, 0x12, 0x46, 0x3e];
    assert_eq!(buf, expected);
    assert_eq!(block.size(Version::default()), Ok(buf.len()));
}

#[test]
fn block_size_matches_written_length() {
    for v in [Version::v2_1(), Version::v3_0(), Version::v4_0()] {
        let block = Block::encode(ContentType::CoreData, 300, None, &[7u8; 200]).unwrap();
        let mut buf = Vec::new();
        write_block(&mut buf, &block, v).unwrap();
        assert_eq!(block.size(v), Ok(buf.len()));
    }
}

#[test]
fn gzip_block_compresses() {
    let data = vec![b'A'; 1000];
    let block = Block::encode(ContentType::ExternalData, 2, Some(Encoder::Gzip(6)), &data).unwrap();
    assert_eq!(block.compression_method, CompressionMethod::Gzip);
    assert_eq!(block.uncompressed_size, 1000);
    assert_eq!(&block.src[..2], &[0x1f, 0x8b]);
    assert!(block.src.len() < 100);
    let mut out = Vec::new();
    std::io::Read::read_to_end(&mut flate2::read::GzDecoder::new(&block.src[..]), &mut out).unwrap();
    assert_eq!(out, data);
}

#[test]
fn fqzcomp_needs_slice_level() {
    assert_eq!(Block::encode(ContentType::ExternalData, 2, Some(Encoder::Fqzcomp), &[1, 2]), Err(Error::Unsupported));
}

#[test]
fn negative_content_id_on_v4_is_invalid_input() {
    let block = Block::encode(ContentType::ExternalData, -3, None, &[1]).unwrap();
    let mut buf = Vec::new();
    assert_eq!(write_block(&mut buf, &block, Version::v4_0()), Err(Error::InvalidInput));
}

#[test]
fn gzip_level_above_ten_is_invalid_input() {
    assert_eq!(Block::encode(ContentType::ExternalData, 2, Some(Encoder::Gzip(11)), &[1, 2]), Err(Error::InvalidInput));
}

#[test]
fn blocks_of_a_slice() {
    let externals = vec![(3, vec![1u8, 2, 3]), (5, vec![]), (7, vec![4u8]), (11, vec![9u8, 9])];
    let encoders = vec![(3, None), (11, Some(Encoder::Fqzcomp))];
    let (core, blocks) = build_blocks(None, &encoders, false, &[9, 9], &externals).unwrap();
    assert_eq!(core.content_type, ContentType::CoreData);
    assert_eq!(core.src, vec![9, 9]);
    // the empty buffer of content id 5 is dropped
    assert_eq!(blocks.len(), 3);
    assert_eq!((blocks[0].content_id, blocks[0].compression_method), (3, CompressionMethod::Raw));
    // no encoder in the map: gzip 6
    assert_eq!((blocks[1].content_id, blocks[1].compression_method), (7, CompressionMethod::Gzip));
    // fqzcomp falls back to gzip 6 when not every record stores its qualities as an array
    assert_eq!((blocks[2].content_id, blocks[2].compression_method), (11, CompressionMethod::Gzip));
    assert_eq!(build_blocks(None, &encoders, true, &[9, 9], &externals).map(|_| ()), Err(Error::Unsupported));
    let (core, _) = build_blocks(Some(Encoder::Gzip(1)), &encoders, false, &[9, 9], &externals).unwrap();
    assert_eq!(core.compression_method, CompressionMethod::Gzip);
}

#[test]
fn container_layout_sums_blocks() {
    let (len, landmarks) = container_layout(20, &vec![vec![5, 7], vec![11], vec![1, 1, 1]]).unwrap();
    assert_eq!(len, 20 + 12 + 11 + 3);
    assert_eq!(landmarks, vec![20, 32, 43]);
    assert!(container_layout(usize::MAX, &vec![vec![1]]).is_err());
}
