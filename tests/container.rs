use cram_codec::block::{write_block, Block, ContentType};
use cram_codec::container::{build_container, used_content_ids};
use cram_codec::container_header::ReferenceSequenceContext;
use cram_codec::error::Error;
use cram_codec::slice_header::SliceHeader;
use cram_codec::version::Version;

fn slice(ctx: ReferenceSequenceContext, ids: &[i32]) -> (SliceHeader, Block, Vec<Block>) {
    let header = SliceHeader {
        reference_sequence_context: ctx,
        record_count: 1,
        record_counter: 0,
        block_count: 1 + ids.len(),
        block_content_ids: ids.to_vec(),
        embedded_reference_bases_block_content_id: None,
        reference_md5: None,
        optional_tags: Vec::new(),
    };
    let core = Block::encode(ContentType::CoreData, 0, None, &[1, 2, 3]).unwrap();
    let externals = ids.iter().map(|&id| Block::encode(ContentType::ExternalData, id, None, &[id as u8; 4]).unwrap()).collect();
    (header, core, externals)
}

#[test]
fn container_layout_and_header() {
    let v = Version::v3_0();
    let ch = Block::encode(ContentType::CompressionHeader, 0, None, &[0u8; 10]).unwrap();
    let slices = vec![
        slice(ReferenceSequenceContext::some(1, 10, 20), &[3, 5]),
        slice(ReferenceSequenceContext::some(1, 5, 15), &[7]),
    ];
    assert_eq!(used_content_ids(&slices).len(), 3);
    let (header, size, blocks) = build_container(ch.clone(), slices, 40, &[10, 12], v).unwrap();
    assert_eq!(header.reference_sequence_context, ReferenceSequenceContext::some(1, 5, 20));
    assert_eq!(header.block_count, blocks.len());
    assert_eq!(blocks.len(), 1 + 4 + 3);
    assert_eq!(header.base_count, 22);
    assert_eq!(header.record_count, 2);
    let mut written = Vec::new();
    for b in &blocks {
        write_block(&mut written, b, v).unwrap();
    }
    assert_eq!(size, written.len());
    assert_eq!(header.landmarks[0], ch.size(v).unwrap());
    assert!(header.landmarks[0] < header.landmarks[1]);
    assert_eq!(blocks[header_index(&blocks, 1)].content_type, ContentType::SliceHeader);
}

fn header_index(blocks: &[Block], n: usize) -> usize {
    blocks.iter().enumerate().filter(|(_, b)| b.content_type == ContentType::SliceHeader).nth(n).unwrap().0
}

#[test]
fn contexts_that_do_not_merge() {
    let ch = Block::encode(ContentType::CompressionHeader, 0, None, &[0u8; 10]).unwrap();
    let slices = vec![slice(ReferenceSequenceContext::some(1, 10, 20), &[3]), slice(ReferenceSequenceContext::Unmapped, &[3])];
    assert_eq!(build_container(ch, slices, 0, &[1, 1], Version::v3_0()).map(|_| ()), Err(Error::InvalidInput));
}
