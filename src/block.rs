use vstd::prelude::*;

use crate::container_header::{crc32, crc32_of, with_crc};
use crate::error::Error;
use crate::num::{header_int_encoding, int_size_of, le_bytes, unsigned_encoding, write_int, write_u32_le};
use crate::version::Version;

verus! {

/// How a block's payload is compressed.
#[derive(Clone, Copy, Debug, PartialEq, Eq, Structural)]
pub enum CompressionMethod {
    Raw,
    Gzip,
    Bzip2,
    Lzma,
    Rans4x8,
    RansNx16,
    AdaptiveArithmeticCoding,
    Fqzcomp,
    NameTokenizer,
}

/// What a block holds.
#[derive(Clone, Copy, Debug, PartialEq, Eq, Structural)]
pub enum ContentType {
    FileHeader,
    CompressionHeader,
    SliceHeader,
    Reserved,
    ExternalData,
    CoreData,
}

/// A compressor for block payloads.
#[derive(Clone, Copy, Debug, PartialEq, Eq, Structural)]
pub enum Encoder {
    /// gzip at a compression level (0 to 10).
    Gzip(u32),
    /// fqzcomp, which needs the record lengths and so works at the slice level only.
    Fqzcomp,
}

pub open spec fn method_code(m: CompressionMethod) -> u8 {
    match m {
        CompressionMethod::Raw => 0,
        CompressionMethod::Gzip => 1,
        CompressionMethod::Bzip2 => 2,
        CompressionMethod::Lzma => 3,
        CompressionMethod::Rans4x8 => 4,
        CompressionMethod::RansNx16 => 5,
        CompressionMethod::AdaptiveArithmeticCoding => 6,
        CompressionMethod::Fqzcomp => 7,
        CompressionMethod::NameTokenizer => 8,
    }
}

pub open spec fn content_type_code(t: ContentType) -> u8 {
    match t {
        ContentType::FileHeader => 0,
        ContentType::CompressionHeader => 1,
        ContentType::SliceHeader => 2,
        ContentType::Reserved => 3,
        ContentType::ExternalData => 4,
        ContentType::CoreData => 5,
    }
}

/// The gzip stream (as flate2's `GzEncoder` writes it) of `data` at a level.
pub uninterp spec fn gzip_of(level: u32, data: Seq<u8>) -> Seq<u8>;

/// Relies on flate2::write::GzEncoder with flate2::Compression::new(level):
/// writing `src` into a `Vec` and finishing cannot fail and yields the gzip
/// stream of `src`, a function of the level and the bytes alone (the header's
/// time stamp is zero). Levels above 10 trip an assertion in the backend.
#[verifier::external_body]
fn gzip_encode(level: u32, src: &[u8]) -> (r: Result<Vec<u8>, Error>)
    requires
        level <= 10,
    ensures
        r is Ok,
        r->Ok_0@ == gzip_of(level, src@),
{
    let mut encoder = flate2::write::GzEncoder::new(Vec::new(), flate2::Compression::new(level));
    match std::io::Write::write_all(&mut encoder, src) {
        Ok(()) => {},
        Err(_) => return Err(Error::InvalidData),
    }
    encoder.finish().map_err(|_| Error::InvalidData)
}

/// A block ready to be written.
#[derive(Clone, Debug, PartialEq, Eq)]
pub struct Block {
    pub compression_method: CompressionMethod,
    pub content_type: ContentType,
    pub content_id: i32,
    pub uncompressed_size: usize,
    /// The (compressed) payload.
    pub src: Vec<u8>,
}

/// A block's fields before any checksum: method, content type, content id,
/// compressed and uncompressed sizes, payload.
pub open spec fn block_body(b: Block, version: Version) -> Seq<u8> {
    seq![method_code(b.compression_method), content_type_code(b.content_type)]
        + unsigned_encoding(b.content_id as int, version) + unsigned_encoding(b.src@.len() as int, version)
        + unsigned_encoding(b.uncompressed_size as int, version) + b.src@
}

/// A block can be written: sizes fit an `i32`, and from 4.0 on the content id is not negative.
pub open spec fn block_writable(b: Block, version: Version) -> bool {
    b.src@.len() <= i32::MAX && b.uncompressed_size <= i32::MAX && !(version.uses_vlq_spec() && b.content_id < 0)
}

/// What `write_block` writes: the fields, then (from 3.0 on) their CRC-32.
pub open spec fn block_bytes(b: Block, version: Version) -> Seq<u8> {
    with_crc(block_body(b, version), version)
}

/// `b` is the block that `encode` gives for these arguments.
pub open spec fn encoded_block(b: Block, content_type: ContentType, content_id: i32, encoder: Option<Encoder>, src: Seq<u8>) -> bool {
    &&& b.content_type == content_type
    &&& b.content_id == content_id
    &&& b.uncompressed_size == src.len()
    &&& match encoder {
        None => b.compression_method == CompressionMethod::Raw && b.src@ == src,
        Some(Encoder::Gzip(level)) => b.compression_method == CompressionMethod::Gzip && b.src@ == gzip_of(level, src),
        Some(Encoder::Fqzcomp) => false,
    }
}

/// The encoders that `encode` accepts: none, or gzip at level 0 to 10.
pub open spec fn encoder_ok(encoder: Option<Encoder>) -> bool {
    match encoder {
        None => true,
        Some(Encoder::Gzip(level)) => level <= 10,
        Some(Encoder::Fqzcomp) => false,
    }
}

impl Block {
    /// Compresses `src` with `encoder` (none: stored as is) into a block.
    pub fn encode(content_type: ContentType, content_id: i32, encoder: Option<Encoder>, src: &[u8]) -> (r: Result<Block, Error>)
        ensures
            match encoder {
                None => r is Ok && r->Ok_0.compression_method == CompressionMethod::Raw && r->Ok_0.src@ == src@,
                Some(Encoder::Gzip(level)) => if level <= 10 {
                    r is Ok && r->Ok_0.compression_method == CompressionMethod::Gzip && r->Ok_0.src@ == gzip_of(
                        level,
                        src@,
                    )
                } else {
                    r == Err::<Block, Error>(Error::InvalidInput)
                },
                Some(Encoder::Fqzcomp) => r == Err::<Block, Error>(Error::Unsupported),
            },
            r is Ok ==> r->Ok_0.content_type == content_type && r->Ok_0.content_id == content_id
                && r->Ok_0.uncompressed_size == src@.len(),
            encoder_ok(encoder) ==> r is Ok && encoded_block(r->Ok_0, content_type, content_id, encoder, src@),
            !encoder_ok(encoder) ==> r is Err,
    {
        let (compression_method, buf) = match encoder {
            None => (CompressionMethod::Raw, vstd::slice::slice_to_vec(src)),
            Some(Encoder::Gzip(level)) => {
                if level > 10 {
                    return Err(Error::InvalidInput);
                }
                match gzip_encode(level, src) {
                    Ok(b) => (CompressionMethod::Gzip, b),
                    Err(e) => return Err(e),
                }
            },
            Some(Encoder::Fqzcomp) => return Err(Error::Unsupported),
        };
        Ok(Block { compression_method, content_type, content_id, uncompressed_size: src.len(), src: buf })
    }

    /// The number of bytes `write_block` writes for this block.
    pub fn size(&self, version: Version) -> (r: Result<usize, Error>)
        ensures
            self.src@.len() > i32::MAX || self.uncompressed_size > i32::MAX ==> r == Err::<usize, Error>(Error::InvalidInput),
            self.src@.len() <= i32::MAX && self.uncompressed_size <= i32::MAX ==> r is Ok,
            r is Ok && block_writable(*self, version) ==> r->Ok_0 == block_bytes(*self, version).len(),
    {
        if self.src.len() > i32::MAX as usize || self.uncompressed_size > i32::MAX as usize {
            return Err(Error::InvalidInput);
        }
        let a = int_size_of(version, self.content_id);
        let b = int_size_of(version, self.src.len() as i32);
        let c = int_size_of(version, self.uncompressed_size as i32);
        proof {
            crate::num::lemma_int_size_small(version, self.content_id);
            crate::num::lemma_int_size_small(version, self.src.len() as i32);
            crate::num::lemma_int_size_small(version, self.uncompressed_size as i32);
            crate::num::lemma_le_round_trip(crc32_of(block_body(*self, version)) as nat, 4);
        }
        let mut size = 2 + a + b + c + self.src.len();
        if version.has_crc32() {
            size = size + 4;
        }
        Ok(size)
    }
}

/// Writes a block: its fields, then (from 3.0 on) their CRC-32.
pub fn write_block(dst: &mut Vec<u8>, block: &Block, version: Version) -> (r: Result<(), Error>)
    ensures
        block_writable(*block, version) ==> r is Ok && final(dst)@ == old(dst)@ + block_bytes(*block, version),
        !block_writable(*block, version) ==> r == Err::<(), Error>(Error::InvalidInput),
{
    if block.src.len() > i32::MAX as usize || block.uncompressed_size > i32::MAX as usize || (version.uses_vlq() && block.content_id < 0) {
        return Err(Error::InvalidInput);
    }
    let mut body: Vec<u8> = Vec::new();
    body.push(match block.compression_method {
        CompressionMethod::Raw => 0,
        CompressionMethod::Gzip => 1,
        CompressionMethod::Bzip2 => 2,
        CompressionMethod::Lzma => 3,
        CompressionMethod::Rans4x8 => 4,
        CompressionMethod::RansNx16 => 5,
        CompressionMethod::AdaptiveArithmeticCoding => 6,
        CompressionMethod::Fqzcomp => 7,
        CompressionMethod::NameTokenizer => 8,
    });
    body.push(match block.content_type {
        ContentType::FileHeader => 0,
        ContentType::CompressionHeader => 1,
        ContentType::SliceHeader => 2,
        ContentType::Reserved => 3,
        ContentType::ExternalData => 4,
        ContentType::CoreData => 5,
    });
    write_int(&mut body, version, block.content_id).unwrap();
    write_int(&mut body, version, block.src.len() as i32).unwrap();
    write_int(&mut body, version, block.uncompressed_size as i32).unwrap();
    let ghost mid = body@;
    let mut i: usize = 0;
    while i < block.src.len()
        invariant
            i <= block.src@.len(),
            body@ == mid + block.src@.take(i as int),
        decreases block.src@.len() - i,
    {
        body.push(block.src[i]);
        i += 1;
        assert(body@ =~= mid + block.src@.take(i as int));
    }
    assert(block.src@.take(block.src@.len() as int) =~= block.src@);
    assert(body@ =~= block_body(*block, version));
    let ghost d0 = dst@;
    let mut j: usize = 0;
    while j < body.len()
        invariant
            j <= body@.len(),
            dst@ == d0 + body@.take(j as int),
        decreases body@.len() - j,
    {
        dst.push(body[j]);
        j += 1;
        assert(dst@ =~= d0 + body@.take(j as int));
    }
    assert(body@.take(body@.len() as int) =~= body@);
    if version.has_crc32() {
        let crc = crc32(body.as_slice());
        write_u32_le(dst, crc).unwrap();
        assert(dst@ =~= old(dst)@ + block_bytes(*block, version));
    }
    Ok(())
}

/// The encoder given for `id` in an encoder map: the first entry for it, if any.
pub open spec fn map_encoder(map: Seq<(i32, Option<Encoder>)>, id: i32) -> Option<Option<Encoder>>
    decreases map.len(),
{
    if map.len() == 0 {
        None
    } else if map[0].0 == id {
        Some(map[0].1)
    } else {
        map_encoder(map.drop_first(), id)
    }
}

/// The encoder used for the external block `id`: the map's, gzip at level 6
/// where the map has none; fqzcomp falls back to gzip 6 unless every record
/// stores its quality scores as an array.
pub open spec fn chosen_encoder(map: Seq<(i32, Option<Encoder>)>, id: i32, all_as_arrays: bool) -> Option<Encoder> {
    match map_encoder(map, id) {
        Some(Some(Encoder::Fqzcomp)) => if all_as_arrays {
            Some(Encoder::Fqzcomp)
        } else {
            Some(Encoder::Gzip(6))
        },
        Some(e) => e,
        None => Some(Encoder::Gzip(6)),
    }
}

/// The external buffers that hold data, in order.
pub open spec fn kept(xs: Seq<(i32, Seq<u8>)>) -> Seq<(i32, Seq<u8>)>
    decreases xs.len(),
{
    if xs.len() == 0 {
        Seq::empty()
    } else if xs.last().1.len() == 0 {
        kept(xs.drop_last())
    } else {
        kept(xs.drop_last()).push(xs.last())
    }
}

pub open spec fn buffers_view(xs: Seq<(i32, Vec<u8>)>) -> Seq<(i32, Seq<u8>)> {
    Seq::new(xs.len(), |i: int| (xs[i].0, xs[i].1@))
}

/// Every kept buffer's encoder is one that `encode` accepts.
pub open spec fn all_encoders_ok(map: Seq<(i32, Option<Encoder>)>, ks: Seq<(i32, Seq<u8>)>, all_as_arrays: bool) -> bool {
    forall|i: int| 0 <= i < ks.len() ==> encoder_ok(#[trigger] chosen_encoder(map, ks[i].0, all_as_arrays))
}

fn lookup_encoder(map: &Vec<(i32, Option<Encoder>)>, id: i32) -> (r: Option<Option<Encoder>>)
    ensures
        r == map_encoder(map@, id),
{
    let mut i: usize = 0;
    assert(map@.skip(0) =~= map@);
    while i < map.len()
        invariant
            i <= map@.len(),
            map_encoder(map@, id) == map_encoder(map@.skip(i as int), id),
        decreases map@.len() - i,
    {
        assert(map@.skip(i as int).drop_first() =~= map@.skip(i + 1));
        if map[i].0 == id {
            return Some(map[i].1);
        }
        i += 1;
    }
    assert(map@.skip(i as int).len() == 0);
    None
}

fn choose_encoder(map: &Vec<(i32, Option<Encoder>)>, id: i32, all_as_arrays: bool) -> (r: Option<Encoder>)
    ensures
        r == chosen_encoder(map@, id, all_as_arrays),
{
    match lookup_encoder(map, id) {
        Some(Some(Encoder::Fqzcomp)) => if all_as_arrays {
            Some(Encoder::Fqzcomp)
        } else {
            Some(Encoder::Gzip(6))
        },
        Some(e) => e,
        None => Some(Encoder::Gzip(6)),
    }
}

proof fn lemma_kept_step(xs: Seq<(i32, Seq<u8>)>, i: int)
    requires
        0 <= i < xs.len(),
    ensures
        kept(xs.take(i + 1)) == if xs[i].1.len() == 0 {
            kept(xs.take(i))
        } else {
            kept(xs.take(i)).push(xs[i])
        },
{
    assert(xs.take(i + 1).drop_last() =~= xs.take(i));
}

/// Builds a slice's blocks: the core data block (content id 0, with the core
/// encoder), then a block for each external buffer that holds data, with its
/// chosen encoder. A fqzcomp stream needs the quality coder, which this
/// library lacks: it is unsupported.
pub fn build_blocks(
    core_encoder: Option<Encoder>,
    encoders: &Vec<(i32, Option<Encoder>)>,
    all_quality_scores_stored_as_arrays: bool,
    core_data: &[u8],
    externals: &Vec<(i32, Vec<u8>)>,
) -> (r: Result<(Block, Vec<Block>), Error>)
    ensures
        ({
            let ks = kept(buffers_view(externals@));
            &&& (encoder_ok(core_encoder) && all_encoders_ok(encoders@, ks, all_quality_scores_stored_as_arrays)) ==> r is Ok
                && encoded_block(r->Ok_0.0, ContentType::CoreData, 0, core_encoder, core_data@)
                && r->Ok_0.1@.len() == ks.len()
                && forall|i: int| 0 <= i < ks.len() ==> encoded_block(
                    r->Ok_0.1@[i],
                    ContentType::ExternalData,
                    ks[i].0,
                    chosen_encoder(encoders@, ks[i].0, all_quality_scores_stored_as_arrays),
                    ks[i].1,
                )
            &&& !(encoder_ok(core_encoder) && all_encoders_ok(encoders@, ks, all_quality_scores_stored_as_arrays)) ==> r is Err
        }),
{
    let ghost xs = buffers_view(externals@);
    let core = match Block::encode(ContentType::CoreData, 0, core_encoder, core_data) {
        Ok(b) => b,
        Err(e) => return Err(e),
    };
    let mut blocks: Vec<Block> = Vec::new();
    let mut i: usize = 0;
    assert(xs.take(0) =~= Seq::<(i32, Seq<u8>)>::empty());
    while i < externals.len()
        invariant
            i <= externals@.len(),
            xs == buffers_view(externals@),
            encoder_ok(core_encoder),
            encoded_block(core, ContentType::CoreData, 0, core_encoder, core_data@),
            blocks@.len() == kept(xs.take(i as int)).len(),
            forall|k: int| 0 <= k < blocks@.len() ==> encoded_block(
                blocks@[k],
                ContentType::ExternalData,
                kept(xs.take(i as int))[k].0,
                chosen_encoder(encoders@, kept(xs.take(i as int))[k].0, all_quality_scores_stored_as_arrays),
                kept(xs.take(i as int))[k].1,
            ) && encoder_ok(chosen_encoder(encoders@, kept(xs.take(i as int))[k].0, all_quality_scores_stored_as_arrays)),
        decreases externals@.len() - i,
    {
        proof {
            lemma_kept_step(xs, i as int);
            lemma_kept_prefix(xs, (i + 1) as int);
        }
        let (id, data) = &externals[i];
        if data.len() > 0 {
            let enc = choose_encoder(encoders, *id, all_quality_scores_stored_as_arrays);
            let b = match Block::encode(ContentType::ExternalData, *id, enc, data.as_slice()) {
                Ok(b) => b,
                Err(e) => {
                    proof {
                        let ks = kept(xs);
                        let j = kept(xs.take(i as int)).len() as int;
                        assert(kept(xs.take(i + 1))[j] == (*id, data@));
                        assert(ks[j] == (*id, data@));
                        assert(!encoder_ok(chosen_encoder(encoders@, ks[j].0, all_quality_scores_stored_as_arrays)));
                    }
                    return Err(e);
                },
            };
            blocks.push(b);
        }
        i += 1;
    }
    assert(xs.take(xs.len() as int) =~= xs);
    proof {
        let ks = kept(xs);
        assert(xs.take(i as int) == xs);
        assert(kept(xs.take(i as int)) == ks);
        assert forall|j: int| 0 <= j < ks.len() implies encoder_ok(#[trigger] chosen_encoder(encoders@, ks[j].0, all_quality_scores_stored_as_arrays)) by {
            assert(ks[j] == kept(xs.take(i as int))[j]);
            let b = blocks@[j];
            assert(encoded_block(b, ContentType::ExternalData, ks[j].0, chosen_encoder(encoders@, ks[j].0, all_quality_scores_stored_as_arrays), ks[j].1));
        }
    }
    Ok((core, blocks))
}

/// The kept buffers of a prefix lead those of the whole.
proof fn lemma_kept_prefix(xs: Seq<(i32, Seq<u8>)>, n: int)
    requires
        0 <= n <= xs.len(),
    ensures
        kept(xs.take(n)).len() <= kept(xs).len(),
        forall|j: int| 0 <= j < kept(xs.take(n)).len() ==> kept(xs)[j] == kept(xs.take(n))[j],
    decreases xs.len() - n,
{
    if n < xs.len() {
        lemma_kept_prefix(xs, n + 1);
        lemma_kept_step(xs, n);
    } else {
        assert(xs.take(n) =~= xs);
    }
}

} // verus!
