use vstd::prelude::*;
use vstd::slice::slice_subrange;

use crate::encoding::read::after;
use crate::error::Error;
use crate::num::vlq::{read_uint7_as, uint7_parse};
use crate::encoding::write::cat;
use crate::num::{
    header_int_encoding, long_encoding, signed_int_encoding, u32_bits, unsigned_encoding, write_header_int, write_i32_le, write_int,
    write_long, write_position, write_signed_int, write_u32_le,
};
use crate::num::{
    count_parse, header_int_parse, i32_of_bits, le_bytes, le_value, long_parse, position_parse,
    read_header_int, read_i32_le, read_long_as, read_position, read_u32_le, read_unsigned_int_as,
};
use crate::version::Version;

verus! {

/// The CRC-32 (ISO-HDLC, as zlib computes it) of a byte sequence.
pub uninterp spec fn crc32_of(data: Seq<u8>) -> u32;

/// Relies on flate2::Crc: a fresh checksum updated with `data` sums to the
/// CRC-32 of `data`, a function of the bytes alone.
#[verifier::external_body]
pub(crate) fn crc32(data: &[u8]) -> (r: u32)
    ensures
        r == crc32_of(data@),
{
    let mut crc = flate2::Crc::new();
    crc.update(data);
    crc.sum()
}

/// Where a container's records lie on the reference.
#[derive(Clone, Copy, Debug, PartialEq, Eq, Structural)]
pub enum ReferenceSequenceContext {
    /// On one reference sequence, over `[alignment_start, alignment_end]` (1-based).
    Mapped { reference_sequence_id: usize, alignment_start: i64, alignment_end: i64 },
    /// Unmapped records.
    Unmapped,
    /// Records on several reference sequences.
    Many,
}

/// The context that a header's `(reference sequence id, alignment start,
/// alignment span)` stand for: -1 is unmapped (with no span), -2 is
/// multi-reference (with no position), a non-negative id needs a start of at
/// least 1 and an end (start + span - 1) of at least 1.
pub open spec fn context_of(id: int, start: int, span: int) -> Result<ReferenceSequenceContext, Error> {
    if id == -1 {
        if span != 0 {
            Err(Error::InvalidData)
        } else {
            Ok(ReferenceSequenceContext::Unmapped)
        }
    } else if id == -2 {
        if start != 0 {
            Err(Error::InvalidData)
        } else {
            Ok(ReferenceSequenceContext::Many)
        }
    } else if id < 0 || start < 1 || start + span - 1 < 1 || start + span - 1 > i64::MAX {
        Err(Error::InvalidData)
    } else {
        Ok(ReferenceSequenceContext::Mapped {
            reference_sequence_id: id as usize,
            alignment_start: start as i64,
            alignment_end: (start + span - 1) as i64,
        })
    }
}

impl ReferenceSequenceContext {
    pub fn some(reference_sequence_id: usize, alignment_start: i64, alignment_end: i64) -> (r: ReferenceSequenceContext)
        ensures
            r == (ReferenceSequenceContext::Mapped { reference_sequence_id, alignment_start, alignment_end }),
    {
        ReferenceSequenceContext::Mapped { reference_sequence_id, alignment_start, alignment_end }
    }

    /// Builds a context from a header's id, start and span.
    pub fn try_from(id: i32, start: i64, span: i64) -> (r: Result<ReferenceSequenceContext, Error>)
        ensures
            r == context_of(id as int, start as int, span as int),
    {
        if id == -1 {
            if span != 0 {
                Err(Error::InvalidData)
            } else {
                Ok(ReferenceSequenceContext::Unmapped)
            }
        } else if id == -2 {
            if start != 0 {
                Err(Error::InvalidData)
            } else {
                Ok(ReferenceSequenceContext::Many)
            }
        } else if id < 0 || start < 1 {
            Err(Error::InvalidData)
        } else {
            let end = start as i128 + span as i128 - 1;
            if end < 1 || end > i64::MAX as i128 {
                Err(Error::InvalidData)
            } else {
                Ok(ReferenceSequenceContext::Mapped {
                    reference_sequence_id: id as usize,
                    alignment_start: start,
                    alignment_end: end as i64,
                })
            }
        }
    }
}

/// A container header.
#[derive(Clone, Debug, PartialEq, Eq)]
pub struct Header {
    pub reference_sequence_context: ReferenceSequenceContext,
    pub record_count: usize,
    pub record_counter: i64,
    pub base_count: i64,
    pub block_count: usize,
    /// Offsets of the slices from the start of the container body.
    pub landmarks: Vec<usize>,
}

impl Header {
    pub fn default() -> (r: Header)
        ensures
            r.reference_sequence_context == ReferenceSequenceContext::Unmapped,
            r.record_count == 0 && r.record_counter == 0 && r.base_count == 0 && r.block_count == 0,
            r.landmarks@.len() == 0,
    {
        Header {
            reference_sequence_context: ReferenceSequenceContext::Unmapped,
            record_count: 0,
            record_counter: 0,
            base_count: 0,
            block_count: 0,
            landmarks: Vec::new(),
        }
    }
}

/// The fields of a container header as they stand on the wire.
pub struct HeaderWire {
    pub length: int,
    pub reference_sequence_id: int,
    pub alignment_start: int,
    pub alignment_span: int,
    pub record_count: int,
    pub record_counter: int,
    pub base_count: int,
    pub block_count: int,
    pub landmarks: Seq<usize>,
}

/// The container length: a little-endian `i32` (non-negative) before 4.0, a uint7 from 4.0 on.
pub open spec fn length_parse(s: Seq<u8>, version: Version) -> Result<(int, nat), Error> {
    if version.uses_vlq_spec() {
        match uint7_parse(s) {
            Ok((u, k)) => Ok((u as int, k)),
            Err(e) => Err(e),
        }
    } else if s.len() < 4 {
        Err(Error::UnexpectedEof)
    } else if i32_of_bits(le_value(s.take(4))) < 0 {
        Err(Error::InvalidData)
    } else {
        Ok((i32_of_bits(le_value(s.take(4))), 4))
    }
}

/// `n` counts one after another.
pub open spec fn usizes_parse(s: Seq<u8>, version: Version, n: nat) -> Result<(Seq<usize>, nat), Error>
    decreases n,
{
    if n == 0 {
        Ok((Seq::empty(), 0))
    } else {
        match usizes_parse(s, version, (n - 1) as nat) {
            Ok((xs, k)) => match count_parse(after(s, k), version) {
                Ok((x, k2)) => Ok((xs.push(x as usize), k + k2)),
                Err(e) => Err(e),
            },
            Err(e) => Err(e),
        }
    }
}

/// The first fields: length, reference sequence id, alignment start and span, record count.
pub open spec fn header_front_parse(s: Seq<u8>, version: Version) -> Result<((int, int, int, int, int), nat), Error> {
    match length_parse(s, version) {
        Ok((length, k0)) => match header_int_parse(after(s, k0), version) {
            Ok((id, k1)) => match position_parse(after(s, k0 + k1), version) {
                Ok((start, k2)) => match position_parse(after(s, k0 + k1 + k2), version) {
                    Ok((span, k3)) => match count_parse(after(s, k0 + k1 + k2 + k3), version) {
                        Ok((record_count, k4)) => Ok(((length, id, start, span, record_count), k0 + k1 + k2 + k3 + k4)),
                        Err(e) => Err(e),
                    },
                    Err(e) => Err(e),
                },
                Err(e) => Err(e),
            },
            Err(e) => Err(e),
        },
        Err(e) => Err(e),
    }
}

/// The last fields: record counter, base count, block count, landmarks.
pub open spec fn header_back_parse(s: Seq<u8>, version: Version) -> Result<((int, int, int, Seq<usize>), nat), Error> {
    match long_parse(s, version) {
        Ok((record_counter, k0)) => match long_parse(after(s, k0), version) {
            Ok((base_count, k1)) => match count_parse(after(s, k0 + k1), version) {
                Ok((block_count, k2)) => match count_parse(after(s, k0 + k1 + k2), version) {
                    Ok((n, k3)) => match usizes_parse(after(s, k0 + k1 + k2 + k3), version, n as nat) {
                        Ok((landmarks, k4)) => Ok(((record_counter, base_count, block_count, landmarks), k0 + k1 + k2 + k3 + k4)),
                        Err(e) => Err(e),
                    },
                    Err(e) => Err(e),
                },
                Err(e) => Err(e),
            },
            Err(e) => Err(e),
        },
        Err(e) => Err(e),
    }
}

/// All the fields of a container header, before its checksum.
pub open spec fn header_fields_parse(s: Seq<u8>, version: Version) -> Result<(HeaderWire, nat), Error> {
    match header_front_parse(s, version) {
        Ok(((length, id, start, span, record_count), k1)) => match header_back_parse(after(s, k1), version) {
            Ok(((record_counter, base_count, block_count, landmarks), k2)) => Ok((HeaderWire {
                length,
                reference_sequence_id: id,
                alignment_start: start,
                alignment_span: span,
                record_count,
                record_counter,
                base_count,
                block_count,
                landmarks,
            }, k1 + k2)),
            Err(e) => Err(e),
        },
        Err(e) => Err(e),
    }
}

pub proof fn lemma_after_after(s: Seq<u8>, a: nat, b: nat)
    requires
        a + b <= s.len(),
    ensures
        after(after(s, a), b) == after(s, a + b),
{
    assert(after(after(s, a), b) =~= after(s, a + b));
}

/// The EOF container's header: length 15, reference id -1 (or 1 as 4.0 reads
/// it), alignment start 4542278 ("EOF" little-endian), one block, and the
/// checksum that 3.x or 4.0 give those bytes.
pub open spec fn is_eof_spec(length: int, reference_sequence_id: int, alignment_start: int, block_count: int, crc32: u32) -> bool {
    length == 15 && alignment_start == 4_542_278 && block_count == 1 && ((reference_sequence_id == -1 && crc32 == 0x4fd9_bd05) || (reference_sequence_id == 1 && crc32 == 0xaef7_8f52))
}

/// The 2.x EOF container's header: as in 3.0 but with length 11 and no checksum.
pub open spec fn is_eof_v2_spec(length: int, reference_sequence_id: int, alignment_start: int, block_count: int) -> bool {
    length == 11 && reference_sequence_id == -1 && alignment_start == 4_542_278 && block_count == 1
}

pub fn is_eof(length: usize, reference_sequence_id: i32, alignment_start: i64, block_count: usize, crc32: u32) -> (r: bool)
    ensures
        r == is_eof_spec(length as int, reference_sequence_id as int, alignment_start as int, block_count as int, crc32),
{
    let is_v3_eof = length == 15 && reference_sequence_id == -1 && alignment_start == 4_542_278 && block_count == 1 && crc32 == 0x4fd9_bd05;
    let is_v4_eof = length == 15 && reference_sequence_id == 1 && alignment_start == 4_542_278 && block_count == 1 && crc32 == 0xaef7_8f52;
    is_v3_eof || is_v4_eof
}

pub fn is_eof_v2(length: usize, reference_sequence_id: i32, alignment_start: i64, block_count: usize) -> (r: bool)
    ensures
        r == is_eof_v2_spec(length as int, reference_sequence_id as int, alignment_start as int, block_count as int),
{
    length == 11 && reference_sequence_id == -1 && alignment_start == 4_542_278 && block_count == 1
}

/// A container header read from its wire fields and context.
pub open spec fn header_of(h: Header, w: HeaderWire, ctx: ReferenceSequenceContext) -> bool {
    &&& h.reference_sequence_context == ctx
    &&& h.record_count as int == w.record_count
    &&& h.record_counter as int == w.record_counter
    &&& h.base_count as int == w.base_count
    &&& h.block_count as int == w.block_count
    &&& h.landmarks@ == w.landmarks
}

/// What reading a container header finds in `s`: the EOF container (length
/// 0), or the length and a header; a checksum (from 3.0 on) must match the
/// CRC-32 of the fields.
pub open spec fn header_read(s: Seq<u8>, version: Version) -> Result<(int, HeaderWire, ReferenceSequenceContext), Error> {
    match header_fields_parse(s, version) {
        Ok((w, k)) => header_finish(s, w, k, version),
        Err(e) => Err(e),
    }
}

/// After the fields `w` (the first `k` bytes of `s`): the checksum check (from
/// 3.0 on), the EOF check, and the reference context.
pub open spec fn header_finish(s: Seq<u8>, w: HeaderWire, k: nat, version: Version) -> Result<(int, HeaderWire, ReferenceSequenceContext), Error> {
    if version.has_crc32_spec() {
        if s.len() < k + 4 {
            Err(Error::UnexpectedEof)
        } else if crc32_of(s.take(k as int)) as nat != le_value(s.subrange(k as int, (k + 4) as int)) {
            Err(Error::InvalidData)
        } else if is_eof_spec(w.length, w.reference_sequence_id, w.alignment_start, w.block_count, le_value(s.subrange(k as int, (k + 4) as int)) as u32) {
            Ok((0, w, ReferenceSequenceContext::Unmapped))
        } else {
            match context_of(w.reference_sequence_id, w.alignment_start, w.alignment_span) {
                Ok(ctx) => Ok((w.length, w, ctx)),
                Err(e) => Err(e),
            }
        }
    } else if is_eof_v2_spec(w.length, w.reference_sequence_id, w.alignment_start, w.block_count) {
        Ok((0, w, ReferenceSequenceContext::Unmapped))
    } else {
        match context_of(w.reference_sequence_id, w.alignment_start, w.alignment_span) {
            Ok(ctx) => Ok((w.length, w, ctx)),
            Err(e) => Err(e),
        }
    }
}

fn read_landmarks(src: &mut &[u8], version: Version, n: usize) -> (r: Result<Vec<usize>, Error>)
    ensures
        match usizes_parse(old(src)@, version, n as nat) {
            Ok((xs, k)) => r is Ok && r->Ok_0@ == xs && final(src)@ == after(old(src)@, k) && k
                <= old(src)@.len(),
            Err(e) => r == Err::<Vec<usize>, Error>(e),
        },
{
    let ghost s0 = src@;
    let mut xs: Vec<usize> = Vec::new();
    let mut i: usize = 0;
    while i < n
        invariant
            i <= n,
            s0 == old(src)@,
            usizes_parse(s0, version, i as nat) is Ok,
            xs@ == usizes_parse(s0, version, i as nat)->Ok_0.0,
            src@ == after(s0, usizes_parse(s0, version, i as nat)->Ok_0.1),
            usizes_parse(s0, version, i as nat)->Ok_0.1 <= s0.len(),
        decreases n - i,
    {
        proof {
            crate::num::lemma_parse_ranges(src@, version);
        }
        let x = match read_unsigned_int_as(src, version) {
            Ok(x) => x,
            Err(e) => {
                proof {
                    lemma_usizes_fail_later(s0, version, (i + 1) as nat, n as nat);
                }
                return Err(e);
            },
        };
        let ghost k = usizes_parse(s0, version, i as nat)->Ok_0.1;
        let ghost k2 = count_parse(after(s0, k), version)->Ok_0.1;
        xs.push(x);
        i += 1;
        proof {
            assert(src@ =~= after(s0, k + k2));
        }
    }
    Ok(xs)
}

proof fn lemma_usizes_fail_later(s: Seq<u8>, version: Version, i: nat, n: nat)
    requires
        i <= n,
        usizes_parse(s, version, i) is Err,
    ensures
        usizes_parse(s, version, n) == usizes_parse(s, version, i),
    decreases n - i,
{
    if i < n {
        lemma_usizes_fail_later(s, version, i, (n - 1) as nat);
    }
}

fn read_length(src: &mut &[u8], version: Version) -> (r: Result<usize, Error>)
    ensures
        match length_parse(old(src)@, version) {
            Ok((n, k)) => r == Ok::<usize, Error>(n as usize) && final(src)@ == after(old(src)@, k) && k <= old(src)@.len() && 0 <= n <= u32::MAX,
            Err(e) => r == Err::<usize, Error>(e),
        },
{
    proof {
        crate::num::vlq::lemma_uint7_scan_bound(src@, 0, 0, 5, crate::num::vlq::two_pow_32());
    }
    if version.uses_vlq() {
        read_uint7_as(src)
    } else {
        match read_i32_le(src) {
            Ok(n) => if n < 0 {
                Err(Error::InvalidData)
            } else {
                Ok(n as usize)
            },
            Err(e) => Err(e),
        }
    }
}

fn read_header_front(src: &mut &[u8], version: Version) -> (r: Result<(usize, i32, i64, i64, usize), Error>)
    ensures
        match header_front_parse(old(src)@, version) {
            Ok((f, k)) => r is Ok && r->Ok_0.0 as int == f.0 && r->Ok_0.1 as int == f.1 && r->Ok_0.2 as int == f.2 && r->Ok_0.3 as int == f.3 && r->Ok_0.4 as int == f.4 && final(src)@ == after(old(src)@, k) && k <= old(src)@.len(),
            Err(e) => r == Err::<(usize, i32, i64, i64, usize), Error>(e),
        },
{
    let ghost s0 = src@;
    let length = match read_length(src, version) {
        Ok(x) => x,
        Err(e) => return Err(e),
    };
    let ghost k: nat = length_parse(s0, version)->Ok_0.1;
    proof {
        crate::num::lemma_parse_ranges(src@, version);
    }
    let reference_sequence_id = match read_header_int(src, version) {
        Ok(x) => x,
        Err(e) => return Err(e),
    };
    proof {
        let k2 = header_int_parse(after(s0, k), version)->Ok_0.1;
        lemma_after_after(s0, k, k2);
        k = k + k2;
    }
    proof {
        crate::num::lemma_parse_ranges(src@, version);
    }
    let alignment_start = match read_position(src, version) {
        Ok(x) => x,
        Err(e) => return Err(e),
    };
    proof {
        let k2 = position_parse(after(s0, k), version)->Ok_0.1;
        lemma_after_after(s0, k, k2);
        k = k + k2;
    }
    proof {
        crate::num::lemma_parse_ranges(src@, version);
    }
    let alignment_span = match read_position(src, version) {
        Ok(x) => x,
        Err(e) => return Err(e),
    };
    proof {
        let k2 = position_parse(after(s0, k), version)->Ok_0.1;
        lemma_after_after(s0, k, k2);
        k = k + k2;
    }
    proof {
        crate::num::lemma_parse_ranges(src@, version);
    }
    let record_count = match read_unsigned_int_as(src, version) {
        Ok(x) => x,
        Err(e) => return Err(e),
    };
    proof {
        let k2 = count_parse(after(s0, k), version)->Ok_0.1;
        lemma_after_after(s0, k, k2);
        k = k + k2;
    }
    Ok((length, reference_sequence_id, alignment_start, alignment_span, record_count))
}

fn read_header_back(src: &mut &[u8], version: Version) -> (r: Result<(i64, i64, usize, Vec<usize>), Error>)
    ensures
        match header_back_parse(old(src)@, version) {
            Ok((f, k)) => r is Ok && r->Ok_0.0 as int == f.0 && r->Ok_0.1 as int == f.1 && r->Ok_0.2 as int == f.2 && r->Ok_0.3@ == f.3 && final(src)@ == after(old(src)@, k) && k <= old(src)@.len(),
            Err(e) => r == Err::<(i64, i64, usize, Vec<usize>), Error>(e),
        },
{
    let ghost s0 = src@;
    let ghost k: nat = 0;
    proof {
        crate::num::lemma_parse_ranges(src@, version);
    }
    let record_counter = match read_long_as(src, version) {
        Ok(x) => x,
        Err(e) => return Err(e),
    };
    proof {
        k = long_parse(s0, version)->Ok_0.1;
        assert(after(s0, 0) =~= s0);
    }
    proof {
        crate::num::lemma_parse_ranges(src@, version);
    }
    let base_count = match read_long_as(src, version) {
        Ok(x) => x,
        Err(e) => return Err(e),
    };
    proof {
        let k2 = long_parse(after(s0, k), version)->Ok_0.1;
        lemma_after_after(s0, k, k2);
        k = k + k2;
    }
    proof {
        crate::num::lemma_parse_ranges(src@, version);
    }
    let block_count = match read_unsigned_int_as(src, version) {
        Ok(x) => x,
        Err(e) => return Err(e),
    };
    proof {
        let k2 = count_parse(after(s0, k), version)->Ok_0.1;
        lemma_after_after(s0, k, k2);
        k = k + k2;
    }
    proof {
        crate::num::lemma_parse_ranges(src@, version);
    }
    let landmark_count = match read_unsigned_int_as(src, version) {
        Ok(x) => x,
        Err(e) => return Err(e),
    };
    proof {
        let k2 = count_parse(after(s0, k), version)->Ok_0.1;
        lemma_after_after(s0, k, k2);
        k = k + k2;
    }
    let landmarks = match read_landmarks(src, version, landmark_count) {
        Ok(x) => x,
        Err(e) => return Err(e),
    };
    proof {
        let k2 = usizes_parse(after(s0, k), version, landmark_count as nat)->Ok_0.1;
        lemma_after_after(s0, k, k2);
        k = k + k2;
    }
    Ok((record_counter, base_count, block_count, landmarks))
}

/// Reads the header fields, checksum and context; `None` for the EOF container.
fn read_header_inner(src: &mut &[u8], version: Version) -> (r: Result<(usize, Option<Header>), Error>)
    ensures
        match header_read(old(src)@, version) {
            Ok((n, w, ctx)) => r is Ok && r->Ok_0.0 as int == n && (n == 0 <==> r->Ok_0.1 is None) && (r->Ok_0.1 is Some ==> header_of(r->Ok_0.1->Some_0, w, ctx)),
            Err(e) => r == Err::<(usize, Option<Header>), Error>(e),
        },
{
    let s0: &[u8] = *src;
    let (length, reference_sequence_id, alignment_start, alignment_span, record_count) = match read_header_front(src, version) {
        Ok(x) => x,
        Err(e) => return Err(e),
    };
    let ghost k1 = header_front_parse(s0@, version)->Ok_0.1;
    let (record_counter, base_count, block_count, landmarks) = match read_header_back(src, version) {
        Ok(x) => x,
        Err(e) => return Err(e),
    };
    let ghost k: nat;
    proof {
        let k2 = header_back_parse(after(s0@, k1), version)->Ok_0.1;
        lemma_after_after(s0@, k1, k2);
        k = k1 + k2;
    }
    let ghost w = header_fields_parse(s0@, version)->Ok_0.0;
    assert(k == header_fields_parse(s0@, version)->Ok_0.1);
    finish_header(s0, src, version, length, reference_sequence_id, alignment_start, alignment_span, record_count, record_counter, base_count, block_count, landmarks, Ghost(w), Ghost(k))
}

#[verifier::rlimit(60)]
fn finish_header(
    s0: &[u8],
    src: &mut &[u8],
    version: Version,
    length: usize,
    reference_sequence_id: i32,
    alignment_start: i64,
    alignment_span: i64,
    record_count: usize,
    record_counter: i64,
    base_count: i64,
    block_count: usize,
    landmarks: Vec<usize>,
    w: Ghost<HeaderWire>,
    k: Ghost<nat>,
) -> (r: Result<(usize, Option<Header>), Error>)
    requires
        old(src)@ == after(s0@, k@),
        k@ <= s0@.len(),
        w@.length == length as int,
        w@.reference_sequence_id == reference_sequence_id as int,
        w@.alignment_start == alignment_start as int,
        w@.alignment_span == alignment_span as int,
        w@.record_count == record_count as int,
        w@.record_counter == record_counter as int,
        w@.base_count == base_count as int,
        w@.block_count == block_count as int,
        w@.landmarks == landmarks@,
    ensures
        match header_finish(s0@, w@, k@, version) {
            Ok((n, w2, ctx)) => r is Ok && r->Ok_0.0 as int == n && (n == 0 <==> r->Ok_0.1 is None) && (r->Ok_0.1 is Some ==> header_of(r->Ok_0.1->Some_0, w2, ctx)),
            Err(e) => r == Err::<(usize, Option<Header>), Error>(e),
        },
{
    if version.has_crc32() {
        let consumed = s0.len() - src.len();
        let actual = crc32(slice_subrange(s0, 0, consumed));
        let ghost before = src@;
        let expected = match read_u32_le(src) {
            Ok(x) => x,
            Err(e) => return Err(e),
        };
        assert(s0@.subrange(0, consumed as int) =~= s0@.take(k@ as int));
        assert(before.subrange(0, 4) =~= s0@.subrange(k@ as int, (k@ + 4) as int));
        if actual != expected {
            return Err(Error::InvalidData);
        }
        if is_eof(length, reference_sequence_id, alignment_start, block_count, expected) {
            return Ok((0, None));
        }
    } else {
        if is_eof_v2(length, reference_sequence_id, alignment_start, block_count) {
            return Ok((0, None));
        }
    }
    let ctx = match ReferenceSequenceContext::try_from(reference_sequence_id, alignment_start, alignment_span) {
        Ok(c) => c,
        Err(e) => return Err(e),
    };
    if length == 0 {
        return Ok((0, None));
    }
    Ok((length, Some(Header {
        reference_sequence_context: ctx,
        record_count,
        record_counter,
        base_count,
        block_count,
        landmarks,
    })))
}

/// Reads a container header. The EOF container, or input that ends before
/// the header does, reads as length 0 and leaves `header` as it was.
pub fn read_header(src: &mut &[u8], header: &mut Header, version: Version) -> (r: Result<usize, Error>)
    ensures
        match header_read(old(src)@, version) {
            Ok((n, w, ctx)) => r == Ok::<usize, Error>(n as usize) && (n != 0 ==> header_of(*final(header), w, ctx)) && (n == 0 ==> *final(header) == *old(header)),
            Err(Error::UnexpectedEof) => r == Ok::<usize, Error>(0) && *final(header) == *old(header),
            Err(e) => r == Err::<usize, Error>(e) && *final(header) == *old(header),
        },
{
    match read_header_inner(src, version) {
        Ok((n, Some(h))) => {
            *header = h;
            Ok(n)
        },
        Ok((n, None)) => Ok(n),
        Err(Error::UnexpectedEof) => Ok(0),
        Err(e) => Err(e),
    }
}


/// The `(reference sequence id, alignment start, alignment span)` that a context is written as.
pub open spec fn context_fields(ctx: ReferenceSequenceContext) -> (int, int, int) {
    match ctx {
        ReferenceSequenceContext::Mapped { reference_sequence_id, alignment_start, alignment_end } => (
            reference_sequence_id as int,
            alignment_start as int,
            alignment_end - alignment_start + 1,
        ),
        ReferenceSequenceContext::Unmapped => (-1, 0, 0),
        ReferenceSequenceContext::Many => (-2, 0, 0),
    }
}

/// A non-negative integer field (counts, lengths): from 4.0 on a uint7, before an ITF8.
pub open spec fn int_field(n: int, version: Version) -> Option<Seq<u8>> {
    if n < 0 || n > i32::MAX {
        None
    } else {
        Some(unsigned_encoding(n, version))
    }
}

/// A position field: an `i32` ITF8 before 4.0, a non-negative uint7_64 from 4.0 on.
pub open spec fn position_field(n: int, version: Version) -> Option<Seq<u8>> {
    if (version.uses_vlq_spec() && n < 0) || (!version.uses_vlq_spec() && (n < i32::MIN || n > i32::MAX)) {
        None
    } else {
        Some(unsigned_encoding(n, version))
    }
}

/// A long field: LTF8 before 4.0, a non-negative uint7_64 from 4.0 on.
pub open spec fn long_field(n: int, version: Version) -> Option<Seq<u8>> {
    if version.uses_vlq_spec() && n < 0 {
        None
    } else {
        Some(long_encoding(n, version))
    }
}

pub open spec fn landmark_list(xs: Seq<usize>, version: Version) -> Option<Seq<u8>>
    decreases xs.len(),
{
    if xs.len() == 0 {
        Some(Seq::empty())
    } else {
        cat(landmark_list(xs.drop_last(), version), int_field(xs.last() as int, version))
    }
}

/// Appending `part` (if writable) to `before` gave `after`, or the write failed as invalid input.
pub open spec fn appended(r: Result<(), Error>, part: Option<Seq<u8>>, before: Seq<u8>, after: Seq<u8>) -> bool {
    match part {
        Some(b) => r is Ok && after == before + b,
        None => r == Err::<(), Error>(Error::InvalidInput),
    }
}

pub open spec fn length_field(len: int, version: Version) -> Seq<u8> {
    if version.uses_vlq_spec() {
        unsigned_encoding(len, version)
    } else {
        le_bytes(u32_bits(len), 4)
    }
}

/// The header's fields as written, before the checksum.
pub open spec fn header_body(h: Header, len: int, version: Version) -> Option<Seq<u8>> {
    let (id, start, span) = context_fields(h.reference_sequence_context);
    if len > i32::MAX || id > i32::MAX || span < i64::MIN || span > i64::MAX {
        None
    } else {
        cat(
            cat(
                cat(
                    cat(
                        Some(length_field(len, version) + header_int_encoding(id, version)),
                        cat(position_field(start, version), position_field(span, version)),
                    ),
                    cat(int_field(h.record_count as int, version), long_field(h.record_counter as int, version)),
                ),
                cat(long_field(h.base_count as int, version), int_field(h.block_count as int, version)),
            ),
            cat(int_field(h.landmarks@.len() as int, version), landmark_list(h.landmarks@, version)),
        )
    }
}

/// The header as written: its fields, then (from 3.0 on) their CRC-32.
pub open spec fn header_bytes(h: Header, len: int, version: Version) -> Option<Seq<u8>> {
    match header_body(h, len, version) {
        Some(b) => Some(if version.has_crc32_spec() {
            b + le_bytes(crc32_of(b) as nat, 4)
        } else {
            b
        }),
        None => None,
    }
}

fn write_int_field(dst: &mut Vec<u8>, version: Version, n: usize) -> (r: Result<(), Error>)
    ensures
        match int_field(n as int, version) {
            Some(b) => r is Ok && final(dst)@ == old(dst)@ + b,
            None => r == Err::<(), Error>(Error::InvalidInput),
        },
{
    if n > i32::MAX as usize {
        return Err(Error::InvalidInput);
    }
    write_int(dst, version, n as i32)
}

fn write_positions(buf: &mut Vec<u8>, version: Version, start: i64, span: i64) -> (r: Result<(), Error>)
    ensures
        appended(r, cat(position_field(start as int, version), position_field(span as int, version)), old(buf)@, final(buf)@),
{
    match write_position(buf, version, start) {
        Ok(()) => {},
        Err(e) => return Err(e),
    }
    let r = write_position(buf, version, span);
    assert(r is Ok ==> buf@ =~= old(buf)@ + (position_field(start as int, version)->Some_0 + position_field(span as int, version)->Some_0));
    r
}

fn write_counts(buf: &mut Vec<u8>, version: Version, a: usize, b: i64) -> (r: Result<(), Error>)
    ensures
        appended(r, cat(int_field(a as int, version), long_field(b as int, version)), old(buf)@, final(buf)@),
{
    match write_int_field(buf, version, a) {
        Ok(()) => {},
        Err(e) => return Err(e),
    }
    let r = write_long(buf, version, b);
    assert(r is Ok ==> buf@ =~= old(buf)@ + (int_field(a as int, version)->Some_0 + long_field(b as int, version)->Some_0));
    r
}

fn write_counts_rev(buf: &mut Vec<u8>, version: Version, a: i64, b: usize) -> (r: Result<(), Error>)
    ensures
        appended(r, cat(long_field(a as int, version), int_field(b as int, version)), old(buf)@, final(buf)@),
{
    match write_long(buf, version, a) {
        Ok(()) => {},
        Err(e) => return Err(e),
    }
    let r = write_int_field(buf, version, b);
    assert(r is Ok ==> buf@ =~= old(buf)@ + (long_field(a as int, version)->Some_0 + int_field(b as int, version)->Some_0));
    r
}

fn write_landmarks(buf: &mut Vec<u8>, version: Version, landmarks: &Vec<usize>) -> (r: Result<(), Error>)
    ensures
        appended(r, cat(int_field(landmarks@.len() as int, version), landmark_list(landmarks@, version)), old(buf)@, final(buf)@),
{
    match write_int_field(buf, version, landmarks.len()) {
        Ok(()) => {},
        Err(e) => return Err(e),
    }
    let ghost b4 = buf@;
    let mut i: usize = 0;
    while i < landmarks.len()
        invariant
            i <= landmarks@.len(),
            landmark_list(landmarks@.take(i as int), version) is Some,
            buf@ == b4 + landmark_list(landmarks@.take(i as int), version)->Some_0,
        decreases landmarks@.len() - i,
    {
        assert(landmarks@.take(i + 1).drop_last() =~= landmarks@.take(i as int));
        match write_int_field(buf, version, landmarks[i]) {
            Ok(()) => {},
            Err(e) => {
                proof {
                    lemma_landmarks_none(landmarks@, (i + 1) as nat, version);
                }
                return Err(e);
            },
        }
        i += 1;
        assert(buf@ =~= b4 + landmark_list(landmarks@.take(i as int), version)->Some_0);
    }
    assert(landmarks@.take(landmarks@.len() as int) =~= landmarks@);
    assert(buf@ =~= old(buf)@ + (int_field(landmarks@.len() as int, version)->Some_0 + landmark_list(landmarks@, version)->Some_0));
    Ok(())
}

fn write_header_body(dst: &mut Vec<u8>, header: &Header, len: usize, version: Version) -> (r: Result<(), Error>)
    ensures
        appended(r, header_body(*header, len as int, version), old(dst)@, final(dst)@),
{
    let (id, start, span): (i64, i64, i128) = match header.reference_sequence_context {
        ReferenceSequenceContext::Mapped { reference_sequence_id, alignment_start, alignment_end } => {
            if reference_sequence_id > i32::MAX as usize {
                return Err(Error::InvalidInput);
            }
            (reference_sequence_id as i64, alignment_start, alignment_end as i128 - alignment_start as i128 + 1)
        },
        ReferenceSequenceContext::Unmapped => (-1, 0, 0),
        ReferenceSequenceContext::Many => (-2, 0, 0),
    };
    if len > i32::MAX as usize || span < i64::MIN as i128 || span > i64::MAX as i128 {
        return Err(Error::InvalidInput);
    }
    let mut buf: Vec<u8> = Vec::new();
    if version.uses_vlq() {
        write_int(&mut buf, version, len as i32).unwrap();
    } else {
        write_i32_le(&mut buf, len as i32).unwrap();
    }
    write_header_int(&mut buf, version, id as i32).unwrap();
    let ghost b0 = buf@;
    assert(b0 =~= length_field(len as int, version) + header_int_encoding(id as int, version));
    match write_positions(&mut buf, version, start, span as i64) {
        Ok(()) => {},
        Err(e) => return Err(e),
    }
    let ghost b1 = buf@;
    match write_counts(&mut buf, version, header.record_count, header.record_counter) {
        Ok(()) => {},
        Err(e) => return Err(e),
    }
    let ghost b2 = buf@;
    match write_counts_rev(&mut buf, version, header.base_count, header.block_count) {
        Ok(()) => {},
        Err(e) => return Err(e),
    }
    let ghost b3 = buf@;
    match write_landmarks(&mut buf, version, &header.landmarks) {
        Ok(()) => {},
        Err(e) => return Err(e),
    }
    assert(buf@ =~= header_body(*header, len as int, version)->Some_0);
    append(dst, &buf);
    Ok(())
}

proof fn lemma_landmarks_none(xs: Seq<usize>, j: nat, version: Version)
    requires
        0 < j <= xs.len(),
        int_field(xs[j - 1] as int, version) is None,
    ensures
        landmark_list(xs, version) is None,
    decreases xs.len(),
{
    if j < xs.len() {
        lemma_landmarks_none(xs.drop_last(), j, version);
    }
}

/// Writes a container header for a body of `len` bytes.
pub fn write_header(dst: &mut Vec<u8>, header: &Header, len: usize, version: Version) -> (r: Result<(), Error>)
    ensures
        match header_bytes(*header, len as int, version) {
            Some(b) => r is Ok && final(dst)@ == old(dst)@ + b,
            None => r == Err::<(), Error>(Error::InvalidInput),
        },
{
    let mut body: Vec<u8> = Vec::new();
    match write_header_body(&mut body, header, len, version) {
        Ok(()) => {},
        Err(e) => return Err(e),
    }
    assert(body@ =~= Seq::<u8>::empty() + body@);
    let mut j: usize = 0;
    while j < body.len()
        invariant
            j <= body@.len(),
            dst@ == old(dst)@ + body@.take(j as int),
        decreases body@.len() - j,
    {
        dst.push(body[j]);
        j += 1;
        assert(dst@ =~= old(dst)@ + body@.take(j as int));
    }
    assert(body@.take(body@.len() as int) =~= body@);
    if version.has_crc32() {
        let crc = crc32(body.as_slice());
        write_u32_le(dst, crc).unwrap();
        assert(dst@ =~= old(dst)@ + (body@ + le_bytes(crc32_of(body@) as nat, 4)));
    }
    Ok(())
}


/// The 3.0 and 3.1 EOF container, byte for byte.
pub open spec fn eof_v3_bytes() -> Seq<u8> {
    seq![
        0x0f, 0x00, 0x00, 0x00, 0xff, 0xff, 0xff, 0xff, 0x0f, 0xe0, 0x45, 0x4f, 0x46, 0x00, 0x00,
        0x00, 0x00, 0x01, 0x00, 0x05, 0xbd, 0xd9, 0x4f, 0x00, 0x01, 0x00, 0x06, 0x06, 0x01, 0x00,
        0x01, 0x00, 0x01, 0x00, 0xee, 0x63, 0x01, 0x4b,
    ]
}

/// The empty compression header block of an EOF container, before any checksum:
/// method none, content type compression header, content id 0, sizes 6, and
/// three empty maps.
pub open spec fn eof_block_body(version: Version) -> Seq<u8> {
    seq![0x00u8, 0x01u8] + unsigned_encoding(0, version) + unsigned_encoding(6, version)
        + unsigned_encoding(6, version) + seq![0x01u8, 0x00u8, 0x01u8, 0x00u8, 0x01u8, 0x00u8]
}

/// `b` followed by its CRC-32 from 3.0 on.
pub open spec fn with_crc(b: Seq<u8>, version: Version) -> Seq<u8> {
    if version.has_crc32_spec() {
        b + le_bytes(crc32_of(b) as nat, 4)
    } else {
        b
    }
}

/// The EOF container header's fields, before any checksum: the block's
/// length, reference id -1 (written signed), alignment start 4542278, span 0,
/// no records or bases, one block, no landmarks.
pub open spec fn eof_header_body(block_len: int, version: Version) -> Seq<u8> {
    (if version.uses_vlq_spec() {
        unsigned_encoding(block_len, version)
    } else {
        le_bytes(u32_bits(block_len), 4)
    }) + signed_int_encoding(-1, version) + unsigned_encoding(4_542_278, version)
        + unsigned_encoding(0, version) + unsigned_encoding(0, version) + long_encoding(0, version)
        + long_encoding(0, version) + unsigned_encoding(1, version) + unsigned_encoding(0, version)
}

/// The EOF container of a version: fixed bytes for 3.x, built for 2.x and 4.0.
pub open spec fn eof_container(version: Version) -> Seq<u8> {
    if version == Version::v3_0_spec() || version == Version::v3_1_spec() {
        eof_v3_bytes()
    } else {
        let block = with_crc(eof_block_body(version), version);
        with_crc(eof_header_body(block.len() as int, version), version) + block
    }
}

fn append(dst: &mut Vec<u8>, src: &Vec<u8>)
    ensures
        final(dst)@ == old(dst)@ + src@,
{
    let mut j: usize = 0;
    while j < src.len()
        invariant
            j <= src@.len(),
            dst@ == old(dst)@ + src@.take(j as int),
        decreases src@.len() - j,
    {
        dst.push(src[j]);
        j += 1;
        assert(dst@ =~= old(dst)@ + src@.take(j as int));
    }
    assert(src@.take(src@.len() as int) =~= src@);
}

fn push_crc(dst: &mut Vec<u8>, body: &Vec<u8>, version: Version)
    ensures
        final(dst)@ == old(dst)@ + with_crc(body@, version),
{
    append(dst, body);
    if version.has_crc32() {
        let crc = crc32(body.as_slice());
        write_u32_le(dst, crc).unwrap();
        assert(dst@ =~= old(dst)@ + with_crc(body@, version));
    }
}

/// Builds the EOF container of a version.
pub fn build_eof_container(version: Version) -> (r: Result<Vec<u8>, Error>)
    ensures
        r is Ok,
        r->Ok_0@ == eof_container(version),
{
    if (version.major == 3 && version.minor == 0) || (version.major == 3 && version.minor == 1) {
        let v = vec![
            0x0fu8, 0x00, 0x00, 0x00, 0xff, 0xff, 0xff, 0xff, 0x0f, 0xe0, 0x45, 0x4f, 0x46, 0x00, 0x00,
            0x00, 0x00, 0x01, 0x00, 0x05, 0xbd, 0xd9, 0x4f, 0x00, 0x01, 0x00, 0x06, 0x06, 0x01, 0x00,
            0x01, 0x00, 0x01, 0x00, 0xee, 0x63, 0x01, 0x4b,
        ];
        assert(v@ =~= eof_v3_bytes());
        return Ok(v);
    }
    let mut block_body: Vec<u8> = Vec::new();
    block_body.push(0x00);
    block_body.push(0x01);
    write_int(&mut block_body, version, 0).unwrap();
    write_int(&mut block_body, version, 6).unwrap();
    write_int(&mut block_body, version, 6).unwrap();
    block_body.push(0x01);
    block_body.push(0x00);
    block_body.push(0x01);
    block_body.push(0x00);
    block_body.push(0x01);
    block_body.push(0x00);
    assert(block_body@ =~= eof_block_body(version));
    let mut block: Vec<u8> = Vec::new();
    push_crc(&mut block, &block_body, version);
    assert(block@ =~= with_crc(eof_block_body(version), version));
    proof {
        crate::num::lemma_int_encoding_len_bound(version);
        crate::num::lemma_le_round_trip(crc32_of(eof_block_body(version)) as nat, 4);
        assert(block@.len() <= 40);
    }
    let block_len = block.len() as i32;
    let mut header_body: Vec<u8> = Vec::new();
    if version.uses_vlq() {
        write_int(&mut header_body, version, block_len).unwrap();
    } else {
        write_i32_le(&mut header_body, block_len).unwrap();
    }
    write_signed_int(&mut header_body, version, -1).unwrap();
    write_position(&mut header_body, version, 0x454f46).unwrap();
    write_position(&mut header_body, version, 0).unwrap();
    write_int(&mut header_body, version, 0).unwrap();
    write_long(&mut header_body, version, 0).unwrap();
    write_long(&mut header_body, version, 0).unwrap();
    write_int(&mut header_body, version, 1).unwrap();
    write_int(&mut header_body, version, 0).unwrap();
    assert(header_body@ =~= eof_header_body(block_len as int, version));
    let mut result: Vec<u8> = Vec::new();
    push_crc(&mut result, &header_body, version);
    append(&mut result, &block);
    assert(result@ =~= eof_container(version));
    Ok(result)
}

/// Writes the EOF container of a version.
pub fn write_eof_container(dst: &mut Vec<u8>, version: Version) -> (r: Result<(), Error>)
    ensures
        r is Ok,
        final(dst)@ == old(dst)@ + eof_container(version),
{
    let eof = build_eof_container(version).unwrap();
    append(dst, &eof);
    Ok(())
}

} // verus!

verus! {

#[verifier::rlimit(100)]
proof fn lemma_eof_v2_front(v: Version, rest: Seq<u8>)
    requires
        v.major == 2,
    ensures
        header_front_parse(le_bytes(u32_bits(11), 4) + signed_int_encoding(-1, v) + unsigned_encoding(4_542_278, v)
            + unsigned_encoding(0, v) + unsigned_encoding(0, v) + rest, v) == Ok::<((int, int, int, int, int), nat), Error>((
            (11, -1, 4_542_278, 0, 0),
            (4 + signed_int_encoding(-1, v).len() + unsigned_encoding(4_542_278, v).len() + 2 * unsigned_encoding(0, v).len()) as nat,
        )),
{
    let p0 = le_bytes(u32_bits(11), 4);
    let p1 = signed_int_encoding(-1, v);
    let p2 = unsigned_encoding(4_542_278, v);
    let p3 = unsigned_encoding(0, v);
    crate::num::lemma_le_round_trip(11, 4);
    reveal_with_fuel(crate::num::pow256, 5);
    let r4 = p3 + rest;
    let r3 = p3 + r4;
    let r2 = p2 + r3;
    let r1 = p1 + r2;
    let s = p0 + r1;
    assert(s =~= p0 + p1 + p2 + p3 + p3 + rest);
    assert(s.take(4) =~= p0);
    assert(after(s, 4) =~= r1);
    crate::num::itf8::lemma_itf8_round_trip(-1i32, r2);
    crate::num::itf8::lemma_itf8_round_trip(4_542_278i32, r3);
    crate::num::itf8::lemma_itf8_round_trip(0i32, r4);
    crate::num::itf8::lemma_itf8_round_trip(0i32, rest);
    assert(after(s, 4 + p1.len()) =~= r2);
    assert(after(s, 4 + p1.len() + p2.len()) =~= r3);
    assert(after(s, 4 + p1.len() + p2.len() + p3.len()) =~= r4);
}

#[verifier::rlimit(100)]
proof fn lemma_eof_v2_back(v: Version, rest: Seq<u8>)
    requires
        v.major == 2,
    ensures
        header_back_parse(long_encoding(0, v) + long_encoding(0, v) + unsigned_encoding(1, v) + unsigned_encoding(0, v) + rest, v) is Ok,
        header_back_parse(long_encoding(0, v) + long_encoding(0, v) + unsigned_encoding(1, v) + unsigned_encoding(0, v) + rest, v)->Ok_0.0.2 == 1,
{
    let p5 = long_encoding(0, v);
    let p7 = unsigned_encoding(1, v);
    let p3 = unsigned_encoding(0, v);
    let r8 = p3 + rest;
    let r7 = p7 + r8;
    let r6 = p5 + r7;
    let s = p5 + r6;
    assert(s =~= p5 + p5 + p7 + p3 + rest);
    crate::num::ltf8::lemma_ltf8_round_trip(0i64, r6);
    crate::num::ltf8::lemma_ltf8_round_trip(0i64, r7);
    crate::num::itf8::lemma_itf8_round_trip(1i32, r8);
    crate::num::itf8::lemma_itf8_round_trip(0i32, rest);
    assert(after(s, p5.len()) =~= r6);
    assert(after(s, p5.len() + p5.len()) =~= r7);
    assert(after(s, p5.len() + p5.len() + p7.len()) =~= r8);
}

/// The 2.x EOF container reads back as the end of the stream (length 0).
#[verifier::rlimit(100)]
pub proof fn lemma_eof_round_trip_v2(minor: u8)
    requires
        minor <= 1,
    ensures
        header_read(eof_container(Version { major: 2, minor }), Version { major: 2, minor }) is Ok,
        header_read(eof_container(Version { major: 2, minor }), Version { major: 2, minor })->Ok_0.0 == 0,
{
    let v = Version { major: 2, minor };
    let block = with_crc(eof_block_body(v), v);
    assert(block == eof_block_body(v));
    assert(crate::num::itf8::itf8_bytes(0) == seq![0u8]);
    assert(crate::num::itf8::itf8_bytes(6) == seq![6u8]);
    assert(block.len() == 11);
    let p0 = le_bytes(u32_bits(11), 4);
    let p1 = signed_int_encoding(-1, v);
    let p2 = unsigned_encoding(4_542_278, v);
    let p3 = unsigned_encoding(0, v);
    let p5 = long_encoding(0, v);
    let p7 = unsigned_encoding(1, v);
    let back = p5 + p5 + p7 + p3 + block;
    let s = eof_container(v);
    assert(s =~= p0 + p1 + p2 + p3 + p3 + back);
    lemma_eof_v2_front(v, back);
    lemma_eof_v2_back(v, block);
    crate::num::lemma_le_round_trip(11, 4);
    assert(p0.len() == 4);
    let kf = (4 + p1.len() + p2.len() + 2 * p3.len()) as nat;
    assert(after(s, kf) =~= back);
}

} // verus!
