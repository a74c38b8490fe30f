use vstd::prelude::*;

use crate::container_header::{
    appended, context_fields, int_field, long_field, position_field, ReferenceSequenceContext,
};
use crate::encoding::read::after;
use crate::encoding::write::{cat, unsigned_arg};
use crate::error::Error;
use crate::num::{
    header_int_encoding, read_header_int, read_long_as, read_position, read_signed_int,
    read_unsigned_int, read_unsigned_int_as, signed_int_encoding, unsigned_encoding, write_header_int, write_int,
    write_long, write_position, write_signed_int,
};
use crate::version::Version;

verus! {

/// A slice header.
#[derive(Clone, Debug, PartialEq, Eq)]
pub struct SliceHeader {
    pub reference_sequence_context: ReferenceSequenceContext,
    pub record_count: usize,
    pub record_counter: u64,
    pub block_count: usize,
    /// The content ids of the slice's external blocks.
    pub block_content_ids: Vec<i32>,
    /// The block holding embedded reference bases, if any (-1 on the wire when none).
    pub embedded_reference_bases_block_content_id: Option<i32>,
    /// The MD5 of the reference span (all zero on the wire when none).
    pub reference_md5: Option<Vec<u8>>,
    pub optional_tags: Vec<u8>,
}

pub open spec fn id_list(xs: Seq<i32>, version: Version) -> Option<Seq<u8>>
    decreases xs.len(),
{
    if xs.len() == 0 {
        Some(Seq::empty())
    } else {
        cat(id_list(xs.drop_last(), version), unsigned_arg(xs.last() as int, version))
    }
}

/// The MD5 field: the 16 bytes given, or 16 zero bytes for none.
pub open spec fn md5_field(md5: Option<Vec<u8>>) -> Option<Seq<u8>> {
    match md5 {
        Some(m) => if m@.len() == 16 {
            Some(m@)
        } else {
            None
        },
        None => Some(Seq::new(16, |i: int| 0u8)),
    }
}

/// What `write_header` writes for a slice header: the reference context (its
/// id signed, zigzag from 4.0 on, unlike the container header), counts, the
/// block content ids with their count, the embedded reference block id (-1
/// for none), the reference MD5, and any optional tags with their length.
pub open spec fn slice_header_bytes(h: SliceHeader, version: Version) -> Option<Seq<u8>> {
    let (id, start, span) = context_fields(h.reference_sequence_context);
    if id > i32::MAX || span < i64::MIN || span > i64::MAX || h.record_counter > i64::MAX {
        None
    } else {
        cat(
            cat(
                cat(
                    cat(
                        Some(signed_int_encoding(id, version)),
                        cat(position_field(start, version), position_field(span, version)),
                    ),
                    cat(
                        cat(int_field(h.record_count as int, version), long_field(h.record_counter as int, version)),
                        int_field(h.block_count as int, version),
                    ),
                ),
                cat(int_field(h.block_content_ids@.len() as int, version), id_list(h.block_content_ids@, version)),
            ),
            cat(
                cat(
                    Some(header_int_encoding(
                        match h.embedded_reference_bases_block_content_id {
                            Some(b) => b as int,
                            None => -1,
                        },
                        version,
                    )),
                    md5_field(h.reference_md5),
                ),
                if h.optional_tags@.len() == 0 {
                    Some(Seq::empty())
                } else {
                    cat(int_field(h.optional_tags@.len() as int, version), Some(h.optional_tags@))
                },
            ),
        )
    }
}

fn write_int_field(dst: &mut Vec<u8>, version: Version, n: usize) -> (r: Result<(), Error>)
    ensures
        appended(r, int_field(n as int, version), old(dst)@, final(dst)@),
{
    if n > i32::MAX as usize {
        return Err(Error::InvalidInput);
    }
    write_int(dst, version, n as i32)
}

fn append(dst: &mut Vec<u8>, src: &Vec<u8>)
    ensures
        final(dst)@ == old(dst)@ + src@,
{
    let mut j: usize = 0;
    while j < src.len()
        invariant
            j <= src@.len(),
            dst@ == old(dst)@ + src@.take(j as int),
        decreases src@.len() - j,
    {
        dst.push(src[j]);
        j += 1;
        assert(dst@ =~= old(dst)@ + src@.take(j as int));
    }
    assert(src@.take(src@.len() as int) =~= src@);
}

proof fn lemma_ids_none(xs: Seq<i32>, j: nat, version: Version)
    requires
        0 < j <= xs.len(),
        unsigned_arg(xs[j - 1] as int, version) is None,
    ensures
        id_list(xs, version) is None,
    decreases xs.len(),
{
    if j < xs.len() {
        lemma_ids_none(xs.drop_last(), j, version);
    }
}

fn write_front(buf: &mut Vec<u8>, header: &SliceHeader, version: Version, id: i32, start: i64, span: i64) -> (r: Result<(), Error>)
    requires
        header.record_counter <= i64::MAX,
    ensures
        appended(r, cat(
            cat(Some(signed_int_encoding(id as int, version)), cat(position_field(start as int, version), position_field(span as int, version))),
            cat(cat(int_field(header.record_count as int, version), long_field(header.record_counter as int, version)), int_field(header.block_count as int, version)),
        ), old(buf)@, final(buf)@),
{
    write_signed_int(buf, version, id).unwrap();
    let ghost b0 = buf@;
    match write_position(buf, version, start) {
        Ok(()) => {},
        Err(e) => return Err(e),
    }
    match write_position(buf, version, span) {
        Ok(()) => {},
        Err(e) => return Err(e),
    }
    let ghost b1 = buf@;
    match write_int_field(buf, version, header.record_count) {
        Ok(()) => {},
        Err(e) => return Err(e),
    }
    match write_long(buf, version, header.record_counter as i64) {
        Ok(()) => {},
        Err(e) => return Err(e),
    }
    match write_int_field(buf, version, header.block_count) {
        Ok(()) => {},
        Err(e) => return Err(e),
    }
    assert(buf@ =~= old(buf)@ + (signed_int_encoding(id as int, version) + (position_field(start as int, version)->Some_0 + position_field(span as int, version)->Some_0)
        + (int_field(header.record_count as int, version)->Some_0 + long_field(header.record_counter as int, version)->Some_0 + int_field(header.block_count as int, version)->Some_0)));
    Ok(())
}

fn write_ids(buf: &mut Vec<u8>, ids: &Vec<i32>, version: Version) -> (r: Result<(), Error>)
    ensures
        appended(r, cat(int_field(ids@.len() as int, version), id_list(ids@, version)), old(buf)@, final(buf)@),
{
    match write_int_field(buf, version, ids.len()) {
        Ok(()) => {},
        Err(e) => return Err(e),
    }
    let ghost b4 = buf@;
    let mut i: usize = 0;
    while i < ids.len()
        invariant
            i <= ids@.len(),
            id_list(ids@.take(i as int), version) is Some,
            buf@ == b4 + id_list(ids@.take(i as int), version)->Some_0,
        decreases ids@.len() - i,
    {
        assert(ids@.take(i + 1).drop_last() =~= ids@.take(i as int));
        match write_int(buf, version, ids[i]) {
            Ok(()) => {},
            Err(e) => {
                proof {
                    lemma_ids_none(ids@, (i + 1) as nat, version);
                }
                return Err(e);
            },
        }
        i += 1;
        assert(buf@ =~= b4 + id_list(ids@.take(i as int), version)->Some_0);
    }
    assert(ids@.take(ids@.len() as int) =~= ids@);
    assert(buf@ =~= old(buf)@ + (int_field(ids@.len() as int, version)->Some_0 + id_list(ids@, version)->Some_0));
    Ok(())
}

fn write_back(buf: &mut Vec<u8>, header: &SliceHeader, version: Version) -> (r: Result<(), Error>)
    ensures
        appended(r, cat(
            cat(
                Some(header_int_encoding(
                    match header.embedded_reference_bases_block_content_id {
                        Some(b) => b as int,
                        None => -1,
                    },
                    version,
                )),
                md5_field(header.reference_md5),
            ),
            if header.optional_tags@.len() == 0 {
                Some(Seq::empty())
            } else {
                cat(int_field(header.optional_tags@.len() as int, version), Some(header.optional_tags@))
            },
        ), old(buf)@, final(buf)@),
{
    let id = match header.embedded_reference_bases_block_content_id {
        Some(b) => b,
        None => -1,
    };
    write_header_int(buf, version, id).unwrap();
    let ghost b0 = buf@;
    match &header.reference_md5 {
        Some(m) => {
            if m.len() != 16 {
                return Err(Error::InvalidInput);
            }
            append(buf, m);
        },
        None => {
            let mut k: usize = 0;
            while k < 16
                invariant
                    k <= 16,
                    buf@ == b0 + Seq::new(k as nat, |i: int| 0u8),
                decreases 16 - k,
            {
                buf.push(0);
                k += 1;
                assert(buf@ =~= b0 + Seq::new(k as nat, |i: int| 0u8));
            }
        },
    }
    let ghost b1 = buf@;
    if header.optional_tags.len() > 0 {
        match write_int_field(buf, version, header.optional_tags.len()) {
            Ok(()) => {},
            Err(e) => return Err(e),
        }
        append(buf, &header.optional_tags);
        assert(buf@ =~= b1 + (int_field(header.optional_tags@.len() as int, version)->Some_0 + header.optional_tags@));
    } else {
        assert(buf@ =~= b1 + Seq::<u8>::empty());
    }
    assert(buf@ =~= old(buf)@ + (header_int_encoding(id as int, version) + md5_field(header.reference_md5)->Some_0
        + (if header.optional_tags@.len() == 0 { Seq::<u8>::empty() } else { int_field(header.optional_tags@.len() as int, version)->Some_0 + header.optional_tags@ })));
    Ok(())
}

/// Writes a slice header.
pub fn write_header(dst: &mut Vec<u8>, header: &SliceHeader, version: Version) -> (r: Result<(), Error>)
    ensures
        appended(r, slice_header_bytes(*header, version), old(dst)@, final(dst)@),
{
    let (id, start, span): (i64, i64, i128) = match header.reference_sequence_context {
        ReferenceSequenceContext::Mapped { reference_sequence_id, alignment_start, alignment_end } => {
            if reference_sequence_id > i32::MAX as usize {
                return Err(Error::InvalidInput);
            }
            (reference_sequence_id as i64, alignment_start, alignment_end as i128 - alignment_start as i128 + 1)
        },
        ReferenceSequenceContext::Unmapped => (-1, 0, 0),
        ReferenceSequenceContext::Many => (-2, 0, 0),
    };
    if span < i64::MIN as i128 || span > i64::MAX as i128 || header.record_counter > i64::MAX as u64 {
        return Err(Error::InvalidInput);
    }
    let ghost f = context_fields(header.reference_sequence_context);
    assert(f.0 == id as int && f.1 == start as int && f.2 == span as int);
    let mut buf: Vec<u8> = Vec::new();
    match write_front(&mut buf, header, version, id as i32, start, span as i64) {
        Ok(()) => {},
        Err(e) => return Err(e),
    }
    let ghost b0 = buf@;
    match write_ids(&mut buf, &header.block_content_ids, version) {
        Ok(()) => {},
        Err(e) => return Err(e),
    }
    let ghost b1 = buf@;
    match write_back(&mut buf, header, version) {
        Ok(()) => {},
        Err(e) => return Err(e),
    }
    proof {
        let front = cat(
            cat(Some(signed_int_encoding(id as int, version)), cat(position_field(start as int, version), position_field(span as int, version))),
            cat(cat(int_field(header.record_count as int, version), long_field(header.record_counter as int, version)), int_field(header.block_count as int, version)),
        );
        let ids = cat(int_field(header.block_content_ids@.len() as int, version), id_list(header.block_content_ids@, version));
        assert(front is Some && ids is Some);
        assert(b0 == front->Some_0);
        assert(b1 == b0 + ids->Some_0);
        assert(slice_header_bytes(*header, version) is Some);
    }
    assert(buf@ =~= slice_header_bytes(*header, version)->Some_0);
    append(dst, &buf);
    Ok(())
}

} // verus!

verus! {

/// `n` block content ids one after another.
pub open spec fn ids_parse(s: Seq<u8>, version: Version, n: nat) -> Result<(Seq<i32>, nat), Error>
    decreases n,
{
    if n == 0 {
        Ok((Seq::empty(), 0))
    } else {
        match ids_parse(s, version, (n - 1) as nat) {
            Ok((xs, k)) => match crate::num::unsigned_int_parse(after(s, k), version) {
                Ok((x, k2)) => Ok((xs.push(x as i32), k + k2)),
                Err(e) => Err(e),
            },
            Err(e) => Err(e),
        }
    }
}

/// The record counter: a count before 3.0, a non-negative long from 3.0 on.
pub open spec fn record_counter_parse(s: Seq<u8>, version: Version) -> Result<(int, nat), Error> {
    if version.major >= 3 {
        match crate::num::long_parse(s, version) {
            Ok((v, k)) => if v < 0 {
                Err(Error::InvalidData)
            } else {
                Ok((v, k))
            },
            Err(e) => Err(e),
        }
    } else {
        crate::num::count_parse(s, version)
    }
}

/// The fields up to the record counter: reference context, record count, record counter.
pub open spec fn slice_front_parse(s: Seq<u8>, version: Version) -> Result<((ReferenceSequenceContext, int, int), nat), Error> {
    match signed_int_parse_(s, version) {
        Ok((id, k0)) => match crate::num::position_parse(after(s, k0), version) {
            Ok((start, k1)) => match crate::num::position_parse(after(s, k0 + k1), version) {
                Ok((span, k2)) => match crate::container_header::context_of(id, start, span) {
                    Ok(ctx) => match crate::num::count_parse(after(s, k0 + k1 + k2), version) {
                        Ok((record_count, k3)) => match record_counter_parse(after(s, k0 + k1 + k2 + k3), version) {
                            Ok((counter, k4)) => Ok(((ctx, record_count, counter), k0 + k1 + k2 + k3 + k4)),
                            Err(e) => Err(e),
                        },
                        Err(e) => Err(e),
                    },
                    Err(e) => Err(e),
                },
                Err(e) => Err(e),
            },
            Err(e) => Err(e),
        },
        Err(e) => Err(e),
    }
}

pub open spec fn signed_int_parse_(s: Seq<u8>, version: Version) -> Result<(int, nat), Error> {
    crate::num::signed_int_parse(s, version)
}

/// The remaining fields: block count, block content ids, embedded reference
/// block id (-1 for none), reference MD5 (all zero for none), optional tags.
pub open spec fn slice_back_parse(s: Seq<u8>, version: Version) -> Result<(int, Seq<i32>, Option<i32>, Option<Seq<u8>>, Seq<u8>), Error> {
    match crate::num::count_parse(s, version) {
        Ok((block_count, k0)) => match crate::num::count_parse(after(s, k0), version) {
            Ok((n, k1)) => match ids_parse(after(s, k0 + k1), version, n as nat) {
                Ok((ids, k2)) => match crate::num::header_int_parse(after(s, k0 + k1 + k2), version) {
                    Ok((e, k3)) => {
                        let rest = after(s, k0 + k1 + k2 + k3);
                        if rest.len() < 16 {
                            Err(Error::UnexpectedEof)
                        } else {
                            let md5 = rest.take(16);
                            Ok((
                                block_count,
                                ids,
                                if e == -1 { None } else { Some(e as i32) },
                                if md5 == Seq::new(16, |i: int| 0u8) { None } else { Some(md5) },
                                rest.skip(16),
                            ))
                        }
                    },
                    Err(e) => Err(e),
                },
                Err(e) => Err(e),
            },
            Err(e) => Err(e),
        },
        Err(e) => Err(e),
    }
}

/// `h` holds the fields read from a slice header.
pub open spec fn slice_header_of(
    h: SliceHeader,
    front: (ReferenceSequenceContext, int, int),
    back: (int, Seq<i32>, Option<i32>, Option<Seq<u8>>, Seq<u8>),
) -> bool {
    &&& h.reference_sequence_context == front.0
    &&& h.record_count as int == front.1
    &&& h.record_counter as int == front.2
    &&& h.block_count as int == back.0
    &&& h.block_content_ids@ == back.1
    &&& h.embedded_reference_bases_block_content_id == back.2
    &&& (match back.3 {
        Some(m) => h.reference_md5 is Some && h.reference_md5->Some_0@ == m,
        None => h.reference_md5 is None,
    })
    &&& h.optional_tags@ == back.4
}

fn read_ids(src: &mut &[u8], version: Version, n: usize) -> (r: Result<Vec<i32>, Error>)
    ensures
        match ids_parse(old(src)@, version, n as nat) {
            Ok((xs, k)) => r is Ok && r->Ok_0@ == xs && final(src)@ == after(old(src)@, k) && k <= old(src)@.len(),
            Err(e) => r == Err::<Vec<i32>, Error>(e),
        },
{
    let ghost s0 = src@;
    let mut xs: Vec<i32> = Vec::new();
    let mut i: usize = 0;
    while i < n
        invariant
            i <= n,
            s0 == old(src)@,
            ids_parse(s0, version, i as nat) is Ok,
            xs@ == ids_parse(s0, version, i as nat)->Ok_0.0,
            src@ == after(s0, ids_parse(s0, version, i as nat)->Ok_0.1),
            ids_parse(s0, version, i as nat)->Ok_0.1 <= s0.len(),
        decreases n - i,
    {
        proof {
            crate::num::lemma_parse_ranges(src@, version);
        }
        let x = match read_unsigned_int(src, version) {
            Ok(x) => x,
            Err(e) => {
                proof {
                    lemma_ids_fail_later(s0, version, (i + 1) as nat, n as nat);
                }
                return Err(e);
            },
        };
        let ghost k = ids_parse(s0, version, i as nat)->Ok_0.1;
        let ghost k2 = crate::num::unsigned_int_parse(after(s0, k), version)->Ok_0.1;
        xs.push(x);
        i += 1;
        proof {
            assert(src@ =~= after(s0, k + k2));
        }
    }
    Ok(xs)
}

proof fn lemma_ids_fail_later(s: Seq<u8>, version: Version, i: nat, n: nat)
    requires
        i <= n,
        ids_parse(s, version, i) is Err,
    ensures
        ids_parse(s, version, n) == ids_parse(s, version, i),
    decreases n - i,
{
    if i < n {
        lemma_ids_fail_later(s, version, i, (n - 1) as nat);
    }
}

#[verifier::rlimit(100)]
fn read_slice_front(src: &mut &[u8], version: Version) -> (r: Result<(ReferenceSequenceContext, usize, u64), Error>)
    ensures
        match slice_front_parse(old(src)@, version) {
            Ok((f, k)) => r is Ok && r->Ok_0.0 == f.0 && r->Ok_0.1 as int == f.1 && r->Ok_0.2 as int == f.2
                && final(src)@ == after(old(src)@, k) && k <= old(src)@.len(),
            Err(e) => r == Err::<(ReferenceSequenceContext, usize, u64), Error>(e),
        },
{
    let ghost s0 = src@;
    let ghost k: nat = 0;
    assert(after(s0, 0) =~= s0);
    proof {
        crate::num::lemma_parse_ranges(src@, version);
    }
    let id = match read_signed_int(src, version) {
        Ok(x) => x,
        Err(e) => return Err(e),
    };
    proof {
        let k2 = signed_int_parse_(after(s0, k), version)->Ok_0.1;
        crate::container_header::lemma_after_after(s0, k, k2);
        k = k + k2;
    }
    proof {
        crate::num::lemma_parse_ranges(src@, version);
    }
    let start = match read_position(src, version) {
        Ok(x) => x,
        Err(e) => return Err(e),
    };
    proof {
        let k2 = crate::num::position_parse(after(s0, k), version)->Ok_0.1;
        crate::container_header::lemma_after_after(s0, k, k2);
        k = k + k2;
    }
    proof {
        crate::num::lemma_parse_ranges(src@, version);
    }
    let span = match read_position(src, version) {
        Ok(x) => x,
        Err(e) => return Err(e),
    };
    proof {
        let k2 = crate::num::position_parse(after(s0, k), version)->Ok_0.1;
        crate::container_header::lemma_after_after(s0, k, k2);
        k = k + k2;
    }
    let ctx = match ReferenceSequenceContext::try_from(id, start, span) {
        Ok(c) => c,
        Err(e) => return Err(e),
    };
    proof {
        crate::num::lemma_parse_ranges(src@, version);
    }
    let record_count = match read_unsigned_int_as(src, version) {
        Ok(x) => x,
        Err(e) => return Err(e),
    };
    proof {
        let k2 = crate::num::count_parse(after(s0, k), version)->Ok_0.1;
        crate::container_header::lemma_after_after(s0, k, k2);
        k = k + k2;
    }
    proof {
        crate::num::lemma_parse_ranges(src@, version);
    }
    let record_counter: u64 = if version.major >= 3 {
        match read_long_as(src, version) {
            Ok(x) => {
                if x < 0 {
                    return Err(Error::InvalidData);
                }
                x as u64
            },
            Err(e) => return Err(e),
        }
    } else {
        match read_unsigned_int_as(src, version) {
            Ok(x) => x as u64,
            Err(e) => return Err(e),
        }
    };
    proof {
        let k2 = record_counter_parse(after(s0, k), version)->Ok_0.1;
        crate::container_header::lemma_after_after(s0, k, k2);
        k = k + k2;
    }
    Ok((ctx, record_count, record_counter))
}

#[verifier::rlimit(100)]
fn read_slice_back(src: &mut &[u8], version: Version) -> (r: Result<(usize, Vec<i32>, Option<i32>, Option<Vec<u8>>, Vec<u8>), Error>)
    ensures
        match slice_back_parse(old(src)@, version) {
            Ok(b) => r is Ok && r->Ok_0.0 as int == b.0 && r->Ok_0.1@ == b.1 && r->Ok_0.2 == b.2
                && (match b.3 {
                    Some(m) => r->Ok_0.3 is Some && r->Ok_0.3->Some_0@ == m,
                    None => r->Ok_0.3 is None,
                }) && r->Ok_0.4@ == b.4,
            Err(e) => r is Err && r->Err_0 == e,
        },
{
    let ghost s0 = src@;
    let ghost k: nat = 0;
    assert(after(s0, 0) =~= s0);
    proof {
        crate::num::lemma_parse_ranges(src@, version);
    }
    let block_count = match read_unsigned_int_as(src, version) {
        Ok(x) => x,
        Err(e) => return Err(e),
    };
    proof {
        let k2 = crate::num::count_parse(after(s0, k), version)->Ok_0.1;
        crate::container_header::lemma_after_after(s0, k, k2);
        k = k + k2;
    }
    proof {
        crate::num::lemma_parse_ranges(src@, version);
    }
    let n = match read_unsigned_int_as(src, version) {
        Ok(x) => x,
        Err(e) => return Err(e),
    };
    proof {
        let k2 = crate::num::count_parse(after(s0, k), version)->Ok_0.1;
        crate::container_header::lemma_after_after(s0, k, k2);
        k = k + k2;
    }
    let ids = match read_ids(src, version, n) {
        Ok(x) => x,
        Err(e) => return Err(e),
    };
    proof {
        let k2 = ids_parse(after(s0, k), version, n as nat)->Ok_0.1;
        crate::container_header::lemma_after_after(s0, k, k2);
        k = k + k2;
    }
    proof {
        crate::num::lemma_parse_ranges(src@, version);
    }
    let e = match read_header_int(src, version) {
        Ok(x) => x,
        Err(e) => return Err(e),
    };
    proof {
        let k2 = crate::num::header_int_parse(after(s0, k), version)->Ok_0.1;
        crate::container_header::lemma_after_after(s0, k, k2);
        k = k + k2;
    }
    if src.len() < 16 {
        return Err(Error::UnexpectedEof);
    }
    let md5 = vstd::slice::slice_to_vec(vstd::slice::slice_subrange(*src, 0, 16));
    let tags = vstd::slice::slice_to_vec(vstd::slice::slice_subrange(*src, 16, src.len()));
    let mut zero = true;
    let mut i: usize = 0;
    while i < 16
        invariant
            i <= 16,
            md5@.len() == 16,
            zero == (forall|j: int| 0 <= j < i ==> md5@[j] == 0),
        decreases 16 - i,
    {
        if md5[i] != 0 {
            zero = false;
        }
        i += 1;
    }
    proof {
        assert(md5@ =~= src@.take(16));
        assert(tags@ =~= src@.skip(16));
        if zero {
            assert(md5@ =~= Seq::new(16, |j: int| 0u8));
        } else {
            assert(md5@ != Seq::new(16, |j: int| 0u8)) by {
                let j = choose|j: int| 0 <= j < 16 && md5@[j] != 0;
                assert(Seq::new(16, |j: int| 0u8)[j] == 0);
            }
        }
    }
    Ok((block_count, ids, if e == -1 { None } else { Some(e) }, if zero { None } else { Some(md5) }, tags))
}

/// Reads a slice header from the (decoded) bytes of its block.
pub fn read_header_inner(src: &mut &[u8], version: Version) -> (r: Result<SliceHeader, Error>)
    ensures
        match slice_front_parse(old(src)@, version) {
            Ok((f, k)) => match slice_back_parse(after(old(src)@, k), version) {
                Ok(b) => r is Ok && slice_header_of(r->Ok_0, f, b),
                Err(e) => r == Err::<SliceHeader, Error>(e),
            },
            Err(e) => r == Err::<SliceHeader, Error>(e),
        },
{
    let (reference_sequence_context, record_count, record_counter) = match read_slice_front(src, version) {
        Ok(x) => x,
        Err(e) => return Err(e),
    };
    let (block_count, block_content_ids, embedded, reference_md5, optional_tags) = match read_slice_back(src, version) {
        Ok(x) => x,
        Err(e) => return Err(e),
    };
    Ok(SliceHeader {
        reference_sequence_context,
        record_count,
        record_counter,
        block_count,
        block_content_ids,
        embedded_reference_bases_block_content_id: embedded,
        reference_md5,
        optional_tags,
    })
}

} // verus!
