use vstd::prelude::*;

use crate::encoding::read::{after, array_parse, byte_array_encoding_parse, read_array, read_byte_array_encoding};
use crate::encoding::write::{byte_array_encoding_bytes, cat, unsigned_arg, write_byte_array_encoding};
use crate::encoding::{Byte, ByteArray, ByteArrayModel, ByteModel, Encoding, Integer, IntegerModel};
use crate::error::Error;
use crate::num::{count_parse, read_unsigned_int, read_unsigned_int_as, unsigned_encoding, unsigned_int_parse, write_int};
use crate::version::Version;

verus! {

/// `n` tag encodings one after another: a block content id, then a byte-array encoding.
pub open spec fn tag_entries_parse(s: Seq<u8>, version: Version, n: nat) -> Result<(Seq<(int, ByteArrayModel)>, nat), Error>
    decreases n,
{
    if n == 0 {
        Ok((Seq::empty(), 0))
    } else {
        match tag_entries_parse(s, version, (n - 1) as nat) {
            Ok((xs, k)) => match tag_entry_parse(after(s, k), version) {
                Ok((x, k2)) => Ok((xs.push(x), k + k2)),
                Err(e) => Err(e),
            },
            Err(e) => Err(e),
        }
    }
}

/// One tag encoding: a block content id, then a byte-array encoding.
#[verifier::opaque]
pub open spec fn tag_entry_parse(s: Seq<u8>, version: Version) -> Result<((int, ByteArrayModel), nat), Error> {
    match unsigned_int_parse(s, version) {
        Ok((id, k)) => match byte_array_encoding_parse(after(s, k), version) {
            Ok((e, k2)) => Ok(((id, e), k + k2)),
            Err(e) => Err(e),
        },
        Err(e) => Err(e),
    }
}

fn read_entry(src: &mut &[u8], version: Version) -> (r: Result<(i32, Encoding<ByteArray>), Error>)
    ensures
        match tag_entry_parse(old(src)@, version) {
            Ok((x, k)) => r is Ok && r->Ok_0.0 as int == x.0 && r->Ok_0.1.codec@ == x.1
                && final(src)@ == after(old(src)@, k) && k <= old(src)@.len(),
            Err(e) => r is Err && r->Err_0 == e,
        },
{
    proof {
        reveal(tag_entry_parse);
        crate::num::lemma_parse_ranges(src@, version);
    }
    let ghost s0 = src@;
    let id = match read_unsigned_int(src, version) {
        Ok(x) => x,
        Err(e) => return Err(e),
    };
    let ghost k = unsigned_int_parse(s0, version)->Ok_0.1;
    let e = match read_byte_array_encoding(src, version) {
        Ok(x) => x,
        Err(err) => return Err(err),
    };
    proof {
        let k2 = byte_array_encoding_parse(after(s0, k), version)->Ok_0.1;
        lemma_byte_array_consumed(after(s0, k), version);
        crate::container_header::lemma_after_after(s0, k, k2);
    }
    Ok((id, e))
}

/// What `read_tag_encodings` yields: a length-prefixed map holding its entry
/// count, then the entries.
pub open spec fn tag_encodings_parse(s: Seq<u8>, version: Version) -> Result<(Seq<(int, ByteArrayModel)>, nat), Error> {
    match array_parse(s, version) {
        Ok((buf, k)) => match count_parse(buf, version) {
            Ok((n, k1)) => match tag_entries_parse(after(buf, k1), version, n as nat) {
                Ok((xs, _)) => Ok((xs, k)),
                Err(e) => Err(e),
            },
            Err(e) => Err(e),
        },
        Err(e) => Err(e),
    }
}

pub open spec fn entries_view(v: Seq<(i32, Encoding<ByteArray>)>) -> Seq<(int, ByteArrayModel)> {
    Seq::new(v.len(), |i: int| (v[i].0 as int, v[i].1.codec@))
}

proof fn lemma_entries_fail_later(s: Seq<u8>, version: Version, i: nat, n: nat)
    requires
        i <= n,
        tag_entries_parse(s, version, i) is Err,
    ensures
        tag_entries_parse(s, version, n) == tag_entries_parse(s, version, i),
    decreases n - i,
{
    if i < n {
        lemma_entries_fail_later(s, version, i, (n - 1) as nat);
    }
}

fn read_entries(src: &mut &[u8], version: Version, n: usize) -> (r: Result<Vec<(i32, Encoding<ByteArray>)>, Error>)
    ensures
        match tag_entries_parse(old(src)@, version, n as nat) {
            Ok((xs, k)) => r is Ok && entries_view(r->Ok_0@) == xs,
            Err(e) => r is Err && r->Err_0 == e,
        },
{
    let ghost s0 = src@;
    let mut xs: Vec<(i32, Encoding<ByteArray>)> = Vec::new();
    let mut i: usize = 0;
    while i < n
        invariant
            i <= n,
            s0 == old(src)@,
            tag_entries_parse(s0, version, i as nat) is Ok,
            entries_view(xs@) == tag_entries_parse(s0, version, i as nat)->Ok_0.0,
            src@ == after(s0, tag_entries_parse(s0, version, i as nat)->Ok_0.1),
            tag_entries_parse(s0, version, i as nat)->Ok_0.1 <= s0.len(),
        decreases n - i,
    {
        let ghost k = tag_entries_parse(s0, version, i as nat)->Ok_0.1;
        let (id, e) = match read_entry(src, version) {
            Ok(x) => x,
            Err(err) => {
                proof {
                    lemma_entries_fail_later(s0, version, (i + 1) as nat, n as nat);
                }
                return Err(err);
            },
        };
        proof {
            let k2 = tag_entry_parse(after(s0, k), version)->Ok_0.1;
            crate::container_header::lemma_after_after(s0, k, k2);
        }
        let ghost before = xs@;
        let ghost em = e.codec@;
        xs.push((id, e));
        i += 1;
        proof {
            assert(entries_view(xs@) =~= entries_view(before).push((id as int, em)));
        }
    }
    Ok(xs)
}

pub proof fn lemma_byte_array_consumed(s: Seq<u8>, version: Version)
    ensures
        byte_array_encoding_parse(s, version) is Ok ==> byte_array_encoding_parse(s, version)->Ok_0.1 <= s.len(),
{
    crate::num::lemma_parse_ranges(s, version);
    if crate::encoding::read::kind_parse(s, version) is Ok {
        let k1 = crate::encoding::read::kind_parse(s, version)->Ok_0.1;
        crate::num::lemma_parse_ranges(after(s, k1), version);
    }
}

/// Reads the tag encodings: per block content id, a byte-array encoding.
pub fn read_tag_encodings(src: &mut &[u8], version: Version) -> (r: Result<Vec<(i32, Encoding<ByteArray>)>, Error>)
    ensures
        match tag_encodings_parse(old(src)@, version) {
            Ok((xs, k)) => r is Ok && entries_view(r->Ok_0@) == xs && final(src)@ == after(old(src)@, k),
            Err(e) => r is Err && r->Err_0 == e,
        },
{
    let mut buf = match read_array(src, version) {
        Ok(b) => b,
        Err(e) => return Err(e),
    };
    proof {
        crate::num::lemma_parse_ranges(buf@, version);
    }
    let n = match read_unsigned_int_as(&mut buf, version) {
        Ok(n) => n,
        Err(e) => return Err(e),
    };
    read_entries(&mut buf, version, n)
}

/// The tag encodings' entries as written: each block content id, then its encoding.
pub open spec fn tag_entries_bytes(xs: Seq<(int, ByteArrayModel)>, version: Version) -> Option<Seq<u8>>
    decreases xs.len(),
{
    if xs.len() == 0 {
        Some(Seq::empty())
    } else {
        cat(tag_entries_bytes(xs.drop_last(), version), entry_bytes(xs.last(), version))
    }
}

/// One entry as written: its block content id, then its encoding.
#[verifier::opaque]
pub open spec fn entry_bytes(x: (int, ByteArrayModel), version: Version) -> Option<Seq<u8>> {
    cat(unsigned_arg(x.0, version), byte_array_encoding_bytes(x.1, version))
}

fn write_entry(buf: &mut Vec<u8>, id: i32, e: &Encoding<ByteArray>, version: Version) -> (r: Result<(), Error>)
    ensures
        match entry_bytes((id as int, e.codec@), version) {
            Some(b) => r is Ok && final(buf)@ == old(buf)@ + b,
            None => r == Err::<(), Error>(Error::InvalidInput),
        },
{
    proof {
        reveal(entry_bytes);
    }
    match write_int(buf, version, id) {
        Ok(()) => {},
        Err(err) => return Err(err),
    }
    let ghost mid = buf@;
    match write_byte_array_encoding(buf, e, version) {
        Ok(()) => {},
        Err(err) => return Err(err),
    }
    assert(buf@ =~= old(buf)@ + entry_bytes((id as int, e.codec@), version)->Some_0);
    Ok(())
}

/// What `write_tag_encodings` writes: the count and entries as a length-prefixed array.
pub open spec fn tag_encodings_bytes(xs: Seq<(int, ByteArrayModel)>, version: Version) -> Option<Seq<u8>> {
    if xs.len() > i32::MAX {
        None
    } else {
        match tag_entries_bytes(xs, version) {
            Some(b) => {
                let body = unsigned_encoding(xs.len() as int, version) + b;
                if body.len() > i32::MAX {
                    None
                } else {
                    Some(unsigned_encoding(body.len() as int, version) + body)
                }
            },
            None => None,
        }
    }
}

proof fn lemma_entries_none(xs: Seq<(int, ByteArrayModel)>, j: nat, version: Version)
    requires
        0 < j <= xs.len(),
        entry_bytes(xs[j - 1], version) is None,
    ensures
        tag_entries_bytes(xs, version) is None,
    decreases xs.len(),
{
    if j < xs.len() {
        lemma_entries_none(xs.drop_last(), j, version);
    }
}

/// Writes the tag encodings.
pub fn write_tag_encodings(dst: &mut Vec<u8>, tag_encodings: &Vec<(i32, Encoding<ByteArray>)>, version: Version) -> (r: Result<(), Error>)
    ensures
        match tag_encodings_bytes(entries_view(tag_encodings@), version) {
            Some(b) => r is Ok && final(dst)@ == old(dst)@ + b,
            None => r == Err::<(), Error>(Error::InvalidInput),
        },
{
    let ghost xs = entries_view(tag_encodings@);
    if tag_encodings.len() > i32::MAX as usize {
        return Err(Error::InvalidInput);
    }
    let mut buf: Vec<u8> = Vec::new();
    write_int(&mut buf, version, tag_encodings.len() as i32).unwrap();
    let ghost b0 = buf@;
    let mut i: usize = 0;
    while i < tag_encodings.len()
        invariant
            i <= tag_encodings@.len(),
            xs == entries_view(tag_encodings@),
            tag_entries_bytes(xs.take(i as int), version) is Some,
            buf@ == b0 + tag_entries_bytes(xs.take(i as int), version)->Some_0,
        decreases tag_encodings@.len() - i,
    {
        assert(xs.take(i + 1).drop_last() =~= xs.take(i as int));
        assert(xs.take(i + 1).last() == xs[i as int]);
        let (id, e) = &tag_encodings[i];
        assert(xs[i as int] == (*id as int, e.codec@));
        match write_entry(&mut buf, *id, e, version) {
            Ok(()) => {},
            Err(err) => {
                proof {
                    lemma_entries_none(xs, (i + 1) as nat, version);
                }
                return Err(err);
            },
        }
        i += 1;
        assert(buf@ =~= b0 + tag_entries_bytes(xs.take(i as int), version)->Some_0);
    }
    assert(xs.take(xs.len() as int) =~= xs);
    if buf.len() > i32::MAX as usize {
        return Err(Error::InvalidInput);
    }
    write_int(dst, version, buf.len() as i32).unwrap();
    let mut j: usize = 0;
    let ghost d0 = dst@;
    while j < buf.len()
        invariant
            j <= buf@.len(),
            dst@ == d0 + buf@.take(j as int),
        decreases buf@.len() - j,
    {
        dst.push(buf[j]);
        j += 1;
        assert(dst@ =~= d0 + buf@.take(j as int));
    }
    assert(buf@.take(buf@.len() as int) =~= buf@);
    assert(dst@ =~= old(dst)@ + (unsigned_encoding(buf@.len() as int, version) + buf@));
    Ok(())
}

/// The encoding of a tag's values: their lengths (a varint from 4.0 on, else
/// External) and their bytes (External), both in the tag's own block.
pub fn tag_encoding(block_content_id: i32, version: Version) -> (r: Encoding<ByteArray>)
    ensures
        r.codec@ == ByteArrayModel::ByteArrayLength(
            if version.uses_vlq_spec() {
                IntegerModel::VarintUnsigned(block_content_id as int, 0)
            } else {
                IntegerModel::External(block_content_id as int)
            },
            ByteModel::External(block_content_id as int),
        ),
{
    let len_encoding = if version.uses_vlq() {
        Encoding::new(Integer::VarintUnsigned { block_content_id, offset: 0 })
    } else {
        Encoding::new(Integer::External { block_content_id })
    };
    Encoding::new(ByteArray::ByteArrayLength {
        len_encoding,
        value_encoding: Encoding::new(Byte::External { block_content_id }),
    })
}

} // verus!
