use vstd::prelude::*;
use vstd::slice::slice_subrange;

use crate::encoding::{
    is_v4_kind, kind_of_code, Byte, ByteArray, ByteArrayModel, ByteModel, Encoding, Integer,
    IntegerModel, Kind,
};
use crate::error::Error;
use crate::num::vlq::{read_sint7_64, uint7_64_parse, lemma_uint7_scan_bound, two_pow_64};
use crate::num::{
    count_parse, read_signed_int, read_unsigned_int, read_unsigned_int_as, signed_int_parse,
    unsigned_int_parse, zigzag_decode,
};
use crate::version::Version;

verus! {

/// What is left of `s` after its first `k` bytes.
pub open spec fn after(s: Seq<u8>, k: nat) -> Seq<u8> {
    s.subrange(k as int, s.len() as int)
}

/// What `read_kind` yields: a known kind code, and one of 4.0's kinds only from 4.0 on.
pub open spec fn kind_parse(s: Seq<u8>, version: Version) -> Result<(Kind, nat), Error> {
    match unsigned_int_parse(s, version) {
        Ok((n, k)) => match kind_of_code(n) {
            Some(kind) => if is_v4_kind(kind) && !version.uses_vlq_spec() {
                Err(Error::InvalidData)
            } else {
                Ok((kind, k))
            },
            None => Err(Error::InvalidData),
        },
        Err(e) => Err(e),
    }
}

/// What `read_array` yields: a length, then that many bytes.
pub open spec fn array_parse(s: Seq<u8>, version: Version) -> Result<(Seq<u8>, nat), Error> {
    match count_parse(s, version) {
        Ok((n, k)) => if s.len() < k + n {
            Err(Error::UnexpectedEof)
        } else {
            Ok((s.subrange(k as int, k + n), (k + n) as nat))
        },
        Err(e) => Err(e),
    }
}

/// `n` signed integers one after another.
pub open spec fn signed_ints_parse(s: Seq<u8>, version: Version, n: nat) -> Result<
    (Seq<i32>, nat),
    Error,
>
    decreases n,
{
    if n == 0 {
        Ok((Seq::empty(), 0))
    } else {
        match signed_ints_parse(s, version, (n - 1) as nat) {
            Ok((xs, k)) => match signed_int_parse(after(s, k), version) {
                Ok((x, k2)) => Ok((xs.push(x as i32), k + k2)),
                Err(e) => Err(e),
            },
            Err(e) => Err(e),
        }
    }
}

/// `n` unsigned 32-bit integers one after another.
pub open spec fn u32s_parse(s: Seq<u8>, version: Version, n: nat) -> Result<(Seq<u32>, nat), Error>
    decreases n,
{
    if n == 0 {
        Ok((Seq::empty(), 0))
    } else {
        match u32s_parse(s, version, (n - 1) as nat) {
            Ok((xs, k)) => match count_parse(after(s, k), version) {
                Ok((x, k2)) => Ok((xs.push(x as u32), k + k2)),
                Err(e) => Err(e),
            },
            Err(e) => Err(e),
        }
    }
}

/// Huffman arguments: the alphabet and the bit lengths, each with its count first.
pub open spec fn huffman_args_parse(s: Seq<u8>, version: Version) -> Result<
    (Seq<i32>, Seq<u32>),
    Error,
> {
    match count_parse(s, version) {
        Ok((n, k1)) => match signed_ints_parse(after(s, k1), version, n as nat) {
            Ok((alphabet, k2)) => match count_parse(after(s, k1 + k2), version) {
                Ok((m, k3)) => match u32s_parse(after(s, k1 + k2 + k3), version, m as nat) {
                    Ok((bit_lens, _)) => Ok((alphabet, bit_lens)),
                    Err(e) => Err(e),
                },
                Err(e) => Err(e),
            },
            Err(e) => Err(e),
        },
        Err(e) => Err(e),
    }
}

/// Two signed integers.
pub open spec fn signed_pair_parse(s: Seq<u8>, version: Version) -> Result<(int, int), Error> {
    match signed_int_parse(s, version) {
        Ok((a, k)) => match signed_int_parse(after(s, k), version) {
            Ok((b, _)) => Ok((a, b)),
            Err(e) => Err(e),
        },
        Err(e) => Err(e),
    }
}

/// The arguments of an integer codec of kind `kind`.
pub open spec fn integer_args_parse(kind: Kind, args: Seq<u8>, version: Version) -> Result<
    IntegerModel,
    Error,
> {
    match kind {
        Kind::External => match unsigned_int_parse(args, version) {
            Ok((id, _)) => Ok(IntegerModel::External(id)),
            Err(e) => Err(e),
        },
        Kind::Golomb => match signed_pair_parse(args, version) {
            Ok((a, b)) => Ok(IntegerModel::Golomb(a, b)),
            Err(e) => Err(e),
        },
        Kind::Huffman => match huffman_args_parse(args, version) {
            Ok((a, b)) => Ok(IntegerModel::Huffman(a, b)),
            Err(e) => Err(e),
        },
        Kind::Beta => match signed_int_parse(args, version) {
            Ok((offset, k)) => match count_parse(after(args, k), version) {
                Ok((len, _)) => if len <= u32::MAX {
                    Ok(IntegerModel::Beta(offset, len))
                } else {
                    Err(Error::InvalidData)
                },
                Err(e) => Err(e),
            },
            Err(e) => Err(e),
        },
        Kind::Subexp => match signed_pair_parse(args, version) {
            Ok((a, b)) => Ok(IntegerModel::Subexp(a, b)),
            Err(e) => Err(e),
        },
        Kind::GolombRice => match signed_pair_parse(args, version) {
            Ok((a, b)) => Ok(IntegerModel::GolombRice(a, b)),
            Err(e) => Err(e),
        },
        Kind::Gamma => match signed_int_parse(args, version) {
            Ok((a, _)) => Ok(IntegerModel::Gamma(a)),
            Err(e) => Err(e),
        },
        Kind::VarintUnsigned => match varint_args_parse(args, version) {
            Ok((id, offset)) => Ok(IntegerModel::VarintUnsigned(id, offset)),
            Err(e) => Err(e),
        },
        Kind::VarintSigned => match varint_args_parse(args, version) {
            Ok((id, offset)) => Ok(IntegerModel::VarintSigned(id, offset)),
            Err(e) => Err(e),
        },
        Kind::ConstInt => match signed_int_parse(args, version) {
            Ok((a, _)) => Ok(IntegerModel::ConstInt(a)),
            Err(e) => Err(e),
        },
        _ => Err(Error::InvalidData),
    }
}

/// Varint codec arguments: a block content id, then a zigzag uint7_64 offset.
pub open spec fn varint_args_parse(args: Seq<u8>, version: Version) -> Result<(int, int), Error> {
    match unsigned_int_parse(args, version) {
        Ok((id, k)) => match uint7_64_parse(after(args, k)) {
            Ok((u, _)) => Ok((id, zigzag_decode(u))),
            Err(e) => Err(e),
        },
        Err(e) => Err(e),
    }
}

/// The arguments of a byte codec of kind `kind`.
pub open spec fn byte_args_parse(kind: Kind, args: Seq<u8>, version: Version) -> Result<
    ByteModel,
    Error,
> {
    match kind {
        Kind::External => match unsigned_int_parse(args, version) {
            Ok((id, _)) => Ok(ByteModel::External(id)),
            Err(e) => Err(e),
        },
        Kind::Huffman => match huffman_args_parse(args, version) {
            Ok((a, b)) => Ok(ByteModel::Huffman(a, b)),
            Err(e) => Err(e),
        },
        Kind::ConstByte => if args.len() == 0 {
            Err(Error::UnexpectedEof)
        } else {
            Ok(ByteModel::Constant(args[0]))
        },
        _ => Err(Error::InvalidData),
    }
}

/// What `read_integer_encoding` yields: a kind, then its length-prefixed arguments.
pub open spec fn integer_encoding_parse(s: Seq<u8>, version: Version) -> Result<
    (IntegerModel, nat),
    Error,
> {
    match kind_parse(s, version) {
        Ok((kind, k1)) => if !is_integer_kind(kind) {
            Err(Error::InvalidData)
        } else {
            match array_parse(after(s, k1), version) {
            Ok((args, k2)) => match integer_args_parse(kind, args, version) {
                Ok(m) => Ok((m, k1 + k2)),
                Err(e) => Err(e),
            },
            Err(e) => Err(e),
        }},
        Err(e) => Err(e),
    }
}

/// The kinds an integer codec can have.
pub open spec fn is_integer_kind(kind: Kind) -> bool {
    !(kind == Kind::Null || kind == Kind::ByteArrayLength || kind == Kind::ByteArrayStop || kind
        == Kind::ConstByte)
}

/// The kinds a byte codec can have.
pub open spec fn is_byte_kind(kind: Kind) -> bool {
    kind == Kind::External || kind == Kind::Huffman || kind == Kind::ConstByte
}

/// The kinds a byte-array codec can have.
pub open spec fn is_byte_array_kind(kind: Kind) -> bool {
    kind == Kind::ByteArrayLength || kind == Kind::ByteArrayStop
}

/// What `read_byte_encoding` yields.
pub open spec fn byte_encoding_parse(s: Seq<u8>, version: Version) -> Result<(ByteModel, nat), Error> {
    match kind_parse(s, version) {
        Ok((kind, k1)) => if !is_byte_kind(kind) {
            Err(Error::InvalidData)
        } else {
            match array_parse(after(s, k1), version) {
                Ok((args, k2)) => match byte_args_parse(kind, args, version) {
                    Ok(m) => Ok((m, k1 + k2)),
                    Err(e) => Err(e),
                },
                Err(e) => Err(e),
            }
        },
        Err(e) => Err(e),
    }
}

/// What `read_byte_array_encoding` yields.
pub open spec fn byte_array_encoding_parse(s: Seq<u8>, version: Version) -> Result<
    (ByteArrayModel, nat),
    Error,
> {
    match kind_parse(s, version) {
        Ok((kind, k1)) => if !is_byte_array_kind(kind) {
            Err(Error::InvalidData)
        } else {
            match array_parse(after(s, k1), version) {
            Ok((args, k2)) => match kind {
                Kind::ByteArrayLength => match integer_encoding_parse(args, version) {
                    Ok((len_enc, k3)) => match byte_encoding_parse(after(args, k3), version) {
                        Ok((value_enc, _)) => Ok(
                            (ByteArrayModel::ByteArrayLength(len_enc, value_enc), k1 + k2),
                        ),
                        Err(e) => Err(e),
                    },
                    Err(e) => Err(e),
                },
                Kind::ByteArrayStop => if args.len() == 0 {
                    Err(Error::UnexpectedEof)
                } else {
                    match unsigned_int_parse(after(args, 1), version) {
                        Ok((id, _)) => Ok((ByteArrayModel::ByteArrayStop(args[0], id), k1 + k2)),
                        Err(e) => Err(e),
                    }
                },
                _ => Err(Error::InvalidData),
            },
            Err(e) => Err(e),
        }},
        Err(e) => Err(e),
    }
}

/// Reads an encoding kind.
pub fn read_kind(src: &mut &[u8], version: Version) -> (r: Result<Kind, Error>)
    ensures
        match kind_parse(old(src)@, version) {
            Ok((kind, k)) => r == Ok::<Kind, Error>(kind) && final(src)@ == after(old(src)@, k),
            Err(e) => r == Err::<Kind, Error>(e),
        },
{
    proof {
        crate::num::lemma_parse_ranges(src@, version);
    }
    let n = match read_unsigned_int(src, version) {
        Ok(n) => n,
        Err(e) => return Err(e),
    };
    let kind = if n == 0 {
        Kind::Null
    } else if n == 1 {
        Kind::External
    } else if n == 2 {
        Kind::Golomb
    } else if n == 3 {
        Kind::Huffman
    } else if n == 4 {
        Kind::ByteArrayLength
    } else if n == 5 {
        Kind::ByteArrayStop
    } else if n == 6 {
        Kind::Beta
    } else if n == 7 {
        Kind::Subexp
    } else if n == 8 {
        Kind::GolombRice
    } else if n == 9 {
        Kind::Gamma
    } else if n == 41 {
        Kind::VarintUnsigned
    } else if n == 42 {
        Kind::VarintSigned
    } else if n == 43 {
        Kind::ConstByte
    } else if n == 44 {
        Kind::ConstInt
    } else {
        return Err(Error::InvalidData);
    };
    if 41 <= n && n <= 44 && !version.uses_vlq() {
        return Err(Error::InvalidData);
    }
    Ok(kind)
}

/// Reads a length-prefixed byte array.
pub fn read_array<'a>(src: &mut &'a [u8], version: Version) -> (r: Result<&'a [u8], Error>)
    ensures
        match array_parse(old(src)@, version) {
            Ok((a, k)) => r is Ok && r->Ok_0@ == a && final(src)@ == after(old(src)@, k),
            Err(e) => r == Err::<&[u8], Error>(e),
        },
{
    proof {
        crate::num::lemma_parse_ranges(src@, version);
    }
    let len = match read_unsigned_int_as(src, version) {
        Ok(n) => n,
        Err(e) => return Err(e),
    };
    let ghost k = count_parse(old(src)@, version)->Ok_0.1;
    if src.len() < len {
        return Err(Error::UnexpectedEof);
    }
    let a = slice_subrange(*src, 0, len);
    *src = slice_subrange(*src, len, src.len());
    proof {
        assert(a@ =~= old(src)@.subrange(k as int, k + len));
        assert(src@ =~= after(old(src)@, (k + len) as nat));
    }
    Ok(a)
}

} // verus!

verus! {

/// The length-prefixed arguments of `s`, parsed by `p`; the count of bytes
/// taken is that of the whole array.
pub open spec fn args_then<T>(s: Seq<u8>, version: Version, p: spec_fn(Seq<u8>) -> Result<T, Error>) -> Result<(T, nat), Error> {
    match array_parse(s, version) {
        Ok((args, k)) => match p(args) {
            Ok(x) => Ok((x, k)),
            Err(e) => Err(e),
        },
        Err(e) => Err(e),
    }
}

/// `r` with its success value passed through `f`.
pub open spec fn map_ok<A, B>(r: Result<A, Error>, f: spec_fn(A) -> B) -> Result<B, Error> {
    match r {
        Ok(a) => Ok(f(a)),
        Err(e) => Err(e),
    }
}

/// `r` is the outcome `p` describes, and on success the reader moved from
/// `before` to `after` past the bytes taken.
pub open spec fn read_as<T>(r: Result<T, Error>, p: Result<(T, nat), Error>, before: Seq<u8>, after_: Seq<u8>) -> bool {
    match p {
        Ok((x, k)) => r == Ok::<T, Error>(x) && after_ == after(before, k),
        Err(e) => r == Err::<T, Error>(e),
    }
}

/// Reads an External codec's arguments: a block content id.
pub fn read_external_codec(src: &mut &[u8], version: Version) -> (r: Result<i32, Error>)
    ensures
        read_as(
            map_ok(r, |x: i32| x as int),
            args_then(old(src)@, version, |a: Seq<u8>| match unsigned_int_parse(a, version) {
                Ok((id, _)) => Ok(id),
                Err(e) => Err(e),
            }),
            old(src)@,
            final(src)@,
        ),
{
    let mut args = match read_array(src, version) {
        Ok(a) => a,
        Err(e) => return Err(e),
    };
    proof {
        crate::num::lemma_parse_ranges(args@, version);
    }
    match read_unsigned_int(&mut args, version) {
        Ok(id) => Ok(id),
        Err(e) => Err(e),
    }
}

/// Reads two signed arguments.
fn read_signed_pair(src: &mut &[u8], version: Version) -> (r: Result<(i32, i32), Error>)
    ensures
        read_as(
            map_ok(r, |x: (i32, i32)| (x.0 as int, x.1 as int)),
            args_then(old(src)@, version, |a: Seq<u8>| signed_pair_parse(a, version)),
            old(src)@,
            final(src)@,
        ),
{
    let mut args = match read_array(src, version) {
        Ok(a) => a,
        Err(e) => return Err(e),
    };
    let ghost a0 = args@;
    proof {
        crate::num::lemma_parse_ranges(args@, version);
    }
    let a = match read_signed_int(&mut args, version) {
        Ok(x) => x,
        Err(e) => return Err(e),
    };
    proof {
        crate::num::lemma_parse_ranges(args@, version);
    }
    let b = match read_signed_int(&mut args, version) {
        Ok(x) => x,
        Err(e) => return Err(e),
    };
    Ok((a, b))
}

/// Reads a Golomb codec's arguments: offset and M.
pub fn read_golomb_codec(src: &mut &[u8], version: Version) -> (r: Result<(i32, i32), Error>)
    ensures
        read_as(
            map_ok(r, |x: (i32, i32)| (x.0 as int, x.1 as int)),
            args_then(old(src)@, version, |a: Seq<u8>| signed_pair_parse(a, version)),
            old(src)@,
            final(src)@,
        ),
{
    read_signed_pair(src, version)
}

/// Reads a Subexp codec's arguments: offset and k.
pub fn read_subexp_codec(src: &mut &[u8], version: Version) -> (r: Result<(i32, i32), Error>)
    ensures
        read_as(
            map_ok(r, |x: (i32, i32)| (x.0 as int, x.1 as int)),
            args_then(old(src)@, version, |a: Seq<u8>| signed_pair_parse(a, version)),
            old(src)@,
            final(src)@,
        ),
{
    read_signed_pair(src, version)
}

/// Reads a Golomb-Rice codec's arguments: offset and log2(M).
pub fn read_golomb_rice_codec(src: &mut &[u8], version: Version) -> (r: Result<(i32, i32), Error>)
    ensures
        read_as(
            map_ok(r, |x: (i32, i32)| (x.0 as int, x.1 as int)),
            args_then(old(src)@, version, |a: Seq<u8>| signed_pair_parse(a, version)),
            old(src)@,
            final(src)@,
        ),
{
    read_signed_pair(src, version)
}

/// Reads one signed argument.
fn read_signed_arg(src: &mut &[u8], version: Version) -> (r: Result<i32, Error>)
    ensures
        read_as(
            map_ok(r, |x: i32| x as int),
            args_then(old(src)@, version, |a: Seq<u8>| match signed_int_parse(a, version) {
                Ok((x, _)) => Ok(x),
                Err(e) => Err(e),
            }),
            old(src)@,
            final(src)@,
        ),
{
    let mut args = match read_array(src, version) {
        Ok(a) => a,
        Err(e) => return Err(e),
    };
    proof {
        crate::num::lemma_parse_ranges(args@, version);
    }
    match read_signed_int(&mut args, version) {
        Ok(x) => Ok(x),
        Err(e) => Err(e),
    }
}

/// Reads a Gamma codec's arguments: the offset.
pub fn read_gamma_codec(src: &mut &[u8], version: Version) -> (r: Result<i32, Error>)
    ensures
        read_as(
            map_ok(r, |x: i32| x as int),
            args_then(old(src)@, version, |a: Seq<u8>| match signed_int_parse(a, version) {
                Ok((x, _)) => Ok(x),
                Err(e) => Err(e),
            }),
            old(src)@,
            final(src)@,
        ),
{
    read_signed_arg(src, version)
}

/// Reads a ConstInt codec's arguments: the value.
pub fn read_const_int_codec(src: &mut &[u8], version: Version) -> (r: Result<i32, Error>)
    ensures
        read_as(
            map_ok(r, |x: i32| x as int),
            args_then(old(src)@, version, |a: Seq<u8>| match signed_int_parse(a, version) {
                Ok((x, _)) => Ok(x),
                Err(e) => Err(e),
            }),
            old(src)@,
            final(src)@,
        ),
{
    read_signed_arg(src, version)
}

/// Reads a ConstByte codec's arguments: the value byte.
pub fn read_const_byte_codec(src: &mut &[u8], version: Version) -> (r: Result<u8, Error>)
    ensures
        read_as(
            r,
            args_then(old(src)@, version, |a: Seq<u8>| if a.len() == 0 {
                Err(Error::UnexpectedEof)
            } else {
                Ok(a[0])
            }),
            old(src)@,
            final(src)@,
        ),
{
    let args = match read_array(src, version) {
        Ok(a) => a,
        Err(e) => return Err(e),
    };
    if args.len() == 0 {
        return Err(Error::UnexpectedEof);
    }
    Ok(args[0])
}

/// Reads a Beta codec's arguments: offset and bit length.
pub fn read_beta_codec(src: &mut &[u8], version: Version) -> (r: Result<(i32, u32), Error>)
    ensures
        read_as(
            map_ok(r, |x: (i32, u32)| (x.0 as int, x.1 as int)),
            args_then(old(src)@, version, |a: Seq<u8>| match integer_args_parse(Kind::Beta, a, version) {
                Ok(IntegerModel::Beta(o, l)) => Ok((o, l)),
                Ok(_) => Err(Error::InvalidData),
                Err(e) => Err(e),
            }),
            old(src)@,
            final(src)@,
        ),
{
    let mut args = match read_array(src, version) {
        Ok(a) => a,
        Err(e) => return Err(e),
    };
    proof {
        crate::num::lemma_parse_ranges(args@, version);
    }
    let offset = match read_signed_int(&mut args, version) {
        Ok(x) => x,
        Err(e) => return Err(e),
    };
    proof {
        crate::num::lemma_parse_ranges(args@, version);
    }
    let len = match read_unsigned_int_as(&mut args, version) {
        Ok(x) => x,
        Err(e) => return Err(e),
    };
    if len > u32::MAX as usize {
        return Err(Error::InvalidData);
    }
    Ok((offset, len as u32))
}

/// Reads a Varint codec's arguments: a block content id and a zigzag offset.
pub fn read_varint_codec(src: &mut &[u8], version: Version) -> (r: Result<(i32, i64), Error>)
    ensures
        read_as(
            map_ok(r, |x: (i32, i64)| (x.0 as int, x.1 as int)),
            args_then(old(src)@, version, |a: Seq<u8>| varint_args_parse(a, version)),
            old(src)@,
            final(src)@,
        ),
{
    let mut args = match read_array(src, version) {
        Ok(a) => a,
        Err(e) => return Err(e),
    };
    proof {
        crate::num::lemma_parse_ranges(args@, version);
    }
    let id = match read_unsigned_int(&mut args, version) {
        Ok(x) => x,
        Err(e) => return Err(e),
    };
    proof {
        lemma_uint7_scan_bound(args@, 0, 0, 10, two_pow_64());
    }
    let offset = match read_sint7_64(&mut args) {
        Ok(x) => x,
        Err(e) => return Err(e),
    };
    Ok((id, offset))
}

/// Reads a ByteArrayStop codec's arguments: the stop byte and a block content id.
pub fn read_byte_array_stop_codec(src: &mut &[u8], version: Version) -> (r: Result<(u8, i32), Error>)
    ensures
        read_as(
            map_ok(r, |x: (u8, i32)| (x.0, x.1 as int)),
            args_then(old(src)@, version, |a: Seq<u8>| if a.len() == 0 {
                Err(Error::UnexpectedEof)
            } else {
                match unsigned_int_parse(after(a, 1), version) {
                    Ok((id, _)) => Ok((a[0], id)),
                    Err(e) => Err(e),
                }
            }),
            old(src)@,
            final(src)@,
        ),
{
    let args = match read_array(src, version) {
        Ok(a) => a,
        Err(e) => return Err(e),
    };
    if args.len() == 0 {
        return Err(Error::UnexpectedEof);
    }
    let stop_byte = args[0];
    let mut rest = slice_subrange(args, 1, args.len());
    proof {
        crate::num::lemma_parse_ranges(rest@, version);
    }
    match read_unsigned_int(&mut rest, version) {
        Ok(id) => Ok((stop_byte, id)),
        Err(e) => Err(e),
    }
}

} // verus!

verus! {

fn read_signed_ints(src: &mut &[u8], version: Version, n: usize) -> (r: Result<Vec<i32>, Error>)
    ensures
        match signed_ints_parse(old(src)@, version, n as nat) {
            Ok((xs, k)) => r is Ok && r->Ok_0@ == xs && final(src)@ == after(old(src)@, k) && k
                <= old(src)@.len(),
            Err(e) => r == Err::<Vec<i32>, Error>(e),
        },
{
    let ghost s0 = src@;
    let mut xs: Vec<i32> = Vec::new();
    let mut i: usize = 0;
    while i < n
        invariant
            i <= n,
            s0 == old(src)@,
            signed_ints_parse(s0, version, i as nat) is Ok,
            xs@ == signed_ints_parse(s0, version, i as nat)->Ok_0.0,
            src@ == after(s0, signed_ints_parse(s0, version, i as nat)->Ok_0.1),
            signed_ints_parse(s0, version, i as nat)->Ok_0.1 <= s0.len(),
        decreases n - i,
    {
        proof {
            crate::num::lemma_parse_ranges(src@, version);
        }
        let x = match read_signed_int(src, version) {
            Ok(x) => x,
            Err(e) => {
                proof {
                    lemma_ints_fail_later(s0, version, (i + 1) as nat, n as nat);
                }
                return Err(e);
            },
        };
        let ghost k = signed_ints_parse(s0, version, i as nat)->Ok_0.1;
        let ghost k2 = signed_int_parse(after(s0, k), version)->Ok_0.1;
        xs.push(x);
        i += 1;
        proof {
            assert(src@ =~= after(s0, k + k2));
        }
    }
    Ok(xs)
}

proof fn lemma_ints_fail_later(s: Seq<u8>, version: Version, i: nat, n: nat)
    requires
        i <= n,
        signed_ints_parse(s, version, i) is Err,
    ensures
        signed_ints_parse(s, version, n) == signed_ints_parse(s, version, i),
    decreases n - i,
{
    if i < n {
        lemma_ints_fail_later(s, version, i, (n - 1) as nat);
    }
}

proof fn lemma_u32s_fail_later(s: Seq<u8>, version: Version, i: nat, n: nat)
    requires
        i <= n,
        u32s_parse(s, version, i) is Err,
    ensures
        u32s_parse(s, version, n) == u32s_parse(s, version, i),
    decreases n - i,
{
    if i < n {
        lemma_u32s_fail_later(s, version, i, (n - 1) as nat);
    }
}

fn read_u32s(src: &mut &[u8], version: Version, n: usize) -> (r: Result<Vec<u32>, Error>)
    ensures
        match u32s_parse(old(src)@, version, n as nat) {
            Ok((xs, k)) => r is Ok && r->Ok_0@ == xs && final(src)@ == after(old(src)@, k) && k
                <= old(src)@.len(),
            Err(e) => r == Err::<Vec<u32>, Error>(e),
        },
{
    let ghost s0 = src@;
    let mut xs: Vec<u32> = Vec::new();
    let mut i: usize = 0;
    while i < n
        invariant
            i <= n,
            s0 == old(src)@,
            u32s_parse(s0, version, i as nat) is Ok,
            xs@ == u32s_parse(s0, version, i as nat)->Ok_0.0,
            src@ == after(s0, u32s_parse(s0, version, i as nat)->Ok_0.1),
            u32s_parse(s0, version, i as nat)->Ok_0.1 <= s0.len(),
        decreases n - i,
    {
        proof {
            crate::num::lemma_parse_ranges(src@, version);
        }
        let x = match read_unsigned_int_as(src, version) {
            Ok(x) => x,
            Err(e) => {
                proof {
                    lemma_u32s_fail_later(s0, version, (i + 1) as nat, n as nat);
                }
                return Err(e);
            },
        };
        let ghost k = u32s_parse(s0, version, i as nat)->Ok_0.1;
        let ghost k2 = count_parse(after(s0, k), version)->Ok_0.1;
        xs.push(x as u32);
        i += 1;
        proof {
            assert(src@ =~= after(s0, k + k2));
        }
    }
    Ok(xs)
}

/// Reads a Huffman codec's arguments: the alphabet and the bit lengths.
pub fn read_huffman_codec(src: &mut &[u8], version: Version) -> (r: Result<(Vec<i32>, Vec<u32>), Error>)
    ensures
        match args_then(old(src)@, version, |a: Seq<u8>| huffman_args_parse(a, version)) {
            Ok(((alphabet, bit_lens), k)) => r is Ok && r->Ok_0.0@ == alphabet && r->Ok_0.1@
                == bit_lens && final(src)@ == after(old(src)@, k),
            Err(e) => r == Err::<(Vec<i32>, Vec<u32>), Error>(e),
        },
{
    let mut args = match read_array(src, version) {
        Ok(a) => a,
        Err(e) => return Err(e),
    };
    let ghost a0 = args@;
    proof {
        crate::num::lemma_parse_ranges(args@, version);
    }
    let n = match read_unsigned_int_as(&mut args, version) {
        Ok(x) => x,
        Err(e) => return Err(e),
    };
    let ghost k1 = count_parse(a0, version)->Ok_0.1;
    let alphabet = match read_signed_ints(&mut args, version, n) {
        Ok(x) => x,
        Err(e) => return Err(e),
    };
    let ghost k2 = signed_ints_parse(after(a0, k1), version, n as nat)->Ok_0.1;
    proof {
        assert(after(a0, k1).len() == a0.len() - k1);
        assert(args@ =~= after(a0, k1 + k2));
        crate::num::lemma_parse_ranges(args@, version);
    }
    let m = match read_unsigned_int_as(&mut args, version) {
        Ok(x) => x,
        Err(e) => return Err(e),
    };
    let ghost k3 = count_parse(after(a0, k1 + k2), version)->Ok_0.1;
    proof {
        crate::num::lemma_parse_ranges(after(a0, k1 + k2), version);
        assert(args@ =~= after(a0, k1 + k2 + k3));
    }
    let bit_lens = match read_u32s(&mut args, version, m) {
        Ok(x) => x,
        Err(e) => return Err(e),
    };
    Ok((alphabet, bit_lens))
}

} // verus!

verus! {

/// Reads the arguments of an integer codec of kind `kind`.
#[verifier::rlimit(60)]
fn read_integer_args(kind: Kind, src: &mut &[u8], version: Version) -> (r: Result<Integer, Error>)
    requires
        is_integer_kind(kind),
    ensures
        match args_then(old(src)@, version, |a: Seq<u8>| integer_args_parse(kind, a, version)) {
            Ok((m, k)) => r is Ok && r->Ok_0@ == m && final(src)@ == after(old(src)@, k),
            Err(e) => r == Err::<Integer, Error>(e),
        },
{
    match kind {
        Kind::External => match read_external_codec(src, version) {
            Ok(id) => Ok(Integer::External { block_content_id: id }),
            Err(e) => Err(e),
        },
        Kind::Golomb => match read_golomb_codec(src, version) {
            Ok((offset, m)) => Ok(Integer::Golomb { offset, m }),
            Err(e) => Err(e),
        },
        Kind::Huffman => match read_huffman_codec(src, version) {
            Ok((alphabet, bit_lens)) => Ok(Integer::huffman(alphabet, bit_lens)),
            Err(e) => Err(e),
        },
        Kind::Beta => match read_beta_codec(src, version) {
            Ok((offset, len)) => Ok(Integer::Beta { offset, len }),
            Err(e) => Err(e),
        },
        Kind::Subexp => match read_subexp_codec(src, version) {
            Ok((offset, k)) => Ok(Integer::Subexp { offset, k }),
            Err(e) => Err(e),
        },
        Kind::GolombRice => match read_golomb_rice_codec(src, version) {
            Ok((offset, log2_m)) => Ok(Integer::GolombRice { offset, log2_m }),
            Err(e) => Err(e),
        },
        Kind::Gamma => match read_gamma_codec(src, version) {
            Ok(offset) => Ok(Integer::Gamma { offset }),
            Err(e) => Err(e),
        },
        Kind::VarintUnsigned => match read_varint_codec(src, version) {
            Ok((block_content_id, offset)) => Ok(Integer::VarintUnsigned { block_content_id, offset }),
            Err(e) => Err(e),
        },
        Kind::VarintSigned => match read_varint_codec(src, version) {
            Ok((block_content_id, offset)) => Ok(Integer::VarintSigned { block_content_id, offset }),
            Err(e) => Err(e),
        },
        _ => match read_const_int_codec(src, version) {
            Ok(value) => Ok(Integer::ConstInt { value }),
            Err(e) => Err(e),
        },
    }
}

/// Reads an integer encoding: its kind, then its arguments.
pub fn read_integer_encoding(src: &mut &[u8], version: Version) -> (r: Result<Encoding<Integer>, Error>)
    ensures
        match integer_encoding_parse(old(src)@, version) {
            Ok((m, k)) => r is Ok && r->Ok_0.codec@ == m && final(src)@ == after(old(src)@, k),
            Err(e) => r == Err::<Encoding<Integer>, Error>(e),
        },
{
    let kind = match read_kind(src, version) {
        Ok(k) => k,
        Err(e) => return Err(e),
    };
    if !is_integer_kind_exec(kind) {
        return Err(Error::InvalidData);
    }
    let ghost s1 = src@;
    let ghost k1 = kind_parse(old(src)@, version)->Ok_0.1;
    proof {
        crate::num::lemma_parse_ranges(old(src)@, version);
    }
    let codec = match read_integer_args(kind, src, version) {
        Ok(c) => c,
        Err(e) => return Err(e),
    };
    proof {
        let k2 = array_parse(s1, version)->Ok_0.1;
        assert(src@ =~= after(old(src)@, k1 + k2));
    }
    Ok(Encoding::new(codec))
}

fn is_integer_kind_exec(kind: Kind) -> (r: bool)
    ensures
        r == is_integer_kind(kind),
{
    match kind {
        Kind::Null | Kind::ByteArrayLength | Kind::ByteArrayStop | Kind::ConstByte => false,
        _ => true,
    }
}


} // verus!

verus! {

/// Reads a byte encoding: its kind, then its arguments.
#[verifier::rlimit(40)]
pub fn read_byte_encoding(src: &mut &[u8], version: Version) -> (r: Result<Encoding<Byte>, Error>)
    ensures
        match byte_encoding_parse(old(src)@, version) {
            Ok((m, k)) => r is Ok && r->Ok_0.codec@ == m && final(src)@ == after(old(src)@, k),
            Err(e) => r == Err::<Encoding<Byte>, Error>(e),
        },
{
    let kind = match read_kind(src, version) {
        Ok(k) => k,
        Err(e) => return Err(e),
    };
    let ghost s1 = src@;
    let ghost k1 = kind_parse(old(src)@, version)->Ok_0.1;
    proof {
        crate::num::lemma_parse_ranges(old(src)@, version);
    }
    let codec = match kind {
        Kind::External => match read_external_codec(src, version) {
            Ok(id) => Byte::External { block_content_id: id },
            Err(e) => return Err(e),
        },
        Kind::Huffman => match read_huffman_codec(src, version) {
            Ok((alphabet, bit_lens)) => Byte::huffman(alphabet, bit_lens),
            Err(e) => return Err(e),
        },
        Kind::ConstByte => match read_const_byte_codec(src, version) {
            Ok(value) => Byte::Constant { value },
            Err(e) => return Err(e),
        },
        _ => return Err(Error::InvalidData),
    };
    proof {
        let k2 = array_parse(s1, version)->Ok_0.1;
        assert(src@ =~= after(old(src)@, k1 + k2));
    }
    Ok(Encoding::new(codec))
}

/// Reads a ByteArrayLength codec's arguments: an integer encoding for the
/// length, then a byte encoding for the values.
pub fn read_byte_array_length_codec(src: &mut &[u8], version: Version) -> (r: Result<
    (Encoding<Integer>, Encoding<Byte>),
    Error,
>)
    ensures
        match args_then(
            old(src)@,
            version,
            |a: Seq<u8>| match integer_encoding_parse(a, version) {
                Ok((len_enc, k3)) => match byte_encoding_parse(after(a, k3), version) {
                    Ok((value_enc, _)) => Ok((len_enc, value_enc)),
                    Err(e) => Err(e),
                },
                Err(e) => Err(e),
            },
        ) {
            Ok(((l, v), k)) => r is Ok && r->Ok_0.0.codec@ == l && r->Ok_0.1.codec@ == v
                && final(src)@ == after(old(src)@, k),
            Err(e) => r == Err::<(Encoding<Integer>, Encoding<Byte>), Error>(e),
        },
{
    let mut args = match read_array(src, version) {
        Ok(a) => a,
        Err(e) => return Err(e),
    };
    let len_encoding = match read_integer_encoding(&mut args, version) {
        Ok(x) => x,
        Err(e) => return Err(e),
    };
    let value_encoding = match read_byte_encoding(&mut args, version) {
        Ok(x) => x,
        Err(e) => return Err(e),
    };
    Ok((len_encoding, value_encoding))
}

/// Reads a byte-array encoding: its kind, then its arguments.
#[verifier::rlimit(40)]
pub fn read_byte_array_encoding(src: &mut &[u8], version: Version) -> (r: Result<
    Encoding<ByteArray>,
    Error,
>)
    ensures
        match byte_array_encoding_parse(old(src)@, version) {
            Ok((m, k)) => r is Ok && r->Ok_0.codec@ == m && final(src)@ == after(old(src)@, k),
            Err(e) => r == Err::<Encoding<ByteArray>, Error>(e),
        },
{
    let kind = match read_kind(src, version) {
        Ok(k) => k,
        Err(e) => return Err(e),
    };
    let ghost s1 = src@;
    let ghost k1 = kind_parse(old(src)@, version)->Ok_0.1;
    proof {
        crate::num::lemma_parse_ranges(old(src)@, version);
    }
    let codec = match kind {
        Kind::ByteArrayLength => match read_byte_array_length_codec(src, version) {
            Ok((len_encoding, value_encoding)) => ByteArray::ByteArrayLength {
                len_encoding,
                value_encoding,
            },
            Err(e) => return Err(e),
        },
        Kind::ByteArrayStop => match read_byte_array_stop_codec(src, version) {
            Ok((stop_byte, block_content_id)) => ByteArray::ByteArrayStop {
                stop_byte,
                block_content_id,
            },
            Err(e) => return Err(e),
        },
        _ => return Err(Error::InvalidData),
    };
    proof {
        let k2 = array_parse(s1, version)->Ok_0.1;
        assert(src@ =~= after(old(src)@, k1 + k2));
    }
    Ok(Encoding::new(codec))
}

/// Skips one encoding of any type: its kind, then its length-prefixed arguments.
pub fn consume_any_encoding(src: &mut &[u8], version: Version) -> (r: Result<(), Error>)
    ensures
        match kind_parse(old(src)@, version) {
            Ok((_, k1)) => match array_parse(after(old(src)@, k1), version) {
                Ok((_, k2)) => r is Ok && final(src)@ == after(old(src)@, k1 + k2),
                Err(e) => r == Err::<(), Error>(e),
            },
            Err(e) => r == Err::<(), Error>(e),
        },
{
    match read_kind(src, version) {
        Ok(_) => {},
        Err(e) => return Err(e),
    }
    let ghost s1 = src@;
    let ghost k1 = kind_parse(old(src)@, version)->Ok_0.1;
    proof {
        crate::num::lemma_parse_ranges(old(src)@, version);
    }
    match read_array(src, version) {
        Ok(_) => {},
        Err(e) => return Err(e),
    }
    proof {
        let k2 = array_parse(s1, version)->Ok_0.1;
        assert(src@ =~= after(old(src)@, k1 + k2));
    }
    Ok(())
}

/// Encodings serialized for CRAM 4.0 with one of its own kinds do not read
/// under an earlier version: the kind alone is rejected.
pub proof fn lemma_v4_kinds_rejected_before_v4(s: Seq<u8>, version: Version)
    requires
        !version.uses_vlq_spec(),
        unsigned_int_parse(s, version) is Ok,
        41 <= unsigned_int_parse(s, version)->Ok_0.0 <= 44,
    ensures
        kind_parse(s, version) == Err::<(Kind, nat), Error>(Error::InvalidData),
        integer_encoding_parse(s, version) is Err,
        byte_encoding_parse(s, version) is Err,
        byte_array_encoding_parse(s, version) is Err,
{
}

} // verus!
