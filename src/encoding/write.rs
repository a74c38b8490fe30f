use vstd::prelude::*;

use crate::encoding::{
    kind_code, Byte, ByteArray, ByteArrayModel, ByteModel, Encoding, Integer, IntegerModel, Kind,
};
use crate::error::Error;
use crate::num::uint7_bytes;
use crate::num::vlq::write_sint7_64;
use crate::num::{signed_int_encoding, unsigned_encoding, write_int, write_signed_int, zigzag_encode};
use crate::version::Version;

verus! {

/// Joins two byte runs, each of which may be missing (unwritable).
pub open spec fn cat(a: Option<Seq<u8>>, b: Option<Seq<u8>>) -> Option<Seq<u8>> {
    match (a, b) {
        (Some(x), Some(y)) => Some(x + y),
        _ => None,
    }
}

/// An unsigned argument: from 4.0 on a negative value cannot be written.
pub open spec fn unsigned_arg(n: int, version: Version) -> Option<Seq<u8>> {
    if version.uses_vlq_spec() && n < 0 {
        None
    } else {
        Some(unsigned_encoding(n, version))
    }
}

/// Signed arguments, one after another.
pub open spec fn signed_list(xs: Seq<i32>, version: Version) -> Seq<u8>
    decreases xs.len(),
{
    if xs.len() == 0 {
        Seq::empty()
    } else {
        signed_list(xs.drop_last(), version) + signed_int_encoding(xs.last() as int, version)
    }
}

/// Bit lengths, one after another; each must fit an `i32`.
pub open spec fn u32_list(xs: Seq<u32>, version: Version) -> Option<Seq<u8>>
    decreases xs.len(),
{
    if xs.len() == 0 {
        Some(Seq::empty())
    } else if xs.last() > i32::MAX {
        None
    } else {
        cat(u32_list(xs.drop_last(), version), Some(unsigned_encoding(xs.last() as int, version)))
    }
}

/// Huffman arguments: each list with its count first.
pub open spec fn huffman_args(alphabet: Seq<i32>, bit_lens: Seq<u32>, version: Version) -> Option<Seq<u8>> {
    if alphabet.len() > i32::MAX || bit_lens.len() > i32::MAX {
        None
    } else {
        cat(
            Some(unsigned_encoding(alphabet.len() as int, version) + signed_list(alphabet, version)
                + unsigned_encoding(bit_lens.len() as int, version)),
            u32_list(bit_lens, version),
        )
    }
}

/// The arguments of an integer codec.
pub open spec fn integer_args(m: IntegerModel, version: Version) -> Option<Seq<u8>> {
    match m {
        IntegerModel::External(id) => unsigned_arg(id, version),
        IntegerModel::Golomb(a, b) => Some(signed_int_encoding(a, version) + signed_int_encoding(b, version)),
        IntegerModel::Huffman(a, b) => huffman_args(a, b, version),
        IntegerModel::Beta(o, l) => if l > i32::MAX {
            None
        } else {
            Some(signed_int_encoding(o, version) + unsigned_encoding(l, version))
        },
        IntegerModel::Subexp(a, b) => Some(signed_int_encoding(a, version) + signed_int_encoding(b, version)),
        IntegerModel::GolombRice(a, b) => Some(signed_int_encoding(a, version) + signed_int_encoding(b, version)),
        IntegerModel::Gamma(a) => Some(signed_int_encoding(a, version)),
        IntegerModel::VarintUnsigned(id, o) => cat(unsigned_arg(id, version), Some(uint7_bytes(zigzag_encode(o)))),
        IntegerModel::VarintSigned(id, o) => cat(unsigned_arg(id, version), Some(uint7_bytes(zigzag_encode(o)))),
        IntegerModel::ConstInt(a) => Some(signed_int_encoding(a, version)),
    }
}

pub open spec fn integer_kind(m: IntegerModel) -> Kind {
    match m {
        IntegerModel::External(..) => Kind::External,
        IntegerModel::Golomb(..) => Kind::Golomb,
        IntegerModel::Huffman(..) => Kind::Huffman,
        IntegerModel::Beta(..) => Kind::Beta,
        IntegerModel::Subexp(..) => Kind::Subexp,
        IntegerModel::GolombRice(..) => Kind::GolombRice,
        IntegerModel::Gamma(..) => Kind::Gamma,
        IntegerModel::VarintUnsigned(..) => Kind::VarintUnsigned,
        IntegerModel::VarintSigned(..) => Kind::VarintSigned,
        IntegerModel::ConstInt(..) => Kind::ConstInt,
    }
}

/// A codec on the wire: its kind, then its arguments with their length first.
pub open spec fn codec_bytes(kind: Kind, args: Option<Seq<u8>>, version: Version) -> Option<Seq<u8>> {
    match args {
        Some(a) => if a.len() > i32::MAX {
            None
        } else {
            Some(unsigned_encoding(kind_code(kind), version) + unsigned_encoding(a.len() as int, version) + a)
        },
        None => None,
    }
}

/// What `write_integer_encoding` writes, if it can be written.
pub open spec fn integer_encoding_bytes(m: IntegerModel, version: Version) -> Option<Seq<u8>> {
    codec_bytes(integer_kind(m), integer_args(m, version), version)
}

/// What `write_byte_encoding` writes, if it can be written.
pub open spec fn byte_encoding_bytes(m: ByteModel, version: Version) -> Option<Seq<u8>> {
    match m {
        ByteModel::External(id) => codec_bytes(Kind::External, unsigned_arg(id, version), version),
        ByteModel::Huffman(a, b) => codec_bytes(Kind::Huffman, huffman_args(a, b, version), version),
        ByteModel::Constant(c) => codec_bytes(Kind::ConstByte, Some(seq![c]), version),
    }
}

/// What `write_byte_array_encoding` writes, if it can be written.
pub open spec fn byte_array_encoding_bytes(m: ByteArrayModel, version: Version) -> Option<Seq<u8>> {
    match m {
        ByteArrayModel::ByteArrayLength(l, v) => codec_bytes(
            Kind::ByteArrayLength,
            cat(integer_encoding_bytes(l, version), byte_encoding_bytes(v, version)),
            version,
        ),
        ByteArrayModel::ByteArrayStop(stop, id) => codec_bytes(
            Kind::ByteArrayStop,
            cat(Some(seq![stop]), unsigned_arg(id, version)),
            version,
        ),
    }
}

/// The outcome of a write of `bytes` (if writable) to `before`.
pub open spec fn wrote(r: Result<(), Error>, bytes: Option<Seq<u8>>, before: Seq<u8>, after: Seq<u8>) -> bool {
    match bytes {
        Some(b) => r is Ok && after == before + b,
        None => r == Err::<(), Error>(Error::InvalidInput),
    }
}

fn write_kind(dst: &mut Vec<u8>, kind: Kind, version: Version) -> (r: Result<(), Error>)
    ensures
        r is Ok,
        final(dst)@ == old(dst)@ + unsigned_encoding(kind_code(kind), version),
{
    let n: i32 = match kind {
        Kind::Null => 0,
        Kind::External => 1,
        Kind::Golomb => 2,
        Kind::Huffman => 3,
        Kind::ByteArrayLength => 4,
        Kind::ByteArrayStop => 5,
        Kind::Beta => 6,
        Kind::Subexp => 7,
        Kind::GolombRice => 8,
        Kind::Gamma => 9,
        Kind::VarintUnsigned => 41,
        Kind::VarintSigned => 42,
        Kind::ConstByte => 43,
        Kind::ConstInt => 44,
    };
    write_int(dst, version, n)
}

/// Writes a codec: its kind, then `args` with their length first.
fn write_codec(dst: &mut Vec<u8>, kind: Kind, args: &Vec<u8>, version: Version) -> (r: Result<(), Error>)
    ensures
        wrote(r, codec_bytes(kind, Some(args@), version), old(dst)@, final(dst)@),
{
    if args.len() > i32::MAX as usize {
        return Err(Error::InvalidInput);
    }
    write_kind(dst, kind, version).unwrap();
    write_int(dst, version, args.len() as i32).unwrap();
    let mut i: usize = 0;
    let ghost mid = dst@;
    while i < args.len()
        invariant
            i <= args@.len(),
            dst@ == mid + args@.take(i as int),
        decreases args@.len() - i,
    {
        dst.push(args[i]);
        i += 1;
        assert(dst@ =~= mid + args@.take(i as int));
    }
    assert(args@.take(args@.len() as int) =~= args@);
    assert(dst@ =~= old(dst)@ + (unsigned_encoding(kind_code(kind), version) + unsigned_encoding(args@.len() as int, version) + args@));
    Ok(())
}

fn write_unsigned_arg(dst: &mut Vec<u8>, version: Version, value: i32) -> (r: Result<(), Error>)
    ensures
        wrote(r, unsigned_arg(value as int, version), old(dst)@, final(dst)@),
{
    write_int(dst, version, value)
}

/// Writes an External codec.
pub fn write_external_codec(dst: &mut Vec<u8>, block_content_id: i32, version: Version) -> (r: Result<(), Error>)
    ensures
        wrote(r, codec_bytes(Kind::External, unsigned_arg(block_content_id as int, version), version), old(dst)@, final(dst)@),
{
    let mut args: Vec<u8> = Vec::new();
    match write_unsigned_arg(&mut args, version, block_content_id) {
        Ok(()) => {},
        Err(e) => return Err(e),
    }
    assert(args@ =~= unsigned_arg(block_content_id as int, version)->Some_0);
    write_codec(dst, Kind::External, &args, version)
}

fn write_signed_pair_codec(dst: &mut Vec<u8>, kind: Kind, a: i32, b: i32, version: Version) -> (r: Result<(), Error>)
    ensures
        wrote(r, codec_bytes(kind, Some(signed_int_encoding(a as int, version) + signed_int_encoding(b as int, version)), version), old(dst)@, final(dst)@),
{
    let mut args: Vec<u8> = Vec::new();
    write_signed_int(&mut args, version, a).unwrap();
    write_signed_int(&mut args, version, b).unwrap();
    assert(args@ =~= signed_int_encoding(a as int, version) + signed_int_encoding(b as int, version));
    write_codec(dst, kind, &args, version)
}

/// Writes a Golomb codec.
pub fn write_golomb_codec(dst: &mut Vec<u8>, offset: i32, m: i32, version: Version) -> (r: Result<(), Error>)
    ensures
        wrote(r, integer_encoding_bytes(IntegerModel::Golomb(offset as int, m as int), version), old(dst)@, final(dst)@),
{
    write_signed_pair_codec(dst, Kind::Golomb, offset, m, version)
}

/// Writes a Subexp codec.
pub fn write_subexp_codec(dst: &mut Vec<u8>, offset: i32, k: i32, version: Version) -> (r: Result<(), Error>)
    ensures
        wrote(r, integer_encoding_bytes(IntegerModel::Subexp(offset as int, k as int), version), old(dst)@, final(dst)@),
{
    write_signed_pair_codec(dst, Kind::Subexp, offset, k, version)
}

/// Writes a Golomb-Rice codec.
pub fn write_golomb_rice_codec(dst: &mut Vec<u8>, offset: i32, log2_m: i32, version: Version) -> (r: Result<(), Error>)
    ensures
        wrote(r, integer_encoding_bytes(IntegerModel::GolombRice(offset as int, log2_m as int), version), old(dst)@, final(dst)@),
{
    write_signed_pair_codec(dst, Kind::GolombRice, offset, log2_m, version)
}

fn write_signed_codec(dst: &mut Vec<u8>, kind: Kind, a: i32, version: Version) -> (r: Result<(), Error>)
    ensures
        wrote(r, codec_bytes(kind, Some(signed_int_encoding(a as int, version)), version), old(dst)@, final(dst)@),
{
    let mut args: Vec<u8> = Vec::new();
    write_signed_int(&mut args, version, a).unwrap();
    assert(args@ =~= signed_int_encoding(a as int, version));
    write_codec(dst, kind, &args, version)
}

/// Writes a Gamma codec.
pub fn write_gamma_codec(dst: &mut Vec<u8>, offset: i32, version: Version) -> (r: Result<(), Error>)
    ensures
        wrote(r, integer_encoding_bytes(IntegerModel::Gamma(offset as int), version), old(dst)@, final(dst)@),
{
    write_signed_codec(dst, Kind::Gamma, offset, version)
}

/// Writes a ConstInt codec.
pub fn write_const_int_codec(dst: &mut Vec<u8>, value: i32, version: Version) -> (r: Result<(), Error>)
    ensures
        wrote(r, integer_encoding_bytes(IntegerModel::ConstInt(value as int), version), old(dst)@, final(dst)@),
{
    write_signed_codec(dst, Kind::ConstInt, value, version)
}

/// Writes a ConstByte codec.
pub fn write_const_byte_codec(dst: &mut Vec<u8>, value: u8, version: Version) -> (r: Result<(), Error>)
    ensures
        wrote(r, byte_encoding_bytes(ByteModel::Constant(value), version), old(dst)@, final(dst)@),
{
    let mut args: Vec<u8> = Vec::new();
    args.push(value);
    assert(args@ =~= seq![value]);
    write_codec(dst, Kind::ConstByte, &args, version)
}

/// Writes a Beta codec.
pub fn write_beta_codec(dst: &mut Vec<u8>, offset: i32, len: u32, version: Version) -> (r: Result<(), Error>)
    ensures
        wrote(r, integer_encoding_bytes(IntegerModel::Beta(offset as int, len as int), version), old(dst)@, final(dst)@),
{
    if len > i32::MAX as u32 {
        return Err(Error::InvalidInput);
    }
    let mut args: Vec<u8> = Vec::new();
    write_signed_int(&mut args, version, offset).unwrap();
    write_int(&mut args, version, len as i32).unwrap();
    assert(args@ =~= signed_int_encoding(offset as int, version) + unsigned_encoding(len as int, version));
    write_codec(dst, Kind::Beta, &args, version)
}

fn write_varint_codec(dst: &mut Vec<u8>, kind: Kind, block_content_id: i32, offset: i64, version: Version) -> (r: Result<(), Error>)
    ensures
        wrote(r, codec_bytes(kind, cat(unsigned_arg(block_content_id as int, version), Some(uint7_bytes(zigzag_encode(offset as int)))), version), old(dst)@, final(dst)@),
{
    let mut args: Vec<u8> = Vec::new();
    match write_unsigned_arg(&mut args, version, block_content_id) {
        Ok(()) => {},
        Err(e) => return Err(e),
    }
    write_sint7_64(&mut args, offset).unwrap();
    assert(args@ =~= unsigned_arg(block_content_id as int, version)->Some_0 + uint7_bytes(zigzag_encode(offset as int)));
    write_codec(dst, kind, &args, version)
}

/// Writes a VarintUnsigned codec.
pub fn write_varint_unsigned_codec(dst: &mut Vec<u8>, block_content_id: i32, offset: i64, version: Version) -> (r: Result<(), Error>)
    ensures
        wrote(r, integer_encoding_bytes(IntegerModel::VarintUnsigned(block_content_id as int, offset as int), version), old(dst)@, final(dst)@),
{
    write_varint_codec(dst, Kind::VarintUnsigned, block_content_id, offset, version)
}

/// Writes a VarintSigned codec.
pub fn write_varint_signed_codec(dst: &mut Vec<u8>, block_content_id: i32, offset: i64, version: Version) -> (r: Result<(), Error>)
    ensures
        wrote(r, integer_encoding_bytes(IntegerModel::VarintSigned(block_content_id as int, offset as int), version), old(dst)@, final(dst)@),
{
    write_varint_codec(dst, Kind::VarintSigned, block_content_id, offset, version)
}

} // verus!

verus! {

/// Writes a Huffman codec.
pub fn write_huffman_codec(dst: &mut Vec<u8>, alphabet: &[i32], bit_lens: &[u32], version: Version) -> (r: Result<(), Error>)
    ensures
        wrote(r, codec_bytes(Kind::Huffman, huffman_args(alphabet@, bit_lens@, version), version), old(dst)@, final(dst)@),
{
    if alphabet.len() > i32::MAX as usize || bit_lens.len() > i32::MAX as usize {
        return Err(Error::InvalidInput);
    }
    let mut args: Vec<u8> = Vec::new();
    write_int(&mut args, version, alphabet.len() as i32).unwrap();
    let mut i: usize = 0;
    let ghost a0 = args@;
    while i < alphabet.len()
        invariant
            i <= alphabet@.len(),
            args@ == a0 + signed_list(alphabet@.take(i as int), version),
        decreases alphabet@.len() - i,
    {
        write_signed_int(&mut args, version, alphabet[i]).unwrap();
        i += 1;
        assert(alphabet@.take(i as int).drop_last() =~= alphabet@.take(i - 1));
        assert(args@ =~= a0 + signed_list(alphabet@.take(i as int), version));
    }
    assert(alphabet@.take(alphabet@.len() as int) =~= alphabet@);
    write_int(&mut args, version, bit_lens.len() as i32).unwrap();
    let ghost a1 = args@;
    let mut j: usize = 0;
    while j < bit_lens.len()
        invariant
            j <= bit_lens@.len(),
            u32_list(bit_lens@.take(j as int), version) is Some,
            args@ == a1 + u32_list(bit_lens@.take(j as int), version)->Some_0,
        decreases bit_lens@.len() - j,
    {
        assert(bit_lens@.take(j + 1).drop_last() =~= bit_lens@.take(j as int));
        if bit_lens[j] > i32::MAX as u32 {
            proof {
                lemma_u32_list_none_at(bit_lens@, (j + 1) as nat, version);
            }
            return Err(Error::InvalidInput);
        }
        write_int(&mut args, version, bit_lens[j] as i32).unwrap();
        j += 1;
        assert(args@ =~= a1 + u32_list(bit_lens@.take(j as int), version)->Some_0);
    }
    assert(bit_lens@.take(bit_lens@.len() as int) =~= bit_lens@);
    assert(args@ =~= huffman_args(alphabet@, bit_lens@, version)->Some_0);
    write_codec(dst, Kind::Huffman, &args, version)
}

proof fn lemma_u32_list_none_at(xs: Seq<u32>, j: nat, v: Version)
    requires
        0 < j <= xs.len(),
        xs[j - 1] > i32::MAX,
    ensures
        u32_list(xs, v) is None,
    decreases xs.len(),
{
    if j < xs.len() {
        lemma_u32_list_none_at(xs.drop_last(), j, v);
    }
}

/// Writes a ByteArrayStop codec.
pub fn write_byte_array_stop_codec(dst: &mut Vec<u8>, stop_byte: u8, block_content_id: i32, version: Version) -> (r: Result<(), Error>)
    ensures
        wrote(r, byte_array_encoding_bytes(ByteArrayModel::ByteArrayStop(stop_byte, block_content_id as int), version), old(dst)@, final(dst)@),
{
    let mut args: Vec<u8> = Vec::new();
    args.push(stop_byte);
    match write_unsigned_arg(&mut args, version, block_content_id) {
        Ok(()) => {},
        Err(e) => return Err(e),
    }
    assert(args@ =~= seq![stop_byte] + unsigned_arg(block_content_id as int, version)->Some_0);
    write_codec(dst, Kind::ByteArrayStop, &args, version)
}

/// Writes an integer encoding.
pub fn write_integer_encoding(dst: &mut Vec<u8>, encoding: &Encoding<Integer>, version: Version) -> (r: Result<(), Error>)
    ensures
        wrote(r, integer_encoding_bytes(encoding.codec@, version), old(dst)@, final(dst)@),
{
    match encoding.get() {
        Integer::External { block_content_id } => write_external_codec(dst, *block_content_id, version),
        Integer::Golomb { offset, m } => write_golomb_codec(dst, *offset, *m, version),
        Integer::Huffman { alphabet, bit_lens } => write_huffman_codec(dst, alphabet.as_slice(), bit_lens.as_slice(), version),
        Integer::Beta { offset, len } => write_beta_codec(dst, *offset, *len, version),
        Integer::Subexp { offset, k } => write_subexp_codec(dst, *offset, *k, version),
        Integer::GolombRice { offset, log2_m } => write_golomb_rice_codec(dst, *offset, *log2_m, version),
        Integer::Gamma { offset } => write_gamma_codec(dst, *offset, version),
        Integer::VarintUnsigned { block_content_id, offset } => write_varint_unsigned_codec(dst, *block_content_id, *offset, version),
        Integer::VarintSigned { block_content_id, offset } => write_varint_signed_codec(dst, *block_content_id, *offset, version),
        Integer::ConstInt { value } => write_const_int_codec(dst, *value, version),
    }
}

/// Writes a byte encoding.
pub fn write_byte_encoding(dst: &mut Vec<u8>, encoding: &Encoding<Byte>, version: Version) -> (r: Result<(), Error>)
    ensures
        wrote(r, byte_encoding_bytes(encoding.codec@, version), old(dst)@, final(dst)@),
{
    match encoding.get() {
        Byte::External { block_content_id } => write_external_codec(dst, *block_content_id, version),
        Byte::Huffman { alphabet, bit_lens } => write_huffman_codec(dst, alphabet.as_slice(), bit_lens.as_slice(), version),
        Byte::Constant { value } => write_const_byte_codec(dst, *value, version),
    }
}

/// Writes a ByteArrayLength codec: the length encoding, then the value encoding.
pub fn write_byte_array_length_codec(dst: &mut Vec<u8>, len_encoding: &Encoding<Integer>, value_encoding: &Encoding<Byte>, version: Version) -> (r: Result<(), Error>)
    ensures
        wrote(r, byte_array_encoding_bytes(ByteArrayModel::ByteArrayLength(len_encoding.codec@, value_encoding.codec@), version), old(dst)@, final(dst)@),
{
    let mut args: Vec<u8> = Vec::new();
    match write_integer_encoding(&mut args, len_encoding, version) {
        Ok(()) => {},
        Err(e) => return Err(e),
    }
    let ghost a0 = args@;
    match write_byte_encoding(&mut args, value_encoding, version) {
        Ok(()) => {},
        Err(e) => return Err(e),
    }
    assert(args@ =~= a0 + byte_encoding_bytes(value_encoding.codec@, version)->Some_0);
    write_codec(dst, Kind::ByteArrayLength, &args, version)
}

/// Writes a byte-array encoding.
pub fn write_byte_array_encoding(dst: &mut Vec<u8>, encoding: &Encoding<ByteArray>, version: Version) -> (r: Result<(), Error>)
    ensures
        wrote(r, byte_array_encoding_bytes(encoding.codec@, version), old(dst)@, final(dst)@),
{
    match encoding.get() {
        ByteArray::ByteArrayLength { len_encoding, value_encoding } => write_byte_array_length_codec(dst, len_encoding, value_encoding, version),
        ByteArray::ByteArrayStop { stop_byte, block_content_id } => write_byte_array_stop_codec(dst, *stop_byte, *block_content_id, version),
    }
}

} // verus!
