use vstd::prelude::*;

use std::collections::HashMap;
use vstd::arithmetic::power2::{pow2, lemma2_to64};

use crate::bits::{bits_value, leading_run, num_bits, pow2_u64, unpack, zero_bits, BitReader, BitWriter};
use crate::encoding::read::after;
use crate::encoding::{Byte, ByteModel, Encoding, Integer, IntegerModel};
use crate::error::Error;
use crate::huffman::{canonical_code, decode_from, index_of, valid_alphabet, CanonicalHuffmanDecoder, CanonicalHuffmanEncoder};
use crate::num::itf8::{itf8_encoding, itf8_parse, read_itf8, write_itf8};
use crate::num::vlq::{read_sint7_64, read_uint7_64, uint7_64_parse, write_sint7_64, write_uint7_64};
use crate::num::{i32_of_bits, u32_bits, uint7_bytes, zigzag_decode, zigzag_encode};

verus! {

broadcast use vstd::std_specs::hash::group_hash_axioms;

/// The byte streams of a slice's external blocks, by block content id.
pub struct ExternalDataReaders<'a> {
    pub map: HashMap<i32, &'a [u8]>,
}

impl<'a> ExternalDataReaders<'a> {
    /// What is left of the stream with content id `id`, if there is one.
    pub open spec fn stream(&self, id: i32) -> Option<Seq<u8>> {
        if self.map@.contains_key(id) {
            Some(self.map@[id]@)
        } else {
            None
        }
    }

    pub fn new() -> (r: ExternalDataReaders<'a>)
        ensures
            forall|id: i32| r.stream(id) is None,
    {
        ExternalDataReaders { map: HashMap::new() }
    }

    /// Adds (or replaces) the stream with content id `id`.
    pub fn insert(&mut self, id: i32, src: &'a [u8])
        ensures
            final(self).stream(id) == Some(src@),
            forall|other: i32| other != id ==> final(self).stream(other) == old(self).stream(other),
    {
        self.map.insert(id, src);
    }

    /// Reads an ITF8 integer from the stream with content id `id`.
    fn read_itf8_from(&mut self, id: i32) -> (r: Result<i32, Error>)
        ensures
            match old(self).stream(id) {
                None => r == Err::<i32, Error>(Error::InvalidData),
                Some(s) => match itf8_parse(s) {
                    Ok((v, k)) => r == Ok::<i32, Error>(v as i32) && final(self).stream(id) == Some(after(s, k)),
                    Err(e) => r == Err::<i32, Error>(e),
                },
            },
            forall|other: i32| other != id ==> final(self).stream(other) == old(self).stream(other),
    {
        let mut s: &[u8] = match self.map.get(&id) {
            Some(s) => *s,
            None => return Err(Error::InvalidData),
        };
        let r = read_itf8(&mut s);
        self.map.insert(id, s);
        r
    }

    /// Reads a uint7_64 from the stream with content id `id`.
    fn read_uint7_64_from(&mut self, id: i32) -> (r: Result<u64, Error>)
        ensures
            match old(self).stream(id) {
                None => r == Err::<u64, Error>(Error::InvalidData),
                Some(s) => match uint7_64_parse(s) {
                    Ok((v, k)) => r == Ok::<u64, Error>(v as u64) && final(self).stream(id) == Some(after(s, k)),
                    Err(e) => r == Err::<u64, Error>(e),
                },
            },
            forall|other: i32| other != id ==> final(self).stream(other) == old(self).stream(other),
    {
        let mut s: &[u8] = match self.map.get(&id) {
            Some(s) => *s,
            None => return Err(Error::InvalidData),
        };
        let r = read_uint7_64(&mut s);
        self.map.insert(id, s);
        r
    }
}

/// The output byte streams of a slice's external blocks, by block content id.
pub struct ExternalDataWriters {
    pub map: HashMap<i32, Vec<u8>>,
}

impl ExternalDataWriters {
    /// What has been written to the stream with content id `id`, if there is one.
    pub open spec fn stream(&self, id: i32) -> Option<Seq<u8>> {
        if self.map@.contains_key(id) {
            Some(self.map@[id]@)
        } else {
            None
        }
    }

    pub fn new() -> (r: ExternalDataWriters)
        ensures
            forall|id: i32| r.stream(id) is None,
    {
        ExternalDataWriters { map: HashMap::new() }
    }

    /// Opens an empty stream with content id `id`, replacing any there was.
    pub fn insert(&mut self, id: i32)
        ensures
            final(self).stream(id) == Some(Seq::<u8>::empty()),
            forall|other: i32| other != id ==> final(self).stream(other) == old(self).stream(other),
    {
        self.map.insert(id, Vec::new());
    }

    /// What has been written to the stream with content id `id`.
    pub fn get(&self, id: i32) -> (r: Option<&Vec<u8>>)
        ensures
            match self.stream(id) {
                Some(s) => r is Some && r->Some_0@ == s,
                None => r is None,
            },
    {
        self.map.get(&id)
    }

    /// Appends `bytes` to the stream with content id `id`; a missing stream is invalid data.
    fn append_to(&mut self, id: i32, bytes: &Vec<u8>) -> (r: Result<(), Error>)
        ensures
            match old(self).stream(id) {
                None => r == Err::<(), Error>(Error::InvalidData) && final(self).stream(id) == old(self).stream(id),
                Some(s) => r is Ok && final(self).stream(id) == Some(s + bytes@),
            },
            forall|other: i32| other != id ==> final(self).stream(other) == old(self).stream(other),
    {
        let mut b = match self.map.remove(&id) {
            Some(b) => b,
            None => return Err(Error::InvalidData),
        };
        let mut j: usize = 0;
        let ghost b0 = b@;
        while j < bytes.len()
            invariant
                j <= bytes@.len(),
                b@ == b0 + bytes@.take(j as int),
            decreases bytes@.len() - j,
        {
            b.push(bytes[j]);
            j += 1;
            assert(b@ =~= b0 + bytes@.take(j as int));
        }
        assert(bytes@.take(bytes@.len() as int) =~= bytes@);
        self.map.insert(id, b);
        Ok(())
    }
}

/// The number of bits that `x` takes: 0 for 0.
pub open spec fn bit_len(x: nat) -> nat
    decreases x,
{
    if x == 0 {
        0
    } else {
        1 + bit_len(x / 2)
    }
}

/// Elias gamma: `n` zero bits, a one bit, then the `n` low bits of `x`,
/// where `2^n <= x < 2^(n+1)`. Yields `x - offset` and the bits taken.
pub open spec fn gamma_decode(b: Seq<bool>, offset: int) -> Result<(int, nat), Error> {
    let n = leading_run(b, false);
    if n == b.len() {
        Err(Error::UnexpectedEof)
    } else if n >= 31 {
        Err(Error::InvalidData)
    } else if b.len() < 2 * n + 1 {
        Err(Error::UnexpectedEof)
    } else {
        Ok((pow2(n) + bits_value(b.skip((n + 1) as int).take(n as int)) - offset, (2 * n + 1) as nat))
    }
}

/// Golomb with parameter `m`: the quotient in unary (zeros, then a one),
/// then the remainder in truncated binary over `b = bit_len(m - 1)` bits.
pub open spec fn golomb_decode(b: Seq<bool>, offset: int, m: int) -> Result<(int, nat), Error> {
    let q = leading_run(b, false);
    if m <= 0 {
        Err(Error::InvalidData)
    } else if q == b.len() {
        Err(Error::UnexpectedEof)
    } else if q > i32::MAX {
        Err(Error::InvalidData)
    } else {
        let rest = b.skip((q + 1) as int);
        let bb = bit_len((m - 1) as nat);
        if bb == 0 {
            Ok((q - offset, q + 1))
        } else if rest.len() < bb - 1 {
            Err(Error::UnexpectedEof)
        } else if bits_value(rest.take(bb - 1 as int)) < pow2(bb) - m {
            Ok((q * m + bits_value(rest.take(bb - 1 as int)) - offset, (q + bb) as nat))
        } else if rest.len() < bb {
            Err(Error::UnexpectedEof)
        } else {
            Ok((q * m + bits_value(rest.take(bb as int)) - (pow2(bb) - m) - offset, q + 1 + bb))
        }
    }
}

/// Golomb-Rice with `M = 2^log2_m`: the quotient in unary, then the
/// remainder in `log2_m` bits.
pub open spec fn golomb_rice_decode(b: Seq<bool>, offset: int, log2_m: int) -> Result<(int, nat), Error> {
    let q = leading_run(b, false);
    if log2_m < 0 || log2_m >= 32 {
        Err(Error::InvalidData)
    } else if q == b.len() {
        Err(Error::UnexpectedEof)
    } else if q > i32::MAX {
        Err(Error::InvalidData)
    } else if b.len() < q + 1 + log2_m {
        Err(Error::UnexpectedEof)
    } else {
        Ok((q * pow2(log2_m as nat) + bits_value(b.skip((q + 1) as int).take(log2_m)) - offset, (q + 1 + log2_m) as nat))
    }
}

/// Subexponential with parameter `k`: the group in unary (ones, then a
/// zero); groups 0 and 1 hold `k + group` bits, later ones `k + 2 group - 1`
/// bits offset by `2^(k+1) - 2^k`. A field past 32 bits is invalid.
pub open spec fn subexp_decode(b: Seq<bool>, offset: int, k: int) -> Result<(int, nat), Error> {
    let n = leading_run(b, true);
    if k < 0 || k >= 32 {
        Err(Error::InvalidData)
    } else if n == b.len() {
        Err(Error::UnexpectedEof)
    } else {
        let bits: int = if n < 2 {
            k + n
        } else {
            k + 2 * n - 1
        };
        if bits > 32 {
            Err(Error::InvalidData)
        } else if b.len() < n + 1 + bits {
            Err(Error::UnexpectedEof)
        } else {
            let x = i32_of_bits(bits_value(b.skip((n + 1) as int).take(bits)));
            let v = if n < 2 {
                x
            } else {
                x + pow2((k + 1) as nat) - pow2(k as nat)
            };
            Ok((v - offset, (n + 1 + bits) as nat))
        }
    }
}

/// Beta: `len` bits, big-endian, taken as a signed 32-bit pattern.
pub open spec fn beta_decode(b: Seq<bool>, offset: int, len: int) -> Result<(int, nat), Error> {
    if len > 32 {
        Err(Error::InvalidData)
    } else if b.len() < len {
        Err(Error::UnexpectedEof)
    } else {
        Ok((i32_of_bits(bits_value(b.take(len))) - offset, len as nat))
    }
}

/// The content id of the external stream that an integer codec reads.
pub open spec fn external_id(m: IntegerModel) -> Option<i32> {
    match m {
        IntegerModel::External(id) => Some(id as i32),
        IntegerModel::VarintUnsigned(id, _) => Some(id as i32),
        IntegerModel::VarintSigned(id, _) => Some(id as i32),
        _ => None,
    }
}

/// What decoding one value with an integer codec yields from the core bits
/// `b` and the codec's external stream `s`: the value, the core bits taken
/// and the stream bytes taken. A missing stream is invalid data.
pub open spec fn integer_decode(m: IntegerModel, b: Seq<bool>, s: Option<Seq<u8>>) -> Result<(int, nat, nat), Error> {
    match m {
        IntegerModel::External(_) => match s {
            None => Err(Error::InvalidData),
            Some(s) => match itf8_parse(s) {
                Ok((v, k)) => Ok((v, 0, k)),
                Err(e) => Err(e),
            },
        },
        IntegerModel::Huffman(a, l) => if a.len() == 1 {
            Ok((a[0] as int, 0, 0))
        } else if !valid_alphabet(a, l) {
            Err(Error::InvalidData)
        } else {
            match decode_from(a, l, b, 0) {
                Ok((sym, n)) => Ok((sym as int, n, 0)),
                Err(e) => Err(e),
            }
        },
        IntegerModel::Beta(o, len) => bits_only(beta_decode(b, o, len)),
        IntegerModel::Gamma(o) => bits_only(gamma_decode(b, o)),
        IntegerModel::Golomb(o, mm) => bits_only(golomb_decode(b, o, mm)),
        IntegerModel::GolombRice(o, l) => bits_only(golomb_rice_decode(b, o, l)),
        IntegerModel::Subexp(o, k) => bits_only(subexp_decode(b, o, k)),
        IntegerModel::VarintUnsigned(_, o) => match s {
            None => Err(Error::InvalidData),
            Some(s) => match uint7_64_parse(s) {
                Ok((u, k)) => if u > i64::MAX || u + o < i64::MIN || u + o > i64::MAX {
                    Err(Error::InvalidData)
                } else {
                    Ok((u + o, 0, k))
                },
                Err(e) => Err(e),
            },
        },
        IntegerModel::VarintSigned(_, o) => match s {
            None => Err(Error::InvalidData),
            Some(s) => match uint7_64_parse(s) {
                Ok((u, k)) => if zigzag_decode(u) + o < i64::MIN || zigzag_decode(u) + o > i64::MAX {
                    Err(Error::InvalidData)
                } else {
                    Ok((zigzag_decode(u) + o, 0, k))
                },
                Err(e) => Err(e),
            },
        },
        IntegerModel::ConstInt(v) => Ok((v, 0, 0)),
    }
}

pub open spec fn bits_only(r: Result<(int, nat), Error>) -> Result<(int, nat, nat), Error> {
    match r {
        Ok((v, n)) => Ok((v, n, 0)),
        Err(e) => Err(e),
    }
}

/// Codec parameters that no value can be decoded with: Golomb `m <= 0`,
/// Golomb-Rice `log2_m` or Subexp `k` outside `[0, 32)`.
pub open spec fn bad_params(m: IntegerModel) -> bool {
    match m {
        IntegerModel::Golomb(_, mm) => mm <= 0,
        IntegerModel::GolombRice(_, l) => l < 0 || l >= 32,
        IntegerModel::Subexp(_, k) => k < 0 || k >= 32,
        _ => false,
    }
}

/// `r` is what the bit-only decoding `d` describes, the reader having moved
/// from `old_pos` to `new_pos` past the bits taken.
pub open spec fn decoded_bits(r: Result<i64, Error>, d: Result<(int, nat), Error>, old_pos: usize, new_pos: usize) -> bool {
    match d {
        Ok((v, n)) => r is Ok && r->Ok_0 as int == v && new_pos == old_pos + n,
        Err(e) => r == Err::<i64, Error>(e),
    }
}

fn decode_gamma(core: &mut BitReader, offset: i32) -> (r: Result<i64, Error>)
    requires
        old(core).wf(),
        8 * old(core).src@.len() <= usize::MAX,
    ensures
        final(core).wf(),
        final(core).src == old(core).src,
        decoded_bits(r, gamma_decode(old(core).remaining(), offset as int), old(core).pos, final(core).pos),
{
    let ghost rem0 = core.remaining();
    let ghost pos0 = core.pos;
    proof {
        crate::bits::lemma_leading_run_bound(rem0, false);
        crate::bits::lemma_unpack_len(core.src@);
    }
    let n = match core.read_unary(false) {
        Ok(n) => n,
        Err(e) => return Err(e),
    };
    if n >= 31 {
        return Err(Error::InvalidData);
    }
    proof {
        core.lemma_remaining_after(pos0, rem0, (n + 1) as nat);
    }
    let m = match core.read_u32(n as u32) {
        Ok(m) => m,
        Err(e) => return Err(e),
    };
    proof {
        lemma2_to64();
        vstd::arithmetic::power2::lemma_pow2_strictly_increases(n as nat, 31);
        crate::huffman::lemma_bits_value_bound(rem0.skip((n + 1) as int).take(n as int));
    }
    Ok(pow2_u64(n as u32) as i64 + m as i64 - offset as i64)
}

fn bit_len_u32(x: u32) -> (r: u32)
    ensures
        r as nat == bit_len(x as nat),
{
    let mut c: u32 = 0;
    let mut y: u32 = x;
    proof {
        lemma_bit_len_le(x as nat);
    }
    while y > 0
        invariant
            bit_len(x as nat) == c + bit_len(y as nat),
            bit_len(x as nat) <= 32,
        decreases y,
    {
        c += 1;
        y = y / 2;
    }
    c
}

pub proof fn lemma_bit_len_pow2(x: nat)
    ensures
        pow2(bit_len(x)) > x,
        x > 0 ==> pow2((bit_len(x) - 1) as nat) <= x,
    decreases x,
{
    lemma2_to64();
    if x > 0 {
        lemma_bit_len_pow2(x / 2);
        vstd::arithmetic::power2::lemma_pow2_unfold(bit_len(x));
        if x / 2 > 0 {
            vstd::arithmetic::power2::lemma_pow2_unfold(bit_len(x / 2));
        }
    }
}

pub proof fn lemma_bit_len_le(x: nat)
    requires
        x < 0x1_0000_0000,
    ensures
        bit_len(x) <= 32,
{
    lemma_bit_len_pow2(x);
    lemma2_to64();
    if bit_len(x) > 32 {
        vstd::arithmetic::power2::lemma_pow2_strictly_increases(32, (bit_len(x) - 1) as nat);
    }
}

fn decode_beta(core: &mut BitReader, offset: i32, len: u32) -> (r: Result<i64, Error>)
    requires
        old(core).wf(),
        8 * old(core).src@.len() <= usize::MAX,
    ensures
        final(core).wf(),
        final(core).src == old(core).src,
        decoded_bits(r, beta_decode(old(core).remaining(), offset as int, len as int), old(core).pos, final(core).pos),
{
    if len > 32 {
        return Err(Error::InvalidData);
    }
    let x = match core.read_i32(len) {
        Ok(x) => x,
        Err(e) => return Err(e),
    };
    Ok(x as i64 - offset as i64)
}

#[verifier::rlimit(60)]
fn decode_golomb(core: &mut BitReader, offset: i32, m: i32) -> (r: Result<i64, Error>)
    requires
        old(core).wf(),
        8 * old(core).src@.len() <= usize::MAX,
    ensures
        final(core).wf(),
        final(core).src == old(core).src,
        decoded_bits(r, golomb_decode(old(core).remaining(), offset as int, m as int), old(core).pos, final(core).pos),
        m <= 0 ==> final(core).pos == old(core).pos,
{
    if m <= 0 {
        return Err(Error::InvalidData);
    }
    let ghost rem0 = core.remaining();
    let ghost pos0 = core.pos;
    proof {
        crate::bits::lemma_leading_run_bound(rem0, false);
        crate::bits::lemma_unpack_len(core.src@);
    }
    let q = match core.read_unary(false) {
        Ok(q) => q,
        Err(e) => return Err(e),
    };
    if q > i32::MAX as u64 {
        return Err(Error::InvalidData);
    }
    proof {
        core.lemma_remaining_after(pos0, rem0, (q + 1) as nat);
    }
    let ghost rest = rem0.skip((q + 1) as int);
    let bb = bit_len_u32((m - 1) as u32);
    proof {
        lemma_bit_len_pow2((m - 1) as nat);
        lemma_bit_len_le((m - 1) as nat);
        lemma2_to64();
        if bb < 32 {
            vstd::arithmetic::power2::lemma_pow2_strictly_increases(bb as nat, 32);
        }
        if bb > 0 {
            vstd::arithmetic::power2::lemma_pow2_unfold(bb as nat);
        }
    }
    let value: i64 = if bb == 0 {
        q as i64
    } else {
        let r = match core.read_u32(bb - 1) {
            Ok(r) => r,
            Err(e) => return Err(e),
        };
        let threshold: i64 = pow2_u64(bb) as i64 - m as i64;
        proof {
            crate::huffman::lemma_bits_value_bound(rest.take(bb - 1 as int));
            assert(q * m <= 0x7fff_ffff * 0x7fff_ffff) by (nonlinear_arith)
                requires q <= 0x7fff_ffff, 0 < m <= 0x7fff_ffff;
            assert(q * m >= 0) by (nonlinear_arith)
                requires q >= 0, m > 0;
        }
        if (r as i64) < threshold {
            q as i64 * m as i64 + r as i64
        } else {
            let ghost pos1 = core.pos;
            proof {
                core.lemma_remaining_after(pos0, rem0, (q + bb) as nat);
            }
            let extra = match core.read_u32(1) {
                Ok(e) => e,
                Err(e) => return Err(e),
            };
            proof {
                crate::huffman::lemma_bits_value_split(rest, (bb - 1) as nat, 1);
                assert(rest.skip(bb - 1 as int).take(1) =~= rem0.skip((q + bb) as int).take(1));
                crate::huffman::lemma_bits_value_bound(rest.take(bb as int));
                assert((bb - 1 + 1) as nat == bb as nat);
                assert(pow2(1) == 2);
            }
            q as i64 * m as i64 + (r as i64 * 2 + extra as i64) - threshold
        }
    };
    Ok(value - offset as i64)
}

fn decode_golomb_rice(core: &mut BitReader, offset: i32, log2_m: i32) -> (r: Result<i64, Error>)
    requires
        old(core).wf(),
        8 * old(core).src@.len() <= usize::MAX,
    ensures
        final(core).wf(),
        final(core).src == old(core).src,
        decoded_bits(r, golomb_rice_decode(old(core).remaining(), offset as int, log2_m as int), old(core).pos, final(core).pos),
        log2_m < 0 || log2_m >= 32 ==> final(core).pos == old(core).pos,
{
    if log2_m < 0 || log2_m >= 32 {
        return Err(Error::InvalidData);
    }
    let ghost rem0 = core.remaining();
    let ghost pos0 = core.pos;
    proof {
        crate::bits::lemma_leading_run_bound(rem0, false);
        crate::bits::lemma_unpack_len(core.src@);
    }
    let q = match core.read_unary(false) {
        Ok(q) => q,
        Err(e) => return Err(e),
    };
    if q > i32::MAX as u64 {
        return Err(Error::InvalidData);
    }
    proof {
        core.lemma_remaining_after(pos0, rem0, (q + 1) as nat);
    }
    let r = match core.read_u32(log2_m as u32) {
        Ok(r) => r,
        Err(e) => return Err(e),
    };
    proof {
        lemma2_to64();
        vstd::arithmetic::power2::lemma_pow2_strictly_increases(log2_m as nat, 32);
        assert(q * pow2(log2_m as nat) <= 0x7fff_ffff * 0x8000_0000) by (nonlinear_arith)
            requires q <= 0x7fff_ffff, pow2(log2_m as nat) <= 0x8000_0000;
    }
    Ok(q as i64 * pow2_u64(log2_m as u32) as i64 + r as i64 - offset as i64)
}

fn decode_subexp(core: &mut BitReader, offset: i32, k: i32) -> (r: Result<i64, Error>)
    requires
        old(core).wf(),
        8 * old(core).src@.len() <= usize::MAX,
    ensures
        final(core).wf(),
        final(core).src == old(core).src,
        decoded_bits(r, subexp_decode(old(core).remaining(), offset as int, k as int), old(core).pos, final(core).pos),
        k < 0 || k >= 32 ==> final(core).pos == old(core).pos,
{
    if k < 0 || k >= 32 {
        return Err(Error::InvalidData);
    }
    let ghost rem0 = core.remaining();
    let ghost pos0 = core.pos;
    proof {
        crate::bits::lemma_leading_run_bound(rem0, true);
        crate::bits::lemma_unpack_len(core.src@);
    }
    let n = match core.read_unary(true) {
        Ok(n) => n,
        Err(e) => return Err(e),
    };
    let bits: u64 = if n < 2 {
        k as u64 + n
    } else {
        if n > 32 {
            return Err(Error::InvalidData);
        }
        k as u64 + 2 * n - 1
    };
    if bits > 32 {
        return Err(Error::InvalidData);
    }
    proof {
        core.lemma_remaining_after(pos0, rem0, (n + 1) as nat);
    }
    let x = match core.read_i32(bits as u32) {
        Ok(x) => x,
        Err(e) => return Err(e),
    };
    proof {
        lemma2_to64();
        if k + 1 < 33 {
            vstd::arithmetic::power2::lemma_pow2_strictly_increases((k + 1) as nat, 33);
        }
        vstd::arithmetic::power2::lemma_pow2_strictly_increases(k as nat, 33);
    }
    let v: i64 = if n < 2 {
        x as i64
    } else {
        x as i64 + pow2_u64((k + 1) as u32) as i64 - pow2_u64(k as u32) as i64
    };
    Ok(v - offset as i64)
}

/// The codec's external stream in `ext`, for codecs that read one.
pub open spec fn stream_for(ext: ExternalDataReaders, m: IntegerModel) -> Option<Seq<u8>> {
    match external_id(m) {
        Some(id) => ext.stream(id),
        None => None,
    }
}

fn valid_alphabet_exec(alphabet: &Vec<i32>, bit_lens: &Vec<u32>) -> (r: bool)
    ensures
        r == valid_alphabet(alphabet@, bit_lens@),
{
    if alphabet.len() != bit_lens.len() || alphabet.len() == 0 || alphabet.len() >= 0x4000_0000 {
        return false;
    }
    let mut i: usize = 0;
    while i < bit_lens.len()
        invariant
            i <= bit_lens@.len(),
            forall|j: int| 0 <= j < i ==> bit_lens@[j] <= 32,
        decreases bit_lens@.len() - i,
    {
        if bit_lens[i] > 32 {
            return false;
        }
        i += 1;
    }
    true
}

impl Encoding<Integer> {
    /// Decodes one value: from the core bits, or from the codec's external stream.
    #[verifier::rlimit(60)]
    pub fn decode(&self, core: &mut BitReader, ext: &mut ExternalDataReaders) -> (r: Result<i64, Error>)
        requires
            old(core).wf(),
            8 * old(core).src@.len() <= usize::MAX,
        ensures
            final(core).wf(),
            final(core).src == old(core).src,
            match integer_decode(self.codec@, old(core).remaining(), stream_for(*old(ext), self.codec@)) {
                Ok((v, nb, ne)) => r is Ok && r->Ok_0 as int == v && final(core).pos == old(core).pos + nb
                    && (external_id(self.codec@) is Some ==> final(ext).stream(external_id(self.codec@)->Some_0)
                    == Some(after(stream_for(*old(ext), self.codec@)->Some_0, ne))),
                Err(e) => r == Err::<i64, Error>(e),
            },
            forall|other: i32| external_id(self.codec@) != Some(other) ==> final(ext).stream(other) == old(ext).stream(other),
            bad_params(self.codec@) ==> r == Err::<i64, Error>(Error::InvalidData) && final(core).pos == old(core).pos,
    {
        match &self.codec {
            Integer::External { block_content_id } => {
                proof {
                    if old(ext).stream(*block_content_id) is Some {
                        crate::num::lemma_parse_ranges(old(ext).stream(*block_content_id)->Some_0, crate::version::Version::v3_0_spec());
                        if old(ext).stream(*block_content_id)->Some_0.len() > 0 && old(ext).stream(*block_content_id)->Some_0.len() >= crate::num::itf8::itf8_len(old(ext).stream(*block_content_id)->Some_0[0]) {
                            crate::num::itf8::lemma_itf8_bits_bound(old(ext).stream(*block_content_id)->Some_0);
                        }
                    }
                }
                match ext.read_itf8_from(*block_content_id) {
                    Ok(v) => Ok(v as i64),
                    Err(e) => Err(e),
                }
            },
            Integer::Huffman { alphabet, bit_lens } => {
                if alphabet.len() == 1 {
                    return Ok(alphabet[0] as i64);
                }
                if !valid_alphabet_exec(alphabet, bit_lens) {
                    return Err(Error::InvalidData);
                }
                let decoder = CanonicalHuffmanDecoder::new(alphabet.as_slice(), bit_lens.as_slice());
                match decoder.decode(core) {
                    Ok(v) => Ok(v as i64),
                    Err(e) => Err(e),
                }
            },
            Integer::Beta { offset, len } => decode_beta(core, *offset, *len),
            Integer::Gamma { offset } => decode_gamma(core, *offset),
            Integer::Golomb { offset, m } => decode_golomb(core, *offset, *m),
            Integer::GolombRice { offset, log2_m } => decode_golomb_rice(core, *offset, *log2_m),
            Integer::Subexp { offset, k } => decode_subexp(core, *offset, *k),
            Integer::VarintUnsigned { block_content_id, offset } => {
                proof {
                    if old(ext).stream(*block_content_id) is Some {
                        crate::num::vlq::lemma_uint7_scan_bound(old(ext).stream(*block_content_id)->Some_0, 0, 0, 10, crate::num::vlq::two_pow_64());
                    }
                }
                let u = match ext.read_uint7_64_from(*block_content_id) {
                    Ok(u) => u,
                    Err(e) => return Err(e),
                };
                if u > i64::MAX as u64 {
                    return Err(Error::InvalidData);
                }
                let v = u as i128 + *offset as i128;
                if v < i64::MIN as i128 || v > i64::MAX as i128 {
                    return Err(Error::InvalidData);
                }
                Ok(v as i64)
            },
            Integer::VarintSigned { block_content_id, offset } => {
                proof {
                    if old(ext).stream(*block_content_id) is Some {
                        crate::num::vlq::lemma_uint7_scan_bound(old(ext).stream(*block_content_id)->Some_0, 0, 0, 10, crate::num::vlq::two_pow_64());
                    }
                }
                let u = match ext.read_uint7_64_from(*block_content_id) {
                    Ok(u) => u,
                    Err(e) => return Err(e),
                };
                let z = crate::num::vlq::zigzag_decode_i64(u);
                let v = z as i128 + *offset as i128;
                if v < i64::MIN as i128 || v > i64::MAX as i128 {
                    return Err(Error::InvalidData);
                }
                Ok(v as i64)
            },
            Integer::ConstInt { value } => Ok(*value as i64),
        }
    }
}

pub open spec fn in_i32(v: int) -> bool {
    i32::MIN <= v <= i32::MAX
}

pub open spec fn in_i64(v: int) -> bool {
    i64::MIN <= v <= i64::MAX
}

/// The unary form of `q`: `q` zero bits, then a one.
pub open spec fn unary(q: nat) -> Seq<bool> {
    zero_bits(q).push(true)
}

/// `g` one bits, then a zero.
pub open spec fn ones_then_zero(g: nat) -> Seq<bool> {
    Seq::new(g, |i: int| true).push(false)
}

/// The Subexp group of `d = n - 2^k` from group `g` on: the first group whose
/// `k + 2 group - 1` bits hold `d` (stopping at a 32-bit field).
pub open spec fn subexp_group(d: nat, k: nat, g: nat) -> nat
    decreases 32 - g,
{
    if g >= 32 || k + 2 * g - 1 >= 32 || d < pow2((k + 2 * g - 1) as nat) {
        g
    } else {
        subexp_group(d, k, g + 1)
    }
}

/// Subexp bits of `n >= 0`: group 0 holds values below `2^k` in `k` bits, group
/// 1 values below `2^(k+1)` in `k + 1` bits, and a later group `g` holds
/// `n - 2^k` in `k + 2g - 1` bits; the group goes first in unary (ones, then a zero).
pub open spec fn subexp_bits(n: nat, k: nat) -> Seq<bool> {
    if n < pow2(k) {
        ones_then_zero(0) + num_bits(n, k)
    } else if n < pow2(k + 1) {
        ones_then_zero(1) + num_bits(n, k + 1)
    } else {
        let d = (n - pow2(k)) as nat;
        let g = subexp_group(d, k, 2);
        ones_then_zero(g) + num_bits(d, (k + 2 * g - 1) as nat)
    }
}

/// What encoding `v` with an integer codec writes: core bits, and bytes for
/// the codec's external stream.
pub open spec fn integer_encode(m: IntegerModel, v: int) -> Result<(Seq<bool>, Seq<u8>), Error> {
    match m {
        IntegerModel::External(_) => if !in_i32(v) {
            Err(Error::InvalidData)
        } else {
            Ok((Seq::empty(), itf8_encoding(v)))
        },
        IntegerModel::Huffman(a, l) => if a.len() == 1 {
            Ok((Seq::empty(), Seq::empty()))
        } else if !in_i32(v) || !valid_alphabet(a, l) {
            Err(Error::InvalidData)
        } else {
            match index_of(a, v as i32) {
                None => Err(Error::InvalidData),
                Some(i) => if canonical_code(a, l, i) < pow2(l[i] as nat) {
                    Ok((num_bits(canonical_code(a, l, i), l[i] as nat), Seq::empty()))
                } else {
                    Err(Error::InvalidData)
                },
            }
        },
        IntegerModel::ConstInt(_) => Ok((Seq::empty(), Seq::empty())),
        IntegerModel::Beta(o, len) => if !in_i32(v) || !in_i32(v + o) || len > 32 {
            Err(Error::InvalidData)
        } else {
            Ok((num_bits(u32_bits(v + o), len as nat), Seq::empty()))
        },
        IntegerModel::Gamma(o) => if !in_i32(v) || !in_i32(v + o) || v + o < 1 {
            Err(Error::InvalidData)
        } else {
            let x = (v + o) as nat;
            let n = (bit_len(x) - 1) as nat;
            Ok((unary(n) + num_bits((x - pow2(n)) as nat, n), Seq::empty()))
        },
        IntegerModel::Golomb(o, mm) => if mm <= 0 || !in_i32(v) || !in_i32(v + o) || v + o < 0 {
            Err(Error::InvalidData)
        } else {
            let n = (v + o) as nat;
            let q = n / (mm as nat);
            let r = n % (mm as nat);
            let bb = bit_len((mm - 1) as nat);
            let thr = pow2(bb) - mm;
            let tail = if bb == 0 {
                Seq::empty()
            } else if r < thr {
                num_bits(r, (bb - 1) as nat)
            } else {
                num_bits((r + thr) as nat, bb)
            };
            Ok((unary(q) + tail, Seq::empty()))
        },
        IntegerModel::GolombRice(o, l) => if l < 0 || l >= 32 || !in_i32(v) || !in_i32(v + o) || v + o < 0 {
            Err(Error::InvalidData)
        } else {
            let n = (v + o) as nat;
            Ok((unary(n / pow2(l as nat)) + num_bits(n % pow2(l as nat), l as nat), Seq::empty()))
        },
        IntegerModel::Subexp(o, k) => if !in_i32(v) || !in_i32(v + o) || k < 0 || k >= 32 || v + o < 0 {
            Err(Error::InvalidData)
        } else {
            Ok((subexp_bits((v + o) as nat, k as nat), Seq::empty()))
        },
        IntegerModel::VarintUnsigned(_, o) => if !in_i64(v - o) || v - o < 0 {
            Err(Error::InvalidData)
        } else {
            Ok((Seq::empty(), uint7_bytes((v - o) as nat)))
        },
        IntegerModel::VarintSigned(_, o) => if !in_i64(v - o) {
            Err(Error::InvalidData)
        } else {
            Ok((Seq::empty(), uint7_bytes(zigzag_encode(v - o))))
        },
    }
}

/// The outcome of an encode: `r` per `e`, the core writer and the codec's
/// stream grown by what `e` gives; a codec whose stream is missing fails as
/// invalid data.
pub open spec fn encoded_as(
    r: Result<(), Error>,
    e: Result<(Seq<bool>, Seq<u8>), Error>,
    id: Option<i32>,
    old_bits: Seq<bool>,
    new_bits: Seq<bool>,
    old_ext: ExternalDataWriters,
    new_ext: ExternalDataWriters,
) -> bool {
    match e {
        Err(err) => r == Err::<(), Error>(err) && new_bits == old_bits && (id is Some ==> new_ext.stream(
            id->Some_0,
        ) == old_ext.stream(id->Some_0)),
        Ok((bits, bytes)) => match id {
            None => r is Ok && new_bits == old_bits + bits,
            Some(i) => match old_ext.stream(i) {
                None => r == Err::<(), Error>(Error::InvalidData) && new_bits == old_bits && new_ext.stream(i)
                    == old_ext.stream(i),
                Some(s) => r is Ok && new_bits == old_bits + bits && new_ext.stream(i) == Some(s + bytes),
            },
        },
    }
}

fn write_unary(core: &mut BitWriter, q: u64)
    requires
        old(core).wf(),
    ensures
        final(core).wf(),
        final(core).bits() == old(core).bits() + unary(q as nat),
{
    let mut i: u64 = 0;
    while i < q
        invariant
            core.wf(),
            i <= q,
            core.bits() == old(core).bits() + zero_bits(i as nat),
        decreases q - i,
    {
        core.write_bit(false);
        i += 1;
        assert(core.bits() =~= old(core).bits() + zero_bits(i as nat));
    }
    core.write_bit(true);
    assert(core.bits() =~= old(core).bits() + unary(q as nat));
}

/// The outcome of a bit-only encode: `r` per `e`, the core writer grown by its bits.
pub open spec fn encoded_bits(r: Result<(), Error>, e: Result<(Seq<bool>, Seq<u8>), Error>, old_bits: Seq<bool>, new_bits: Seq<bool>) -> bool {
    match e {
        Err(err) => r == Err::<(), Error>(err) && new_bits == old_bits,
        Ok((bits, _)) => r is Ok && new_bits == old_bits + bits,
    }
}

fn encode_beta(core: &mut BitWriter, offset: i32, len: u32, value: i64) -> (r: Result<(), Error>)
    requires
        old(core).wf(),
    ensures
        final(core).wf(),
        encoded_bits(r, integer_encode(IntegerModel::Beta(offset as int, len as int), value as int), old(core).bits(), final(core).bits()),
{
    if value < i32::MIN as i64 || value > i32::MAX as i64 {
        return Err(Error::InvalidData);
    }
    let x = value + offset as i64;
    if x < i32::MIN as i64 || x > i32::MAX as i64 || len > 32 {
        return Err(Error::InvalidData);
    }
    core.write_u32(crate::num::bits_from_i32(x as i32), len as usize)
}

fn encode_gamma(core: &mut BitWriter, offset: i32, value: i64) -> (r: Result<(), Error>)
    requires
        old(core).wf(),
    ensures
        final(core).wf(),
        encoded_bits(r, integer_encode(IntegerModel::Gamma(offset as int), value as int), old(core).bits(), final(core).bits()),
{
    if value < i32::MIN as i64 || value > i32::MAX as i64 {
        return Err(Error::InvalidData);
    }
    let x = value + offset as i64;
    if x < 1 || x > i32::MAX as i64 {
        return Err(Error::InvalidData);
    }
    let n = bit_len_u32(x as u32) - 1;
    proof {
        lemma_bit_len_pow2(x as nat);
        lemma_bit_len_le(x as nat);
        lemma2_to64();
    }
    write_unary(core, n as u64);
    proof {
        vstd::arithmetic::power2::lemma_pow2_strictly_increases(n as nat, 32);
    }
    let p = pow2_u64(n);
    let res = core.write_u32((x as u64 - p) as u32, n as usize);
    assert(core.bits() =~= old(core).bits() + (unary(n as nat) + num_bits((x - p) as nat, n as nat)));
    res
}

#[verifier::rlimit(60)]
fn encode_golomb(core: &mut BitWriter, offset: i32, m: i32, value: i64) -> (r: Result<(), Error>)
    requires
        old(core).wf(),
    ensures
        final(core).wf(),
        encoded_bits(r, integer_encode(IntegerModel::Golomb(offset as int, m as int), value as int), old(core).bits(), final(core).bits()),
{
    if m <= 0 || value < i32::MIN as i64 || value > i32::MAX as i64 {
        return Err(Error::InvalidData);
    }
    let n = value + offset as i64;
    if n < 0 || n > i32::MAX as i64 {
        return Err(Error::InvalidData);
    }
    let q = n / m as i64;
    let r = n % m as i64;
    let bb = bit_len_u32((m - 1) as u32);
    proof {
        lemma_bit_len_pow2((m - 1) as nat);
        lemma_bit_len_le((m - 1) as nat);
        lemma2_to64();
        if bb < 32 {
            vstd::arithmetic::power2::lemma_pow2_strictly_increases(bb as nat, 32);
        }
    }
    write_unary(core, q as u64);
    if bb > 0 {
        let threshold = pow2_u64(bb) as i64 - m as i64;
        proof {
            vstd::arithmetic::power2::lemma_pow2_unfold(bb as nat);
        }
        if r < threshold {
            let res = core.write_u32(r as u32, (bb - 1) as usize);
            assert(core.bits() =~= old(core).bits() + (unary(q as nat) + num_bits(r as nat, (bb - 1) as nat)));
            res
        } else {
            let res = core.write_u32((r + threshold) as u32, bb as usize);
            assert(core.bits() =~= old(core).bits() + (unary(q as nat) + num_bits((r + threshold) as nat, bb as nat)));
            res
        }
    } else {
        assert(core.bits() =~= old(core).bits() + (unary(q as nat) + Seq::<bool>::empty()));
        Ok(())
    }
}

fn encode_golomb_rice(core: &mut BitWriter, offset: i32, log2_m: i32, value: i64) -> (r: Result<(), Error>)
    requires
        old(core).wf(),
    ensures
        final(core).wf(),
        encoded_bits(r, integer_encode(IntegerModel::GolombRice(offset as int, log2_m as int), value as int), old(core).bits(), final(core).bits()),
{
    if log2_m < 0 || log2_m >= 32 || value < i32::MIN as i64 || value > i32::MAX as i64 {
        return Err(Error::InvalidData);
    }
    let n = value + offset as i64;
    if n < 0 || n > i32::MAX as i64 {
        return Err(Error::InvalidData);
    }
    proof {
        lemma2_to64();
        vstd::arithmetic::power2::lemma_pow2_strictly_increases(log2_m as nat, 32);
    }
    let p = pow2_u64(log2_m as u32) as i64;
    let q = n / p;
    let r = n % p;
    write_unary(core, q as u64);
    let res = core.write_u32(r as u32, log2_m as usize);
    assert(core.bits() =~= old(core).bits() + (unary(q as nat) + num_bits(r as nat, log2_m as nat)));
    res
}

fn write_ones_then_zero(core: &mut BitWriter, g: u64)
    requires
        old(core).wf(),
    ensures
        final(core).wf(),
        final(core).bits() == old(core).bits() + ones_then_zero(g as nat),
{
    let mut i: u64 = 0;
    while i < g
        invariant
            core.wf(),
            i <= g,
            core.bits() == old(core).bits() + Seq::new(i as nat, |j: int| true),
        decreases g - i,
    {
        core.write_bit(true);
        i += 1;
        assert(core.bits() =~= old(core).bits() + Seq::new(i as nat, |j: int| true));
    }
    core.write_bit(false);
    assert(core.bits() =~= old(core).bits() + ones_then_zero(g as nat));
}

/// The group `subexp_group(d, k, g)` reaches stays within a 32-bit field that holds `d`.
pub proof fn lemma_subexp_group(d: nat, k: nat, g: nat)
    requires
        d < 0x8000_0000,
        g >= 2,
        k + 2 * g - 1 <= 32,
    ensures
        subexp_group(d, k, g) >= g,
        k + 2 * subexp_group(d, k, g) - 1 <= 32,
        d < pow2((k + 2 * subexp_group(d, k, g) - 1) as nat),
    decreases 32 - g,
{
    lemma2_to64();
    let bits = (k + 2 * g - 1) as nat;
    if g >= 32 || bits >= 32 || d < pow2(bits) {
        if d >= pow2(bits) {
            if bits > 31 {
                vstd::arithmetic::power2::lemma_pow2_strictly_increases(31, bits);
            }
        }
    } else {
        if bits >= 31 {
            if bits > 31 {
                vstd::arithmetic::power2::lemma_pow2_strictly_increases(31, bits);
            }
        }
        lemma_subexp_group(d, k, g + 1);
    }
}

fn encode_subexp(core: &mut BitWriter, offset: i32, k: i32, value: i64) -> (r: Result<(), Error>)
    requires
        old(core).wf(),
    ensures
        final(core).wf(),
        encoded_bits(r, integer_encode(IntegerModel::Subexp(offset as int, k as int), value as int), old(core).bits(), final(core).bits()),
{
    if value < i32::MIN as i64 || value > i32::MAX as i64 {
        return Err(Error::InvalidData);
    }
    let n = value + offset as i64;
    if n < 0 || n > i32::MAX as i64 || k < 0 || k >= 32 {
        return Err(Error::InvalidData);
    }
    proof {
        lemma2_to64();
        vstd::arithmetic::power2::lemma_pow2_strictly_increases(k as nat, 32);
        vstd::arithmetic::power2::lemma_pow2_unfold((k + 1) as nat);
    }
    let p = pow2_u64(k as u32) as i64;
    if n < p {
        write_ones_then_zero(core, 0);
        let res = core.write_u32(n as u32, k as usize);
        assert(core.bits() =~= old(core).bits() + subexp_bits(n as nat, k as nat));
        res
    } else if n < 2 * p {
        write_ones_then_zero(core, 1);
        let res = core.write_u32(n as u32, (k + 1) as usize);
        assert(core.bits() =~= old(core).bits() + subexp_bits(n as nat, k as nat));
        res
    } else {
        let d = (n - p) as u64;
        proof {
            if k >= 30 {
                vstd::arithmetic::power2::lemma_pow2_strictly_increases(31, (k + 1) as nat);
            } else {
                vstd::arithmetic::power2::lemma_pow2_strictly_increases((k + 1) as nat, 31);
            }
            lemma_subexp_group(d as nat, k as nat, 2);
        }
        let mut g: u64 = 2;
        let mut bits: u64 = k as u64 + 3;
        loop
            invariant
                0 <= k < 32,
                g >= 2,
                bits == k + 2 * g - 1,
                bits <= 32,
                d < 0x8000_0000,
                subexp_group(d as nat, k as nat, 2) == subexp_group(d as nat, k as nat, g as nat),
                k + 2 * subexp_group(d as nat, k as nat, 2) - 1 <= 32,
            ensures
                g >= 2,
                bits == k + 2 * g - 1,
                bits <= 32,
                subexp_group(d as nat, k as nat, 2) == g,
            decreases 32 - bits,
        {
            if bits >= 32 {
                proof {
                    reveal_with_fuel(subexp_group, 2);
                    assert(subexp_group(d as nat, k as nat, g as nat) == g);
                }
                break;
            }
            let p2 = pow2_u64(bits as u32);
            assert(p2 as nat == pow2(bits as nat));
            assert((k as nat + 2 * (g as nat) - 1) as nat == bits as nat);
            if d < p2 {
                proof {
                    reveal_with_fuel(subexp_group, 2);
                    assert(subexp_group(d as nat, k as nat, g as nat) == g);
                }
                break;
            }
            proof {
                lemma2_to64();
                if bits >= 31 {
                    if bits > 31 {
                        vstd::arithmetic::power2::lemma_pow2_strictly_increases(31, bits as nat);
                    }
                }
            }
            proof {
                reveal_with_fuel(subexp_group, 2);
            }
            assert(subexp_group(d as nat, k as nat, g as nat) == subexp_group(d as nat, k as nat, (g + 1) as nat));
            g += 1;
            bits += 2;
        }
        write_ones_then_zero(core, g);
        let res = core.write_u32(d as u32, bits as usize);
        assert(core.bits() =~= old(core).bits() + subexp_bits(n as nat, k as nat));
        res
    }
}

impl Encoding<Integer> {
    /// Encodes one value: into the core bits, or into the codec's external stream.
    #[verifier::rlimit(60)]
    pub fn encode(&self, core: &mut BitWriter, ext: &mut ExternalDataWriters, value: i64) -> (r: Result<(), Error>)
        requires
            old(core).wf(),
        ensures
            final(core).wf(),
            encoded_as(r, integer_encode(self.codec@, value as int), external_id(self.codec@), old(core).bits(), final(core).bits(), *old(ext), *final(ext)),
            forall|other: i32| external_id(self.codec@) != Some(other) ==> final(ext).stream(other) == old(ext).stream(other),
    {
        match &self.codec {
            Integer::External { block_content_id } => {
                if ext.get(*block_content_id).is_none() {
                    return Err(Error::InvalidData);
                }
                if value < i32::MIN as i64 || value > i32::MAX as i64 {
                    return Err(Error::InvalidData);
                }
                let mut buf: Vec<u8> = Vec::new();
                write_itf8(&mut buf, value as i32).unwrap();
                assert(buf@ =~= itf8_encoding(value as int));
                ext.append_to(*block_content_id, &buf)
            },
            Integer::Huffman { alphabet, bit_lens } => {
                if alphabet.len() == 1 {
                    assert(core.bits() =~= old(core).bits() + Seq::<bool>::empty());
                    return Ok(());
                }
                if value < i32::MIN as i64 || value > i32::MAX as i64 || !valid_alphabet_exec(alphabet, bit_lens) {
                    return Err(Error::InvalidData);
                }
                let encoder = CanonicalHuffmanEncoder::new(alphabet.as_slice(), bit_lens.as_slice());
                encoder.encode(core, value as i32)
            },
            Integer::ConstInt { .. } => {
                assert(core.bits() =~= old(core).bits() + Seq::<bool>::empty());
                Ok(())
            },
            Integer::Beta { offset, len } => encode_beta(core, *offset, *len, value),
            Integer::Gamma { offset } => encode_gamma(core, *offset, value),
            Integer::Golomb { offset, m } => encode_golomb(core, *offset, *m, value),
            Integer::GolombRice { offset, log2_m } => encode_golomb_rice(core, *offset, *log2_m, value),
            Integer::Subexp { offset, k } => encode_subexp(core, *offset, *k, value),
            Integer::VarintUnsigned { block_content_id, offset } => {
                if ext.get(*block_content_id).is_none() {
                    return Err(Error::InvalidData);
                }
                let a = value as i128 - *offset as i128;
                if a < 0 || a > i64::MAX as i128 {
                    return Err(Error::InvalidData);
                }
                let mut buf: Vec<u8> = Vec::new();
                write_uint7_64(&mut buf, a as u64).unwrap();
                assert(buf@ =~= uint7_bytes(a as nat));
                assert(core.bits() =~= old(core).bits() + Seq::<bool>::empty());
                ext.append_to(*block_content_id, &buf)
            },
            Integer::VarintSigned { block_content_id, offset } => {
                if ext.get(*block_content_id).is_none() {
                    return Err(Error::InvalidData);
                }
                let a = value as i128 - *offset as i128;
                if a < i64::MIN as i128 || a > i64::MAX as i128 {
                    return Err(Error::InvalidData);
                }
                let mut buf: Vec<u8> = Vec::new();
                write_sint7_64(&mut buf, a as i64).unwrap();
                assert(buf@ =~= uint7_bytes(zigzag_encode(a as int)));
                assert(core.bits() =~= old(core).bits() + Seq::<bool>::empty());
                ext.append_to(*block_content_id, &buf)
            },
        }
    }
}

proof fn lemma_leading_unary(q: nat, t: Seq<bool>)
    ensures
        leading_run(unary(q) + t, false) == q,
        (unary(q) + t).skip((q + 1) as int) == t,
        (unary(q) + t).len() == q + 1 + t.len(),
    decreases q,
{
    let s = unary(q) + t;
    if q == 0 {
        assert(s[0] == true);
    } else {
        assert(s.drop_first() =~= unary((q - 1) as nat) + t);
        lemma_leading_unary((q - 1) as nat, t);
    }
    assert(s.skip((q + 1) as int) =~= t);
}

/// Round trip through an External codec: what encoding writes to the stream
/// decodes back to the value, taking exactly those bytes.
pub proof fn lemma_external_round_trip(id: int, v: int, b: Seq<bool>, rest: Seq<u8>)
    requires
        in_i32(v),
    ensures
        integer_encode(IntegerModel::External(id), v) is Ok,
        integer_decode(IntegerModel::External(id), b, Some(integer_encode(IntegerModel::External(id), v)->Ok_0.1 + rest))
            == Ok::<(int, nat, nat), Error>((v, 0, integer_encode(IntegerModel::External(id), v)->Ok_0.1.len())),
{
    crate::num::itf8::lemma_itf8_round_trip(v as i32, rest);
}

/// Round trip through a VarintUnsigned codec, for values at or above the offset.
pub proof fn lemma_varint_unsigned_round_trip(id: int, offset: int, v: int, b: Seq<bool>, rest: Seq<u8>)
    requires
        in_i64(v),
        in_i64(offset),
        in_i64(v - offset),
        v - offset >= 0,
    ensures
        integer_encode(IntegerModel::VarintUnsigned(id, offset), v) is Ok,
        integer_decode(IntegerModel::VarintUnsigned(id, offset), b, Some(integer_encode(IntegerModel::VarintUnsigned(id, offset), v)->Ok_0.1 + rest))
            == Ok::<(int, nat, nat), Error>((v, 0, integer_encode(IntegerModel::VarintUnsigned(id, offset), v)->Ok_0.1.len())),
{
    crate::num::vlq::lemma_uint7_64_round_trip((v - offset) as u64, rest);
}

/// Round trip through a VarintSigned codec.
pub proof fn lemma_varint_signed_round_trip(id: int, offset: int, v: int, b: Seq<bool>, rest: Seq<u8>)
    requires
        in_i64(v),
        in_i64(offset),
        in_i64(v - offset),
    ensures
        integer_encode(IntegerModel::VarintSigned(id, offset), v) is Ok,
        integer_decode(IntegerModel::VarintSigned(id, offset), b, Some(integer_encode(IntegerModel::VarintSigned(id, offset), v)->Ok_0.1 + rest))
            == Ok::<(int, nat, nat), Error>((v, 0, integer_encode(IntegerModel::VarintSigned(id, offset), v)->Ok_0.1.len())),
{
    crate::num::vlq::lemma_sint7_64_round_trip((v - offset) as i64, rest);
}

/// Round trip through a Beta codec, for values whose offset form fits its bits.
#[verifier::rlimit(60)]
pub proof fn lemma_beta_round_trip(offset: int, len: int, v: int, rest: Seq<bool>)
    requires
        in_i32(v),
        in_i32(offset),
        0 <= len <= 31,
        0 <= v + offset < pow2(len as nat),
    ensures
        integer_encode(IntegerModel::Beta(offset, len), v) is Ok,
        integer_decode(IntegerModel::Beta(offset, len), integer_encode(IntegerModel::Beta(offset, len), v)->Ok_0.0 + rest, None)
            == Ok::<(int, nat, nat), Error>((v, integer_encode(IntegerModel::Beta(offset, len), v)->Ok_0.0.len(), 0)),
{
    lemma2_to64();
    if len < 31 {
        vstd::arithmetic::power2::lemma_pow2_strictly_increases(len as nat, 31);
    }
    let x = (v + offset) as nat;
    let bits = num_bits(x, len as nat);
    crate::bits::lemma_num_bits_len(x, len as nat);
    crate::bits::lemma_num_bits_value(x, len as nat);
    assert((bits + rest).take(len) =~= bits);
    vstd::arithmetic::div_mod::lemma_small_mod(x, pow2(len as nat));
}

/// Round trip through a Golomb-Rice codec, for non-negative offset forms.
#[verifier::rlimit(60)]
pub proof fn lemma_golomb_rice_round_trip(offset: int, log2_m: int, v: int, rest: Seq<bool>)
    requires
        in_i32(v),
        in_i32(offset),
        0 <= log2_m < 32,
        0 <= v + offset <= i32::MAX,
    ensures
        integer_encode(IntegerModel::GolombRice(offset, log2_m), v) is Ok,
        integer_decode(IntegerModel::GolombRice(offset, log2_m), integer_encode(IntegerModel::GolombRice(offset, log2_m), v)->Ok_0.0 + rest, None)
            == Ok::<(int, nat, nat), Error>((v, integer_encode(IntegerModel::GolombRice(offset, log2_m), v)->Ok_0.0.len(), 0)),
{
    let n = (v + offset) as nat;
    let p = pow2(log2_m as nat);
    vstd::arithmetic::power2::lemma_pow2_pos(log2_m as nat);
    let q = n / p;
    let r = n % p;
    let tail = num_bits(r, log2_m as nat);
    crate::bits::lemma_num_bits_len(r, log2_m as nat);
    crate::bits::lemma_num_bits_value(r, log2_m as nat);
    vstd::arithmetic::div_mod::lemma_small_mod(r, p);
    let bits = unary(q) + tail;
    assert(bits + rest =~= unary(q) + (tail + rest));
    lemma_leading_unary(q, tail + rest);
    assert((tail + rest).take(log2_m) =~= tail);
    vstd::arithmetic::div_mod::lemma_fundamental_div_mod(n as int, p as int);
    assert(q <= n) by {
        vstd::arithmetic::div_mod::lemma_div_is_ordered_by_denominator(n as int, 1, p as int);
    }
    let b = bits + rest;
    assert(integer_encode(IntegerModel::GolombRice(offset, log2_m), v)->Ok_0.0 == bits);
    assert(leading_run(b, false) == q);
    assert(b.skip((q + 1) as int) == tail + rest);
    assert(bits_value(b.skip((q + 1) as int).take(log2_m)) == r);
    assert(q * p + r == n);
    assert(b.len() >= q + 1 + log2_m);
    assert(golomb_rice_decode(b, offset, log2_m) == Ok::<(int, nat), Error>((v, (q + 1 + log2_m) as nat)));
}

/// Round trip through an Elias gamma codec, for offset forms of at least 1.
#[verifier::rlimit(60)]
pub proof fn lemma_gamma_round_trip(offset: int, v: int, rest: Seq<bool>)
    requires
        in_i32(v),
        in_i32(offset),
        1 <= v + offset <= i32::MAX,
    ensures
        integer_encode(IntegerModel::Gamma(offset), v) is Ok,
        integer_decode(IntegerModel::Gamma(offset), integer_encode(IntegerModel::Gamma(offset), v)->Ok_0.0 + rest, None)
            == Ok::<(int, nat, nat), Error>((v, integer_encode(IntegerModel::Gamma(offset), v)->Ok_0.0.len(), 0)),
{
    let x = (v + offset) as nat;
    lemma_bit_len_pow2(x);
    lemma_bit_len_le(x);
    lemma2_to64();
    let n = (bit_len(x) - 1) as nat;
    if n >= 31 {
        vstd::arithmetic::power2::lemma_pow2_strictly_increases(31, n);
    }
    vstd::arithmetic::power2::lemma_pow2_unfold(n + 1);
    let y = (x - pow2(n)) as nat;
    let tail = num_bits(y, n);
    crate::bits::lemma_num_bits_len(y, n);
    crate::bits::lemma_num_bits_value(y, n);
    vstd::arithmetic::div_mod::lemma_small_mod(y, pow2(n));
    assert(unary(n) + tail + rest =~= unary(n) + (tail + rest));
    lemma_leading_unary(n, tail + rest);
    assert((tail + rest).take(n as int) =~= tail);
}

impl<'a> ExternalDataReaders<'a> {
    /// Reads one byte from the stream with content id `id`.
    fn read_byte_from(&mut self, id: i32) -> (r: Result<u8, Error>)
        ensures
            match old(self).stream(id) {
                None => r == Err::<u8, Error>(Error::InvalidData),
                Some(s) => if s.len() == 0 {
                    r == Err::<u8, Error>(Error::UnexpectedEof)
                } else {
                    r == Ok::<u8, Error>(s[0]) && final(self).stream(id) == Some(after(s, 1))
                },
            },
            forall|other: i32| other != id ==> final(self).stream(other) == old(self).stream(other),
    {
        let mut s: &[u8] = match self.map.get(&id) {
            Some(s) => *s,
            None => return Err(Error::InvalidData),
        };
        let r = crate::num::read_u8(&mut s);
        self.map.insert(id, s);
        proof {
            if old(self).stream(id)->Some_0.len() > 0 {
                assert(old(self).stream(id)->Some_0.drop_first() =~= after(old(self).stream(id)->Some_0, 1));
            }
        }
        r
    }

}

/// The content id of the external stream that a byte codec uses.
pub open spec fn byte_external_id(m: ByteModel) -> Option<i32> {
    match m {
        ByteModel::External(id) => Some(id as i32),
        _ => None,
    }
}

/// What decoding one byte with a byte codec yields: the byte, core bits
/// taken, stream bytes taken.
pub open spec fn byte_decode(m: ByteModel, b: Seq<bool>, s: Option<Seq<u8>>) -> Result<(u8, nat, nat), Error> {
    match m {
        ByteModel::External(_) => match s {
            None => Err(Error::InvalidData),
            Some(s) => if s.len() == 0 {
                Err(Error::UnexpectedEof)
            } else {
                Ok((s[0], 0, 1))
            },
        },
        ByteModel::Huffman(a, l) => if a.len() == 1 {
            Ok((a[0] as u8, 0, 0))
        } else if !valid_alphabet(a, l) {
            Err(Error::InvalidData)
        } else {
            match decode_from(a, l, b, 0) {
                Ok((sym, n)) => Ok((sym as u8, n, 0)),
                Err(e) => Err(e),
            }
        },
        ByteModel::Constant(c) => Ok((c, 0, 0)),
    }
}

/// What encoding byte `v` with a byte codec writes: core bits and stream bytes.
pub open spec fn byte_encode(m: ByteModel, v: u8) -> Result<(Seq<bool>, Seq<u8>), Error> {
    match m {
        ByteModel::External(_) => Ok((Seq::empty(), seq![v])),
        ByteModel::Huffman(a, l) => integer_encode(IntegerModel::Huffman(a, l), v as int),
        ByteModel::Constant(_) => Ok((Seq::empty(), Seq::empty())),
    }
}

impl Encoding<Byte> {
    /// Decodes one byte.
    pub fn decode(&self, core: &mut BitReader, ext: &mut ExternalDataReaders) -> (r: Result<u8, Error>)
        requires
            old(core).wf(),
            8 * old(core).src@.len() <= usize::MAX,
        ensures
            final(core).wf(),
            final(core).src == old(core).src,
            match byte_decode(self.codec@, old(core).remaining(), match byte_external_id(self.codec@) {
                Some(id) => old(ext).stream(id),
                None => None,
            }) {
                Ok((v, nb, ne)) => r == Ok::<u8, Error>(v) && final(core).pos == old(core).pos + nb
                    && (byte_external_id(self.codec@) is Some ==> final(ext).stream(byte_external_id(self.codec@)->Some_0)
                    == Some(after(old(ext).stream(byte_external_id(self.codec@)->Some_0)->Some_0, ne))),
                Err(e) => r == Err::<u8, Error>(e),
            },
            forall|other: i32| byte_external_id(self.codec@) != Some(other) ==> final(ext).stream(other) == old(ext).stream(other),
    {
        match &self.codec {
            Byte::External { block_content_id } => ext.read_byte_from(*block_content_id),
            Byte::Huffman { alphabet, bit_lens } => {
                if alphabet.len() == 1 {
                    return Ok(alphabet[0] as u8);
                }
                if !valid_alphabet_exec(alphabet, bit_lens) {
                    return Err(Error::InvalidData);
                }
                let decoder = CanonicalHuffmanDecoder::new(alphabet.as_slice(), bit_lens.as_slice());
                match decoder.decode(core) {
                    Ok(v) => Ok(v as u8),
                    Err(e) => Err(e),
                }
            },
            Byte::Constant { value } => Ok(*value),
        }
    }

    /// Encodes one byte.
    pub fn encode(&self, core: &mut BitWriter, ext: &mut ExternalDataWriters, value: u8) -> (r: Result<(), Error>)
        requires
            old(core).wf(),
        ensures
            final(core).wf(),
            encoded_as(r, byte_encode(self.codec@, value), byte_external_id(self.codec@), old(core).bits(), final(core).bits(), *old(ext), *final(ext)),
            forall|other: i32| byte_external_id(self.codec@) != Some(other) ==> final(ext).stream(other) == old(ext).stream(other),
    {
        match &self.codec {
            Byte::External { block_content_id } => {
                let mut buf: Vec<u8> = Vec::new();
                buf.push(value);
                assert(buf@ =~= seq![value]);
                assert(core.bits() =~= old(core).bits() + Seq::<bool>::empty());
                ext.append_to(*block_content_id, &buf)
            },
            Byte::Huffman { alphabet, bit_lens } => {
                if alphabet.len() == 1 {
                    assert(core.bits() =~= old(core).bits() + Seq::<bool>::empty());
                    return Ok(());
                }
                if !valid_alphabet_exec(alphabet, bit_lens) {
                    return Err(Error::InvalidData);
                }
                let encoder = CanonicalHuffmanEncoder::new(alphabet.as_slice(), bit_lens.as_slice());
                encoder.encode(core, value as i32)
            },
            Byte::Constant { .. } => {
                assert(core.bits() =~= old(core).bits() + Seq::<bool>::empty());
                Ok(())
            },
        }
    }
}

/// Round trip through a byte External codec.
pub proof fn lemma_byte_external_round_trip(id: int, v: u8, b: Seq<bool>, rest: Seq<u8>)
    ensures
        byte_encode(ByteModel::External(id), v) == Ok::<(Seq<bool>, Seq<u8>), Error>((Seq::empty(), seq![v])),
        byte_decode(ByteModel::External(id), b, Some(seq![v] + rest)) == Ok::<(u8, nat, nat), Error>((v, 0, 1)),
{
}

proof fn lemma_leading_ones(g: nat, t: Seq<bool>)
    ensures
        leading_run(ones_then_zero(g) + t, true) == g,
        (ones_then_zero(g) + t).skip((g + 1) as int) == t,
        (ones_then_zero(g) + t).len() == g + 1 + t.len(),
    decreases g,
{
    let s = ones_then_zero(g) + t;
    if g == 0 {
        assert(s[0] == false);
    } else {
        assert(s.drop_first() =~= ones_then_zero((g - 1) as nat) + t);
        lemma_leading_ones((g - 1) as nat, t);
    }
    assert(s.skip((g + 1) as int) =~= t);
}

proof fn lemma_bits_read_back(x: nat, len: nat, t: Seq<bool>)
    requires
        x < pow2(len),
    ensures
        (num_bits(x, len) + t).take(len as int) == num_bits(x, len),
        bits_value(num_bits(x, len)) == x,
        num_bits(x, len).len() == len,
{
    crate::bits::lemma_num_bits_len(x, len);
    crate::bits::lemma_num_bits_value(x, len);
    vstd::arithmetic::div_mod::lemma_small_mod(x, pow2(len));
    assert((num_bits(x, len) + t).take(len as int) =~= num_bits(x, len));
}

/// Round trip through a Subexp codec, for non-negative offset forms.
#[verifier::rlimit(80)]
pub proof fn lemma_subexp_round_trip(offset: int, k: int, v: int, rest: Seq<bool>)
    requires
        in_i32(v),
        in_i32(offset),
        0 <= k < 32,
        0 <= v + offset <= i32::MAX,
    ensures
        integer_encode(IntegerModel::Subexp(offset, k), v) is Ok,
        integer_decode(IntegerModel::Subexp(offset, k), integer_encode(IntegerModel::Subexp(offset, k), v)->Ok_0.0 + rest, None)
            == Ok::<(int, nat, nat), Error>((v, integer_encode(IntegerModel::Subexp(offset, k), v)->Ok_0.0.len(), 0)),
{
    lemma2_to64();
    let n = (v + offset) as nat;
    let kk = k as nat;
    vstd::arithmetic::power2::lemma_pow2_unfold(kk + 1);
    if kk < 31 {
        vstd::arithmetic::power2::lemma_pow2_strictly_increases(kk, 31);
    }
    let bits_seq = subexp_bits(n, kk);
    if n < pow2(kk) {
        let x = num_bits(n, kk);
        lemma_bits_read_back(n, kk, rest);
        assert(bits_seq + rest =~= ones_then_zero(0) + (x + rest));
        lemma_leading_ones(0, x + rest);
    } else if n < pow2(kk + 1) {
        let x = num_bits(n, kk + 1);
        lemma_bits_read_back(n, kk + 1, rest);
        assert(bits_seq + rest =~= ones_then_zero(1) + (x + rest));
        lemma_leading_ones(1, x + rest);
    } else {
        let d = (n - pow2(kk)) as nat;
        if kk + 1 >= 31 {
            if kk + 1 > 31 {
                vstd::arithmetic::power2::lemma_pow2_strictly_increases(31, kk + 1);
            }
        } else {
            vstd::arithmetic::power2::lemma_pow2_strictly_increases(kk + 1, 31);
        }
        lemma_subexp_group(d, kk, 2);
        let g = subexp_group(d, kk, 2);
        let bl = (kk + 2 * g - 1) as nat;
        let x = num_bits(d, bl);
        lemma_bits_read_back(d, bl, rest);
        assert(bits_seq + rest =~= ones_then_zero(g) + (x + rest));
        lemma_leading_ones(g, x + rest);
    }
}

/// Golomb round trip: encoding then decoding gives back every value whose
/// offset form is non-negative, for every `m > 0`.
#[verifier::rlimit(100)]
pub proof fn lemma_golomb_round_trip(offset: int, m: int, v: int, rest: Seq<bool>)
    requires
        in_i32(v),
        in_i32(offset),
        0 < m <= i32::MAX,
        0 <= v + offset <= i32::MAX,
    ensures
        integer_encode(IntegerModel::Golomb(offset, m), v) is Ok,
        integer_decode(IntegerModel::Golomb(offset, m), integer_encode(IntegerModel::Golomb(offset, m), v)->Ok_0.0 + rest, None)
            == Ok::<(int, nat, nat), Error>((v, integer_encode(IntegerModel::Golomb(offset, m), v)->Ok_0.0.len(), 0)),
{
    lemma2_to64();
    let n = (v + offset) as nat;
    let mm = m as nat;
    let q = n / mm;
    let r = n % mm;
    vstd::arithmetic::div_mod::lemma_fundamental_div_mod(n as int, mm as int);
    assert(q <= n) by {
        vstd::arithmetic::div_mod::lemma_div_is_ordered_by_denominator(n as int, 1, mm as int);
    }
    let bb = bit_len((m - 1) as nat);
    lemma_bit_len_pow2((m - 1) as nat);
    lemma_bit_len_le((m - 1) as nat);
    let thr = pow2(bb) - mm;
    assert(q * mm + r == n) by (nonlinear_arith)
        requires n == mm * q + r;
    let enc = integer_encode(IntegerModel::Golomb(offset, m), v)->Ok_0.0;
    if bb == 0 {
        assert(m == 1);
        let tail = Seq::<bool>::empty();
        assert(unary(q) + tail + rest =~= unary(q) + rest);
        lemma_leading_unary(q, rest);
        assert(enc =~= unary(q));
        assert(enc + rest =~= unary(q) + rest);
        assert(mm == 1);
        assert(n % 1 == 0 && n / 1 == n);
        assert(r == 0 && q == n);
        assert(golomb_decode(enc + rest, offset, m) == Ok::<(int, nat), Error>((v, q + 1)));
    } else {
        vstd::arithmetic::power2::lemma_pow2_unfold(bb);
        let b1 = (bb - 1) as nat;
        assert(pow2(b1) <= mm - 1);
        if r < thr {
            let tail = num_bits(r, b1);
            lemma_bits_read_back(r, b1, rest);
            let t = tail + rest;
            assert(unary(q) + tail + rest =~= unary(q) + t);
            lemma_leading_unary(q, t);
            assert(t.take(b1 as int) == tail);
            assert(enc == unary(q) + tail);
            assert((enc + rest).skip((q + 1) as int) == t);
            assert(golomb_decode(enc + rest, offset, m) == Ok::<(int, nat), Error>((v, (q + bb) as nat)));
        } else {
            let x = (r + thr) as nat;
            let tail = num_bits(x, bb);
            lemma_bits_read_back(x, bb, rest);
            let t = tail + rest;
            assert(unary(q) + tail + rest =~= unary(q) + t);
            lemma_leading_unary(q, t);
            crate::bits::lemma_num_bits_len(x / 2, b1);
            crate::bits::lemma_num_bits_value(x / 2, b1);
            assert(t.take(b1 as int) =~= num_bits(x / 2, b1));
            vstd::arithmetic::power2::lemma_pow2_pos(b1);
            assert(x / 2 < pow2(b1));
            vstd::arithmetic::div_mod::lemma_small_mod(x / 2, pow2(b1));
            assert(x / 2 >= thr);
            assert(t.take(bb as int) == tail);
            assert(enc == unary(q) + tail);
            assert((enc + rest).skip((q + 1) as int) == t);
            assert(golomb_decode(enc + rest, offset, m) == Ok::<(int, nat), Error>((v, q + 1 + bb)));
        }
    }
}

} // verus!
