use vstd::prelude::*;
use vstd::slice::slice_subrange;

use crate::error::Error;
use crate::version::Version;
use crate::num::itf8::{itf8_encoding, itf8_parse, itf8_size_of, read_itf8, write_itf8};
use crate::num::ltf8::{ltf8_encoding, ltf8_parse, read_ltf8, write_ltf8};
use crate::num::vlq::{
    lemma_uint7_scan_bound, read_sint7, read_uint7, read_uint7_64, read_uint7_as, two_pow_32,
    uint7_64_parse, uint7_parse, uint7_size_of, write_sint7, write_uint7, write_uint7_64,
};

pub mod itf8;
pub mod ltf8;
pub mod vlq;

verus! {

/// Walks a VLQ: each byte adds its low 7 bits to the accumulator (which wraps
/// at `modulus`), a clear high bit ends the value, and more than `limit` bytes
/// is an overflow. Yields the value and the count of bytes taken.
pub open spec fn uint7_scan(s: Seq<u8>, count: nat, acc: nat, limit: nat, modulus: nat) -> Result<
    (nat, nat),
    Error,
>
    decreases s.len(),
{
    if s.len() == 0 {
        Err(Error::UnexpectedEof)
    } else if count + 1 > limit {
        Err(Error::InvalidData)
    } else {
        let next = (acc * 128 + (s[0] % 128) as nat) % modulus;
        if s[0] < 128 {
            Ok((next, count + 1))
        } else {
            uint7_scan(s.drop_first(), count + 1, next, limit, modulus)
        }
    }
}

/// The leading bytes of a VLQ for `m > 0`: 7-bit groups, each with its high bit set.
pub open spec fn uint7_hi(m: nat) -> Seq<u8>
    decreases m,
{
    if m < 128 {
        seq![(m + 128) as u8]
    } else {
        uint7_hi(m / 128).push((m % 128 + 128) as u8)
    }
}

/// The VLQ bytes of `n`: big-endian 7-bit groups, the high bit set on all but the last.
pub open spec fn uint7_bytes(n: nat) -> Seq<u8> {
    if n < 128 {
        seq![n as u8]
    } else {
        uint7_hi(n / 128).push((n % 128) as u8)
    }
}

/// Zigzag: 0, -1, 1, -2, 2, ... map to 0, 1, 2, 3, 4, ...
pub open spec fn zigzag_encode(n: int) -> nat {
    if n >= 0 {
        (2 * n) as nat
    } else {
        (-2 * n - 1) as nat
    }
}

pub open spec fn zigzag_decode(u: nat) -> int {
    if u % 2 == 0 {
        (u / 2) as int
    } else {
        -((u / 2) as int) - 1
    }
}

/// Reads one byte.
pub fn read_u8(src: &mut &[u8]) -> (r: Result<u8, Error>)
    ensures
        old(src)@.len() == 0 ==> r == Err::<u8, Error>(Error::UnexpectedEof) && final(src)@ == old(
            src,
        )@,
        old(src)@.len() > 0 ==> r == Ok::<u8, Error>(old(src)@[0]) && final(src)@ == old(
            src,
        )@.drop_first(),
{
    if src.len() == 0 {
        return Err(Error::UnexpectedEof);
    }
    let b = src[0];
    *src = slice_subrange(*src, 1, src.len());
    Ok(b)
}

} // verus!

verus! {

/// 256^k.
pub open spec fn pow256(k: nat) -> nat
    decreases k,
{
    if k == 0 {
        1
    } else {
        256 * pow256((k - 1) as nat)
    }
}

/// The `len` low-order bytes of `x`, most significant first.
pub open spec fn be_bytes(x: nat, len: nat) -> Seq<u8>
    decreases len,
{
    if len == 0 {
        Seq::empty()
    } else {
        be_bytes(x / 256, (len - 1) as nat).push((x % 256) as u8)
    }
}

/// The number that big-endian bytes `t` spell.
pub open spec fn be_value(t: Seq<u8>) -> nat
    decreases t.len(),
{
    if t.len() == 0 {
        0
    } else {
        be_value(t.drop_last()) * 256 + t.last() as nat
    }
}

/// The bits of `n` read as an unsigned 32-bit number.
pub open spec fn u32_bits(n: int) -> nat {
    if n >= 0 {
        n as nat
    } else {
        (n + 0x1_0000_0000) as nat
    }
}

/// The signed 32-bit number whose bits are `u`.
pub open spec fn i32_of_bits(u: nat) -> int {
    if u < 0x8000_0000 {
        u as int
    } else {
        u - 0x1_0000_0000
    }
}

/// The bits of `n` read as an unsigned 64-bit number.
pub open spec fn u64_bits(n: int) -> nat {
    if n >= 0 {
        n as nat
    } else {
        (n + 0x1_0000_0000_0000_0000) as nat
    }
}

/// The signed 64-bit number whose bits are `u`.
pub open spec fn i64_of_bits(u: nat) -> int {
    if u < 0x8000_0000_0000_0000 {
        u as int
    } else {
        u - 0x1_0000_0000_0000_0000
    }
}

pub proof fn lemma_pow256_pos(k: nat)
    ensures
        pow256(k) >= 1,
    decreases k,
{
    if k > 0 {
        lemma_pow256_pos((k - 1) as nat);
    }
}

/// Big-endian bytes read back as the number modulo `256^len`.
pub proof fn lemma_be_round_trip(x: nat, len: nat)
    ensures
        be_bytes(x, len).len() == len,
        be_value(be_bytes(x, len)) == x % pow256(len),
    decreases len,
{
    if len == 0 {
    } else {
        let l1 = (len - 1) as nat;
        lemma_be_round_trip(x / 256, l1);
        let t = be_bytes(x, len);
        assert(t.drop_last() =~= be_bytes(x / 256, l1));
        lemma_pow256_pos(l1);
        let p = pow256(l1);
        // (x / 256) % p * 256 + x % 256 == x % (256 * p)
        vstd::arithmetic::div_mod::lemma_breakdown(x as int, 256, p as int);
    }
}

/// A value spelled by `len` bytes is below `256^len`.
pub proof fn lemma_be_value_bound(t: Seq<u8>)
    ensures
        be_value(t) < pow256(t.len()),
    decreases t.len(),
{
    if t.len() > 0 {
        lemma_be_value_bound(t.drop_last());
        let p = pow256((t.len() - 1) as nat);
        let v = be_value(t.drop_last());
        assert(v * 256 + (t.last() as nat) < 256 * p) by (nonlinear_arith)
            requires
                v < p,
                t.last() < 256,
        ;
    }
}

/// Appends the `len` low-order bytes of `x`, most significant first.
pub fn write_be(dst: &mut Vec<u8>, x: u64, len: usize)
    ensures
        final(dst)@ == old(dst)@ + be_bytes(x as nat, len as nat),
    decreases len,
{
    if len > 0 {
        write_be(dst, x / 256, len - 1);
        dst.push((x % 256) as u8);
        assert(dst@ =~= old(dst)@ + be_bytes(x as nat, len as nat));
    }
}

/// Reads `len` bytes (at most 8) as a big-endian number.
pub fn read_be(src: &mut &[u8], len: usize) -> (r: Result<u64, Error>)
    requires
        len <= 8,
    ensures
        old(src)@.len() < len ==> r == Err::<u64, Error>(Error::UnexpectedEof),
        old(src)@.len() >= len ==> r == Ok::<u64, Error>(
            be_value(old(src)@.subrange(0, len as int)) as u64,
        ) && final(src)@ == old(src)@.subrange(len as int, old(src)@.len() as int),
        r is Ok ==> r->Ok_0 as nat == be_value(old(src)@.subrange(0, len as int)),
{
    if src.len() < len {
        return Err(Error::UnexpectedEof);
    }
    let ghost s0 = src@;
    let mut acc: u64 = 0;
    let mut i: usize = 0;
    while i < len
        invariant
            i <= len <= 8,
            s0.len() >= len,
            s0 == old(src)@,
            src@ == s0.subrange(i as int, s0.len() as int),
            acc as nat == be_value(s0.subrange(0, i as int)),
        decreases len - i,
    {
        proof {
            lemma_be_value_bound(s0.subrange(0, i as int));
            assert(pow256(i as nat) <= pow256(7)) by {
                lemma_pow256_mono(i as nat, 7);
            }
            reveal_with_fuel(pow256, 8);
        }
        let b = src[0];
        *src = slice_subrange(*src, 1, src.len());
        acc = acc * 256 + b as u64;
        i += 1;
        assert(s0.subrange(0, i as int).drop_last() =~= s0.subrange(0, i - 1));
    }
    Ok(acc)
}

pub proof fn lemma_pow256_mono(a: nat, b: nat)
    requires
        a <= b,
    ensures
        pow256(a) <= pow256(b),
    decreases b,
{
    if a < b {
        lemma_pow256_mono(a, (b - 1) as nat);
        lemma_pow256_pos((b - 1) as nat);
    }
}

} // verus!

verus! {

/// The signed 32-bit number with the bits of `u`.
pub fn i32_from_bits(u: u32) -> (r: i32)
    ensures
        r as int == i32_of_bits(u as nat),
{
    if u < 0x8000_0000 {
        u as i32
    } else {
        (u as i64 - 0x1_0000_0000) as i32
    }
}

/// The bits of `n` as an unsigned 32-bit number.
pub fn bits_from_i32(n: i32) -> (r: u32)
    ensures
        r as nat == u32_bits(n as int),
{
    if n >= 0 {
        n as u32
    } else {
        (n as i64 + 0x1_0000_0000) as u32
    }
}

/// The signed 64-bit number with the bits of `u`.
pub fn i64_from_bits(u: u64) -> (r: i64)
    ensures
        r as int == i64_of_bits(u as nat),
{
    if u < 0x8000_0000_0000_0000 {
        u as i64
    } else {
        (u as i128 - 0x1_0000_0000_0000_0000) as i64
    }
}

/// The bits of `n` as an unsigned 64-bit number.
pub fn bits_from_i64(n: i64) -> (r: u64)
    ensures
        r as nat == u64_bits(n as int),
{
    if n >= 0 {
        n as u64
    } else {
        (n as i128 + 0x1_0000_0000_0000_0000) as u64
    }
}

} // verus!

verus! {

/// What `read_signed_int` yields: ITF8 before 4.0, zigzag uint7 from 4.0 on.
pub open spec fn signed_int_parse(s: Seq<u8>, version: Version) -> Result<(int, nat), Error> {
    if version.uses_vlq_spec() {
        match uint7_parse(s) {
            Ok((u, k)) => Ok((zigzag_decode(u), k)),
            Err(e) => Err(e),
        }
    } else {
        itf8_parse(s)
    }
}

/// What `write_signed_int` writes.
pub open spec fn signed_int_encoding(n: int, version: Version) -> Seq<u8> {
    if version.uses_vlq_spec() {
        uint7_bytes(zigzag_encode(n))
    } else {
        itf8_encoding(n)
    }
}

/// What `read_header_int` yields: ITF8 before 4.0, from 4.0 on a uint7 whose
/// 32 bits are taken as signed.
pub open spec fn header_int_parse(s: Seq<u8>, version: Version) -> Result<(int, nat), Error> {
    if version.uses_vlq_spec() {
        match uint7_parse(s) {
            Ok((u, k)) => Ok((i32_of_bits(u), k)),
            Err(e) => Err(e),
        }
    } else {
        itf8_parse(s)
    }
}

/// What `write_header_int` writes.
pub open spec fn header_int_encoding(n: int, version: Version) -> Seq<u8> {
    if version.uses_vlq_spec() {
        uint7_bytes(u32_bits(n))
    } else {
        itf8_encoding(n)
    }
}

/// What `read_unsigned_int` yields: ITF8 before 4.0; from 4.0 on a uint7, which
/// must fit an `i32`.
pub open spec fn unsigned_int_parse(s: Seq<u8>, version: Version) -> Result<(int, nat), Error> {
    if version.uses_vlq_spec() {
        match uint7_parse(s) {
            Ok((u, k)) => if u <= 0x7fff_ffff {
                Ok((u as int, k))
            } else {
                Err(Error::InvalidData)
            },
            Err(e) => Err(e),
        }
    } else {
        itf8_parse(s)
    }
}

/// What `read_unsigned_int_as` yields: as `read_unsigned_int`, but the VLQ path
/// takes all of `u32` and a negative ITF8 value is invalid.
pub open spec fn count_parse(s: Seq<u8>, version: Version) -> Result<(int, nat), Error> {
    if version.uses_vlq_spec() {
        match uint7_parse(s) {
            Ok((u, k)) => Ok((u as int, k)),
            Err(e) => Err(e),
        }
    } else {
        match itf8_parse(s) {
            Ok((v, k)) => if v >= 0 {
                Ok((v, k))
            } else {
                Err(Error::InvalidData)
            },
            Err(e) => Err(e),
        }
    }
}

/// What `read_long_as` yields: LTF8 before 4.0; from 4.0 on a uint7_64, which
/// must fit an `i64`.
pub open spec fn long_parse(s: Seq<u8>, version: Version) -> Result<(int, nat), Error> {
    if version.uses_vlq_spec() {
        match uint7_64_parse(s) {
            Ok((u, k)) => if u <= 0x7fff_ffff_ffff_ffff {
                Ok((u as int, k))
            } else {
                Err(Error::InvalidData)
            },
            Err(e) => Err(e),
        }
    } else {
        ltf8_parse(s)
    }
}

/// What `write_long` writes (from 4.0 on only for non-negative values).
pub open spec fn long_encoding(n: int, version: Version) -> Seq<u8> {
    if version.uses_vlq_spec() {
        uint7_bytes(n as nat)
    } else {
        ltf8_encoding(n)
    }
}

/// What `read_position` yields: ITF8 widened before 4.0; from 4.0 on a
/// uint7_64, which must fit an `i64`.
pub open spec fn position_parse(s: Seq<u8>, version: Version) -> Result<(int, nat), Error> {
    if version.uses_vlq_spec() {
        match uint7_64_parse(s) {
            Ok((u, k)) => if u <= 0x7fff_ffff_ffff_ffff {
                Ok((u as int, k))
            } else {
                Err(Error::InvalidData)
            },
            Err(e) => Err(e),
        }
    } else {
        itf8_parse(s)
    }
}

/// What `write_int` and `write_position` write for a value they accept.
pub open spec fn unsigned_encoding(n: int, version: Version) -> Seq<u8> {
    if version.uses_vlq_spec() {
        uint7_bytes(n as nat)
    } else {
        itf8_encoding(n)
    }
}

/// The reader advanced past the first `k` bytes of what it held.
pub open spec fn advanced_by(before: Seq<u8>, after: Seq<u8>, k: nat) -> bool {
    after == before.subrange(k as int, before.len() as int)
}

/// Reads a signed integer (offsets, alphabet values).
pub fn read_signed_int(src: &mut &[u8], version: Version) -> (r: Result<i32, Error>)
    ensures
        match signed_int_parse(old(src)@, version) {
            Ok((v, k)) => r == Ok::<i32, Error>(v as i32) && advanced_by(old(src)@, final(src)@, k),
            Err(e) => r == Err::<i32, Error>(e),
        },
{
    if version.uses_vlq() {
        read_sint7(src)
    } else {
        read_itf8(src)
    }
}

/// Reads a header-level integer (reference sequence ids, block ids).
pub fn read_header_int(src: &mut &[u8], version: Version) -> (r: Result<i32, Error>)
    ensures
        match header_int_parse(old(src)@, version) {
            Ok((v, k)) => r == Ok::<i32, Error>(v as i32) && advanced_by(old(src)@, final(src)@, k),
            Err(e) => r == Err::<i32, Error>(e),
        },
{
    if version.uses_vlq() {
        proof {
            lemma_uint7_scan_bound(src@, 0, 0, 5, two_pow_32());
        }
        match read_uint7(src) {
            Ok(n) => Ok(i32_from_bits(n)),
            Err(e) => Err(e),
        }
    } else {
        read_itf8(src)
    }
}

/// Reads an unsigned integer as `i32`.
pub fn read_unsigned_int(src: &mut &[u8], version: Version) -> (r: Result<i32, Error>)
    ensures
        match unsigned_int_parse(old(src)@, version) {
            Ok((v, k)) => r == Ok::<i32, Error>(v as i32) && advanced_by(old(src)@, final(src)@, k),
            Err(e) => r == Err::<i32, Error>(e),
        },
{
    proof {
        lemma_uint7_scan_bound(src@, 0, 0, 5, two_pow_32());
        if src@.len() > 0 && src@.len() >= crate::num::itf8::itf8_len(src@[0]) {
            crate::num::itf8::lemma_itf8_bits_bound(src@);
        }
    }
    if version.uses_vlq() {
        match read_uint7(src) {
            Ok(n) => if n <= 0x7fff_ffff {
                Ok(n as i32)
            } else {
                Err(Error::InvalidData)
            },
            Err(e) => Err(e),
        }
    } else {
        read_itf8(src)
    }
}

/// Reads an unsigned integer as a count or length (`usize`).
pub fn read_unsigned_int_as(src: &mut &[u8], version: Version) -> (r: Result<usize, Error>)
    ensures
        match count_parse(old(src)@, version) {
            Ok((v, k)) => r == Ok::<usize, Error>(v as usize) && advanced_by(
                old(src)@,
                final(src)@,
                k,
            ),
            Err(e) => r == Err::<usize, Error>(e),
        },
{
    proof {
        lemma_uint7_scan_bound(src@, 0, 0, 5, two_pow_32());
        if src@.len() > 0 && src@.len() >= crate::num::itf8::itf8_len(src@[0]) {
            crate::num::itf8::lemma_itf8_bits_bound(src@);
        }
    }
    if version.uses_vlq() {
        read_uint7_as(src)
    } else {
        match read_itf8(src) {
            Ok(n) => if n >= 0 {
                Ok(n as usize)
            } else {
                Err(Error::InvalidData)
            },
            Err(e) => Err(e),
        }
    }
}

/// Reads a long integer (record counters, base counts).
pub fn read_long_as(src: &mut &[u8], version: Version) -> (r: Result<i64, Error>)
    ensures
        match long_parse(old(src)@, version) {
            Ok((v, k)) => r == Ok::<i64, Error>(v as i64) && advanced_by(old(src)@, final(src)@, k),
            Err(e) => r == Err::<i64, Error>(e),
        },
{
    proof {
        lemma_uint7_scan_bound(src@, 0, 0, 10, crate::num::vlq::two_pow_64());
        if src@.len() > 0 && src@.len() >= crate::num::itf8::itf8_len(src@[0]) {
            crate::num::itf8::lemma_itf8_bits_bound(src@);
        }
    }
    if version.uses_vlq() {
        match read_uint7_64(src) {
            Ok(n) => if n <= 0x7fff_ffff_ffff_ffff {
                Ok(n as i64)
            } else {
                Err(Error::InvalidData)
            },
            Err(e) => Err(e),
        }
    } else {
        read_ltf8(src)
    }
}

/// Reads a position (alignment start or span).
pub fn read_position(src: &mut &[u8], version: Version) -> (r: Result<i64, Error>)
    ensures
        match position_parse(old(src)@, version) {
            Ok((v, k)) => r == Ok::<i64, Error>(v as i64) && advanced_by(old(src)@, final(src)@, k),
            Err(e) => r == Err::<i64, Error>(e),
        },
{
    proof {
        lemma_uint7_scan_bound(src@, 0, 0, 10, crate::num::vlq::two_pow_64());
        if src@.len() > 0 && src@.len() >= crate::num::itf8::itf8_len(src@[0]) {
            crate::num::itf8::lemma_itf8_bits_bound(src@);
        }
    }
    if version.has_64bit_positions() {
        match read_uint7_64(src) {
            Ok(n) => if n <= 0x7fff_ffff_ffff_ffff {
                Ok(n as i64)
            } else {
                Err(Error::InvalidData)
            },
            Err(e) => Err(e),
        }
    } else {
        match read_itf8(src) {
            Ok(n) => Ok(n as i64),
            Err(e) => Err(e),
        }
    }
}

/// Writes a non-negative integer; from 4.0 on a negative value is invalid input.
pub fn write_int(dst: &mut Vec<u8>, version: Version, value: i32) -> (r: Result<(), Error>)
    ensures
        version.uses_vlq_spec() && value < 0 ==> r == Err::<(), Error>(Error::InvalidInput)
            && final(dst)@ == old(dst)@,
        !(version.uses_vlq_spec() && value < 0) ==> r is Ok && final(dst)@ == old(dst)@
            + unsigned_encoding(value as int, version),
{
    if version.uses_vlq() {
        if value < 0 {
            return Err(Error::InvalidInput);
        }
        write_uint7(dst, value as u32)
    } else {
        write_itf8(dst, value)
    }
}

/// Writes a header-level integer; from 4.0 on its 32 bits go out as a uint7.
pub fn write_header_int(dst: &mut Vec<u8>, version: Version, value: i32) -> (r: Result<(), Error>)
    ensures
        r is Ok,
        final(dst)@ == old(dst)@ + header_int_encoding(value as int, version),
{
    if version.uses_vlq() {
        write_uint7(dst, bits_from_i32(value))
    } else {
        write_itf8(dst, value)
    }
}

/// Writes a signed integer.
pub fn write_signed_int(dst: &mut Vec<u8>, version: Version, value: i32) -> (r: Result<(), Error>)
    ensures
        r is Ok,
        final(dst)@ == old(dst)@ + signed_int_encoding(value as int, version),
{
    if version.uses_vlq() {
        write_sint7(dst, value)
    } else {
        write_itf8(dst, value)
    }
}

/// Writes a long integer; from 4.0 on a negative value is invalid input.
pub fn write_long(dst: &mut Vec<u8>, version: Version, value: i64) -> (r: Result<(), Error>)
    ensures
        version.uses_vlq_spec() && value < 0 ==> r == Err::<(), Error>(Error::InvalidInput)
            && final(dst)@ == old(dst)@,
        !(version.uses_vlq_spec() && value < 0) ==> r is Ok && final(dst)@ == old(dst)@
            + long_encoding(value as int, version),
{
    if version.uses_vlq() {
        if value < 0 {
            return Err(Error::InvalidInput);
        }
        write_uint7_64(dst, value as u64)
    } else {
        write_ltf8(dst, value)
    }
}

/// Writes a position: a non-negative uint7_64 from 4.0 on, an `i32` ITF8 before.
pub fn write_position(dst: &mut Vec<u8>, version: Version, value: i64) -> (r: Result<(), Error>)
    ensures
        (if version.uses_vlq_spec() {
            value < 0
        } else {
            value < i32::MIN || value > i32::MAX
        }) ==> r == Err::<(), Error>(Error::InvalidInput) && final(dst)@ == old(dst)@,
        !(if version.uses_vlq_spec() {
            value < 0
        } else {
            value < i32::MIN || value > i32::MAX
        }) ==> r is Ok && final(dst)@ == old(dst)@ + unsigned_encoding(value as int, version),
{
    if version.has_64bit_positions() {
        if value < 0 {
            return Err(Error::InvalidInput);
        }
        write_uint7_64(dst, value as u64)
    } else {
        if value < i32::MIN as i64 || value > i32::MAX as i64 {
            return Err(Error::InvalidInput);
        }
        write_itf8(dst, value as i32)
    }
}

/// The size of a block-level integer field (content id, sizes): the size of its
/// ITF8 form before 4.0, of the uint7 form of its 32 bits from 4.0 on.
pub fn int_size_of(version: Version, n: i32) -> (r: usize)
    ensures
        r == header_int_encoding(n as int, version).len(),
{
    if version.uses_vlq() {
        uint7_size_of(bits_from_i32(n))
    } else {
        itf8_size_of(n)
    }
}

} // verus!

verus! {

/// The `len` low-order bytes of `x`, least significant first.
pub open spec fn le_bytes(x: nat, len: nat) -> Seq<u8>
    decreases len,
{
    if len == 0 {
        Seq::empty()
    } else {
        seq![(x % 256) as u8] + le_bytes(x / 256, (len - 1) as nat)
    }
}

/// The number that little-endian bytes `t` spell.
pub open spec fn le_value(t: Seq<u8>) -> nat
    decreases t.len(),
{
    if t.len() == 0 {
        0
    } else {
        t[0] as nat + 256 * le_value(t.drop_first())
    }
}

/// Writes one byte.
pub fn write_u8(dst: &mut Vec<u8>, n: u8) -> (r: Result<(), Error>)
    ensures
        r is Ok,
        final(dst)@ == old(dst)@.push(n),
{
    dst.push(n);
    Ok(())
}

/// Appends the `len` low-order bytes of `x`, least significant first.
pub fn write_le(dst: &mut Vec<u8>, x: u64, len: usize)
    ensures
        final(dst)@ == old(dst)@ + le_bytes(x as nat, len as nat),
{
    let mut i: usize = 0;
    let mut y: u64 = x;
    while i < len
        invariant
            i <= len,
            old(dst)@ + le_bytes(x as nat, len as nat) == dst@ + le_bytes(
                y as nat,
                (len - i) as nat,
            ),
        decreases len - i,
    {
        let ghost before = dst@;
        dst.push((y % 256) as u8);
        y = y / 256;
        i += 1;
        assert(dst@ + le_bytes(y as nat, (len - i) as nat) =~= before + (seq![dst@.last()]
            + le_bytes(y as nat, (len - i) as nat)));
    }
    assert(le_bytes(y as nat, 0) =~= Seq::<u8>::empty());
    assert(dst@ =~= dst@ + le_bytes(y as nat, 0));
}

/// Writes a little-endian `u16`.
pub fn write_u16_le(dst: &mut Vec<u8>, n: u16) -> (r: Result<(), Error>)
    ensures
        r is Ok,
        final(dst)@ == old(dst)@ + le_bytes(n as nat, 2),
{
    write_le(dst, n as u64, 2);
    Ok(())
}

/// Writes a little-endian `u32`.
pub fn write_u32_le(dst: &mut Vec<u8>, n: u32) -> (r: Result<(), Error>)
    ensures
        r is Ok,
        final(dst)@ == old(dst)@ + le_bytes(n as nat, 4),
{
    write_le(dst, n as u64, 4);
    Ok(())
}

/// Writes a little-endian `i32` (its two's-complement bits).
pub fn write_i32_le(dst: &mut Vec<u8>, n: i32) -> (r: Result<(), Error>)
    ensures
        r is Ok,
        final(dst)@ == old(dst)@ + le_bytes(u32_bits(n as int), 4),
{
    write_le(dst, bits_from_i32(n) as u64, 4);
    Ok(())
}

/// Reads `len` bytes (at most 8) as a little-endian number.
pub fn read_le(src: &mut &[u8], len: usize) -> (r: Result<u64, Error>)
    requires
        len <= 8,
    ensures
        old(src)@.len() < len ==> r == Err::<u64, Error>(Error::UnexpectedEof),
        old(src)@.len() >= len ==> r is Ok && r->Ok_0 as nat == le_value(
            old(src)@.subrange(0, len as int),
        ) && final(src)@ == old(src)@.subrange(len as int, old(src)@.len() as int),
{
    if src.len() < len {
        return Err(Error::UnexpectedEof);
    }
    let ghost s0 = src@;
    let mut acc: u64 = 0;
    let mut i: usize = len;
    proof {
        reveal_with_fuel(pow256, 9);
    }
    while i > 0
        invariant
            i <= len <= 8,
            s0.len() >= len,
            src@ == s0,
            s0 == old(src)@,
            acc as nat == le_value(s0.subrange(i as int, len as int)),
            acc < pow256((len - i) as nat),
            pow256(8) == 0x1_0000_0000_0000_0000,
        decreases i,
    {
        let b = src[i - 1];
        proof {
            lemma_pow256_mono((len - i) as nat, 7);
        }
        acc = b as u64 + 256 * acc;
        i -= 1;
        assert(s0.subrange(i as int, len as int).drop_first() =~= s0.subrange(i + 1, len as int));
    }
    *src = slice_subrange(*src, len, src.len());
    Ok(acc)
}

/// Reads a little-endian `u32`.
pub fn read_u32_le(src: &mut &[u8]) -> (r: Result<u32, Error>)
    ensures
        old(src)@.len() < 4 ==> r == Err::<u32, Error>(Error::UnexpectedEof),
        old(src)@.len() >= 4 ==> r is Ok && r->Ok_0 as nat == le_value(old(src)@.subrange(0, 4))
            && final(src)@ == old(src)@.subrange(4, old(src)@.len() as int),
{
    proof {
        reveal_with_fuel(pow256, 5);
    }
    match read_le(src, 4) {
        Ok(n) => {
            proof {
                lemma_le_value_bound(old(src)@.subrange(0, 4));
            }
            Ok(n as u32)
        },
        Err(e) => Err(e),
    }
}

/// Reads a little-endian `i32`.
pub fn read_i32_le(src: &mut &[u8]) -> (r: Result<i32, Error>)
    ensures
        old(src)@.len() < 4 ==> r == Err::<i32, Error>(Error::UnexpectedEof),
        old(src)@.len() >= 4 ==> r is Ok && r->Ok_0 as int == i32_of_bits(
            le_value(old(src)@.subrange(0, 4)),
        ) && final(src)@ == old(src)@.subrange(4, old(src)@.len() as int),
{
    match read_u32_le(src) {
        Ok(n) => Ok(i32_from_bits(n)),
        Err(e) => Err(e),
    }
}

pub proof fn lemma_le_value_bound(t: Seq<u8>)
    ensures
        le_value(t) < pow256(t.len()),
    decreases t.len(),
{
    if t.len() > 0 {
        lemma_le_value_bound(t.drop_first());
        let p = pow256((t.len() - 1) as nat);
        let v = le_value(t.drop_first());
        assert((t[0] as nat) + 256 * v < 256 * p) by (nonlinear_arith)
            requires
                v < p,
                t[0] < 256,
        ;
    }
}

/// Little-endian bytes read back as the number modulo `256^len`.
pub proof fn lemma_le_round_trip(x: nat, len: nat)
    ensures
        le_bytes(x, len).len() == len,
        le_value(le_bytes(x, len)) == x % pow256(len),
    decreases len,
{
    if len > 0 {
        let l1 = (len - 1) as nat;
        lemma_le_round_trip(x / 256, l1);
        let t = le_bytes(x, len);
        assert(t.drop_first() =~= le_bytes(x / 256, l1));
        lemma_pow256_pos(l1);
        vstd::arithmetic::div_mod::lemma_breakdown(x as int, 256, pow256(l1) as int);
    }
}

} // verus!

verus! {

/// The integers the version-dispatched readers yield fit the types they are read into.
pub proof fn lemma_parse_ranges(s: Seq<u8>, version: Version)
    ensures
        signed_int_parse(s, version) is Ok ==> i32::MIN <= signed_int_parse(s, version)->Ok_0.0
            <= i32::MAX,
        header_int_parse(s, version) is Ok ==> i32::MIN <= header_int_parse(s, version)->Ok_0.0
            <= i32::MAX,
        unsigned_int_parse(s, version) is Ok ==> i32::MIN <= unsigned_int_parse(
            s,
            version,
        )->Ok_0.0 <= i32::MAX,
        count_parse(s, version) is Ok ==> 0 <= count_parse(s, version)->Ok_0.0 <= u32::MAX,
        long_parse(s, version) is Ok ==> i64::MIN <= long_parse(s, version)->Ok_0.0 <= i64::MAX,
        position_parse(s, version) is Ok ==> i64::MIN <= position_parse(s, version)->Ok_0.0
            <= i64::MAX,
        signed_int_parse(s, version) is Ok ==> signed_int_parse(s, version)->Ok_0.1 <= s.len(),
        unsigned_int_parse(s, version) is Ok ==> unsigned_int_parse(s, version)->Ok_0.1 <= s.len(),
        count_parse(s, version) is Ok ==> count_parse(s, version)->Ok_0.1 <= s.len(),
        header_int_parse(s, version) is Ok ==> header_int_parse(s, version)->Ok_0.1 <= s.len(),
        position_parse(s, version) is Ok ==> position_parse(s, version)->Ok_0.1 <= s.len(),
        long_parse(s, version) is Ok ==> long_parse(s, version)->Ok_0.1 <= s.len(),
{
    lemma_uint7_scan_bound(s, 0, 0, 5, two_pow_32());
    lemma_uint7_scan_bound(s, 0, 0, 10, crate::num::vlq::two_pow_64());
    if s.len() > 0 && s.len() >= crate::num::itf8::itf8_len(s[0]) {
        crate::num::itf8::lemma_itf8_bits_bound(s);
    }
    if s.len() > 0 && s.len() >= crate::num::ltf8::ltf8_len(s[0]) {
        crate::num::ltf8::lemma_ltf8_bits_bound(s);
    }
    if uint7_parse(s) is Ok {
        let u = uint7_parse(s)->Ok_0.0;
        crate::num::vlq::lemma_zigzag_range(u);
    }
}

} // verus!

verus! {

/// Small constants take at most a few bytes in either integer form.
pub proof fn lemma_int_encoding_len_bound(version: Version)
    ensures
        unsigned_encoding(0, version).len() <= 5,
        unsigned_encoding(6, version).len() <= 5,
{
    reveal_with_fuel(pow256, 2);
    crate::num::vlq::lemma_pow128_facts();
    crate::num::vlq::lemma_uint7_len(0, 5);
    crate::num::vlq::lemma_uint7_len(6, 5);
}

} // verus!

verus! {

/// For a value that `write_int` accepts, `int_size_of` is the length it writes.
pub proof fn lemma_int_size_small(version: Version, n: i32)
    ensures
        !(version.uses_vlq_spec() && n < 0) ==> header_int_encoding(n as int, version).len() == unsigned_encoding(n as int, version).len(),
        header_int_encoding(n as int, version).len() <= 10,
{
    crate::num::vlq::lemma_pow128_facts();
    crate::num::vlq::lemma_uint7_len(u32_bits(n as int), 5);
    let u = u32_bits(n as int);
    lemma_be_round_trip(u, 1);
    lemma_be_round_trip(u, 2);
    lemma_be_round_trip(u, 3);
    lemma_be_round_trip(u / 16, 3);
}

} // verus!
