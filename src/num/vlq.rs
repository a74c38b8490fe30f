use vstd::prelude::*;
use vstd::arithmetic::div_mod::{lemma_fundamental_div_mod, lemma_small_mod};

use crate::error::Error;
use crate::num::{read_u8, uint7_scan, uint7_bytes, uint7_hi, zigzag_encode, zigzag_decode};

verus! {

/// 2^32, the modulus that a 32-bit VLQ accumulator wraps at.
pub open spec fn two_pow_32() -> nat {
    0x1_0000_0000
}

/// 2^64, the modulus that a 64-bit VLQ accumulator wraps at.
pub open spec fn two_pow_64() -> nat {
    0x1_0000_0000_0000_0000
}

/// What `read_uint7` yields on `s`: the value and the number of bytes taken.
pub open spec fn uint7_parse(s: Seq<u8>) -> Result<(nat, nat), Error> {
    uint7_scan(s, 0, 0, 5, two_pow_32())
}

/// What `read_uint7_64` yields on `s`: the value and the number of bytes taken.
pub open spec fn uint7_64_parse(s: Seq<u8>) -> Result<(nat, nat), Error> {
    uint7_scan(s, 0, 0, 10, two_pow_64())
}

/// Reads a 32-bit unsigned VLQ (at most 5 bytes, big-endian 7-bit groups).
pub fn read_uint7(src: &mut &[u8]) -> (r: Result<u32, Error>)
    ensures
        match uint7_parse(old(src)@) {
            Ok((v, k)) => r == Ok::<u32, Error>(v as u32) && final(src)@ == old(src)@.subrange(
                k as int,
                old(src)@.len() as int,
            ),
            Err(e) => r == Err::<u32, Error>(e),
        },
{
    let ghost s0 = src@;
    let mut n: u32 = 0;
    let mut count: u8 = 0;
    loop
        invariant
            count <= 5,
            uint7_scan(s0, 0, 0, 5, two_pow_32()) == uint7_scan(
                src@,
                count as nat,
                n as nat,
                5,
                two_pow_32(),
            ),
            count <= s0.len(),
            s0 == old(src)@,
            src@ == s0.subrange(count as int, s0.len() as int),
        decreases src@.len(),
    {
        let ghost before = src@;
        let b = match read_u8(src) {
            Ok(b) => b,
            Err(e) => return Err(e),
        };
        count += 1;
        if count > 5 {
            return Err(Error::InvalidData);
        }
        n = (((n as u64) * 128 + (b % 128) as u64) % 0x1_0000_0000) as u32;
        assert(src@ == before.drop_first());
        if b < 128 {
            return Ok(n);
        }
    }
}

/// Reads a 64-bit unsigned VLQ (at most 10 bytes).
pub fn read_uint7_64(src: &mut &[u8]) -> (r: Result<u64, Error>)
    ensures
        match uint7_64_parse(old(src)@) {
            Ok((v, k)) => r == Ok::<u64, Error>(v as u64) && final(src)@ == old(src)@.subrange(
                k as int,
                old(src)@.len() as int,
            ),
            Err(e) => r == Err::<u64, Error>(e),
        },
{
    let ghost s0 = src@;
    let mut n: u64 = 0;
    let mut count: u8 = 0;
    loop
        invariant
            count <= 10,
            uint7_scan(s0, 0, 0, 10, two_pow_64()) == uint7_scan(
                src@,
                count as nat,
                n as nat,
                10,
                two_pow_64(),
            ),
            count <= s0.len(),
            s0 == old(src)@,
            src@ == s0.subrange(count as int, s0.len() as int),
        decreases src@.len(),
    {
        let ghost before = src@;
        let b = match read_u8(src) {
            Ok(b) => b,
            Err(e) => return Err(e),
        };
        count += 1;
        if count > 10 {
            return Err(Error::InvalidData);
        }
        n = (((n as u128) * 128 + (b % 128) as u128) % 0x1_0000_0000_0000_0000) as u64;
        assert(src@ == before.drop_first());
        if b < 128 {
            return Ok(n);
        }
    }
}

} // verus!

verus! {

/// 128^k.
pub open spec fn pow128(k: nat) -> nat
    decreases k,
{
    if k == 0 {
        1
    } else {
        128 * pow128((k - 1) as nat)
    }
}

/// Reads a 32-bit zigzag-signed VLQ.
pub fn read_sint7(src: &mut &[u8]) -> (r: Result<i32, Error>)
    ensures
        match uint7_parse(old(src)@) {
            Ok((v, k)) => r == Ok::<i32, Error>(zigzag_decode(v) as i32) && final(src)@ == old(
                src,
            )@.subrange(k as int, old(src)@.len() as int),
            Err(e) => r == Err::<i32, Error>(e),
        },
{
    proof {
        lemma_uint7_scan_bound(src@, 0, 0, 5, two_pow_32());
    }
    match read_uint7(src) {
        Ok(n) => Ok(zigzag_decode_i32(n)),
        Err(e) => Err(e),
    }
}

/// Reads a 64-bit zigzag-signed VLQ.
pub fn read_sint7_64(src: &mut &[u8]) -> (r: Result<i64, Error>)
    ensures
        match uint7_64_parse(old(src)@) {
            Ok((v, k)) => r == Ok::<i64, Error>(zigzag_decode(v) as i64) && final(src)@ == old(
                src,
            )@.subrange(k as int, old(src)@.len() as int),
            Err(e) => r == Err::<i64, Error>(e),
        },
{
    proof {
        lemma_uint7_scan_bound(src@, 0, 0, 10, two_pow_64());
    }
    match read_uint7_64(src) {
        Ok(n) => Ok(zigzag_decode_i64(n)),
        Err(e) => Err(e),
    }
}

/// Reads a 32-bit VLQ and converts it to `usize`.
pub fn read_uint7_as(src: &mut &[u8]) -> (r: Result<usize, Error>)
    ensures
        match uint7_parse(old(src)@) {
            Ok((v, k)) => r == Ok::<usize, Error>(v as usize) && final(src)@ == old(src)@.subrange(
                k as int,
                old(src)@.len() as int,
            ),
            Err(e) => r == Err::<usize, Error>(e),
        },
{
    proof {
        lemma_uint7_scan_bound(src@, 0, 0, 5, two_pow_32());
    }
    match read_uint7(src) {
        Ok(n) => Ok(n as usize),
        Err(e) => Err(e),
    }
}

pub fn zigzag_decode_i32(n: u32) -> (r: i32)
    ensures
        r as int == zigzag_decode(n as nat),
{
    if n % 2 == 0 {
        (n / 2) as i32
    } else {
        -((n / 2) as i32) - 1
    }
}

pub fn zigzag_decode_i64(n: u64) -> (r: i64)
    ensures
        r as int == zigzag_decode(n as nat),
{
    if n % 2 == 0 {
        (n / 2) as i64
    } else {
        -((n / 2) as i64) - 1
    }
}

pub fn zigzag_encode_i32(n: i32) -> (r: u32)
    ensures
        r as nat == zigzag_encode(n as int),
{
    if n >= 0 {
        (n as u32) * 2
    } else {
        ((-(n as i64) - 1) as u32) * 2 + 1
    }
}

pub fn zigzag_encode_i64(n: i64) -> (r: u64)
    ensures
        r as nat == zigzag_encode(n as int),
{
    if n >= 0 {
        (n as u64) * 2
    } else {
        ((-(n as i128) - 1) as u64) * 2 + 1
    }
}

fn write_uint7_hi(dst: &mut Vec<u8>, m: u64)
    requires
        m > 0,
    ensures
        final(dst)@ == old(dst)@ + uint7_hi(m as nat),
    decreases m,
{
    if m >= 128 {
        write_uint7_hi(dst, m / 128);
    }
    dst.push((m % 128 + 128) as u8);
    assert(dst@ =~= old(dst)@ + uint7_hi(m as nat));
}

/// Writes a 32-bit unsigned VLQ.
pub fn write_uint7(dst: &mut Vec<u8>, n: u32) -> (r: Result<(), Error>)
    ensures
        r is Ok,
        final(dst)@ == old(dst)@ + uint7_bytes(n as nat),
{
    if n >= 128 {
        write_uint7_hi(dst, (n / 128) as u64);
    }
    dst.push((n % 128) as u8);
    assert(dst@ =~= old(dst)@ + uint7_bytes(n as nat));
    Ok(())
}

/// Writes a 64-bit unsigned VLQ.
pub fn write_uint7_64(dst: &mut Vec<u8>, n: u64) -> (r: Result<(), Error>)
    ensures
        r is Ok,
        final(dst)@ == old(dst)@ + uint7_bytes(n as nat),
{
    if n >= 128 {
        write_uint7_hi(dst, n / 128);
    }
    dst.push((n % 128) as u8);
    assert(dst@ =~= old(dst)@ + uint7_bytes(n as nat));
    Ok(())
}

/// Writes a 32-bit zigzag-signed VLQ.
pub fn write_sint7(dst: &mut Vec<u8>, n: i32) -> (r: Result<(), Error>)
    ensures
        r is Ok,
        final(dst)@ == old(dst)@ + uint7_bytes(zigzag_encode(n as int)),
{
    write_uint7(dst, zigzag_encode_i32(n))
}

/// Writes a 64-bit zigzag-signed VLQ.
pub fn write_sint7_64(dst: &mut Vec<u8>, n: i64) -> (r: Result<(), Error>)
    ensures
        r is Ok,
        final(dst)@ == old(dst)@ + uint7_bytes(zigzag_encode(n as int)),
{
    write_uint7_64(dst, zigzag_encode_i64(n))
}

/// The number of bytes `write_uint7` writes for `n`.
pub fn uint7_size_of(n: u32) -> (r: usize)
    ensures
        r == uint7_bytes(n as nat).len(),
{
    proof {
        lemma_pow128_facts();
        lemma_uint7_len(n as nat, 5);
    }
    let mut size: usize = 1;
    let mut m: u32 = n / 128;
    while m > 0
        invariant
            1 <= size,
            m > 0 ==> uint7_bytes(n as nat).len() == size + uint7_hi(m as nat).len(),
            m == 0 ==> uint7_bytes(n as nat).len() == size,
            uint7_bytes(n as nat).len() <= 5,
        decreases m,
    {
        size += 1;
        m = m / 128;
    }
    size
}

pub proof fn lemma_pow128_facts()
    ensures
        pow128(5) == 0x8_0000_0000,
        pow128(10) == 0x40_0000_0000_0000_0000,
{
    reveal_with_fuel(pow128, 11);
}

/// The leading bytes of a VLQ for `0 < m < 128^k` number at most `k`.
pub proof fn lemma_uint7_hi_len(m: nat, k: nat)
    requires
        0 < m < pow128(k),
    ensures
        1 <= uint7_hi(m).len() <= k,
    decreases m,
{
    if k == 0 {
    } else if m < 128 {
    } else {
        let p = pow128((k - 1) as nat);
        assert(m / 128 < p) by (nonlinear_arith)
            requires
                m < 128 * p,
        ;
        lemma_uint7_hi_len(m / 128, (k - 1) as nat);
    }
}

/// A value below `128^k` takes at most `k` VLQ bytes.
pub proof fn lemma_uint7_len(n: nat, k: nat)
    requires
        k >= 1,
        n < pow128(k),
    ensures
        1 <= uint7_bytes(n).len() <= k,
{
    if n >= 128 {
        let p = pow128((k - 1) as nat);
        assert(n / 128 < p) by (nonlinear_arith)
            requires
                n < 128 * p,
        ;
        lemma_uint7_hi_len(n / 128, (k - 1) as nat);
    }
}

/// An accepted VLQ is below the accumulator's modulus and takes a prefix of the input.
pub proof fn lemma_uint7_scan_bound(s: Seq<u8>, count: nat, acc: nat, limit: nat, modulus: nat)
    requires
        modulus > 0,
    ensures
        uint7_scan(s, count, acc, limit, modulus) is Ok ==> ({
            let (v, k) = uint7_scan(s, count, acc, limit, modulus)->Ok_0;
            v < modulus && count < k <= count + s.len() && k <= limit
        }),
    decreases s.len(),
{
    if s.len() > 0 && count + 1 <= limit && s[0] >= 128 {
        let next = (acc * 128 + (s[0] % 128) as nat) % modulus;
        lemma_uint7_scan_bound(s.drop_first(), count + 1, next, limit, modulus);
    }
}

} // verus!

verus! {

proof fn lemma_uint7_hi_scan(m: nat, t: Seq<u8>, count: nat, limit: nat, modulus: nat)
    requires
        0 < m < modulus,
        count + uint7_hi(m).len() <= limit,
    ensures
        uint7_scan(uint7_hi(m) + t, count, 0, limit, modulus) == uint7_scan(
            t,
            count + uint7_hi(m).len(),
            m,
            limit,
            modulus,
        ),
    decreases m,
{
    let s = uint7_hi(m) + t;
    if m < 128 {
        assert(s[0] == (m + 128) as u8);
        assert(s.drop_first() =~= t);
        assert(((m + 128) as u8 % 128) as nat == m);
        lemma_small_mod(m, modulus);
    } else {
        let b = (m % 128 + 128) as u8;
        let hi = uint7_hi(m / 128);
        assert(s =~= hi + (seq![b] + t));
        assert(m / 128 < modulus);
        lemma_uint7_hi_scan(m / 128, seq![b] + t, count, limit, modulus);
        let u = seq![b] + t;
        assert(u[0] == b);
        assert(u.drop_first() =~= t);
        assert((b % 128) as nat == m % 128);
        lemma_fundamental_div_mod(m as int, 128);
        lemma_small_mod(m, modulus);
    }
}

/// Decoding what `uint7_bytes` gives for `n` yields `n` and consumes exactly those bytes,
/// whatever follows them.
pub proof fn lemma_uint7_bytes_scan(n: nat, t: Seq<u8>, limit: nat, modulus: nat)
    requires
        n < modulus,
        uint7_bytes(n).len() <= limit,
    ensures
        uint7_scan(uint7_bytes(n) + t, 0, 0, limit, modulus) == Ok::<(nat, nat), Error>(
            (n, uint7_bytes(n).len()),
        ),
{
    let s = uint7_bytes(n) + t;
    if n < 128 {
        assert(s[0] == n as u8);
        lemma_small_mod(n, modulus);
    } else {
        let b = (n % 128) as u8;
        let hi = uint7_hi(n / 128);
        assert(s =~= hi + (seq![b] + t));
        lemma_uint7_hi_scan(n / 128, seq![b] + t, 0, limit, modulus);
        let u = seq![b] + t;
        assert(u[0] == b);
        assert((b % 128) as nat == n % 128);
        lemma_fundamental_div_mod(n as int, 128);
        lemma_small_mod(n, modulus);
    }
}

/// uint7 round trip: reading back what `write_uint7` wrote yields the value.
pub proof fn lemma_uint7_round_trip(n: u32, rest: Seq<u8>)
    ensures
        uint7_parse(uint7_bytes(n as nat) + rest) == Ok::<(nat, nat), Error>(
            (n as nat, uint7_bytes(n as nat).len()),
        ),
{
    lemma_pow128_facts();
    lemma_uint7_len(n as nat, 5);
    lemma_uint7_bytes_scan(n as nat, rest, 5, two_pow_32());
}

/// uint7_64 round trip: reading back what `write_uint7_64` wrote yields the value.
pub proof fn lemma_uint7_64_round_trip(n: u64, rest: Seq<u8>)
    ensures
        uint7_64_parse(uint7_bytes(n as nat) + rest) == Ok::<(nat, nat), Error>(
            (n as nat, uint7_bytes(n as nat).len()),
        ),
{
    lemma_pow128_facts();
    lemma_uint7_len(n as nat, 10);
    lemma_uint7_bytes_scan(n as nat, rest, 10, two_pow_64());
}

/// Zigzag decoding undoes zigzag encoding.
pub proof fn lemma_zigzag_round_trip(n: int)
    ensures
        zigzag_decode(zigzag_encode(n)) == n,
{
}

/// sint7 round trip: reading back what `write_sint7` wrote yields the value.
pub proof fn lemma_sint7_round_trip(n: i32, rest: Seq<u8>)
    ensures
        uint7_parse(uint7_bytes(zigzag_encode(n as int)) + rest) == Ok::<(nat, nat), Error>(
            (zigzag_encode(n as int), uint7_bytes(zigzag_encode(n as int)).len()),
        ),
        zigzag_decode(zigzag_encode(n as int)) == n as int,
{
    let z = zigzag_encode(n as int);
    assert(z < two_pow_32());
    lemma_pow128_facts();
    lemma_uint7_len(z, 5);
    lemma_uint7_bytes_scan(z, rest, 5, two_pow_32());
}

/// sint7_64 round trip: reading back what `write_sint7_64` wrote yields the value.
pub proof fn lemma_sint7_64_round_trip(n: i64, rest: Seq<u8>)
    ensures
        uint7_64_parse(uint7_bytes(zigzag_encode(n as int)) + rest) == Ok::<(nat, nat), Error>(
            (zigzag_encode(n as int), uint7_bytes(zigzag_encode(n as int)).len()),
        ),
        zigzag_decode(zigzag_encode(n as int)) == n as int,
{
    let z = zigzag_encode(n as int);
    assert(z < two_pow_64());
    lemma_pow128_facts();
    lemma_uint7_len(z, 10);
    lemma_uint7_bytes_scan(z, rest, 10, two_pow_64());
}

} // verus!

verus! {

pub proof fn lemma_zigzag_range(u: nat)
    requires
        u < two_pow_32(),
    ensures
        i32::MIN <= zigzag_decode(u) <= i32::MAX,
{
}

} // verus!
