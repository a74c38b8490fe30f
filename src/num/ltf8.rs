use vstd::prelude::*;
use vstd::arithmetic::div_mod::{lemma_fundamental_div_mod, lemma_div_pos_is_pos};

use crate::error::Error;
use crate::num::{
    be_bytes, be_value, bits_from_i64, i64_from_bits, i64_of_bits, lemma_be_round_trip,
    lemma_be_value_bound, lemma_pow256_pos, pow256, read_be, read_u8, u64_bits, write_be,
};

verus! {

/// The byte count of the LTF8 form of a 64-bit pattern `u`.
pub open spec fn ltf8_k(u: nat) -> nat {
    if u < 0x80 {
        1
    } else if u < 0x4000 {
        2
    } else if u < 0x20_0000 {
        3
    } else if u < 0x1000_0000 {
        4
    } else if u < 0x8_0000_0000 {
        5
    } else if u < 0x400_0000_0000 {
        6
    } else if u < 0x2_0000_0000_0000 {
        7
    } else if u < 0x100_0000_0000_0000 {
        8
    } else {
        9
    }
}

/// The first-byte marker of a `k`-byte LTF8 value: `k - 1` leading one bits.
pub open spec fn ltf8_marker(k: nat) -> nat {
    if k <= 1 {
        0
    } else if k == 2 {
        0x80
    } else if k == 3 {
        0xc0
    } else if k == 4 {
        0xe0
    } else if k == 5 {
        0xf0
    } else if k == 6 {
        0xf8
    } else if k == 7 {
        0xfc
    } else if k == 8 {
        0xfe
    } else {
        0xff
    }
}

/// The LTF8 bytes of a 64-bit pattern `u`: a marked first byte holding the top
/// bits, then the rest big-endian.
pub open spec fn ltf8_bytes(u: nat) -> Seq<u8> {
    let k = ltf8_k(u);
    seq![(ltf8_marker(k) + u / pow256((k - 1) as nat)) as u8] + be_bytes(u, (k - 1) as nat)
}

/// The LTF8 encoding of `n` (negative values take their two's-complement bits).
pub open spec fn ltf8_encoding(n: int) -> Seq<u8> {
    ltf8_bytes(u64_bits(n))
}

/// The byte count of an LTF8 value whose first byte is `b0`.
pub open spec fn ltf8_len(b0: u8) -> nat {
    if b0 < 0x80 {
        1
    } else if b0 < 0xc0 {
        2
    } else if b0 < 0xe0 {
        3
    } else if b0 < 0xf0 {
        4
    } else if b0 < 0xf8 {
        5
    } else if b0 < 0xfc {
        6
    } else if b0 < 0xfe {
        7
    } else if b0 < 0xff {
        8
    } else {
        9
    }
}

/// The 64-bit pattern that LTF8 bytes `s` (of length `ltf8_len(s[0])`) spell.
pub open spec fn ltf8_bits(s: Seq<u8>) -> nat {
    let k = ltf8_len(s[0]);
    (s[0] - ltf8_marker(k)) as nat * pow256((k - 1) as nat) + be_value(s.subrange(1, k as int))
}

/// What `read_ltf8` yields on `s`: the value and the count of bytes taken.
pub open spec fn ltf8_parse(s: Seq<u8>) -> Result<(int, nat), Error> {
    if s.len() == 0 || s.len() < ltf8_len(s[0]) {
        Err(Error::UnexpectedEof)
    } else {
        Ok((i64_of_bits(ltf8_bits(s)), ltf8_len(s[0])))
    }
}

fn ltf8_len_of(b0: u8) -> (r: usize)
    ensures
        r == ltf8_len(b0),
{
    if b0 < 0x80 {
        1
    } else if b0 < 0xc0 {
        2
    } else if b0 < 0xe0 {
        3
    } else if b0 < 0xf0 {
        4
    } else if b0 < 0xf8 {
        5
    } else if b0 < 0xfc {
        6
    } else if b0 < 0xfe {
        7
    } else if b0 < 0xff {
        8
    } else {
        9
    }
}

fn ltf8_marker_of(k: usize) -> (r: u8)
    requires
        1 <= k <= 9,
    ensures
        r as nat == ltf8_marker(k as nat),
{
    if k <= 1 {
        0
    } else if k == 2 {
        0x80
    } else if k == 3 {
        0xc0
    } else if k == 4 {
        0xe0
    } else if k == 5 {
        0xf0
    } else if k == 6 {
        0xf8
    } else if k == 7 {
        0xfc
    } else if k == 8 {
        0xfe
    } else {
        0xff
    }
}

fn pow256_of(k: usize) -> (r: u128)
    requires
        k <= 8,
    ensures
        r as nat == pow256(k as nat),
{
    let mut r: u128 = 1;
    let mut i: usize = 0;
    while i < k
        invariant
            i <= k <= 8,
            r as nat == pow256(i as nat),
            r <= 0x1_0000_0000_0000_0000,
        decreases k - i,
    {
        proof {
            crate::num::lemma_pow256_mono(i as nat, 7);
            reveal_with_fuel(pow256, 9);
        }
        r = r * 256;
        i += 1;
    }
    r
}

proof fn lemma_pow256_values()
    ensures
        pow256(0) == 1,
        pow256(1) == 0x100,
        pow256(2) == 0x1_0000,
        pow256(3) == 0x100_0000,
        pow256(4) == 0x1_0000_0000,
        pow256(5) == 0x100_0000_0000,
        pow256(6) == 0x1_0000_0000_0000,
        pow256(7) == 0x100_0000_0000_0000,
        pow256(8) == 0x1_0000_0000_0000_0000,
{
    reveal_with_fuel(pow256, 9);
}

pub proof fn lemma_ltf8_bits_bound(s: Seq<u8>)
    requires
        s.len() >= ltf8_len(s[0]),
    ensures
        ltf8_bits(s) < 0x1_0000_0000_0000_0000,
{
    lemma_pow256_values();
    let k = ltf8_len(s[0]);
    let t = s.subrange(1, k as int);
    lemma_be_value_bound(t);
    let hi = (s[0] - ltf8_marker(k)) as nat;
    let lo = be_value(t);
    let p = pow256((k - 1) as nat);
    assert((hi + 1) * p <= 0x1_0000_0000_0000_0000) by (nonlinear_arith)
        requires
            k == 1 ==> hi < 0x80 && p == 1,
            k == 2 ==> hi < 0x40 && p == 0x100,
            k == 3 ==> hi < 0x20 && p == 0x1_0000,
            k == 4 ==> hi < 0x10 && p == 0x100_0000,
            k == 5 ==> hi < 0x8 && p == 0x1_0000_0000,
            k == 6 ==> hi < 0x4 && p == 0x100_0000_0000,
            k == 7 ==> hi < 0x2 && p == 0x1_0000_0000_0000,
            k == 8 ==> hi < 0x1 && p == 0x100_0000_0000_0000,
            k == 9 ==> hi == 0 && p == 0x1_0000_0000_0000_0000,
            1 <= k <= 9,
    ;
    assert(hi * p + lo < 0x1_0000_0000_0000_0000) by (nonlinear_arith)
        requires
            lo < p,
            (hi + 1) * p <= 0x1_0000_0000_0000_0000,
    ;
}

/// Reads an LTF8 integer.
pub fn read_ltf8(src: &mut &[u8]) -> (r: Result<i64, Error>)
    ensures
        match ltf8_parse(old(src)@) {
            Ok((v, k)) => r == Ok::<i64, Error>(v as i64) && final(src)@ == old(src)@.subrange(
                k as int,
                old(src)@.len() as int,
            ),
            Err(e) => r == Err::<i64, Error>(e),
        },
{
    let ghost s0 = src@;
    let b0 = match read_u8(src) {
        Ok(b) => b,
        Err(e) => return Err(e),
    };
    let k = ltf8_len_of(b0);
    let lo = match read_be(src, k - 1) {
        Ok(r) => r,
        Err(e) => return Err(e),
    };
    assert(s0.subrange(1, k as int) =~= old(src)@.drop_first().subrange(0, k - 1));
    proof {
        lemma_ltf8_bits_bound(s0);
    }
    let hi = (b0 - ltf8_marker_of(k)) as u128;
    let u = hi * pow256_of(k - 1) + lo as u128;
    assert(u as nat == ltf8_bits(s0));
    assert(src@ =~= s0.subrange(k as int, s0.len() as int));
    Ok(i64_from_bits(u as u64))
}

/// Writes an LTF8 integer.
pub fn write_ltf8(dst: &mut Vec<u8>, n: i64) -> (r: Result<(), Error>)
    ensures
        r is Ok,
        final(dst)@ == old(dst)@ + ltf8_encoding(n as int),
{
    let u = bits_from_i64(n);
    let k: usize = if u < 0x80 {
        1
    } else if u < 0x4000 {
        2
    } else if u < 0x20_0000 {
        3
    } else if u < 0x1000_0000 {
        4
    } else if u < 0x8_0000_0000 {
        5
    } else if u < 0x400_0000_0000 {
        6
    } else if u < 0x2_0000_0000_0000 {
        7
    } else if u < 0x100_0000_0000_0000 {
        8
    } else {
        9
    };
    proof {
        lemma_ltf8_first_byte(u as nat);
        lemma_pow256_pos((k - 1) as nat);
    }
    let first = (ltf8_marker_of(k) as u128 + u as u128 / pow256_of(k - 1)) as u8;
    dst.push(first);
    write_be(dst, u, k - 1);
    assert(dst@ =~= old(dst)@ + ltf8_encoding(n as int));
    Ok(())
}

proof fn lemma_ltf8_first_byte(u: nat)
    requires
        u < 0x1_0000_0000_0000_0000,
    ensures
        ltf8_marker(ltf8_k(u)) + u / pow256((ltf8_k(u) - 1) as nat) < 256,
        ltf8_len((ltf8_marker(ltf8_k(u)) + u / pow256((ltf8_k(u) - 1) as nat)) as u8) == ltf8_k(u),
        1 <= ltf8_k(u) <= 9,
{
    lemma_pow256_values();
    if u < 0x80 {
        assert(u / 1 < 0x80) by (nonlinear_arith)
            requires
                u < 0x80,
        ;
    } else if u < 0x4000 {
        assert(u / 0x100 < 0x40) by (nonlinear_arith)
            requires
                u < 0x4000,
        ;
    } else if u < 0x20_0000 {
        assert(u / 0x1_0000 < 0x20) by (nonlinear_arith)
            requires
                u < 0x20_0000,
        ;
    } else if u < 0x1000_0000 {
        assert(u / 0x100_0000 < 0x10) by (nonlinear_arith)
            requires
                u < 0x1000_0000,
        ;
    } else if u < 0x8_0000_0000 {
        assert(u / 0x1_0000_0000 < 0x8) by (nonlinear_arith)
            requires
                u < 0x8_0000_0000,
        ;
    } else if u < 0x400_0000_0000 {
        assert(u / 0x100_0000_0000 < 0x4) by (nonlinear_arith)
            requires
                u < 0x400_0000_0000,
        ;
    } else if u < 0x2_0000_0000_0000 {
        assert(u / 0x1_0000_0000_0000 < 0x2) by (nonlinear_arith)
            requires
                u < 0x2_0000_0000_0000,
        ;
    } else if u < 0x100_0000_0000_0000 {
        assert(u / 0x100_0000_0000_0000 < 0x1) by (nonlinear_arith)
            requires
                u < 0x100_0000_0000_0000,
        ;
    } else {
        assert(u / 0x1_0000_0000_0000_0000 == 0) by (nonlinear_arith)
            requires
                u < 0x1_0000_0000_0000_0000,
        ;
    }
}

/// LTF8 round trip: reading back what `write_ltf8` wrote yields the value and
/// consumes exactly its bytes.
pub proof fn lemma_ltf8_round_trip(n: i64, rest: Seq<u8>)
    ensures
        ltf8_parse(ltf8_encoding(n as int) + rest) == Ok::<(int, nat), Error>(
            (n as int, ltf8_encoding(n as int).len()),
        ),
{
    let u = u64_bits(n as int);
    let k = ltf8_k(u);
    let p = pow256((k - 1) as nat);
    lemma_ltf8_first_byte(u);
    lemma_be_round_trip(u, (k - 1) as nat);
    lemma_pow256_pos((k - 1) as nat);
    let s = ltf8_encoding(n as int) + rest;
    assert(s.subrange(1, k as int) =~= be_bytes(u, (k - 1) as nat));
    lemma_fundamental_div_mod(u as int, p as int);
    assert(s[0] == (ltf8_marker(k) + u / p) as u8);
    assert(ltf8_len(s[0]) == k);
    assert((s[0] - ltf8_marker(k)) as nat == u / p);
    assert(be_value(s.subrange(1, k as int)) == u % p);
    assert(ltf8_bits(s) == (u / p) * p + u % p);
}

} // verus!
