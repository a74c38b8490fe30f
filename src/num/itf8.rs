use vstd::prelude::*;

use crate::error::Error;
use crate::num::{
    be_bytes, be_value, bits_from_i32, i32_from_bits, i32_of_bits, lemma_be_round_trip, pow256,
    read_be, read_u8, u32_bits,
    write_be,
};

verus! {

/// The ITF8 bytes of a 32-bit pattern `u`: the count of leading one bits in the
/// first byte gives the count of bytes that follow; the five-byte form keeps a
/// nibble in its last byte.
pub open spec fn itf8_bytes(u: nat) -> Seq<u8> {
    if u < 0x80 {
        seq![u as u8]
    } else if u < 0x4000 {
        seq![(0x80 + u / 0x100) as u8] + be_bytes(u, 1)
    } else if u < 0x20_0000 {
        seq![(0xc0 + u / 0x1_0000) as u8] + be_bytes(u, 2)
    } else if u < 0x1000_0000 {
        seq![(0xe0 + u / 0x100_0000) as u8] + be_bytes(u, 3)
    } else {
        seq![(0xf0 + u / 0x1000_0000) as u8] + be_bytes(u / 16, 3) + seq![(u % 16) as u8]
    }
}

/// The ITF8 encoding of `n` (negative values take their two's-complement bits).
pub open spec fn itf8_encoding(n: int) -> Seq<u8> {
    itf8_bytes(u32_bits(n))
}

/// The byte count that an ITF8 value with first byte `b0` takes.
pub open spec fn itf8_len(b0: u8) -> nat {
    if b0 < 0x80 {
        1
    } else if b0 < 0xc0 {
        2
    } else if b0 < 0xe0 {
        3
    } else if b0 < 0xf0 {
        4
    } else {
        5
    }
}

/// The 32-bit pattern that the ITF8 bytes `s` (of length `itf8_len(s[0])`) spell.
pub open spec fn itf8_bits(s: Seq<u8>) -> nat {
    let k = itf8_len(s[0]);
    if k == 1 {
        s[0] as nat
    } else if k == 2 {
        (s[0] - 0x80) as nat * 0x100 + be_value(s.subrange(1, 2))
    } else if k == 3 {
        (s[0] - 0xc0) as nat * 0x1_0000 + be_value(s.subrange(1, 3))
    } else if k == 4 {
        (s[0] - 0xe0) as nat * 0x100_0000 + be_value(s.subrange(1, 4))
    } else {
        (s[0] - 0xf0) as nat * 0x1000_0000 + be_value(s.subrange(1, 4)) * 16 + (s[4] % 16) as nat
    }
}

/// What `read_itf8` yields on `s`: the value and the count of bytes taken.
pub open spec fn itf8_parse(s: Seq<u8>) -> Result<(int, nat), Error> {
    if s.len() == 0 || s.len() < itf8_len(s[0]) {
        Err(Error::UnexpectedEof)
    } else {
        Ok((i32_of_bits(itf8_bits(s)), itf8_len(s[0])))
    }
}

pub proof fn lemma_itf8_bits_bound(s: Seq<u8>)
    requires
        s.len() >= itf8_len(s[0]),
    ensures
        itf8_bits(s) < 0x1_0000_0000,
{
    reveal_with_fuel(pow256, 4);
    let k = itf8_len(s[0]);
    if k == 2 {
        crate::num::lemma_be_value_bound(s.subrange(1, 2));
    } else if k == 3 {
        crate::num::lemma_be_value_bound(s.subrange(1, 3));
    } else if k >= 4 {
        crate::num::lemma_be_value_bound(s.subrange(1, 4));
    }
}

/// Reads an ITF8 integer.
pub fn read_itf8(src: &mut &[u8]) -> (r: Result<i32, Error>)
    ensures
        match itf8_parse(old(src)@) {
            Ok((v, k)) => r == Ok::<i32, Error>(v as i32) && final(src)@ == old(src)@.subrange(
                k as int,
                old(src)@.len() as int,
            ),
            Err(e) => r == Err::<i32, Error>(e),
        },
{
    let ghost s0 = src@;
    let b0 = match read_u8(src) {
        Ok(b) => b,
        Err(e) => return Err(e),
    };
    proof {
        reveal_with_fuel(pow256, 4);
    }
    let u: u32 = if b0 < 0x80 {
        b0 as u32
    } else if b0 < 0xc0 {
        let r = match read_be(src, 1) {
            Ok(r) => r,
            Err(e) => return Err(e),
        };
        assert(s0.subrange(1, 2) =~= old(src)@.drop_first().subrange(0, 1));
        proof {
            crate::num::lemma_be_value_bound(s0.subrange(1, 2));
        }
        (b0 - 0x80) as u32 * 0x100 + r as u32
    } else if b0 < 0xe0 {
        let r = match read_be(src, 2) {
            Ok(r) => r,
            Err(e) => return Err(e),
        };
        assert(s0.subrange(1, 3) =~= old(src)@.drop_first().subrange(0, 2));
        proof {
            crate::num::lemma_be_value_bound(s0.subrange(1, 3));
        }
        (b0 - 0xc0) as u32 * 0x1_0000 + r as u32
    } else if b0 < 0xf0 {
        let r = match read_be(src, 3) {
            Ok(r) => r,
            Err(e) => return Err(e),
        };
        assert(s0.subrange(1, 4) =~= old(src)@.drop_first().subrange(0, 3));
        proof {
            crate::num::lemma_be_value_bound(s0.subrange(1, 4));
        }
        (b0 - 0xe0) as u32 * 0x100_0000 + r as u32
    } else {
        let r = match read_be(src, 3) {
            Ok(r) => r,
            Err(e) => return Err(e),
        };
        assert(s0.subrange(1, 4) =~= old(src)@.drop_first().subrange(0, 3));
        let b4 = match read_u8(src) {
            Ok(b) => b,
            Err(e) => return Err(e),
        };
        proof {
            crate::num::lemma_be_value_bound(s0.subrange(1, 4));
        }
        (b0 - 0xf0) as u32 * 0x1000_0000 + (r as u32) * 16 + (b4 % 16) as u32
    };
    proof {
        lemma_itf8_bits_bound(s0);
    }
    assert(u as nat == itf8_bits(s0));
    assert(src@ =~= s0.subrange(itf8_len(s0[0]) as int, s0.len() as int));
    Ok(i32_from_bits(u))
}

} // verus!

verus! {

/// Writes an ITF8 integer.
pub fn write_itf8(dst: &mut Vec<u8>, n: i32) -> (r: Result<(), Error>)
    ensures
        r is Ok,
        final(dst)@ == old(dst)@ + itf8_encoding(n as int),
{
    let u = bits_from_i32(n);
    if u < 0x80 {
        dst.push(u as u8);
    } else if u < 0x4000 {
        dst.push((0x80 + u / 0x100) as u8);
        write_be(dst, u as u64, 1);
    } else if u < 0x20_0000 {
        dst.push((0xc0 + u / 0x1_0000) as u8);
        write_be(dst, u as u64, 2);
    } else if u < 0x1000_0000 {
        dst.push((0xe0 + u / 0x100_0000) as u8);
        write_be(dst, u as u64, 3);
    } else {
        dst.push((0xf0 + u / 0x1000_0000) as u8);
        write_be(dst, (u / 16) as u64, 3);
        dst.push((u % 16) as u8);
    }
    assert(dst@ =~= old(dst)@ + itf8_encoding(n as int));
    Ok(())
}

/// The number of bytes `write_itf8` writes for `n`.
pub fn itf8_size_of(n: i32) -> (r: usize)
    ensures
        r == itf8_encoding(n as int).len(),
{
    proof {
        lemma_be_round_trip(u32_bits(n as int), 1);
        lemma_be_round_trip(u32_bits(n as int), 2);
        lemma_be_round_trip(u32_bits(n as int), 3);
        lemma_be_round_trip(u32_bits(n as int) / 16, 3);
    }
    let u = bits_from_i32(n);
    if u < 0x80 {
        1
    } else if u < 0x4000 {
        2
    } else if u < 0x20_0000 {
        3
    } else if u < 0x1000_0000 {
        4
    } else {
        5
    }
}

/// ITF8 round trip: reading back what `write_itf8` wrote yields the value and
/// consumes exactly its bytes.
pub proof fn lemma_itf8_round_trip(n: i32, rest: Seq<u8>)
    ensures
        itf8_parse(itf8_encoding(n as int) + rest) == Ok::<(int, nat), Error>(
            (n as int, itf8_encoding(n as int).len()),
        ),
{
    reveal_with_fuel(pow256, 4);
    let u = u32_bits(n as int);
    let e = itf8_encoding(n as int);
    let s = e + rest;
    lemma_be_round_trip(u, 1);
    lemma_be_round_trip(u, 2);
    lemma_be_round_trip(u, 3);
    lemma_be_round_trip(u / 16, 3);
    if u < 0x80 {
    } else if u < 0x4000 {
        assert(s.subrange(1, 2) =~= be_bytes(u, 1));
    } else if u < 0x20_0000 {
        assert(s.subrange(1, 3) =~= be_bytes(u, 2));
    } else if u < 0x1000_0000 {
        assert(s.subrange(1, 4) =~= be_bytes(u, 3));
    } else {
        assert(s.subrange(1, 4) =~= be_bytes(u / 16, 3));
        assert(s[4] == (u % 16) as u8);
        assert((u / 0x1000_0000) * 0x1000_0000 + ((u / 16) % 0x100_0000) * 16 + u % 16 == u)
            by (nonlinear_arith)
            requires
                u < 0x1_0000_0000,
        ;
    }
}

} // verus!
