use vstd::prelude::*;
use vstd::arithmetic::power2::{pow2, lemma_pow2_unfold, lemma2_to64};
use vstd::arithmetic::div_mod::lemma_div_denominator;

use crate::error::Error;
use crate::num::i32_of_bits;

verus! {

/// The `n` low-order bits of `v`, most significant first.
pub open spec fn num_bits(v: nat, n: nat) -> Seq<bool>
    decreases n,
{
    if n == 0 {
        Seq::empty()
    } else {
        num_bits(v / 2, (n - 1) as nat).push(v % 2 == 1)
    }
}

/// The bits of the bytes `s`, each byte most significant bit first.
pub open spec fn unpack(s: Seq<u8>) -> Seq<bool>
    decreases s.len(),
{
    if s.len() == 0 {
        Seq::empty()
    } else {
        unpack(s.drop_last()) + num_bits(s.last() as nat, 8)
    }
}

/// The number that the bits `b` spell, most significant first.
pub open spec fn bits_value(b: Seq<bool>) -> nat
    decreases b.len(),
{
    if b.len() == 0 {
        0
    } else {
        2 * bits_value(b.drop_last()) + (if b.last() {
            1nat
        } else {
            0nat
        })
    }
}

/// `n` zero bits.
pub open spec fn zero_bits(n: nat) -> Seq<bool> {
    Seq::new(n, |i: int| false)
}

pub proof fn lemma_num_bits_len(v: nat, n: nat)
    ensures
        num_bits(v, n).len() == n,
    decreases n,
{
    if n > 0 {
        lemma_num_bits_len(v / 2, (n - 1) as nat);
    }
}

pub proof fn lemma_unpack_len(s: Seq<u8>)
    ensures
        unpack(s).len() == 8 * s.len(),
    decreases s.len(),
{
    if s.len() > 0 {
        lemma_unpack_len(s.drop_last());
        lemma_num_bits_len(s.last() as nat, 8);
    }
}

/// Bit `j` of the `n`-bit form of `v` is bit `n - 1 - j` of `v`.
pub proof fn lemma_num_bits_index(v: nat, n: nat, j: nat)
    requires
        j < n,
    ensures
        num_bits(v, n)[j as int] == ((v / pow2((n - 1 - j) as nat)) % 2 == 1),
    decreases n,
{
    lemma_num_bits_len(v / 2, (n - 1) as nat);
    if j == n - 1 {
        assert(pow2(0) == 1) by {
            lemma2_to64();
        }
        assert(v / 1 == v);
        assert(num_bits(v, n)[j as int] == (v % 2 == 1));
    } else {
        lemma_num_bits_index(v / 2, (n - 1) as nat, j);
        let e = (n - 2 - j) as nat;
        lemma_pow2_unfold(e + 1);
        vstd::arithmetic::power2::lemma_pow2_pos(e);
        lemma_div_denominator(v as int, 2, pow2(e) as int);
        assert(num_bits(v, n)[j as int] == num_bits(v / 2, (n - 1) as nat)[j as int]);
        assert((n - 1 - j) as nat == e + 1);
        assert(v / pow2(e + 1) == (v / 2) / pow2(e));
    }
}

/// Bit `i` of unpacked bytes lies in byte `i / 8`.
pub proof fn lemma_unpack_index(s: Seq<u8>, i: nat)
    requires
        i < 8 * s.len(),
    ensures
        unpack(s)[i as int] == num_bits(s[(i / 8) as int] as nat, 8)[(i % 8) as int],
    decreases s.len(),
{
    lemma_unpack_len(s.drop_last());
    lemma_num_bits_len(s.last() as nat, 8);
    let m = (s.len() - 1) as nat;
    if i < 8 * m {
        lemma_unpack_index(s.drop_last(), i);
        assert(i / 8 < m) by (nonlinear_arith)
            requires
                i < 8 * m,
        ;
    } else {
        assert(i / 8 == m && i % 8 == i - 8 * m) by (nonlinear_arith)
            requires
                8 * m <= i < 8 * m + 8,
        ;
    }
}

/// The bits of a number read back as the number modulo `2^n`.
pub proof fn lemma_num_bits_value(v: nat, n: nat)
    ensures
        bits_value(num_bits(v, n)) == v % pow2(n),
    decreases n,
{
    if n == 0 {
        lemma2_to64();
    } else {
        let n1 = (n - 1) as nat;
        lemma_num_bits_value(v / 2, n1);
        assert(num_bits(v, n).drop_last() =~= num_bits(v / 2, n1));
        lemma_pow2_unfold(n);
        vstd::arithmetic::power2::lemma_pow2_pos(n1);
        vstd::arithmetic::div_mod::lemma_breakdown(v as int, 2, pow2(n1) as int);
    }
}

/// A reader of single bits and bit fields, most significant bit first.
pub struct BitReader<'a> {
    pub src: &'a [u8],
    pub pos: usize,
}

impl<'a> BitReader<'a> {
    pub open spec fn wf(&self) -> bool {
        self.pos <= 8 * self.src@.len()
    }

    /// The bits not yet read.
    pub open spec fn remaining(&self) -> Seq<bool> {
        unpack(self.src@).skip(self.pos as int)
    }

    pub fn new(src: &'a [u8]) -> (r: BitReader<'a>)
        requires
            8 * src@.len() <= usize::MAX,
        ensures
            r.wf(),
            r.src@ == src@,
            r.pos == 0,
    {
        BitReader { src, pos: 0 }
    }

    /// Reads one bit as 0 or 1.
    pub fn read_bit(&mut self) -> (r: Result<u8, Error>)
        requires
            old(self).wf(),
            8 * old(self).src@.len() <= usize::MAX,
        ensures
            final(self).wf(),
            final(self).src == old(self).src,
            old(self).remaining().len() == 0 ==> r == Err::<u8, Error>(Error::UnexpectedEof)
                && final(self).pos == old(self).pos,
            old(self).remaining().len() > 0 ==> r == Ok::<u8, Error>(
                if old(self).remaining()[0] {
                    1u8
                } else {
                    0u8
                },
            ) && final(self).pos == old(self).pos + 1,
    {
        proof {
            lemma_unpack_len(self.src@);
        }
        if self.pos >= 8 * self.src.len() {
            return Err(Error::UnexpectedEof);
        }
        let byte = self.src[self.pos / 8];
        let shift = 7 - (self.pos % 8) as u8;
        let d = pow2_u8(shift);
        let bit = (byte as u32 / d) % 2;
        proof {
            lemma_unpack_index(self.src@, self.pos as nat);
            lemma_num_bits_index(byte as nat, 8, (self.pos % 8) as nat);
        }
        self.pos = self.pos + 1;
        Ok(bit as u8)
    }

    /// Reads `n` bits (at most 32) as an unsigned number.
    pub fn read_u32(&mut self, n: u32) -> (r: Result<u32, Error>)
        requires
            old(self).wf(),
            8 * old(self).src@.len() <= usize::MAX,
            n <= 32,
        ensures
            final(self).wf(),
            final(self).src == old(self).src,
            old(self).remaining().len() < n ==> r == Err::<u32, Error>(Error::UnexpectedEof),
            old(self).remaining().len() >= n ==> r is Ok && r->Ok_0 as nat == bits_value(
                old(self).remaining().take(n as int),
            ) && final(self).pos == old(self).pos + n,
    {
        proof {
            lemma_unpack_len(self.src@);
        }
        if n as usize > 8 * self.src.len() - self.pos {
            return Err(Error::UnexpectedEof);
        }
        let ghost rem0 = self.remaining();
        let ghost pos0 = self.pos;
        let mut acc: u64 = 0;
        let mut i: u32 = 0;
        proof {
            lemma2_to64();
        }
        while i < n
            invariant
                self.wf(),
                8 * self.src@.len() <= usize::MAX,
                self.src == old(self).src,
                i <= n <= 32,
                self.pos == pos0 + i,
                pos0 + n <= 8 * self.src@.len(),
                rem0 == unpack(self.src@).skip(pos0 as int),
                unpack(self.src@).len() == 8 * self.src@.len(),
                acc as nat == bits_value(rem0.take(i as int)),
                acc < pow2(i as nat),
                pow2(32) == 0x1_0000_0000,
            decreases n - i,
        {
            assert(self.remaining()[0] == unpack(self.src@)[pos0 + i]);
            assert(rem0[i as int] == unpack(self.src@)[pos0 + i]);
            let b = match self.read_bit() {
                Ok(b) => b,
                Err(e) => return Err(e),
            };
            proof {
                lemma_pow2_unfold((i + 1) as nat);
                if i + 1 < 32 {
                    vstd::arithmetic::power2::lemma_pow2_strictly_increases((i + 1) as nat, 32);
                }
                assert(rem0.take(i + 1).drop_last() =~= rem0.take(i as int));
            }
            acc = acc * 2 + b as u64;
            i += 1;
        }
        proof {
            lemma2_to64();
            if n < 32 {
                vstd::arithmetic::power2::lemma_pow2_strictly_increases(n as nat, 32);
            }
        }
        Ok(acc as u32)
    }

    /// Reads `n` bits (at most 32) and takes them as a signed 32-bit number.
    pub fn read_i32(&mut self, n: u32) -> (r: Result<i32, Error>)
        requires
            old(self).wf(),
            8 * old(self).src@.len() <= usize::MAX,
            n <= 32,
        ensures
            final(self).wf(),
            final(self).src == old(self).src,
            old(self).remaining().len() < n ==> r == Err::<i32, Error>(Error::UnexpectedEof),
            old(self).remaining().len() >= n ==> r is Ok && r->Ok_0 as int == i32_of_bits(
                bits_value(old(self).remaining().take(n as int)),
            ) && final(self).pos == old(self).pos + n,
    {
        match self.read_u32(n) {
            Ok(v) => Ok(crate::num::i32_from_bits(v)),
            Err(e) => Err(e),
        }
    }
}

fn pow2_u8(k: u8) -> (r: u32)
    requires
        k < 8,
    ensures
        r as nat == pow2(k as nat),
        r > 0,
{
    proof {
        lemma2_to64();
    }
    if k == 0 {
        1
    } else if k == 1 {
        2
    } else if k == 2 {
        4
    } else if k == 3 {
        8
    } else if k == 4 {
        16
    } else if k == 5 {
        32
    } else if k == 6 {
        64
    } else {
        128
    }
}

} // verus!

verus! {

/// A writer of single bits and bit fields, most significant bit first.
pub struct BitWriter {
    pub buf: Vec<u8>,
    /// The bits of the byte being filled, `n` of them.
    pub cur: u8,
    pub n: u8,
}

impl BitWriter {
    pub open spec fn wf(&self) -> bool {
        self.n < 8 && (self.cur as nat) < pow2(self.n as nat)
    }

    /// Every bit written so far.
    pub open spec fn bits(&self) -> Seq<bool> {
        unpack(self.buf@) + num_bits(self.cur as nat, self.n as nat)
    }

    pub fn new() -> (r: BitWriter)
        ensures
            r.wf(),
            r.bits() == Seq::<bool>::empty(),
    {
        proof {
            lemma2_to64();
        }
        let r = BitWriter { buf: Vec::new(), cur: 0, n: 0 };
        assert(r.bits() =~= Seq::<bool>::empty());
        r
    }

    /// Writes one bit.
    pub fn write_bit(&mut self, bit: bool)
        requires
            old(self).wf(),
        ensures
            final(self).wf(),
            final(self).bits() == old(self).bits().push(bit),
            final(self).n == if old(self).n == 7 {
                0
            } else {
                old(self).n + 1
            },
    {
        proof {
            lemma2_to64();
            lemma_pow2_unfold((self.n + 1) as nat);
        }
        let ghost c0 = self.cur as nat;
        let ghost n0 = self.n as nat;
        let ghost buf0 = self.buf@;
        self.cur = self.cur * 2 + if bit {
            1u8
        } else {
            0u8
        };
        self.n = self.n + 1;
        assert(num_bits(self.cur as nat, self.n as nat) =~= num_bits(c0, n0).push(bit)) by {
            assert((self.cur as nat) / 2 == c0);
        }
        if self.n == 8 {
            self.buf.push(self.cur);
            assert(self.buf@.drop_last() =~= buf0);
            self.cur = 0;
            self.n = 0;
        }
        assert(self.bits() =~= old(self).bits().push(bit));
    }

    /// Writes the `n` low-order bits of `value` (at most 32), most significant first.
    pub fn write_u32(&mut self, value: u32, n: usize) -> (r: Result<(), Error>)
        requires
            old(self).wf(),
            n <= 32,
        ensures
            r is Ok,
            final(self).wf(),
            final(self).bits() == old(self).bits() + num_bits(value as nat, n as nat),
    {
        proof {
            lemma2_to64();
        }
        let ghost bits0 = self.bits();
        let mut j: usize = 0;
        while j < n
            invariant
                self.wf(),
                j <= n <= 32,
                self.bits() == bits0 + num_bits(value as nat / pow2((n - j) as nat), j as nat),
            decreases n - j,
        {
            let e = (n - j - 1) as u32;
            proof {
                vstd::arithmetic::power2::lemma_pow2_pos(e as nat);
                vstd::bits::lemma_u32_shr_is_div(value, e);
                lemma_pow2_unfold((e + 1) as nat);
                lemma_div_denominator(value as int, pow2(e as nat) as int, 2);
            }
            let q = value >> e;
            let bit = q % 2 == 1;
            self.write_bit(bit);
            j += 1;
            proof {
                assert((q as nat) / 2 == value as nat / pow2((n - (j - 1)) as nat));
                assert(num_bits(q as nat, j as nat) =~= num_bits(
                    value as nat / pow2((n - (j - 1)) as nat),
                    (j - 1) as nat,
                ).push(bit));
            }
        }
        assert(value as nat / 1 == value as nat);
        Ok(())
    }

    /// Pads the last byte with zero bits and hands back the bytes.
    pub fn finish(self) -> (r: Result<Vec<u8>, Error>)
        requires
            self.wf(),
        ensures
            r is Ok,
            unpack(r->Ok_0@) == self.bits() + zero_bits(
                (if self.n == 0 {
                    0
                } else {
                    8 - self.n
                }) as nat,
            ),
    {
        let mut w = self;
        let ghost bits0 = w.bits();
        let pad: u8 = if w.n == 0 {
            0
        } else {
            8 - w.n
        };
        let mut k: u8 = 0;
        while w.n != 0
            invariant
                w.wf(),
                k <= pad,
                w.n == 0 ==> k == pad,
                w.n != 0 ==> w.n + pad - k == 8 && k < pad,
                w.bits() == bits0 + zero_bits(k as nat),
            decreases pad - k,
        {
            w.write_bit(false);
            k += 1;
            assert(w.bits() =~= bits0 + zero_bits(k as nat));
        }
        assert(k == pad);
        assert(num_bits(w.cur as nat, 0) =~= Seq::<bool>::empty());
        assert(unpack(w.buf@) =~= w.bits());
        Ok(w.buf)
    }
}

impl Default for BitWriter {
    fn default() -> (r: BitWriter)
        ensures
            r.wf(),
            r.bits() == Seq::<bool>::empty(),
    {
        BitWriter::new()
    }
}

} // verus!

verus! {

/// How many leading bits of `b` equal `bit`.
pub open spec fn leading_run(b: Seq<bool>, bit: bool) -> nat
    decreases b.len(),
{
    if b.len() == 0 || b[0] != bit {
        0
    } else {
        1 + leading_run(b.drop_first(), bit)
    }
}

pub proof fn lemma_leading_run_bound(b: Seq<bool>, bit: bool)
    ensures
        leading_run(b, bit) <= b.len(),
        leading_run(b, bit) < b.len() ==> b[leading_run(b, bit) as int] != bit,
        forall|i: int| 0 <= i < leading_run(b, bit) ==> b[i] == bit,
    decreases b.len(),
{
    if b.len() > 0 && b[0] == bit {
        lemma_leading_run_bound(b.drop_first(), bit);
        assert forall|i: int| 0 <= i < leading_run(b, bit) implies b[i] == bit by {
            if i > 0 {
                assert(b[i] == b.drop_first()[i - 1]);
            }
        }
    }
}

impl<'a> BitReader<'a> {
    /// Reads bits equal to `bit` up to and including the first other bit;
    /// yields their count. Running out of input first is an early end.
    pub fn read_unary(&mut self, bit: bool) -> (r: Result<u64, Error>)
        requires
            old(self).wf(),
            8 * old(self).src@.len() <= usize::MAX,
        ensures
            final(self).wf(),
            final(self).src == old(self).src,
            leading_run(old(self).remaining(), bit) == old(self).remaining().len() ==> r
                == Err::<u64, Error>(Error::UnexpectedEof),
            leading_run(old(self).remaining(), bit) < old(self).remaining().len() ==> r
                == Ok::<u64, Error>(leading_run(old(self).remaining(), bit) as u64)
                && final(self).pos == old(self).pos + leading_run(old(self).remaining(), bit) + 1,
    {
        let ghost rem0 = self.remaining();
        let ghost pos0 = self.pos;
        proof {
            lemma_unpack_len(self.src@);
            lemma_leading_run_bound(rem0, bit);
        }
        let mut n: u64 = 0;
        loop
            invariant
                self.wf(),
                8 * self.src@.len() <= usize::MAX,
                self.src == old(self).src,
                rem0 == old(self).remaining(),
                pos0 == old(self).pos,
                unpack(self.src@).len() == 8 * self.src@.len(),
                self.pos == pos0 + n,
                n <= leading_run(rem0, bit),
                leading_run(rem0, bit) <= rem0.len(),
                rem0.len() == 8 * self.src@.len() - pos0,
                leading_run(rem0, bit) < rem0.len() ==> rem0[leading_run(rem0, bit) as int] != bit,
                forall|i: int| 0 <= i < leading_run(rem0, bit) ==> rem0[i] == bit,
            decreases rem0.len() - n,
        {
            let ghost rem = self.remaining();
            assert(rem.len() > 0 ==> rem[0] == rem0[n as int]);
            let b = match self.read_bit() {
                Ok(b) => b,
                Err(e) => return Err(e),
            };
            if (b == 1) != bit {
                return Ok(n);
            }
            n += 1;
        }
    }
}

} // verus!

verus! {

/// 2^e.
pub fn pow2_u64(e: u32) -> (r: u64)
    requires
        e < 64,
    ensures
        r as nat == pow2(e as nat),
{
    proof {
        lemma2_to64();
        vstd::arithmetic::power2::lemma_pow2_strictly_increases(e as nat, 64);
        vstd::bits::lemma_u64_shl_is_mul(1, e as u64);
    }
    1u64 << e
}

impl<'a> BitReader<'a> {
    pub proof fn lemma_remaining_after(&self, old_pos: usize, old_rem: Seq<bool>, n: nat)
        requires
            self.wf(),
            old_rem == unpack(self.src@).skip(old_pos as int),
            self.pos == old_pos + n,
        ensures
            self.remaining() == old_rem.skip(n as int),
    {
        lemma_unpack_len(self.src@);
        assert(self.remaining() =~= old_rem.skip(n as int));
    }
}

} // verus!
