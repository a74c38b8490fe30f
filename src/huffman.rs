use vstd::prelude::*;
use vstd::arithmetic::power2::{pow2, lemma2_to64, lemma_pow2_adds, lemma_pow2_pos};

use crate::bits::{bits_value, num_bits, BitReader, BitWriter};
use crate::error::Error;
use vstd::slice::slice_to_vec;

verus! {

/// `(symbol, bit length)` at `i` comes strictly before `(symbol, bit length)` at `j`
/// in canonical order: by bit length, then by symbol.
pub open spec fn comes_before(alphabet: Seq<i32>, bit_lens: Seq<u32>, j: int, i: int) -> bool {
    bit_lens[j] < bit_lens[i] || (bit_lens[j] == bit_lens[i] && alphabet[j] < alphabet[i])
}

/// The sum, over the first `n` pairs that come before pair `i`, of
/// `2^(len_i - len_j)`.
pub open spec fn code_sum(alphabet: Seq<i32>, bit_lens: Seq<u32>, i: int, n: int) -> nat
    decreases n,
{
    if n <= 0 {
        0
    } else {
        code_sum(alphabet, bit_lens, i, n - 1) + if comes_before(alphabet, bit_lens, n - 1, i) {
            pow2((bit_lens[i] - bit_lens[n - 1]) as nat)
        } else {
            0
        }
    }
}

/// The canonical Huffman code of pair `i`. In canonical order each code is the
/// previous one plus one, shifted left by the growth in bit length; summed up,
/// the code of a pair is `2^(len_i - len_j)` over every pair `j` before it.
pub open spec fn canonical_code(alphabet: Seq<i32>, bit_lens: Seq<u32>, i: int) -> nat {
    code_sum(alphabet, bit_lens, i, alphabet.len() as int)
}

/// An alphabet with a bit length for each symbol, each length readable in one field.
pub open spec fn valid_alphabet(alphabet: Seq<i32>, bit_lens: Seq<u32>) -> bool {
    &&& alphabet.len() == bit_lens.len()
    &&& 0 < alphabet.len() < 0x4000_0000
    &&& forall|i: int| 0 <= i < bit_lens.len() ==> bit_lens[i] <= 32
}

/// The first pair, in alphabet order, of bit length `l` whose code is `v`.
pub open spec fn match_at(alphabet: Seq<i32>, bit_lens: Seq<u32>, l: nat, v: nat) -> Option<int> {
    if exists|i: int| 0 <= i < alphabet.len() && bit_lens[i] == l && canonical_code(alphabet, bit_lens, i) == v {
        Some(choose|i: int| 0 <= i < alphabet.len() && bit_lens[i] == l && canonical_code(alphabet, bit_lens, i) == v
            && forall|j: int| 0 <= j < i ==> !(bit_lens[j] == l && canonical_code(alphabet, bit_lens, j) == v))
    } else {
        None
    }
}

pub open spec fn has_len(bit_lens: Seq<u32>, l: nat) -> bool {
    exists|i: int| 0 <= i < bit_lens.len() && bit_lens[i] == l
}

pub open spec fn has_len_from(bit_lens: Seq<u32>, l: nat) -> bool {
    exists|i: int| 0 <= i < bit_lens.len() && bit_lens[i] >= l
}

/// Canonical decoding of the bits `b`, trying bit lengths from `l` up: at each
/// length that some symbol has, take that many leading bits and look for a
/// symbol of that length with that code. Yields the symbol and its length.
pub open spec fn decode_from(alphabet: Seq<i32>, bit_lens: Seq<u32>, b: Seq<bool>, l: nat) -> Result<
    (i32, nat),
    Error,
>
    decreases 33 - l,
{
    if l > 32 || !has_len_from(bit_lens, l) {
        Err(Error::InvalidData)
    } else if !has_len(bit_lens, l) {
        decode_from(alphabet, bit_lens, b, l + 1)
    } else if b.len() < l {
        Err(Error::UnexpectedEof)
    } else {
        match match_at(alphabet, bit_lens, l, bits_value(b.take(l as int))) {
            Some(i) => Ok((alphabet[i], l)),
            None => decode_from(alphabet, bit_lens, b, l + 1),
        }
    }
}

/// The first index of `symbol` in the alphabet.
pub open spec fn index_of(alphabet: Seq<i32>, symbol: i32) -> Option<int> {
    if exists|i: int| 0 <= i < alphabet.len() && alphabet[i] == symbol {
        Some(choose|i: int| 0 <= i < alphabet.len() && alphabet[i] == symbol && forall|j: int|
            0 <= j < i ==> alphabet[j] != symbol)
    } else {
        None
    }
}

proof fn lemma_code_sum_bound(alphabet: Seq<i32>, bit_lens: Seq<u32>, i: int, n: int)
    requires
        valid_alphabet(alphabet, bit_lens),
        0 <= i < alphabet.len(),
        0 <= n <= alphabet.len(),
    ensures
        code_sum(alphabet, bit_lens, i, n) <= n * pow2(bit_lens[i] as nat),
    decreases n,
{
    if n > 0 {
        lemma_code_sum_bound(alphabet, bit_lens, i, n - 1);
        if comes_before(alphabet, bit_lens, n - 1, i) {
            let d = (bit_lens[i] - bit_lens[n - 1]) as nat;
            lemma_pow2_adds(bit_lens[n - 1] as nat, d);
            lemma_pow2_pos(bit_lens[n - 1] as nat);
            lemma_pow2_pos(d);
            assert(pow2(d) <= pow2(bit_lens[i] as nat)) by (nonlinear_arith)
                requires
                    pow2(bit_lens[i] as nat) == pow2(bit_lens[n - 1] as nat) * pow2(d),
                    pow2(bit_lens[n - 1] as nat) >= 1,
            ;
        }
        assert((n - 1) * pow2(bit_lens[i] as nat) + pow2(bit_lens[i] as nat) == n * pow2(
            bit_lens[i] as nat,
        )) by (nonlinear_arith);
    }
}

fn pow2_u64(e: u32) -> (r: u64)
    requires
        e <= 32,
    ensures
        r as nat == pow2(e as nat),
{
    proof {
        lemma2_to64();
        vstd::arithmetic::power2::lemma_pow2_strictly_increases(e as nat, 64);
        vstd::bits::lemma_u64_shl_is_mul(1, e as u64);
    }
    1u64 << e
}

/// Computes the canonical code of every pair.
fn build_codes(alphabet: &[i32], bit_lens: &[u32]) -> (r: Vec<u64>)
    requires
        valid_alphabet(alphabet@, bit_lens@),
    ensures
        r@.len() == alphabet@.len(),
        forall|i: int| 0 <= i < r@.len() ==> r@[i] as nat == canonical_code(alphabet@, bit_lens@, i),
{
    let n = alphabet.len();
    let mut codes: Vec<u64> = Vec::new();
    let mut i: usize = 0;
    while i < n
        invariant
            valid_alphabet(alphabet@, bit_lens@),
            n == alphabet@.len(),
            i <= n,
            codes@.len() == i,
            forall|k: int| 0 <= k < i ==> codes@[k] as nat == canonical_code(alphabet@, bit_lens@, k),
        decreases n - i,
    {
        let mut sum: u64 = 0;
        let mut j: usize = 0;
        proof {
            lemma2_to64();
            vstd::arithmetic::power2::lemma_pow2_strictly_increases(bit_lens@[i as int] as nat, 33);
        }
        while j < n
            invariant
                valid_alphabet(alphabet@, bit_lens@),
                n == alphabet@.len(),
                i < n,
                j <= n,
                sum as nat == code_sum(alphabet@, bit_lens@, i as int, j as int),
                pow2(bit_lens@[i as int] as nat) <= 0x1_0000_0000,
            decreases n - j,
        {
            proof {
                lemma_code_sum_bound(alphabet@, bit_lens@, i as int, (j + 1) as int);
                assert((j + 1) * pow2(bit_lens@[i as int] as nat) <= 0x4000_0000 * 0x1_0000_0000)
                    by (nonlinear_arith)
                    requires
                        j + 1 <= 0x4000_0000,
                        pow2(bit_lens@[i as int] as nat) <= 0x1_0000_0000,
                ;
            }
            if bit_lens[j] < bit_lens[i] || (bit_lens[j] == bit_lens[i] && alphabet[j] < alphabet[i]) {
                sum = sum + pow2_u64(bit_lens[i] - bit_lens[j]);
            }
            j += 1;
        }
        codes.push(sum);
        i += 1;
    }
    codes
}

/// Encodes symbols with the canonical Huffman code of an alphabet.
#[derive(Clone, Debug)]
pub struct CanonicalHuffmanEncoder {
    alphabet: Vec<i32>,
    bit_lens: Vec<u32>,
    codes: Vec<u64>,
}

impl CanonicalHuffmanEncoder {
    pub closed spec fn alphabet(&self) -> Seq<i32> {
        self.alphabet@
    }

    pub closed spec fn bit_lens(&self) -> Seq<u32> {
        self.bit_lens@
    }

    pub closed spec fn wf(&self) -> bool {
        &&& valid_alphabet(self.alphabet@, self.bit_lens@)
        &&& self.codes@.len() == self.alphabet@.len()
        &&& forall|i: int|
            0 <= i < self.codes@.len() ==> self.codes@[i] as nat == canonical_code(
                self.alphabet@,
                self.bit_lens@,
                i,
            )
    }

    pub fn new(alphabet: &[i32], bit_lens: &[u32]) -> (r: CanonicalHuffmanEncoder)
        requires
            valid_alphabet(alphabet@, bit_lens@),
        ensures
            r.wf(),
            r.alphabet() == alphabet@,
            r.bit_lens() == bit_lens@,
    {
        let codes = build_codes(alphabet, bit_lens);
        CanonicalHuffmanEncoder { alphabet: slice_to_vec(alphabet), bit_lens: slice_to_vec(bit_lens), codes }
    }

    /// Writes the code of `value`. A symbol outside the alphabet, or a code
    /// that does not fit its bit length (a book that is no prefix code), is
    /// invalid data.
    pub fn encode(&self, writer: &mut BitWriter, value: i32) -> (r: Result<(), Error>)
        requires
            self.wf(),
            old(writer).wf(),
        ensures
            final(writer).wf(),
            match index_of(self.alphabet(), value) {
                None => r == Err::<(), Error>(Error::InvalidData) && final(writer).bits() == old(
                    writer,
                ).bits(),
                Some(i) => if canonical_code(self.alphabet(), self.bit_lens(), i) < pow2(
                    self.bit_lens()[i] as nat,
                ) {
                    r is Ok && final(writer).bits() == old(writer).bits() + num_bits(
                        canonical_code(self.alphabet(), self.bit_lens(), i),
                        self.bit_lens()[i] as nat,
                    )
                } else {
                    r == Err::<(), Error>(Error::InvalidData) && final(writer).bits() == old(
                        writer,
                    ).bits()
                },
            },
    {
        let mut i: usize = 0;
        while i < self.alphabet.len()
            invariant
                self.wf(),
                i <= self.alphabet@.len(),
                writer.wf(),
                writer.bits() == old(writer).bits(),
                old(writer).wf(),
                forall|j: int| 0 <= j < i ==> self.alphabet@[j] != value,
            decreases self.alphabet@.len() - i,
        {
            if self.alphabet[i] == value {
                proof {
                    let k = index_of(self.alphabet@, value)->Some_0;
                    assert(k == i);
                }
                let len = self.bit_lens[i];
                let code = self.codes[i];
                if code >= pow2_u64(len) {
                    return Err(Error::InvalidData);
                }
                proof {
                    vstd::arithmetic::power2::lemma_pow2_strictly_increases(len as nat, 33);
                    lemma2_to64();
                }
                return writer.write_u32(code as u32, len as usize);
            }
            i += 1;
        }
        Err(Error::InvalidData)
    }
}

} // verus!

verus! {

pub proof fn lemma_bits_value_bound(b: Seq<bool>)
    ensures
        bits_value(b) < pow2(b.len() as nat),
    decreases b.len(),
{
    if b.len() == 0 {
        lemma2_to64();
    } else {
        lemma_bits_value_bound(b.drop_last());
        vstd::arithmetic::power2::lemma_pow2_unfold(b.len() as nat);
    }
}

/// Leading bits read in two runs spell the first run shifted past the second.
pub proof fn lemma_bits_value_split(b: Seq<bool>, a: nat, d: nat)
    requires
        a + d <= b.len(),
    ensures
        bits_value(b.take((a + d) as int)) == bits_value(b.take(a as int)) * pow2(d) + bits_value(
            b.skip(a as int).take(d as int),
        ),
    decreases d,
{
    if d == 0 {
        lemma2_to64();
        assert(b.skip(a as int).take(0) =~= Seq::<bool>::empty());
    } else {
        let d1 = (d - 1) as nat;
        lemma_bits_value_split(b, a, d1);
        assert(b.take((a + d) as int).drop_last() =~= b.take((a + d1) as int));
        assert(b.skip(a as int).take(d as int).drop_last() =~= b.skip(a as int).take(d1 as int));
        vstd::arithmetic::power2::lemma_pow2_unfold(d);
        let x = bits_value(b.take(a as int));
        let y = bits_value(b.skip(a as int).take(d1 as int));
        let last: nat = if b[(a + d1) as int] {
            1
        } else {
            0
        };
        assert(2 * (x * pow2(d1) + y) + last == x * pow2(d) + (2 * y + last)) by (nonlinear_arith)
            requires
                pow2(d) == 2 * pow2(d1),
        ;
    }
}

/// Decodes symbols of the canonical Huffman code of an alphabet.
#[derive(Clone, Debug)]
pub struct CanonicalHuffmanDecoder {
    alphabet: Vec<i32>,
    bit_lens: Vec<u32>,
    codes: Vec<u64>,
}

impl CanonicalHuffmanDecoder {
    pub closed spec fn alphabet(&self) -> Seq<i32> {
        self.alphabet@
    }

    pub closed spec fn bit_lens(&self) -> Seq<u32> {
        self.bit_lens@
    }

    pub closed spec fn wf(&self) -> bool {
        &&& valid_alphabet(self.alphabet@, self.bit_lens@)
        &&& self.codes@.len() == self.alphabet@.len()
        &&& forall|i: int|
            0 <= i < self.codes@.len() ==> self.codes@[i] as nat == canonical_code(
                self.alphabet@,
                self.bit_lens@,
                i,
            )
    }

    pub fn new(alphabet: &[i32], bit_lens: &[u32]) -> (r: CanonicalHuffmanDecoder)
        requires
            valid_alphabet(alphabet@, bit_lens@),
        ensures
            r.wf(),
            r.alphabet() == alphabet@,
            r.bit_lens() == bit_lens@,
    {
        let codes = build_codes(alphabet, bit_lens);
        CanonicalHuffmanDecoder { alphabet: slice_to_vec(alphabet), bit_lens: slice_to_vec(bit_lens), codes }
    }

    fn has_len_from_exec(&self, l: u32) -> (r: bool)
        ensures
            r == has_len_from(self.bit_lens@, l as nat),
    {
        let mut i: usize = 0;
        while i < self.bit_lens.len()
            invariant
                i <= self.bit_lens@.len(),
                forall|j: int| 0 <= j < i ==> self.bit_lens@[j] < l,
            decreases self.bit_lens@.len() - i,
        {
            if self.bit_lens[i] >= l {
                return true;
            }
            i += 1;
        }
        false
    }

    fn has_len_exec(&self, l: u32) -> (r: bool)
        ensures
            r == has_len(self.bit_lens@, l as nat),
    {
        let mut i: usize = 0;
        while i < self.bit_lens.len()
            invariant
                i <= self.bit_lens@.len(),
                forall|j: int| 0 <= j < i ==> self.bit_lens@[j] != l,
            decreases self.bit_lens@.len() - i,
        {
            if self.bit_lens[i] == l {
                return true;
            }
            i += 1;
        }
        false
    }

    /// Decodes one symbol.
    pub fn decode(&self, reader: &mut BitReader) -> (r: Result<i32, Error>)
        requires
            self.wf(),
            old(reader).wf(),
            8 * old(reader).src@.len() <= usize::MAX,
        ensures
            final(reader).wf(),
            final(reader).src == old(reader).src,
            match decode_from(self.alphabet(), self.bit_lens(), old(reader).remaining(), 0) {
                Ok((sym, l)) => r == Ok::<i32, Error>(sym) && final(reader).pos == old(reader).pos
                    + l,
                Err(e) => r == Err::<i32, Error>(e),
            },
    {
        let ghost rem0 = reader.remaining();
        let ghost pos0 = reader.pos;
        proof {
            crate::bits::lemma_unpack_len(reader.src@);
            lemma2_to64();
        }
        let mut input: u64 = 0;
        let mut cur: u32 = 0;
        let mut l: u32 = 0;
        while l <= 32
            invariant
                self.wf(),
                reader.wf(),
                8 * reader.src@.len() <= usize::MAX,
                reader.src == old(reader).src,
                rem0 == old(reader).remaining(),
                pos0 == old(reader).pos,
                reader.pos == pos0 + cur,
                rem0 == crate::bits::unpack(reader.src@).skip(pos0 as int),
                crate::bits::unpack(reader.src@).len() == 8 * reader.src@.len(),
                cur <= l,
                l <= 33,
                cur <= rem0.len(),
                input as nat == bits_value(rem0.take(cur as int)),
                decode_from(self.alphabet@, self.bit_lens@, rem0, 0) == decode_from(
                    self.alphabet@,
                    self.bit_lens@,
                    rem0,
                    l as nat,
                ),
            decreases 33 - l,
        {
            if !self.has_len_from_exec(l) {
                return Err(Error::InvalidData);
            }
            if self.has_len_exec(l) {
                let d = l - cur;
                assert(reader.remaining() =~= rem0.skip(cur as int));
                let v = match reader.read_u32(d) {
                    Ok(v) => v,
                    Err(e) => return Err(e),
                };
                proof {
                    lemma_bits_value_split(rem0, cur as nat, d as nat);
                    lemma_bits_value_bound(rem0.take(l as int));
                    lemma2_to64();
                    if l < 32 {
                        vstd::arithmetic::power2::lemma_pow2_strictly_increases(l as nat, 32);
                    }
                    assert(v as nat == bits_value(rem0.skip(cur as int).take(d as int)));
                    assert((cur + d) as nat == l as nat);
                    assert(rem0.take((cur + d) as int) == rem0.take(l as int));
                    assert(bits_value(rem0.take(l as int)) == input * pow2(d as nat) + v);
                    assert(pow2(l as nat) <= 0x1_0000_0000);
                    assert(input * pow2(d as nat) + v < 0x1_0000_0001);
                }
                input = input * pow2_u64(d) + v as u64;
                cur = l;
                let mut i: usize = 0;
                while i < self.alphabet.len()
                    invariant
                        self.wf(),
                        i <= self.alphabet@.len(),
                        reader.wf(),
                        reader.src == old(reader).src,
                        reader.pos == pos0 + l,
                        rem0 == old(reader).remaining(),
                        pos0 == old(reader).pos,
                        l <= 32,
                        rem0.len() >= l,
                        has_len(self.bit_lens@, l as nat),
                        has_len_from(self.bit_lens@, l as nat),
                        input as nat == bits_value(rem0.take(l as int)),
                        decode_from(self.alphabet@, self.bit_lens@, rem0, 0) == decode_from(
                            self.alphabet@,
                            self.bit_lens@,
                            rem0,
                            l as nat,
                        ),
                        forall|j: int|
                            0 <= j < i ==> !(self.bit_lens@[j] == l && canonical_code(
                                self.alphabet@,
                                self.bit_lens@,
                                j,
                            ) == input),
                    decreases self.alphabet@.len() - i,
                {
                    if self.bit_lens[i] == l && self.codes[i] == input {
                        proof {
                            let k = match_at(self.alphabet@, self.bit_lens@, l as nat, input as nat)->Some_0;
                            assert(k == i as int);
                        }
                        return Ok(self.alphabet[i]);
                    }
                    i += 1;
                }
            }
            l += 1;
        }
        Err(Error::InvalidData)
    }
}

} // verus!

verus! {

/// One code-book entry: a symbol, its canonical code and the code's bit length.
#[derive(Clone, Copy, Debug, PartialEq, Eq, Structural)]
pub struct CodeEntry {
    pub symbol: i32,
    pub code: u64,
    pub len: u32,
}

/// The code book of an alphabet: for each symbol, in alphabet order, its
/// canonical code and bit length.
pub fn build_canonical_code_book(alphabet: &[i32], bit_lens: &[u32]) -> (r: Vec<CodeEntry>)
    requires
        valid_alphabet(alphabet@, bit_lens@),
    ensures
        r@.len() == alphabet@.len(),
        forall|i: int|
            0 <= i < r@.len() ==> r@[i].symbol == alphabet@[i] && r@[i].len == bit_lens@[i]
                && r@[i].code as nat == canonical_code(alphabet@, bit_lens@, i),
{
    let codes = build_codes(alphabet, bit_lens);
    let mut book: Vec<CodeEntry> = Vec::new();
    let mut i: usize = 0;
    while i < alphabet.len()
        invariant
            i <= alphabet@.len(),
            valid_alphabet(alphabet@, bit_lens@),
            codes@.len() == alphabet@.len(),
            forall|k: int| 0 <= k < codes@.len() ==> codes@[k] as nat == canonical_code(alphabet@, bit_lens@, k),
            book@.len() == i,
            forall|k: int|
                0 <= k < i ==> book@[k].symbol == alphabet@[k] && book@[k].len == bit_lens@[k]
                    && book@[k].code as nat == canonical_code(alphabet@, bit_lens@, k),
        decreases alphabet@.len() - i,
    {
        book.push(CodeEntry { symbol: alphabet[i], code: codes[i], len: bit_lens[i] });
        i += 1;
    }
    book
}

} // verus!
