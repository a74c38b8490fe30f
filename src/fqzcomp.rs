use vstd::prelude::*;

use crate::error::Error;

verus! {

/// The largest context bin of a quality table: `2^q_bits - 1`, at most 255.
pub open spec fn max_bin(q_bits: nat) -> nat {
    if q_bits >= 8 {
        255
    } else {
        (vstd::arithmetic::power2::pow2(q_bits) - 1) as nat
    }
}

/// Entry `i` of the quality table: quality `i` scaled from `[0, max_q]` onto
/// `[0, max_bin]` (rounding down), capped at `max_bin`; all zero when `max_q` is 0.
pub open spec fn q_tab_entry(i: nat, max_q: nat, q_bits: nat) -> nat {
    if max_q == 0 {
        0
    } else {
        let b = i * max_bin(q_bits) / max_q;
        if b < max_bin(q_bits) {
            b
        } else {
            max_bin(q_bits)
        }
    }
}

/// The quality context table: 256 entries mapping quality values to context bins.
pub fn build_quality_table(max_q: u8, q_bits: u8) -> (r: Vec<u8>)
    requires
        q_bits < 16,
    ensures
        r@.len() == 256,
        forall|i: int| 0 <= i < 256 ==> r@[i] as nat == q_tab_entry(i as nat, max_q as nat, q_bits as nat),
        forall|i: int, j: int| 0 <= i <= j < 256 ==> r@[i] <= r@[j],
{
    proof {
        vstd::arithmetic::power2::lemma2_to64();
        if q_bits < 8 {
            vstd::arithmetic::power2::lemma_pow2_strictly_increases(q_bits as nat, 8);
        }
    }
    let mb: u16 = if q_bits >= 8 {
        255
    } else {
        (crate::bits::pow2_u64(q_bits as u32) - 1) as u16
    };
    let mut t: Vec<u8> = Vec::new();
    let mut i: u16 = 0;
    while i < 256
        invariant
            i <= 256,
            mb as nat == max_bin(q_bits as nat),
            mb <= 255,
            t@.len() == i,
            forall|k: int| 0 <= k < i ==> t@[k] as nat == q_tab_entry(k as nat, max_q as nat, q_bits as nat),
        decreases 256 - i,
    {
        let e: u16 = if max_q == 0 {
            0
        } else {
            proof {
                assert(i * mb <= 255 * 255) by (nonlinear_arith) requires i <= 255, mb <= 255;
            }
            let b = i * mb / max_q as u16;
            if b < mb {
                b
            } else {
                mb
            }
        };
        t.push(e as u8);
        i += 1;
    }
    proof {
        lemma_q_tab_monotone(max_q as nat, q_bits as nat);
    }
    t
}

/// The quality table never decreases: the table's run-length form relies on it.
pub proof fn lemma_q_tab_monotone(max_q: nat, q_bits: nat)
    ensures
        forall|i: nat, j: nat| i <= j ==> #[trigger] q_tab_entry(i, max_q, q_bits) <= #[trigger] q_tab_entry(j, max_q, q_bits),
{
    assert forall|i: nat, j: nat| i <= j implies #[trigger] q_tab_entry(i, max_q, q_bits) <= #[trigger] q_tab_entry(j, max_q, q_bits) by {
        if max_q > 0 {
            let m = max_bin(q_bits);
            assert(i * m <= j * m) by (nonlinear_arith) requires i <= j;
            vstd::arithmetic::div_mod::lemma_div_is_ordered((i * m) as int, (j * m) as int, max_q as int);
        }
    }
}

/// Entry `i` of the position table: `i >> p_shift`, capped at `2^p_bits - 1`.
pub open spec fn p_tab_entry(i: nat, p_bits: nat, p_shift: nat) -> nat {
    let v = i / vstd::arithmetic::power2::pow2(p_shift);
    let cap = (vstd::arithmetic::power2::pow2(p_bits) - 1) as nat;
    if v < cap {
        v
    } else {
        cap
    }
}

/// The position context table: 1024 entries.
pub fn build_position_table(p_bits: u8, p_shift: u8) -> (r: Vec<u8>)
    requires
        p_bits <= 8,
        p_shift < 16,
    ensures
        r@.len() == 1024,
        forall|i: int| 0 <= i < 1024 ==> r@[i] as nat == p_tab_entry(i as nat, p_bits as nat, p_shift as nat),
{
    proof {
        vstd::arithmetic::power2::lemma2_to64();
        vstd::arithmetic::power2::lemma_pow2_pos(p_shift as nat);
        if p_bits < 8 {
            vstd::arithmetic::power2::lemma_pow2_strictly_increases(p_bits as nat, 8);
        }
    }
    let cap = crate::bits::pow2_u64(p_bits as u32) - 1;
    let d = crate::bits::pow2_u64(p_shift as u32);
    let mut t: Vec<u8> = Vec::new();
    let mut i: u64 = 0;
    while i < 1024
        invariant
            i <= 1024,
            cap as nat == (vstd::arithmetic::power2::pow2(p_bits as nat) - 1) as nat,
            cap <= 255,
            d as nat == vstd::arithmetic::power2::pow2(p_shift as nat),
            d > 0,
            t@.len() == i,
            forall|k: int| 0 <= k < i ==> t@[k] as nat == p_tab_entry(k as nat, p_bits as nat, p_shift as nat),
        decreases 1024 - i,
    {
        let v = i / d;
        let e = if v < cap {
            v
        } else {
            cap
        };
        t.push(e as u8);
        i += 1;
    }
    t
}

/// The delta context table: entry `i` is `min(2^3 - 1, i)`, 256 entries.
pub fn build_delta_table() -> (r: Vec<u8>)
    ensures
        r@.len() == 256,
        forall|i: int| 0 <= i < 256 ==> r@[i] as int == if i < 7 { i } else { 7 },
{
    let mut t: Vec<u8> = Vec::new();
    let mut i: u16 = 0;
    while i < 256
        invariant
            i <= 256,
            t@.len() == i,
            forall|k: int| 0 <= k < i ==> t@[k] as int == if k < 7 { k } else { 7 },
        decreases 256 - i,
    {
        t.push(if i < 7 {
            i as u8
        } else {
            7
        });
        i += 1;
    }
    t
}

/// How many entries of `s` are below `x`.
pub open spec fn count_below(s: Seq<usize>, x: usize) -> nat
    decreases s.len(),
{
    if s.len() == 0 {
        0
    } else {
        count_below(s.drop_last(), x) + if s.last() < x {
            1nat
        } else {
            0nat
        }
    }
}

/// How many entries of `s` are at most `x`.
pub open spec fn count_at_most(s: Seq<usize>, x: usize) -> nat
    decreases s.len(),
{
    if s.len() == 0 {
        0
    } else {
        count_at_most(s.drop_last(), x) + if s.last() <= x {
            1nat
        } else {
            0nat
        }
    }
}

/// `m` is the median of `s`: the entry at place `len / 2` once sorted.
pub open spec fn is_median(s: Seq<usize>, m: usize) -> bool {
    s.contains(m) && count_below(s, m) <= s.len() / 2 < count_at_most(s, m)
}

fn count_below_exec(s: &[usize], x: usize) -> (r: (usize, usize))
    ensures
        r.0 as nat == count_below(s@, x),
        r.1 as nat == count_at_most(s@, x),
{
    let mut lt: usize = 0;
    let mut le: usize = 0;
    let mut i: usize = 0;
    while i < s.len()
        invariant
            i <= s@.len(),
            lt as nat == count_below(s@.take(i as int), x),
            le as nat == count_at_most(s@.take(i as int), x),
            lt <= i && le <= i,
        decreases s@.len() - i,
    {
        assert(s@.take(i + 1).drop_last() =~= s@.take(i as int));
        if s[i] < x {
            lt += 1;
        }
        if s[i] <= x {
            le += 1;
        }
        i += 1;
    }
    assert(s@.take(s@.len() as int) =~= s@);
    (lt, le)
}

pub proof fn lemma_counts_bounds(s: Seq<usize>, x: usize)
    ensures
        count_below(s, x) <= count_at_most(s, x) <= s.len(),
    decreases s.len(),
{
    if s.len() > 0 {
        lemma_counts_bounds(s.drop_last(), x);
    }
}

/// The median of the lengths (the entry at place `len / 2` once sorted).
pub fn median(lens: &[usize]) -> (r: usize)
    requires
        lens@.len() > 0,
    ensures
        is_median(lens@, r),
{
    let mut i: usize = 0;
    while i < lens.len()
        invariant
            i <= lens@.len(),
            forall|k: int| 0 <= k < i ==> !is_median(lens@, lens@[k]),
        decreases lens@.len() - i,
    {
        let (lt, le) = count_below_exec(lens, lens[i]);
        if lt <= lens.len() / 2 && lens.len() / 2 < le {
            assert(lens@.contains(lens@[i as int]));
            return lens[i];
        }
        i += 1;
    }
    proof {
        lemma_median_exists(lens@);
    }
    lens[0]
}

/// Some entry of a non-empty sequence is its median.
pub proof fn lemma_median_exists(s: Seq<usize>)
    requires
        s.len() > 0,
    ensures
        exists|k: int| 0 <= k < s.len() && is_median(s, s[k]),
{
    // The smallest entry `x` with more than `len / 2` entries at most `x`.
    let h = s.len() / 2;
    let good = |k: int| 0 <= k < s.len() && count_at_most(s, s[k]) > h;
    lemma_max_is_good(s);
    let k0 = choose|k: int| 0 <= k < s.len() && count_at_most(s, s[k]) == s.len();
    assert(good(k0));
    lemma_least_good(s, k0);
}

proof fn lemma_max_is_good(s: Seq<usize>)
    requires
        s.len() > 0,
    ensures
        exists|k: int| 0 <= k < s.len() && count_at_most(s, s[k]) == s.len(),
    decreases s.len(),
{
    if s.len() == 1 {
        assert(s.last() == s[0]);
        assert(count_at_most(s.drop_last(), s[0]) == 0);
        assert(count_at_most(s, s[0]) == 1);
    } else {
        let t = s.drop_last();
        lemma_max_is_good(t);
        let k = choose|k: int| 0 <= k < t.len() && count_at_most(t, t[k]) == t.len();
        if t[k] >= s.last() {
            assert(s[k] == t[k]);
        } else {
            lemma_all_at_most(t, t[k], s.last());
            assert(count_at_most(s, s.last()) == s.len());
        }
    }
}

proof fn lemma_all_at_most(t: Seq<usize>, a: usize, b: usize)
    requires
        count_at_most(t, a) == t.len(),
        a <= b,
    ensures
        count_at_most(t, b) == t.len(),
    decreases t.len(),
{
    if t.len() > 0 {
        lemma_counts_bounds(t.drop_last(), a);
        lemma_all_at_most(t.drop_last(), a, b);
    }
}

proof fn lemma_count_mono(s: Seq<usize>, a: usize, b: usize)
    requires
        a <= b,
    ensures
        count_at_most(s, a) <= count_at_most(s, b),
        a < b ==> count_at_most(s, a) <= count_below(s, b),
    decreases s.len(),
{
    if s.len() > 0 {
        lemma_count_mono(s.drop_last(), a, b);
    }
}

proof fn lemma_least_good(s: Seq<usize>, k0: int)
    requires
        0 <= k0 < s.len(),
        count_at_most(s, s[k0]) > s.len() / 2,
    ensures
        exists|k: int| 0 <= k < s.len() && is_median(s, s[k]),
    decreases s[k0],
{
    let h = s.len() / 2;
    if count_below(s, s[k0]) <= h {
        assert(s.contains(s[k0]));
    } else {
        // some entry below s[k0] already has more than h at most it
        lemma_some_below_good(s, s[k0]);
        let k1 = choose|k: int| 0 <= k < s.len() && s[k] < s[k0] && count_at_most(s, s[k]) == count_below(s, s[k0]);
        lemma_least_good(s, k1);
    }
}

/// The largest entry below `x` has as many entries at most it as there are below `x`.
proof fn lemma_some_below_good(s: Seq<usize>, x: usize)
    requires
        count_below(s, x) > 0,
    ensures
        exists|k: int| 0 <= k < s.len() && s[k] < x && count_at_most(s, s[k]) == count_below(s, x),
    decreases s.len(),
{
    let t = s.drop_last();
    if count_below(t, x) > 0 {
        lemma_some_below_good(t, x);
        let k = choose|k: int| 0 <= k < t.len() && t[k] < x && count_at_most(t, t[k]) == count_below(t, x);
        if s.last() < x && s.last() > t[k] {
            lemma_below_max(t, t[k], s.last(), x);
            assert(s[t.len() as int] == s.last());
        } else {
            assert(s[k] == t[k]);
        }
    } else {
        assert(s.last() < x);
        lemma_none_below(t, x, s.last());
        assert(s[t.len() as int] == s.last());
    }
}

proof fn lemma_below_max(t: Seq<usize>, a: usize, b: usize, x: usize)
    requires
        count_at_most(t, a) == count_below(t, x),
        a < b,
        b < x,
    ensures
        count_at_most(t, b) == count_below(t, x),
    decreases t.len(),
{
    lemma_count_mono(t, a, b);
    lemma_count_mono(t, b, x);
}

proof fn lemma_none_below(t: Seq<usize>, x: usize, b: usize)
    requires
        count_below(t, x) == 0,
        b < x,
    ensures
        count_at_most(t, b) == 0,
    decreases t.len(),
{
    lemma_count_mono(t, b, x);
}

} // verus!

verus! {

/// How many lengths are above `m`.
pub open spec fn count_above(s: Seq<usize>, m: usize) -> nat {
    (s.len() - count_at_most(s, m)) as nat
}

/// Splits the records into two parameter groups by length: those above the
/// median length form group 1. Only when there are at least twice
/// `min_group_size` records and each group gets at least `min_group_size`.
pub fn assign_record_groups(lens: &[usize], min_group_size: usize) -> (r: Option<(Vec<u8>, usize)>)
    requires
        min_group_size <= usize::MAX / 2,
    ensures
        lens@.len() < 2 * min_group_size ==> r is None,
        r is Some ==> r->Some_0.1 == 2 && r->Some_0.0@.len() == lens@.len(),
        lens@.len() >= 2 * min_group_size && lens@.len() > 0 ==> exists|m: usize| is_median(lens@, m) && (
            r is Some <==> (count_at_most(lens@, m) >= min_group_size && count_above(lens@, m) >= min_group_size)
        ) && (r is Some ==> forall|i: int| 0 <= i < lens@.len() ==> r->Some_0.0@[i] == if lens@[i] > m { 1u8 } else { 0u8 }),
{
    if lens.len() < min_group_size * 2 || lens.len() == 0 {
        return None;
    }
    let m = median(lens);
    let mut assignments: Vec<u8> = Vec::new();
    let mut i: usize = 0;
    while i < lens.len()
        invariant
            i <= lens@.len(),
            assignments@.len() == i,
            forall|k: int| 0 <= k < i ==> assignments@[k] == if lens@[k] > m { 1u8 } else { 0u8 },
        decreases lens@.len() - i,
    {
        assignments.push(if lens[i] > m {
            1
        } else {
            0
        });
        i += 1;
    }
    let (_, count0) = count_below_exec(lens, m);
    proof {
        lemma_counts_bounds(lens@, m);
    }
    let count1 = lens.len() - count0;
    if count0 < min_group_size || count1 < min_group_size {
        return None;
    }
    Some((assignments, 2))
}

/// The offset at which record `i` starts.
pub open spec fn record_start(lens: Seq<usize>, i: int) -> int
    decreases i,
{
    if i <= 0 {
        0
    } else {
        record_start(lens, i - 1) + lens[i - 1]
    }
}

/// Record `i` repeats record `i - 1`: the same length and the same values.
pub open spec fn repeats_previous(lens: Seq<usize>, src: Seq<u8>, i: int) -> bool {
    &&& lens[i - 1] == lens[i]
    &&& record_start(lens, i) + lens[i] <= src.len()
    &&& src.subrange(record_start(lens, i - 1), record_start(lens, i)) == src.subrange(
        record_start(lens, i),
        record_start(lens, i) + lens[i],
    )
}

/// How many of records `1..k` repeat the record before them.
pub open spec fn duplicate_count(lens: Seq<usize>, src: Seq<u8>, k: int) -> nat
    decreases k,
{
    if k <= 1 {
        0
    } else {
        duplicate_count(lens, src, k - 1) + if repeats_previous(lens, src, k - 1) {
            1nat
        } else {
            0nat
        }
    }
}

proof fn lemma_record_start_mono(lens: Seq<usize>, i: int, j: int)
    requires
        0 <= i <= j <= lens.len(),
    ensures
        record_start(lens, i) <= record_start(lens, j),
    decreases j - i,
{
    if i < j {
        lemma_record_start_mono(lens, i, j - 1);
    }
}

fn slices_equal(src: &[u8], a: usize, b: usize, len: usize) -> (r: bool)
    requires
        a + len <= src@.len(),
        b + len <= src@.len(),
    ensures
        r == (src@.subrange(a as int, a + len) == src@.subrange(b as int, b + len)),
{
    let n = src.len();
    let mut i: usize = 0;
    while i < len
        invariant
            i <= len,
            n == src@.len(),
            a + len <= src@.len(),
            b + len <= src@.len(),
            forall|k: int| 0 <= k < i ==> #[trigger] src@.subrange(a as int, a + len)[k] == src@.subrange(b as int, b + len)[k],
        decreases len - i,
    {
        if src[a + i] != src[b + i] {
            assert(src@.subrange(a as int, a + len)[i as int] != src@.subrange(b as int, b + len)[i as int]);
            return false;
        }
        i += 1;
    }
    assert(src@.subrange(a as int, a + len) =~= src@.subrange(b as int, b + len));
    true
}

/// Counts the records that repeat the record before them.
pub fn count_duplicate_records(lens: &[usize], src: &[u8]) -> (r: usize)
    requires
        record_start(lens@, lens@.len() as int) <= src@.len(),
    ensures
        r as nat == duplicate_count(lens@, src@, lens@.len() as int),
{
    if lens.len() < 2 {
        return 0;
    }
    let total = src.len();
    let mut count: usize = 0;
    let mut offset: usize = 0;
    let mut i: usize = 1;
    proof {
        lemma_record_start_mono(lens@, 1, lens@.len() as int);
    }
    while i < lens.len()
        invariant
            1 <= i <= lens@.len(),
            total == src@.len(),
            record_start(lens@, lens@.len() as int) <= src@.len(),
            offset as int == record_start(lens@, i - 1),
            count as nat == duplicate_count(lens@, src@, i as int),
            count < i,
        decreases lens@.len() - i,
    {
        proof {
            lemma_record_start_mono(lens@, i as int, lens@.len() as int);
            lemma_record_start_mono(lens@, (i - 1) as int, i as int);
        }
        let prev_len = lens[i - 1];
        let cur_start = offset + prev_len;
        let cur_len = lens[i];
        if prev_len == cur_len && cur_len <= src.len() && cur_start <= src.len() - cur_len {
            if slices_equal(src, offset, cur_start, cur_len) {
                count += 1;
            }
        }
        offset = cur_start;
        i += 1;
    }
    count
}

/// Deduplication pays when more than 5% of record pairs repeat.
pub fn use_dedup(lens: &[usize], src: &[u8]) -> (r: bool)
    requires
        record_start(lens@, lens@.len() as int) <= src@.len(),
    ensures
        r == (lens@.len() > 1 && 20 * duplicate_count(lens@, src@, lens@.len() as int) > lens@.len() - 1),
{
    if lens.len() <= 1 {
        return false;
    }
    let d = count_duplicate_records(lens, src);
    proof {
        lemma_duplicate_count_bound(lens@, src@, lens@.len() as int);
    }
    (20 * d as u128) > (lens.len() - 1) as u128
}

proof fn lemma_duplicate_count_bound(lens: Seq<usize>, src: Seq<u8>, k: int)
    ensures
        duplicate_count(lens, src, k) <= if k < 1 { 0 } else { k - 1 },
    decreases k,
{
    if k > 1 {
        lemma_duplicate_count_bound(lens, src, k - 1);
    }
}

} // verus!

verus! {

fn contains_byte(src: &[u8], v: u8) -> (r: bool)
    ensures
        r == src@.contains(v),
{
    let mut i: usize = 0;
    while i < src.len()
        invariant
            i <= src@.len(),
            forall|k: int| 0 <= k < i ==> src@[k] != v,
        decreases src@.len() - i,
    {
        if src[i] == v {
            return true;
        }
        i += 1;
    }
    false
}

/// The distinct quality values of `src`, in increasing order.
pub fn distinct_values(src: &[u8]) -> (r: Vec<u8>)
    ensures
        forall|i: int, j: int| 0 <= i < j < r@.len() ==> r@[i] < r@[j],
        forall|v: u8| src@.contains(v) <==> r@.contains(v),
{
    let mut out: Vec<u8> = Vec::new();
    let mut v: u16 = 0;
    while v < 256
        invariant
            v <= 256,
            forall|i: int, j: int| 0 <= i < j < out@.len() ==> out@[i] < out@[j],
            forall|i: int| 0 <= i < out@.len() ==> out@[i] < v,
            forall|x: u8| (x as u16) < v ==> (src@.contains(x) <==> out@.contains(x)),
            forall|x: u8| (x as u16) >= v ==> !out@.contains(x),
        decreases 256 - v,
    {
        let ghost before = out@;
        if contains_byte(src, v as u8) {
            out.push(v as u8);
            proof {
                assert forall|x: u8| #[trigger] out@.contains(x) implies before.contains(x) || x == v as u8 by {
                    let k = choose|k: int| 0 <= k < out@.len() && out@[k] == x;
                    if k < before.len() {
                        assert(before[k] == x);
                    }
                }
                assert(out@[before.len() as int] == v as u8);
                assert forall|x: u8| before.contains(x) implies #[trigger] out@.contains(x) by {
                    let k = choose|k: int| 0 <= k < before.len() && before[k] == x;
                    assert(out@[k] == x);
                }
            }
        }
        v += 1;
    }
    out
}

/// The quality map, when there are between 1 and 16 distinct values: the
/// distinct values in increasing order (model symbol to quality), and its
/// inverse over all 256 qualities (quality to model symbol, 0 elsewhere).
pub fn quality_map(src: &[u8]) -> (r: Option<(Vec<u8>, Vec<u8>)>)
    ensures
        match r {
            Some((qmap, inv)) => 1 <= qmap@.len() <= 16 && inv@.len() == 256
                && (forall|i: int, j: int| 0 <= i < j < qmap@.len() ==> qmap@[i] < qmap@[j])
                && (forall|v: u8| src@.contains(v) <==> qmap@.contains(v))
                && (forall|j: int| 0 <= j < qmap@.len() ==> inv@[qmap@[j] as int] == j as u8)
                && (forall|q: u8| !qmap@.contains(q) ==> inv@[q as int] == 0),
            None => forall|d: Seq<u8>| (forall|i: int, j: int| 0 <= i < j < d.len() ==> d[i] < d[j])
                && (forall|v: u8| src@.contains(v) <==> d.contains(v)) ==> d.len() == 0 || d.len() > 16,
        },
{
    let qmap = distinct_values(src);
    if qmap.len() == 0 || qmap.len() > 16 {
        proof {
            assert forall|d: Seq<u8>| (forall|i: int, j: int| 0 <= i < j < d.len() ==> d[i] < d[j])
                && (forall|v: u8| src@.contains(v) <==> d.contains(v)) implies d.len() == 0 || d.len() > 16 by {
                lemma_sorted_same_set(d, qmap@);
            }
        }
        return None;
    }
    let mut inv: Vec<u8> = Vec::new();
    let mut i: usize = 0;
    while i < 256
        invariant
            i <= 256,
            inv@.len() == i,
            forall|k: int| 0 <= k < i ==> inv@[k] == 0,
        decreases 256 - i,
    {
        inv.push(0);
        i += 1;
    }
    assert(qmap@.take(0) =~= Seq::<u8>::empty());
    let mut j: usize = 0;
    while j < qmap.len()
        invariant
            j <= qmap@.len() <= 16,
            inv@.len() == 256,
            forall|i: int, k: int| 0 <= i < k < qmap@.len() ==> qmap@[i] < qmap@[k],
            forall|k: int| 0 <= k < j ==> inv@[qmap@[k] as int] == k as u8,
            forall|q: u8| !qmap@.take(j as int).contains(q) ==> inv@[q as int] == 0,
        decreases qmap@.len() - j,
    {
        let ghost before = inv@;
        inv.set(qmap[j] as usize, j as u8);
        proof {
            assert forall|q: u8| !qmap@.take(j + 1).contains(q) implies inv@[q as int] == 0 by {
                assert(qmap@.take(j + 1)[j as int] == qmap@[j as int]);
                if qmap@.take(j as int).contains(q) {
                    let i = choose|i: int| 0 <= i < j && qmap@.take(j as int)[i] == q;
                    assert(qmap@.take(j + 1)[i] == q);
                }
            }
        }
        j += 1;
    }
    proof {
        assert(qmap@.take(qmap@.len() as int) =~= qmap@);
    }
    Some((qmap, inv))
}

/// Two increasing sequences with the same members are equal.
proof fn lemma_sorted_same_set(a: Seq<u8>, b: Seq<u8>)
    requires
        forall|i: int, j: int| 0 <= i < j < a.len() ==> a[i] < a[j],
        forall|i: int, j: int| 0 <= i < j < b.len() ==> b[i] < b[j],
        forall|v: u8| a.contains(v) <==> b.contains(v),
    ensures
        a.len() == b.len(),
        a == b,
    decreases a.len() + b.len(),
{
    if a.len() > 0 && b.len() > 0 {
        // the largest members agree
        let x = a.last();
        let y = b.last();
        assert(a.contains(x));
        assert(b.contains(y));
        let ky = choose|k: int| 0 <= k < a.len() && a[k] == y;
        let kx = choose|k: int| 0 <= k < b.len() && b[k] == x;
        assert(y <= x);
        assert(x <= y);
        assert forall|v: u8| a.drop_last().contains(v) <==> b.drop_last().contains(v) by {
            if a.drop_last().contains(v) {
                let k = choose|k: int| 0 <= k < a.drop_last().len() && a.drop_last()[k] == v;
                assert(a[k] == v);
                assert(v < x);
                assert(a.contains(v));
                assert(b.contains(v));
                assert(x == y);
                let m = choose|m: int| 0 <= m < b.len() && b[m] == v;
                assert(m < b.len() - 1);
                assert(b.drop_last()[m] == v);
            }
            if b.drop_last().contains(v) {
                let k = choose|k: int| 0 <= k < b.drop_last().len() && b.drop_last()[k] == v;
                assert(b[k] == v);
                assert(v < y);
                assert(b.contains(v));
                assert(a.contains(v));
                assert(x == y);
                let m = choose|m: int| 0 <= m < a.len() && a[m] == v;
                assert(m < a.len() - 1);
                assert(a.drop_last()[m] == v);
            }
        }
        lemma_sorted_same_set(a.drop_last(), b.drop_last());
        assert(a =~= b.drop_last().push(y));
        assert(b =~= b.drop_last().push(y));
    } else if a.len() > 0 {
        assert(a.contains(a[0]));
    } else if b.len() > 0 {
        assert(b.contains(b[0]));
    }
}

} // verus!

verus! {

/// The largest quality value of `src` (0 when empty).
pub open spec fn max_symbol(src: Seq<u8>) -> u8
    decreases src.len(),
{
    if src.len() == 0 {
        0
    } else if src.last() > max_symbol(src.drop_last()) {
        src.last()
    } else {
        max_symbol(src.drop_last())
    }
}

fn max_symbol_exec(src: &[u8]) -> (r: u8)
    ensures
        r == max_symbol(src@),
{
    let mut m: u8 = 0;
    let mut i: usize = 0;
    while i < src.len()
        invariant
            i <= src@.len(),
            m == max_symbol(src@.take(i as int)),
        decreases src@.len() - i,
    {
        assert(src@.take(i + 1).drop_last() =~= src@.take(i as int));
        if src[i] > m {
            m = src[i];
        }
        i += 1;
    }
    assert(src@.take(src@.len() as int) =~= src@);
    m
}

/// All records have the same length (and there are at least two).
pub open spec fn fixed_length(lens: Seq<usize>) -> bool {
    lens.len() > 1 && forall|i: int| 0 <= i < lens.len() ==> #[trigger] lens[i] == lens[0]
}

/// The quality values of `src` fit a quality map: there are between 1 and 16 of them.
pub open spec fn has_qmap(src: Seq<u8>) -> bool {
    exists|d: Seq<u8>| #[trigger] distinct_list(src, d) && 1 <= d.len() <= 16
}

/// `d` lists the distinct values of `src` in increasing order.
pub open spec fn distinct_list(src: Seq<u8>, d: Seq<u8>) -> bool {
    (forall|i: int, j: int| 0 <= i < j < d.len() ==> d[i] < d[j]) && (forall|v: u8| src.contains(v) <==> d.contains(v))
}

/// The largest model symbol: the count of mapped values less one with a
/// quality map, else the largest quality value.
pub open spec fn effective_max(src: Seq<u8>, qmap_len: nat) -> nat {
    if has_qmap(src) {
        (qmap_len - 1) as nat
    } else {
        max_symbol(src) as nat
    }
}

/// The flags of one fqzcomp parameter set: positions table (32) always;
/// deduplication (2), fixed length (4), selector (8), quality map (16), delta
/// table (64, for more than 256 values) and a quality table that is not the
/// identity (128).
pub fn parameter_flags(lens: &[usize], src: &[u8], has_selector: bool) -> (r: (u8, Option<(Vec<u8>, Vec<u8>)>))
    requires
        record_start(lens@, lens@.len() as int) <= src@.len(),
    ensures
        (r.1 is Some) == has_qmap(src@),
        r.1 is Some ==> distinct_list(src@, r.1->Some_0.0@) && 1 <= r.1->Some_0.0@.len() <= 16,
        r.0 as int == 32 + (if use_dedup_spec(lens@, src@) { 2int } else { 0int }) + (if fixed_length(lens@) { 4int } else { 0int })
            + (if has_selector { 8int } else { 0int }) + (if has_qmap(src@) { 16int } else { 0int })
            + (if src@.len() > 256 { 64int } else { 0int })
            + (if !q_tab_identity(effective_max(src@, if r.1 is Some { r.1->Some_0.0@.len() } else { 0 })) { 128int } else { 0int }),
{
    let mut flags: u8 = 32;
    if use_dedup(lens, src) {
        flags = flags + 2;
    }
    let mut same = lens.len() > 1;
    let mut i: usize = 0;
    while i < lens.len()
        invariant
            i <= lens@.len(),
            same == (lens@.len() > 1 && forall|k: int| 0 <= k < i ==> #[trigger] lens@[k] == lens@[0]),
        decreases lens@.len() - i,
    {
        if lens[i] != lens[0] {
            same = false;
        }
        i += 1;
    }
    if same {
        flags = flags + 4;
    }
    if has_selector {
        flags = flags + 8;
    }
    let qmap = quality_map(src);
    let eff: u8 = match &qmap {
        Some((m, _)) => {
            proof {
                assert(distinct_list(src@, m@));
                assert(has_qmap(src@));
            }
            flags = flags + 16;
            (m.len() - 1) as u8
        },
        None => {
            proof {
                assert forall|d: Seq<u8>| #[trigger] distinct_list(src@, d) implies !(1 <= d.len() <= 16) by {}
                assert(!has_qmap(src@));
            }
            max_symbol_exec(src)
        },
    };
    if src.len() > 256 {
        flags = flags + 64;
    }
    let table = build_quality_table(eff, 9);
    let mut identity = true;
    let mut k: usize = 0;
    while k < 256
        invariant
            k <= 256,
            table@.len() == 256,
            identity == (forall|j: int| 0 <= j < k ==> #[trigger] table@[j] as int == j),
        decreases 256 - k,
    {
        if table[k] as usize != k {
            identity = false;
        }
        k += 1;
    }
    if !identity {
        flags = flags + 128;
    }
    proof {
        assert(eff as nat == effective_max(src@, if qmap is Some { qmap->Some_0.0@.len() } else { 0 }));
        if identity {
            assert forall|i: nat| i < 256 implies #[trigger] q_tab_entry(i, eff as nat, 9) == i by {
                assert(table@[i as int] as int == i);
            }
        } else {
            let j = choose|j: int| 0 <= j < 256 && table@[j] as int != j;
            assert(q_tab_entry(j as nat, eff as nat, 9) != j);
        }
    }
    (flags, qmap)
}

/// The quality table of `max_q` (9 context bits) maps every quality to itself.
pub open spec fn q_tab_identity(max_q: nat) -> bool {
    forall|i: nat| i < 256 ==> #[trigger] q_tab_entry(i, max_q, 9) == i
}

/// `use_dedup`, as a predicate.
pub open spec fn use_dedup_spec(lens: Seq<usize>, src: Seq<u8>) -> bool {
    lens.len() > 1 && 20 * duplicate_count(lens, src, lens.len() as int) > lens.len() - 1
}

} // verus!

verus! {

/// How many entries from `j` on equal `v`, in a row.
pub open spec fn run_from(data: Seq<u8>, j: int, v: int) -> nat
    decreases data.len() - j,
{
    if j < 0 || j >= data.len() || data[j] as int != v {
        0
    } else {
        1 + run_from(data, j + 1, v)
    }
}

/// A run length in bytes: 255 for each full 255, then the rest (0 after an exact multiple).
pub open spec fn chunk(c: nat) -> Seq<u8>
    decreases c,
{
    if c < 255 {
        seq![c as u8]
    } else {
        seq![255u8] + chunk((c - 255) as nat)
    }
}

/// First pass of the table encoding: for each value `i` from 0 on, the
/// length of the run of entries equal to `i`, until the table is used up.
pub open spec fn rle1_from(data: Seq<u8>, i: int, j: int) -> Seq<u8>
    decreases 257 - i,
{
    if j >= data.len() || i > 256 || i < 0 || j < 0 {
        Seq::empty()
    } else {
        chunk(run_from(data, j, i)) + rle1_from(data, i + 1, j + run_from(data, j, i))
    }
}

/// How many bytes from `j` on equal `v`, in a row, at most 255.
pub open spec fn repeat_from(s: Seq<u8>, j: int, v: int) -> nat {
    let n = run_from(s, j, v);
    if n > 255 {
        255
    } else {
        n
    }
}

/// Second pass: each byte is copied; a byte equal to the one before it is
/// followed by the count (at most 255) of the further copies, which are skipped.
pub open spec fn rle2_from(s: Seq<u8>, j: int, last: int) -> Seq<u8>
    decreases s.len() - j,
{
    if j < 0 || j >= s.len() {
        Seq::empty()
    } else if s[j] as int == last {
        let nj = j + 1 + repeat_from(s, j + 1, last);
        if nj > s.len() {
            seq![s[j], repeat_from(s, j + 1, last) as u8]
        } else {
            seq![s[j], repeat_from(s, j + 1, last) as u8] + rle2_from(s, nj, last)
        }
    } else {
        seq![s[j]] + rle2_from(s, j + 1, s[j] as int)
    }
}

/// The run-length form of a non-decreasing table.
pub open spec fn table_rle(data: Seq<u8>) -> Seq<u8> {
    rle2_from(rle1_from(data, 0, 0), 0, -1)
}

proof fn lemma_run_bound(data: Seq<u8>, j: int, v: int)
    requires
        0 <= j <= data.len(),
    ensures
        j + run_from(data, j, v) <= data.len(),
        forall|k: int| j <= k < j + run_from(data, j, v) ==> data[k] as int == v,
        j + run_from(data, j, v) < data.len() ==> data[j + run_from(data, j, v)] as int != v,
    decreases data.len() - j,
{
    if j < data.len() && data[j] as int == v {
        lemma_run_bound(data, j + 1, v);
    }
}

fn run_exec(data: &Vec<u8>, j: usize, v: usize, cap: usize) -> (r: usize)
    requires
        j <= data@.len(),
    ensures
        r as nat == if run_from(data@, j as int, v as int) > cap { cap as nat } else { run_from(data@, j as int, v as int) },
{
    proof {
        lemma_run_bound(data@, j as int, v as int);
    }
    let mut k: usize = j;
    while k < data.len() && data[k] as usize == v && k - j < cap
        invariant
            j <= k <= data@.len(),
            k - j <= cap,
            run_from(data@, j as int, v as int) == (k - j) + run_from(data@, k as int, v as int),
        decreases data@.len() - k,
    {
        k += 1;
    }
    k - j
}

fn push_chunk(out: &mut Vec<u8>, c: usize)
    ensures
        final(out)@ == old(out)@ + chunk(c as nat),
{
    let mut left: usize = c;
    let ghost o0 = old(out)@;
    loop
        invariant_except_break
            o0 + chunk(c as nat) == out@ + chunk(left as nat),
        ensures
            out@ == o0 + chunk(c as nat),
        decreases left,
    {
        if left < 255 {
            out.push(left as u8);
            assert(out@ =~= o0 + chunk(c as nat));
            break;
        }
        out.push(255);
        let ghost before = left;
        left = left - 255;
        assert(chunk(before as nat) =~= seq![255u8] + chunk(left as nat));
        assert(o0 + chunk(c as nat) =~= out@ + chunk(left as nat));
    }
}

/// Writes a non-decreasing table in its two-pass run-length form.
pub fn write_array(dst: &mut Vec<u8>, data: &Vec<u8>) -> (r: Result<(), Error>)
    requires
        forall|a: int, b: int| 0 <= a <= b < data@.len() ==> data@[a] <= data@[b],
    ensures
        r is Ok,
        final(dst)@ == old(dst)@ + table_rle(data@),
{
    // first pass
    let mut rle1: Vec<u8> = Vec::new();
    let mut i: usize = 0;
    let mut j: usize = 0;
    while j < data.len()
        invariant
            j <= data@.len(),
            i <= 256,
            forall|a: int, b: int| 0 <= a <= b < data@.len() ==> data@[a] <= data@[b],
            j < data@.len() ==> data@[j as int] >= i,
            rle1@ + rle1_from(data@, i as int, j as int) == rle1_from(data@, 0, 0),
        decreases 256 - i,
    {
        proof {
            lemma_run_bound(data@, j as int, i as int);
        }
        let c = run_exec(data, j, i, data.len());
        proof {
            assert(run_from(data@, j as int, i as int) <= data@.len());
        }
        let ghost before = rle1@;
        push_chunk(&mut rle1, c);
        assert(rle1_from(data@, i as int, j as int) == chunk(c as nat) + rle1_from(data@, i + 1, j + c));
        j = j + c;
        i = i + 1;
        assert(rle1@ + rle1_from(data@, i as int, j as int) =~= before + (chunk(c as nat) + rle1_from(data@, i as int, j as int)));
        proof {
            if j < data@.len() {
                assert(data@[j as int] as int != i - 1);
                assert(data@[(j - c) as int] <= data@[j as int]) by {
                    if c == 0 {
                    }
                }
            }
        }
    }
    assert(rle1_from(data@, i as int, j as int) =~= Seq::<u8>::empty());
    // second pass
    let ghost s = rle1@;
    let mut out: Vec<u8> = Vec::new();
    let mut k: usize = 0;
    let mut last: i32 = -1;
    while k < rle1.len()
        invariant
            k <= rle1@.len(),
            s == rle1@,
            -1 <= last <= 255,
            out@ + rle2_from(s, k as int, last as int) == rle2_from(s, 0, -1),
        decreases rle1@.len() - k,
    {
        let curr = rle1[k];
        let ghost before = out@;
        if curr as i32 == last {
            let n = run_exec(&rle1, k + 1, last as usize, 255);
            proof {
                lemma_run_bound(s, k + 1, last as int);
                assert(k + 1 + n <= s.len());
            }
            out.push(curr);
            out.push(n as u8);
            k = k + 1 + n;
            assert(out@ + rle2_from(s, k as int, last as int) =~= before + rle2_from(s, (k - 1 - n) as int, last as int));
        } else {
            let ghost prev_last = last;
            out.push(curr);
            last = curr as i32;
            k = k + 1;
            assert(out@ + rle2_from(s, k as int, last as int) =~= before + rle2_from(s, (k - 1) as int, prev_last as int));
        }
    }
    assert(rle2_from(s, k as int, last as int) =~= Seq::<u8>::empty());
    let mut t: usize = 0;
    let ghost d0 = dst@;
    while t < out.len()
        invariant
            t <= out@.len(),
            dst@ == d0 + out@.take(t as int),
        decreases out@.len() - t,
    {
        dst.push(out[t]);
        t += 1;
        assert(dst@ =~= d0 + out@.take(t as int));
    }
    assert(out@.take(out@.len() as int) =~= out@);
    Ok(())
}

} // verus!

verus! {

pub open spec fn q_tab_seq(max_q: nat) -> Seq<u8> {
    Seq::new(256, |i: int| q_tab_entry(i as nat, max_q, 9) as u8)
}

pub open spec fn p_tab_seq(p_shift: nat) -> Seq<u8> {
    Seq::new(1024, |i: int| p_tab_entry(i as nat, 7, p_shift) as u8)
}

pub open spec fn d_tab_seq() -> Seq<u8> {
    Seq::new(256, |i: int| if i < 7 { i as u8 } else { 7u8 })
}

proof fn lemma_p_tab_monotone(p_shift: nat)
    ensures
        forall|a: int, b: int| 0 <= a <= b < 1024 ==> p_tab_seq(p_shift)[a] <= p_tab_seq(p_shift)[b],
{
    vstd::arithmetic::power2::lemma_pow2_pos(p_shift);
    vstd::arithmetic::power2::lemma2_to64();
    assert forall|a: int, b: int| 0 <= a <= b < 1024 implies p_tab_seq(p_shift)[a] <= p_tab_seq(p_shift)[b] by {
        vstd::arithmetic::div_mod::lemma_div_is_ordered(a, b, vstd::arithmetic::power2::pow2(p_shift) as int);
    }
}

/// The quality map of `src`: its distinct values in increasing order, when
/// there are between 1 and 16 of them; else empty.
pub open spec fn qmap_spec(src: Seq<u8>) -> Seq<u8> {
    if has_qmap(src) {
        choose|d: Seq<u8>| distinct_list(src, d) && 1 <= d.len() <= 16
    } else {
        Seq::empty()
    }
}

/// The flags of a parameter set (see `parameter_flags`).
pub open spec fn param_flags_spec(lens: Seq<usize>, src: Seq<u8>, sel: bool) -> int {
    32 + (if use_dedup_spec(lens, src) { 2int } else { 0int }) + (if fixed_length(lens) { 4int } else { 0int })
        + (if sel { 8int } else { 0int }) + (if has_qmap(src) { 16int } else { 0int })
        + (if src.len() > 256 { 64int } else { 0int })
        + (if !q_tab_identity(effective_max(src, qmap_spec(src).len())) { 128int } else { 0int })
}

/// What `encode_single_param` writes for records `lens` with quality values `src`.
pub open spec fn param_bytes(lens: Seq<usize>, src: Seq<u8>, sel: bool) -> Seq<u8> {
    let eff = effective_max(src, qmap_spec(src).len());
    let p_shift: nat = if lens.len() > 0 && lens[0] > 128 { 1 } else { 0 };
    seq![0u8, 0u8, param_flags_spec(lens, src, sel) as u8, eff as u8, 0x95u8, 0x7fu8, 0x0fu8] + qmap_spec(src)
        + (if !q_tab_identity(eff) { table_rle(q_tab_seq(eff)) } else { Seq::empty() })
        + table_rle(p_tab_seq(p_shift))
        + (if src.len() > 256 { table_rle(d_tab_seq()) } else { Seq::empty() })
}

proof fn lemma_qmap_spec(src: Seq<u8>, d: Seq<u8>)
    requires
        has_qmap(src) ==> distinct_list(src, d) && 1 <= d.len() <= 16,
        !has_qmap(src) ==> d.len() == 0,
    ensures
        d == qmap_spec(src),
{
    if has_qmap(src) {
        let c = choose|c: Seq<u8>| distinct_list(src, c) && 1 <= c.len() <= 16;
        lemma_sorted_same_set(d, c);
    } else {
        assert(d =~= Seq::<u8>::empty());
    }
}

/// Writes one fqzcomp parameter set: context 0 (two bytes), flags, the largest
/// model symbol, the packed bit counts and shifts (q_bits 9, q_shift 5,
/// q_loc 7, s_loc 15, p_loc 0, d_loc 15), then the quality map, quality
/// table (when not the identity), positions table and deltas table (past 256
/// values), each as its flag says. Yields the flags and the quality map.
#[verifier::rlimit(60)]
pub fn encode_single_param(dst: &mut Vec<u8>, lens: &[usize], src: &[u8], has_selector: bool) -> (r: (u8, Vec<u8>))
    requires
        record_start(lens@, lens@.len() as int) <= src@.len(),
    ensures
        has_qmap(src@) ==> distinct_list(src@, r.1@) && 1 <= r.1@.len() <= 16,
        !has_qmap(src@) ==> r.1@.len() == 0,
        r.1@ == qmap_spec(src@),
        ({
            let eff = effective_max(src@, r.1@.len());
            let p_shift: nat = if lens@.len() > 0 && lens@[0] > 128 { 1 } else { 0 };
            &&& r.0 as int == 32 + (if use_dedup_spec(lens@, src@) { 2int } else { 0int }) + (if fixed_length(lens@) { 4int } else { 0int })
                + (if has_selector { 8int } else { 0int }) + (if has_qmap(src@) { 16int } else { 0int })
                + (if src@.len() > 256 { 64int } else { 0int }) + (if !q_tab_identity(eff) { 128int } else { 0int })
            &&& final(dst)@ == old(dst)@ + seq![0u8, 0u8, r.0, eff as u8, 0x95u8, 0x7fu8, 0x0fu8] + r.1@
                + (if !q_tab_identity(eff) { table_rle(q_tab_seq(eff)) } else { Seq::empty() })
                + table_rle(p_tab_seq(p_shift))
                + (if src@.len() > 256 { table_rle(d_tab_seq()) } else { Seq::empty() })
        }),
{
    let (flags, qmap) = parameter_flags(lens, src, has_selector);
    let qm: Vec<u8> = match qmap {
        Some((m, _)) => m,
        None => Vec::new(),
    };
    let eff: u8 = if qm.len() > 0 {
        (qm.len() - 1) as u8
    } else {
        max_symbol_exec(src)
    };
    proof {
        if qmap is Some {
            assert(distinct_list(src@, qm@));
            assert(has_qmap(src@));
        }
        assert(eff as nat == effective_max(src@, qm@.len()));
    }
    dst.push(0);
    dst.push(0);
    dst.push(flags);
    dst.push(eff);
    dst.push(0x95);
    dst.push(0x7f);
    dst.push(0x0f);
    let ghost h = dst@;
    let mut i: usize = 0;
    while i < qm.len()
        invariant
            i <= qm@.len(),
            dst@ == h + qm@.take(i as int),
        decreases qm@.len() - i,
    {
        dst.push(qm[i]);
        i += 1;
        assert(dst@ =~= h + qm@.take(i as int));
    }
    assert(qm@.take(qm@.len() as int) =~= qm@);
    let ghost h1 = dst@;
    if flags >= 128 {
        let q_tab = build_quality_table(eff, 9);
        assert(q_tab@ =~= q_tab_seq(eff as nat));
        write_array(dst, &q_tab).unwrap();
    }
    let ghost h2 = dst@;
    let p_shift: u8 = if lens.len() > 0 && lens[0] > 128 {
        1
    } else {
        0
    };
    let p_tab = build_position_table(7, p_shift);
    assert(p_tab@ =~= p_tab_seq(p_shift as nat));
    proof {
        lemma_p_tab_monotone(p_shift as nat);
    }
    write_array(dst, &p_tab).unwrap();
    let ghost h3 = dst@;
    if src.len() > 256 {
        let d_tab = build_delta_table();
        assert(d_tab@ =~= d_tab_seq());
        write_array(dst, &d_tab).unwrap();
    }
    proof {
        lemma_qmap_spec(src@, qm@);
        let e = eff as nat;
        assert((flags >= 128) == !q_tab_identity(e));
        assert(dst@ =~= old(dst)@ + seq![0u8, 0u8, flags, eff, 0x95u8, 0x7fu8, 0x0fu8] + qm@
            + (if !q_tab_identity(e) { table_rle(q_tab_seq(e)) } else { Seq::empty() })
            + table_rle(p_tab_seq(p_shift as nat))
            + (if src@.len() > 256 { table_rle(d_tab_seq()) } else { Seq::empty() }));
    }
    (flags, qm)
}

} // verus!

verus! {

/// The records of group `g` among the first `n`: their lengths and their
/// quality values, in record order.
pub open spec fn group_records(lens: Seq<usize>, src: Seq<u8>, groups: Seq<u8>, g: u8, n: int) -> (Seq<usize>, Seq<u8>)
    decreases n,
{
    if n <= 0 {
        (Seq::empty(), Seq::empty())
    } else {
        let (l, s) = group_records(lens, src, groups, g, n - 1);
        if groups[n - 1] == g {
            (l.push(lens[n - 1]), s + src.subrange(record_start(lens, n - 1), record_start(lens, n)))
        } else {
            (l, s)
        }
    }
}

proof fn lemma_record_start_step(lens: Seq<usize>, i: int)
    requires
        0 <= i,
    ensures
        record_start(lens, i + 1) == record_start(lens, i) + lens[i],
{
}

/// Splits the records into the two parameter groups.
#[verifier::rlimit(80)]
pub fn split_groups(lens: &[usize], src: &[u8], groups: &Vec<u8>) -> (r: (Vec<usize>, Vec<u8>, Vec<usize>, Vec<u8>))
    requires
        groups@.len() == lens@.len(),
        record_start(lens@, lens@.len() as int) <= src@.len(),
    ensures
        (r.0@, r.1@) == group_records(lens@, src@, groups@, 0, lens@.len() as int),
        (r.2@, r.3@) == group_records(lens@, src@, groups@, 1, lens@.len() as int),
{
    let mut l0: Vec<usize> = Vec::new();
    let mut s0: Vec<u8> = Vec::new();
    let mut l1: Vec<usize> = Vec::new();
    let mut s1: Vec<u8> = Vec::new();
    let mut offset: usize = 0;
    let mut i: usize = 0;
    let total = src.len();
    while i < lens.len()
        invariant
            i <= lens@.len(),
            total == src@.len(),
            groups@.len() == lens@.len(),
            record_start(lens@, lens@.len() as int) <= src@.len(),
            offset as int == record_start(lens@, i as int),
            (l0@, s0@) == group_records(lens@, src@, groups@, 0, i as int),
            (l1@, s1@) == group_records(lens@, src@, groups@, 1, i as int),
        decreases lens@.len() - i,
    {
        proof {
            lemma_record_start_mono(lens@, (i + 1) as int, lens@.len() as int);
            lemma_record_start_step(lens@, i as int);
        }
        let end = offset + lens[i];
        let piece = vstd::slice::slice_subrange(src, offset, end);
        let ghost p = piece@;
        let mut k: usize = 0;
        if groups[i] == 0 {
            l0.push(lens[i]);
            let ghost b = s0@;
            while k < piece.len()
                invariant
                    k <= piece@.len(),
                    s0@ == b + piece@.take(k as int),
                decreases piece@.len() - k,
            {
                s0.push(piece[k]);
                k += 1;
                assert(s0@ =~= b + piece@.take(k as int));
            }
            assert(piece@.take(piece@.len() as int) =~= piece@);
        } else if groups[i] == 1 {
            l1.push(lens[i]);
            let ghost b = s1@;
            while k < piece.len()
                invariant
                    k <= piece@.len(),
                    s1@ == b + piece@.take(k as int),
                decreases piece@.len() - k,
            {
                s1.push(piece[k]);
                k += 1;
                assert(s1@ =~= b + piece@.take(k as int));
            }
            assert(piece@.take(piece@.len() as int) =~= piece@);
        }
        offset = end;
        i += 1;
    }
    (l0, s0, l1, s1)
}

proof fn lemma_record_start_prefix(a: Seq<usize>, b: Seq<usize>, n: int)
    requires
        0 <= n <= a.len(),
        n <= b.len(),
        a.take(n) == b.take(n),
    ensures
        record_start(a, n) == record_start(b, n),
    decreases n,
{
    if n > 0 {
        assert(a.take(n - 1) =~= a.take(n).take(n - 1));
        assert(b.take(n - 1) =~= b.take(n).take(n - 1));
        assert(a[n - 1] == a.take(n)[n - 1]);
        assert(b[n - 1] == b.take(n)[n - 1]);
        lemma_record_start_prefix(a, b, n - 1);
    }
}

/// A group's records fill exactly its quality values.
proof fn lemma_group_fits(lens: Seq<usize>, src: Seq<u8>, groups: Seq<u8>, g: u8, n: int)
    requires
        0 <= n <= lens.len(),
        record_start(lens, n) <= src.len(),
    ensures
        ({
            let (l, s) = group_records(lens, src, groups, g, n);
            record_start(l, l.len() as int) == s.len()
        }),
    decreases n,
{
    if n > 0 {
        lemma_record_start_mono(lens, n - 1, n);
        lemma_group_fits(lens, src, groups, g, n - 1);
        let (l, s) = group_records(lens, src, groups, g, n - 1);
        if groups[n - 1] == g {
            let l2 = l.push(lens[n - 1]);
            assert(l2.take(l.len() as int) =~= l.take(l.len() as int));
            lemma_record_start_prefix(l2, l, l.len() as int);
            assert(record_start(l2, l2.len() as int) == record_start(l2, l.len() as int) + lens[n - 1]);
            assert(record_start(lens, n) == record_start(lens, n - 1) + lens[n - 1]);
            lemma_record_start_mono(lens, 0, n - 1);
            let piece = src.subrange(record_start(lens, n - 1), record_start(lens, n));
            assert(piece.len() == lens[n - 1]);
            assert((s + piece).len() == s.len() + lens[n - 1]);
        }
    }
}

/// A sequence has one median value.
pub proof fn lemma_median_unique(s: Seq<usize>, a: usize, b: usize)
    requires
        is_median(s, a),
        is_median(s, b),
    ensures
        a == b,
{
    if a < b {
        lemma_count_mono(s, a, b);
    } else if b < a {
        lemma_count_mono(s, b, a);
    }
}

proof fn lemma_median_unique_all(s: Seq<usize>, m: usize)
    requires
        is_median(s, m),
    ensures
        forall|x: usize| #[trigger] is_median(s, x) ==> x == m,
{
    assert forall|x: usize| #[trigger] is_median(s, x) implies x == m by {
        lemma_median_unique(s, x, m);
    }
}

/// Whether the records split into two parameter groups.
pub open spec fn multi_split(lens: Seq<usize>) -> bool {
    lens.len() >= 20 && exists|m: usize| is_median(lens, m) && count_at_most(lens, m) >= 10 && count_above(lens, m) >= 10
}

/// The median of the record lengths.
pub open spec fn median_spec(lens: Seq<usize>) -> usize {
    choose|m: usize| is_median(lens, m)
}

/// Each record's group: 1 when longer than the median, else 0.
pub open spec fn group_assign(lens: Seq<usize>) -> Seq<u8> {
    Seq::new(lens.len(), |i: int| if lens[i] > median_spec(lens) { 1u8 } else { 0u8 })
}

/// What `fqz_encode_params` writes: version 5, the global flags (reversal 4;
/// multiple parameters 1 and selector table 2 when the records split into two
/// groups), then with two groups the parameter count 2, the largest selector
/// 1, the selector table and a parameter set per group, else one parameter set.
pub open spec fn params_bytes(lens: Seq<usize>, src: Seq<u8>, has_reverse: bool) -> Seq<u8> {
    let rev: int = if has_reverse { 4 } else { 0 };
    if multi_split(lens) {
        let g = group_assign(lens);
        let (l0, s0) = group_records(lens, src, g, 0, lens.len() as int);
        let (l1, s1) = group_records(lens, src, g, 1, lens.len() as int);
        seq![5u8, (rev + 3) as u8, 2u8, 1u8] + table_rle(s_tab_seq(1)) + param_bytes(l0, s0, true) + param_bytes(l1, s1, true)
    } else {
        seq![5u8, rev as u8] + param_bytes(lens, src, false)
    }
}

/// The selector table: 0 for selector 0, then `max_sel` for all others.
pub open spec fn s_tab_seq(max_sel: u8) -> Seq<u8> {
    Seq::new(256, |i: int| if i == 0 { 0u8 } else { max_sel })
}

/// `encode_single_param` wrote exactly `param_bytes`.
proof fn lemma_param_bytes(lens: Seq<usize>, src: Seq<u8>, sel: bool, flags: u8, qm: Seq<u8>, before: Seq<u8>, after: Seq<u8>)
    requires
        qm == qmap_spec(src),
        ({
            let eff = effective_max(src, qm.len());
            let p_shift: nat = if lens.len() > 0 && lens[0] > 128 { 1 } else { 0 };
            &&& flags as int == 32 + (if use_dedup_spec(lens, src) { 2int } else { 0int }) + (if fixed_length(lens) { 4int } else { 0int })
                + (if sel { 8int } else { 0int }) + (if has_qmap(src) { 16int } else { 0int })
                + (if src.len() > 256 { 64int } else { 0int }) + (if !q_tab_identity(eff) { 128int } else { 0int })
            &&& after == before + seq![0u8, 0u8, flags, eff as u8, 0x95u8, 0x7fu8, 0x0fu8] + qm
                + (if !q_tab_identity(eff) { table_rle(q_tab_seq(eff)) } else { Seq::empty() })
                + table_rle(p_tab_seq(p_shift))
                + (if src.len() > 256 { table_rle(d_tab_seq()) } else { Seq::empty() })
        }),
    ensures
        after == before + param_bytes(lens, src, sel),
{
    assert(after =~= before + param_bytes(lens, src, sel));
}

/// Writes the fqzcomp stream header: version 5, the global flags (multiple
/// parameters 1, selector table 2, reversal 4), with two parameter groups
/// their count, the largest selector and the selector table, then each
/// parameter set. Grouping is used as `assign_record_groups` decides.
#[verifier::rlimit(80)]
pub fn fqz_encode_params(dst: &mut Vec<u8>, lens: &[usize], src: &[u8], has_reverse: bool) -> (r: Result<(), Error>)
    requires
        record_start(lens@, lens@.len() as int) <= src@.len(),
    ensures
        r is Ok,
        final(dst)@ == old(dst)@ + params_bytes(lens@, src@, has_reverse),
{
    let ghost d0 = dst@;
    dst.push(5);
    let rev: u8 = if has_reverse { 4 } else { 0 };
    let split = assign_record_groups(lens, 10);
    proof {
        if lens@.len() >= 20 {
            let m = choose|m: usize| is_median(lens@, m) && (split is Some <==> (count_at_most(lens@, m) >= 10 && count_above(lens@, m) >= 10)) && (split is Some ==> forall|i: int| 0 <= i < lens@.len() ==> split->Some_0.0@[i] == if lens@[i] > m { 1u8 } else { 0u8 });
            lemma_median_unique_all(lens@, m);
            assert(is_median(lens@, median_spec(lens@)));
        }
    }
    match split {
        Some((groups, _)) => {
            proof {
                assert(groups@ =~= group_assign(lens@));
            }
            dst.push(rev + 3);
            dst.push(2);
            dst.push(1);
            let ghost h = dst@;
            let mut s_tab: Vec<u8> = Vec::new();
            let mut i: usize = 0;
            while i < 256
                invariant
                    i <= 256,
                    s_tab@ == s_tab_seq(1).take(i as int),
                decreases 256 - i,
            {
                s_tab.push(if i == 0 { 0 } else { 1 });
                i += 1;
                assert(s_tab@ =~= s_tab_seq(1).take(i as int));
            }
            assert(s_tab@ =~= s_tab_seq(1));
            write_array(dst, &s_tab).unwrap();
            let (l0, s0, l1, s1) = split_groups(lens, src, &groups);
            proof {
                lemma_group_fits(lens@, src@, groups@, 0, lens@.len() as int);
                lemma_group_fits(lens@, src@, groups@, 1, lens@.len() as int);
            }
            let ghost h2 = dst@;
            let (f0, q0) = encode_single_param(dst, l0.as_slice(), s0.as_slice(), true);
            proof {
                lemma_param_bytes(l0@, s0@, true, f0, q0@, h2, dst@);
            }
            let ghost h3 = dst@;
            let (f1, q1) = encode_single_param(dst, l1.as_slice(), s1.as_slice(), true);
            proof {
                lemma_param_bytes(l1@, s1@, true, f1, q1@, h3, dst@);
                assert(dst@ =~= d0 + params_bytes(lens@, src@, has_reverse));
            }
        },
        None => {
            dst.push(rev);
            let ghost h = dst@;
            let (f, q) = encode_single_param(dst, lens, src, false);
            proof {
                lemma_param_bytes(lens@, src@, false, f, q@, h, dst@);
                assert(dst@ =~= d0 + params_bytes(lens@, src@, has_reverse));
            }
        },
    }
    Ok(())
}

} // verus!

verus! {

/// The offset at which record `i` starts.
pub open spec fn starts(records: Seq<(usize, bool)>, i: int) -> int
    decreases i,
{
    if i <= 0 {
        0
    } else {
        starts(records, i - 1) + records[i - 1].0
    }
}

/// Record `i`'s quality values, reversed when it is on the reverse strand.
pub open spec fn oriented(records: Seq<(usize, bool)>, src: Seq<u8>, i: int) -> Seq<u8> {
    let piece = src.subrange(starts(records, i), starts(records, i + 1));
    if records[i].1 {
        piece.reverse()
    } else {
        piece
    }
}

/// The first `n` records' quality values, each oriented.
pub open spec fn oriented_upto(records: Seq<(usize, bool)>, src: Seq<u8>, n: int) -> Seq<u8>
    decreases n,
{
    if n <= 0 {
        Seq::empty()
    } else {
        oriented_upto(records, src, n - 1) + oriented(records, src, n - 1)
    }
}

proof fn lemma_starts_mono(records: Seq<(usize, bool)>, i: int, j: int)
    requires
        0 <= i <= j,
    ensures
        starts(records, i) <= starts(records, j),
    decreases j - i,
{
    if i < j {
        lemma_starts_mono(records, i, j - 1);
    }
}

/// The pre-encode transform: each reverse-strand record's quality values
/// reversed in place; what follows the records is kept.
pub fn reverse_qualities(records: &[(usize, bool)], src: &[u8]) -> (r: Vec<u8>)
    requires
        starts(records@, records@.len() as int) <= src@.len(),
    ensures
        r@ == oriented_upto(records@, src@, records@.len() as int) + src@.skip(starts(records@, records@.len() as int)),
{
    let mut out: Vec<u8> = Vec::new();
    let mut offset: usize = 0;
    let mut i: usize = 0;
    let total = src.len();
    while i < records.len()
        invariant
            i <= records@.len(),
            total == src@.len(),
            starts(records@, records@.len() as int) <= src@.len(),
            offset as int == starts(records@, i as int),
            out@ == oriented_upto(records@, src@, i as int),
        decreases records@.len() - i,
    {
        proof {
            lemma_starts_mono(records@, (i + 1) as int, records@.len() as int);
            lemma_starts_mono(records@, 0, i as int);
        }
        let (len, rev) = records[i];
        let end = offset + len;
        let ghost before = out@;
        let ghost piece = src@.subrange(offset as int, end as int);
        let mut k: usize = 0;
        while k < len
            invariant
                k <= len,
                end == offset + len,
                end <= src@.len(),
                piece == src@.subrange(offset as int, end as int),
                out@ == before + (if rev { piece.reverse() } else { piece }).take(k as int),
            decreases len - k,
        {
            let b = if rev { src[end - 1 - k] } else { src[offset + k] };
            out.push(b);
            k += 1;
            assert(out@ =~= before + (if rev { piece.reverse() } else { piece }).take(k as int));
        }
        assert((if rev { piece.reverse() } else { piece }).take(len as int) =~= (if rev { piece.reverse() } else { piece }));
        offset = end;
        i += 1;
    }
    let ghost mid = out@;
    let mut k: usize = offset;
    while k < src.len()
        invariant
            offset <= k <= src@.len(),
            out@ == mid + src@.subrange(offset as int, k as int),
        decreases src@.len() - k,
    {
        out.push(src[k]);
        k += 1;
        assert(out@ =~= mid + src@.subrange(offset as int, k as int));
    }
    assert(src@.subrange(offset as int, src@.len() as int) =~= src@.skip(offset as int));
    out
}

/// The state of the quality context after each symbol: the rolling quality
/// history, the count of changes of symbol, the previous symbol.
pub struct ContextState {
    pub qlast: u32,
    pub delta: u32,
    pub prev_q: u8,
}

/// The context of the next symbol: the quality history's low 9 bits at bit
/// 7, plus the positions table's entry for the remaining length at bit 0,
/// plus (with a deltas table) its entry for the changes so far at bit 15,
/// plus (with a selector) the selector at bit 15, kept to 16 bits.
pub open spec fn context_of(qlast: u32, p: nat, delta: u32, p_tab: Seq<u8>, d_tab: Option<Seq<u8>>, selector: Option<u8>) -> u16 {
    let a = (qlast % 512) * 128;
    let b = p_tab[if p < 1023 { p as int } else { 1023 }] as nat;
    let c = match d_tab {
        Some(d) => d[if delta < 255 { delta as int } else { 255 }] as nat * 0x8000,
        None => 0,
    };
    let s = match selector {
        Some(x) => x as nat * 0x8000,
        None => 0,
    };
    ((a + b + c + s) % 0x1_0000) as u16
}

/// The contexts under which the symbols `q` (a prefix of a record of
/// `rec_len` symbols) are coded, starting from context 0: after symbol `m`
/// the history takes it in through the quality table shifted by 5 bits, the
/// positions table reads the `rec_len - m` symbols left before it, and the
/// deltas table the changes of symbol before it.
pub open spec fn record_contexts(q: Seq<u8>, rec_len: nat, q_tab: Seq<u8>, p_tab: Seq<u8>, d_tab: Option<Seq<u8>>, selector: Option<u8>) -> Seq<u16>
    decreases q.len(),
{
    if q.len() == 0 {
        Seq::empty()
    } else if q.len() == 1 {
        seq![0u16]
    } else {
        let prev = record_contexts(q.drop_last(), rec_len, q_tab, p_tab, d_tab, selector);
        let done = q.drop_last();
        let m = (done.len() - 1) as nat;
        prev.push(context_of(
            record_state(done, q_tab, d_tab).qlast,
            (rec_len - m) as nat,
            record_state(done.drop_last(), q_tab, d_tab).delta,
            p_tab,
            d_tab,
            selector,
        ))
    }
}

/// The state after the symbols `q`.
pub open spec fn record_state(q: Seq<u8>, q_tab: Seq<u8>, d_tab: Option<Seq<u8>>) -> ContextState
    decreases q.len(),
{
    if q.len() == 0 {
        ContextState { qlast: 0, delta: 0, prev_q: 0 }
    } else {
        let st = record_state(q.drop_last(), q_tab, d_tab);
        let qq = q.last();
        ContextState {
            qlast: ((st.qlast as nat * 32 + q_tab[qq as int] as nat) % 0x1_0000_0000) as u32,
            delta: if d_tab is Some && st.prev_q != qq { ((st.delta + 1) % 0x1_0000_0000) as u32 } else { st.delta },
            prev_q: if d_tab is Some { qq } else { st.prev_q },
        }
    }
}

} // verus!

verus! {

/// The contexts of one record's symbols, as `record_contexts` states.
#[verifier::rlimit(80)]
pub fn record_contexts_exec(q: &[u8], rec_len: usize, q_tab: &Vec<u8>, p_tab: &Vec<u8>, d_tab: Option<&Vec<u8>>, selector: Option<u8>) -> (r: Vec<u16>)
    requires
        q_tab@.len() == 256,
        p_tab@.len() == 1024,
        d_tab is Some ==> d_tab->Some_0@.len() == 256,
        q@.len() <= rec_len,
    ensures
        r@ == record_contexts(q@, rec_len as nat, q_tab@, p_tab@, match d_tab { Some(d) => Some(d@), None => None }, selector),
{
    let ghost dt = match d_tab { Some(d) => Some(d@), None => None };
    let mut out: Vec<u16> = Vec::new();
    let mut qlast: u32 = 0;
    let mut delta: u32 = 0;
    let mut prev_q: u8 = 0;
    let mut last: u16 = 0;
    let mut i: usize = 0;
    while i < q.len()
        invariant
            i <= q@.len() <= rec_len,
            q_tab@.len() == 256,
            p_tab@.len() == 1024,
            d_tab is Some ==> d_tab->Some_0@.len() == 256,
            dt == match d_tab { Some(d) => Some(d@), None => None },
            out@ == record_contexts(q@.take(i as int), rec_len as nat, q_tab@, p_tab@, dt, selector),
            qlast == record_state(q@.take(i as int), q_tab@, dt).qlast,
            delta == record_state(q@.take(i as int), q_tab@, dt).delta,
            prev_q == record_state(q@.take(i as int), q_tab@, dt).prev_q,
            i == 0 ==> last == 0,
            i > 0 ==> last == context_of(qlast, (rec_len - (i - 1)) as nat, record_state(q@.take(i - 1), q_tab@, dt).delta, p_tab@, dt, selector),
        decreases q@.len() - i,
    {
        proof {
            assert(q@.take(i + 1).drop_last() =~= q@.take(i as int));
            if i > 0 {
                assert(q@.take(i as int).drop_last() =~= q@.take(i - 1));
            }
        }
        out.push(last);
        let qq = q[i];
        let p = rec_len - i;
        let ghost delta_before = delta;
        qlast = ((qlast as u64 * 32 + q_tab[qq as usize] as u64) % 0x1_0000_0000) as u32;
        let a: u64 = (qlast as u64 % 512) * 128;
        let b: u64 = p_tab[if p < 1023 { p } else { 1023 }] as u64;
        let c: u64 = match d_tab {
            Some(d) => {
                let v = d[if delta < 255 { delta as usize } else { 255 }] as u64 * 0x8000;
                if prev_q != qq {
                    delta = if delta == u32::MAX { 0 } else { delta + 1 };
                }
                prev_q = qq;
                v
            },
            None => 0,
        };
        let sv: u64 = match selector {
            Some(x) => x as u64 * 0x8000,
            None => 0,
        };
        last = ((a + b + c + sv) % 0x1_0000) as u16;
        i += 1;
        proof {
            assert(last == context_of(qlast, (rec_len - (i - 1)) as nat, delta_before, p_tab@, dt, selector));
        }
    }
    assert(q@.take(q@.len() as int) =~= q@);
    out
}

} // verus!

verus! {

pub open spec fn lens_of(records: Seq<(usize, bool)>) -> Seq<usize> {
    Seq::new(records.len(), |i: int| records[i].0)
}

pub open spec fn any_reverse(records: Seq<(usize, bool)>) -> bool {
    exists|i: int| 0 <= i < records.len() && records[i].1
}

/// The quality values that the coder takes: reversed per record when any record is on the reverse strand.
pub open spec fn working_qualities(records: Seq<(usize, bool)>, src: Seq<u8>) -> Seq<u8> {
    if any_reverse(records) {
        oriented_upto(records, src, records.len() as int) + src.skip(starts(records, records.len() as int))
    } else {
        src
    }
}

proof fn lemma_starts_lens(records: Seq<(usize, bool)>, n: int)
    requires
        0 <= n <= records.len(),
    ensures
        starts(records, n) == record_start(lens_of(records), n),
    decreases n,
{
    if n > 0 {
        lemma_starts_lens(records, n - 1);
    }
}

proof fn lemma_working_len(records: Seq<(usize, bool)>, src: Seq<u8>, n: int)
    requires
        0 <= n <= records.len(),
        starts(records, records.len() as int) <= src.len(),
    ensures
        oriented_upto(records, src, n).len() == starts(records, n),
    decreases n,
{
    if n > 0 {
        lemma_working_len(records, src, n - 1);
        lemma_starts_mono(records, n, records.len() as int);
        lemma_starts_mono(records, 0, n - 1);
    }
}

/// The start of an fqzcomp stream: the count of quality values as a uint7,
/// then the stream header built over the working quality values (each
/// reverse-strand record reversed when there is one). Yields the working
/// values, which the range-coded part codes. More than `u32::MAX` values
/// are invalid input.
pub fn encode_header(dst: &mut Vec<u8>, records: &[(usize, bool)], src: &[u8]) -> (r: Result<Vec<u8>, Error>)
    requires
        starts(records@, records@.len() as int) <= src@.len(),
    ensures
        src@.len() > u32::MAX ==> r == Err::<Vec<u8>, Error>(Error::InvalidInput) && final(dst)@ == old(dst)@,
        src@.len() <= u32::MAX ==> r is Ok && r->Ok_0@ == working_qualities(records@, src@)
            && final(dst)@ == old(dst)@ + crate::num::uint7_bytes(src@.len())
            + params_bytes(lens_of(records@), working_qualities(records@, src@), any_reverse(records@)),
{
    if src.len() > u32::MAX as usize {
        return Err(Error::InvalidInput);
    }
    crate::num::vlq::write_uint7(dst, src.len() as u32).unwrap();
    let mut lens: Vec<usize> = Vec::new();
    let mut has_reverse = false;
    let mut i: usize = 0;
    while i < records.len()
        invariant
            i <= records@.len(),
            lens@ == lens_of(records@).take(i as int),
            has_reverse == exists|k: int| 0 <= k < i && records@[k].1,
        decreases records@.len() - i,
    {
        lens.push(records[i].0);
        if records[i].1 {
            has_reverse = true;
        }
        i += 1;
        assert(lens@ =~= lens_of(records@).take(i as int));
    }
    assert(lens@ =~= lens_of(records@));
    let working = if has_reverse {
        reverse_qualities(records, src)
    } else {
        vstd::slice::slice_to_vec(src)
    };
    proof {
        lemma_starts_lens(records@, records@.len() as int);
        lemma_working_len(records@, src@, records@.len() as int);
    }
    let ghost mid = dst@;
    fqz_encode_params(dst, lens.as_slice(), working.as_slice(), has_reverse).unwrap();
    Ok(working)
}

} // verus!
