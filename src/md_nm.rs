use vstd::prelude::*;

use crate::error::Error;

verus! {

/// One element of a record's reconstruction against the reference, at a
/// 1-based read position.
#[derive(Clone, Debug, PartialEq, Eq)]
pub enum Feature {
    Bases { position: usize, bases: Vec<u8> },
    Scores { position: usize, quality_scores: Vec<u8> },
    ReadBase { position: usize, base: u8, quality_score: u8 },
    Substitution { position: usize, code: u8 },
    Insertion { position: usize, bases: Vec<u8> },
    Deletion { position: usize, len: usize },
    InsertBase { position: usize, base: u8 },
    QualityScore { position: usize, quality_score: u8 },
    ReferenceSkip { position: usize, len: usize },
    SoftClip { position: usize, bases: Vec<u8> },
    Padding { position: usize, len: usize },
    HardClip { position: usize, len: usize },
}

/// The computed MD string (ASCII) and NM edit distance.
#[derive(Clone, Debug, PartialEq, Eq)]
pub struct MdNm {
    pub md: Vec<u8>,
    pub nm: u128,
}

pub open spec fn upper(b: u8) -> u8 {
    if 0x61 <= b <= 0x7a {
        (b - 0x20) as u8
    } else {
        b
    }
}

/// The decimal digits of `n`.
pub open spec fn decimal(n: nat) -> Seq<u8>
    decreases n,
{
    if n < 10 {
        seq![(n + 0x30) as u8]
    } else {
        decimal(n / 10).push((n % 10 + 0x30) as u8)
    }
}

/// The reference base at 0-based index `i`, `N` past the end.
pub open spec fn ref_base(reference: Seq<u8>, i: int) -> u8 {
    if 0 <= i < reference.len() {
        reference[i]
    } else {
        0x4e
    }
}

/// The walk's state: MD so far, NM, pending matches, 1-based read position,
/// offset on the reference.
pub struct Walk {
    pub md: Seq<u8>,
    pub nm: nat,
    pub matches: nat,
    pub read_pos: nat,
    pub ref_offset: nat,
}

/// Read bases `bases` against the reference from index `at`: a mismatch
/// flushes the pending match count and adds the upper-case reference base.
pub open spec fn compare_bases(w: Walk, reference: Seq<u8>, at: int, bases: Seq<u8>) -> Walk
    decreases bases.len(),
{
    if bases.len() == 0 {
        w
    } else {
        let prev = compare_bases(w, reference, at, bases.drop_last());
        let i = at + bases.len() - 1;
        if upper(bases.last()) != upper(ref_base(reference, i)) {
            Walk {
                md: prev.md + decimal(prev.matches).push(upper(ref_base(reference, i))),
                nm: prev.nm + 1,
                matches: 0,
                ..prev
            }
        } else {
            Walk { matches: prev.matches + 1, ..prev }
        }
    }
}

/// The upper-case reference bases of `len` positions from index `at`.
pub open spec fn deleted_bases(reference: Seq<u8>, at: int, len: nat) -> Seq<u8> {
    Seq::new(len, |i: int| upper(ref_base(reference, at + i)))
}

pub open spec fn feature_position(f: Feature) -> usize {
    match f {
        Feature::Bases { position, .. } => position,
        Feature::Scores { position, .. } => position,
        Feature::ReadBase { position, .. } => position,
        Feature::Substitution { position, .. } => position,
        Feature::Insertion { position, .. } => position,
        Feature::Deletion { position, .. } => position,
        Feature::InsertBase { position, .. } => position,
        Feature::QualityScore { position, .. } => position,
        Feature::ReferenceSkip { position, .. } => position,
        Feature::SoftClip { position, .. } => position,
        Feature::Padding { position, .. } => position,
        Feature::HardClip { position, .. } => position,
    }
}

/// One feature of the walk (`start` is the 1-based alignment start).
/// Companion features (scores, quality scores, hard clips, padding) change
/// nothing; any other feature before the read position is out of order.
pub open spec fn md_step(w: Walk, f: Feature, reference: Seq<u8>, start: nat) -> Option<Walk> {
    match f {
        Feature::Scores { .. } | Feature::QualityScore { .. } | Feature::HardClip { .. } | Feature::Padding { .. } => Some(w),
        _ => {
            let p = feature_position(f) as nat;
            if p < w.read_pos {
                None
            } else {
                let gap = (p - w.read_pos) as nat;
                let v = Walk { matches: w.matches + gap, ref_offset: w.ref_offset + gap, ..w };
                let at = start - 1 + v.ref_offset;
                match f {
                    Feature::Substitution { .. } => Some(Walk {
                        md: v.md + decimal(v.matches).push(upper(ref_base(reference, at))),
                        nm: v.nm + 1,
                        matches: 0,
                        read_pos: p + 1,
                        ref_offset: v.ref_offset + 1,
                    }),
                    Feature::ReadBase { base, .. } => {
                        let c = compare_bases(v, reference, at, seq![base]);
                        Some(Walk { read_pos: p + 1, ref_offset: v.ref_offset + 1, ..c })
                    },
                    Feature::Bases { bases, .. } => {
                        let c = compare_bases(v, reference, at, bases@);
                        Some(Walk { read_pos: p + bases@.len(), ref_offset: v.ref_offset + bases@.len(), ..c })
                    },
                    Feature::Insertion { bases, .. } => Some(Walk { nm: v.nm + bases@.len(), read_pos: p + bases@.len(), ..v }),
                    Feature::InsertBase { .. } => Some(Walk { nm: v.nm + 1, read_pos: p + 1, ..v }),
                    Feature::Deletion { len, .. } => Some(Walk {
                        md: v.md + decimal(v.matches).push(0x5e) + deleted_bases(reference, at, len as nat),
                        nm: v.nm + len as nat,
                        matches: 0,
                        read_pos: p,
                        ref_offset: v.ref_offset + len as nat,
                    }),
                    Feature::ReferenceSkip { len, .. } => Some(Walk { read_pos: p, ref_offset: v.ref_offset + len as nat, ..v }),
                    Feature::SoftClip { bases, .. } => Some(Walk { read_pos: p + bases@.len(), ..v }),
                    _ => Some(v),
                }
            }
        },
    }
}

/// The walk over the first `n` features.
pub open spec fn md_walk(features: Seq<Feature>, n: int, reference: Seq<u8>, start: nat) -> Option<Walk>
    decreases n,
{
    if n <= 0 {
        Some(Walk { md: Seq::empty(), nm: 0, matches: 0, read_pos: 1, ref_offset: 0 })
    } else {
        match md_walk(features, n - 1, reference, start) {
            Some(w) => md_step(w, features[n - 1], reference, start),
            None => None,
        }
    }
}

/// MD and NM of a record: the walk over its features, then the bases after
/// the last feature up to the read length count as matches, and the final
/// match count ends the MD string.
pub open spec fn md_nm_of(features: Seq<Feature>, reference: Seq<u8>, start: nat, read_length: nat) -> Option<(Seq<u8>, nat)> {
    match md_walk(features, features.len() as int, reference, start) {
        Some(w) => {
            let m: int = if w.read_pos <= read_length { w.matches + (read_length - w.read_pos + 1) } else { w.matches as int };
            Some((w.md + decimal(m as nat), w.nm))
        },
        None => None,
    }
}

} // verus!

verus! {

fn upper_exec(b: u8) -> (r: u8)
    ensures
        r == upper(b),
{
    if 0x61 <= b && b <= 0x7a {
        b - 0x20
    } else {
        b
    }
}

fn write_decimal(out: &mut Vec<u8>, n: u128)
    ensures
        final(out)@ == old(out)@ + decimal(n as nat),
    decreases n,
{
    if n >= 10 {
        write_decimal(out, n / 10);
    }
    out.push((n % 10 + 0x30) as u8);
    assert(out@ =~= old(out)@ + decimal(n as nat));
}

fn ref_base_exec(reference: &[u8], i: u128) -> (r: u8)
    ensures
        r == ref_base(reference@, i as int),
{
    if i < reference.len() as u128 {
        reference[i as usize]
    } else {
        0x4e
    }
}

/// The bound every counter of the walk keeps after `i` features.
pub open spec fn walk_bound(i: nat) -> nat {
    (i + 1) * 0x4_0000_0000
}

pub open spec fn walk_ok(w: Walk, i: nat) -> bool {
    w.nm <= walk_bound(i) && w.matches <= walk_bound(i) && w.read_pos <= walk_bound(i) && w.ref_offset <= walk_bound(i)
}

/// The feature's fields fit 32 bits.
pub open spec fn feature_small(f: Feature) -> bool {
    feature_position(f) <= u32::MAX && match f {
        Feature::Bases { bases, .. } => bases@.len() <= u32::MAX,
        Feature::Insertion { bases, .. } => bases@.len() <= u32::MAX,
        Feature::SoftClip { bases, .. } => bases@.len() <= u32::MAX,
        Feature::Deletion { len, .. } => len <= u32::MAX,
        Feature::ReferenceSkip { len, .. } => len <= u32::MAX,
        _ => true,
    }
}

proof fn lemma_compare_bound(w: Walk, reference: Seq<u8>, at: int, bases: Seq<u8>)
    ensures
        compare_bases(w, reference, at, bases).nm <= w.nm + bases.len(),
        compare_bases(w, reference, at, bases).matches <= w.matches + bases.len(),
        compare_bases(w, reference, at, bases).read_pos == w.read_pos,
        compare_bases(w, reference, at, bases).ref_offset == w.ref_offset,
    decreases bases.len(),
{
    if bases.len() > 0 {
        lemma_compare_bound(w, reference, at, bases.drop_last());
    }
}

/// Compares read bases with the reference from index `at`, updating MD, NM and the match count.
fn compare_exec(md: &mut Vec<u8>, nm: &mut u128, matches: &mut u128, reference: &[u8], at: u128, bases: &Vec<u8>, w: Ghost<Walk>)
    requires
        old(md)@ == w@.md,
        *old(nm) as nat == w@.nm,
        *old(matches) as nat == w@.matches,
        w@.nm + bases@.len() < 0x100_0000_0000_0000_0000_0000_0000_0000,
        w@.matches + bases@.len() < 0x100_0000_0000_0000_0000_0000_0000_0000,
        at + bases@.len() < 0x100_0000_0000_0000_0000_0000_0000_0000,
    ensures
        final(md)@ == compare_bases(w@, reference@, at as int, bases@).md,
        *final(nm) as nat == compare_bases(w@, reference@, at as int, bases@).nm,
        *final(matches) as nat == compare_bases(w@, reference@, at as int, bases@).matches,
{
    let mut i: usize = 0;
    while i < bases.len()
        invariant
            i <= bases@.len(),
            w@.nm + bases@.len() < 0x100_0000_0000_0000_0000_0000_0000_0000,
            w@.matches + bases@.len() < 0x100_0000_0000_0000_0000_0000_0000_0000,
            at + bases@.len() < 0x100_0000_0000_0000_0000_0000_0000_0000,
            md@ == compare_bases(w@, reference@, at as int, bases@.take(i as int)).md,
            *nm as nat == compare_bases(w@, reference@, at as int, bases@.take(i as int)).nm,
            *matches as nat == compare_bases(w@, reference@, at as int, bases@.take(i as int)).matches,
        decreases bases@.len() - i,
    {
        proof {
            lemma_compare_bound(w@, reference@, at as int, bases@.take(i as int));
            assert(bases@.take(i + 1).drop_last() =~= bases@.take(i as int));
        }
        let r = ref_base_exec(reference, at + i as u128);
        if upper_exec(bases[i]) != upper_exec(r) {
            write_decimal(md, *matches);
            md.push(upper_exec(r));
            *nm = *nm + 1;
            *matches = 0;
        } else {
            *matches = *matches + 1;
        }
        i += 1;
    }
    assert(bases@.take(bases@.len() as int) =~= bases@);
}

} // verus!

verus! {

/// One step of the walk over the state held in the arguments; `false` for a
/// feature out of order.
#[verifier::rlimit(80)]
fn step_exec(
    md: &mut Vec<u8>,
    nm: &mut u128,
    matches: &mut u128,
    read_pos: &mut u128,
    ref_offset: &mut u128,
    f: &Feature,
    reference: &[u8],
    start: usize,
    i: Ghost<nat>,
) -> (ok: bool)
    requires
        start >= 1,
        feature_small(*f),
        i@ < 0x1_0000_0000_0000_0000,
        walk_ok(Walk { md: old(md)@, nm: *old(nm) as nat, matches: *old(matches) as nat, read_pos: *old(read_pos) as nat, ref_offset: *old(ref_offset) as nat }, i@),
    ensures
        ({
            let w = Walk { md: old(md)@, nm: *old(nm) as nat, matches: *old(matches) as nat, read_pos: *old(read_pos) as nat, ref_offset: *old(ref_offset) as nat };
            let w2 = Walk { md: final(md)@, nm: *final(nm) as nat, matches: *final(matches) as nat, read_pos: *final(read_pos) as nat, ref_offset: *final(ref_offset) as nat };
            match md_step(w, *f, reference@, start as nat) {
                Some(x) => ok && x == w2 && walk_ok(w2, i@ + 1),
                None => !ok,
            }
        }),
{
    let ghost w = Walk { md: md@, nm: *nm as nat, matches: *matches as nat, read_pos: *read_pos as nat, ref_offset: *ref_offset as nat };
    let p: usize = match f {
        Feature::Scores { .. } | Feature::QualityScore { .. } | Feature::HardClip { .. } | Feature::Padding { .. } => {
            proof {
                assert(walk_bound(i@) <= walk_bound(i@ + 1)) by (nonlinear_arith);
            }
            return true;
        },
        Feature::Bases { position, .. } => *position,
        Feature::ReadBase { position, .. } => *position,
        Feature::Substitution { position, .. } => *position,
        Feature::Insertion { position, .. } => *position,
        Feature::Deletion { position, .. } => *position,
        Feature::InsertBase { position, .. } => *position,
        Feature::ReferenceSkip { position, .. } => *position,
        Feature::SoftClip { position, .. } => *position,
    };
    if (p as u128) < *read_pos {
        return false;
    }
    proof {
        assert(walk_bound(i@ + 1) == walk_bound(i@) + 0x4_0000_0000) by (nonlinear_arith);
        assert(walk_bound(i@) <= 0x1_0000_0000_0000_0000 * 0x4_0000_0000) by (nonlinear_arith)
            requires i@ < 0x1_0000_0000_0000_0000;
    }
    let gap = p as u128 - *read_pos;
    *matches = *matches + gap;
    *ref_offset = *ref_offset + gap;
    let ghost v = Walk { matches: w.matches + gap as nat, ref_offset: w.ref_offset + gap as nat, ..w };
    let at: u128 = start as u128 - 1 + *ref_offset;
    match f {
        Feature::Substitution { .. } => {
            let r = ref_base_exec(reference, at);
            write_decimal(md, *matches);
            md.push(upper_exec(r));
            *nm = *nm + 1;
            *matches = 0;
            *read_pos = p as u128 + 1;
            *ref_offset = *ref_offset + 1;
        },
        Feature::ReadBase { base, .. } => {
            let mut one: Vec<u8> = Vec::new();
            one.push(*base);
            assert(one@ =~= seq![*base]);
            proof {
                lemma_compare_bound(v, reference@, at as int, one@);
            }
            compare_exec(md, nm, matches, reference, at, &one, Ghost(v));
            *read_pos = p as u128 + 1;
            *ref_offset = *ref_offset + 1;
        },
        Feature::Bases { bases, .. } => {
            proof {
                lemma_compare_bound(v, reference@, at as int, bases@);
            }
            compare_exec(md, nm, matches, reference, at, bases, Ghost(v));
            *read_pos = p as u128 + bases.len() as u128;
            *ref_offset = *ref_offset + bases.len() as u128;
        },
        Feature::Insertion { bases, .. } => {
            *nm = *nm + bases.len() as u128;
            *read_pos = p as u128 + bases.len() as u128;
        },
        Feature::InsertBase { .. } => {
            *nm = *nm + 1;
            *read_pos = p as u128 + 1;
        },
        Feature::Deletion { len, .. } => {
            write_decimal(md, *matches);
            md.push(0x5e);
            let ghost before = md@;
            let mut k: usize = 0;
            while k < *len
                invariant
                    k <= *len,
                    at + *len < 0x100_0000_0000_0000_0000_0000_0000_0000,
                    md@ == before + deleted_bases(reference@, at as int, k as nat),
                decreases *len - k,
            {
                let r = ref_base_exec(reference, at + k as u128);
                md.push(upper_exec(r));
                k += 1;
                assert(md@ =~= before + deleted_bases(reference@, at as int, k as nat));
            }
            *nm = *nm + *len as u128;
            *matches = 0;
            *read_pos = p as u128;
            *ref_offset = *ref_offset + *len as u128;
        },
        Feature::ReferenceSkip { len, .. } => {
            *read_pos = p as u128;
            *ref_offset = *ref_offset + *len as u128;
        },
        Feature::SoftClip { bases, .. } => {
            *read_pos = p as u128 + bases.len() as u128;
        },
        _ => {},
    }
    true
}

/// Computes the MD string and NM edit distance of a record from its features
/// (sorted by position), the reference sequence, the 1-based alignment start
/// and the read length. `None` for a feature that comes before the read
/// position reached.
pub fn compute_md_nm(features: &[Feature], reference: &[u8], alignment_start: usize, read_length: usize) -> (r: Option<MdNm>)
    requires
        alignment_start >= 1,
        forall|k: int| 0 <= k < features@.len() ==> feature_small(#[trigger] features@[k]),
    ensures
        match md_nm_of(features@, reference@, alignment_start as nat, read_length as nat) {
            Some((md, nm)) => r is Some && r->Some_0.md@ == md && r->Some_0.nm as nat == nm,
            None => r is None,
        },
{
    let mut md: Vec<u8> = Vec::new();
    let mut nm: u128 = 0;
    let mut matches: u128 = 0;
    let mut read_pos: u128 = 1;
    let mut ref_offset: u128 = 0;
    let mut i: usize = 0;
    let total = features.len();
    proof {
        assert(walk_bound(0) == 0x4_0000_0000) by (nonlinear_arith);
    }
    while i < features.len()
        invariant
            i <= features@.len(),
            features@.len() == total,
            alignment_start >= 1,
            forall|k: int| 0 <= k < features@.len() ==> feature_small(#[trigger] features@[k]),
            md_walk(features@, i as int, reference@, alignment_start as nat) == Some(Walk { md: md@, nm: nm as nat, matches: matches as nat, read_pos: read_pos as nat, ref_offset: ref_offset as nat }),
            walk_ok(Walk { md: md@, nm: nm as nat, matches: matches as nat, read_pos: read_pos as nat, ref_offset: ref_offset as nat }, i as nat),
        decreases features@.len() - i,
    {
        if !step_exec(&mut md, &mut nm, &mut matches, &mut read_pos, &mut ref_offset, &features[i], reference, alignment_start, Ghost(i as nat)) {
            proof {
                lemma_walk_none(features@, (i + 1) as int, features@.len() as int, reference@, alignment_start as nat);
            }
            return None;
        }
        i += 1;
    }
    proof {
        let b = walk_bound(i as nat);
        assert(b <= 0x1_0000_0000_0000_0001 * 0x4_0000_0000) by (nonlinear_arith)
            requires i <= 0x1_0000_0000_0000_0000, b == (i + 1) * 0x4_0000_0000;
    }
    if read_pos <= read_length as u128 {
        matches = matches + (read_length as u128 - read_pos + 1);
    }
    write_decimal(&mut md, matches);
    Some(MdNm { md, nm })
}

proof fn lemma_walk_none(features: Seq<Feature>, i: int, n: int, reference: Seq<u8>, start: nat)
    requires
        0 < i <= n,
        md_walk(features, i, reference, start) is None,
    ensures
        md_walk(features, n, reference, start) is None,
    decreases n - i,
{
    if i < n {
        lemma_walk_none(features, i, n - 1, reference, start);
    }
}

} // verus!

verus! {

/// The mathematical content of a feature.
pub enum FeatureModel {
    Bases(nat, Seq<u8>),
    Scores(nat, Seq<u8>),
    ReadBase(nat, u8, u8),
    Substitution(nat, u8),
    Insertion(nat, Seq<u8>),
    Deletion(nat, nat),
    InsertBase(nat, u8),
    QualityScore(nat, u8),
    ReferenceSkip(nat, nat),
    SoftClip(nat, Seq<u8>),
    Padding(nat, nat),
    HardClip(nat, nat),
}

impl View for Feature {
    type V = FeatureModel;

    open spec fn view(&self) -> FeatureModel {
        match self {
            Feature::Bases { position, bases } => FeatureModel::Bases(*position as nat, bases@),
            Feature::Scores { position, quality_scores } => FeatureModel::Scores(*position as nat, quality_scores@),
            Feature::ReadBase { position, base, quality_score } => FeatureModel::ReadBase(*position as nat, *base, *quality_score),
            Feature::Substitution { position, code } => FeatureModel::Substitution(*position as nat, *code),
            Feature::Insertion { position, bases } => FeatureModel::Insertion(*position as nat, bases@),
            Feature::Deletion { position, len } => FeatureModel::Deletion(*position as nat, *len as nat),
            Feature::InsertBase { position, base } => FeatureModel::InsertBase(*position as nat, *base),
            Feature::QualityScore { position, quality_score } => FeatureModel::QualityScore(*position as nat, *quality_score),
            Feature::ReferenceSkip { position, len } => FeatureModel::ReferenceSkip(*position as nat, *len as nat),
            Feature::SoftClip { position, bases } => FeatureModel::SoftClip(*position as nat, bases@),
            Feature::Padding { position, len } => FeatureModel::Padding(*position as nat, *len as nat),
            Feature::HardClip { position, len } => FeatureModel::HardClip(*position as nat, *len as nat),
        }
    }
}

/// The kinds of CIGAR operations.
#[derive(Clone, Copy, Debug, PartialEq, Eq, Structural)]
pub enum CigarKind {
    Match,
    Insertion,
    Deletion,
    Skip,
    SoftClip,
    HardClip,
    Pad,
    SequenceMatch,
    SequenceMismatch,
}

pub open spec fn consumes_read(k: CigarKind) -> bool {
    k == CigarKind::Match || k == CigarKind::Insertion || k == CigarKind::SoftClip || k == CigarKind::SequenceMatch
        || k == CigarKind::SequenceMismatch
}

/// The features of one CIGAR operation at 1-based read position `p`: single
/// aligned or inserted bases become one-base features, longer runs base
/// stretches; quality companions follow unless qualities are stored as an
/// array; deletions, skips, clips and padding carry their length. `None` when
/// the read's bases or qualities run out.
pub open spec fn op_features(k: CigarKind, len: nat, p: nat, s: Seq<u8>, q: Seq<u8>, as_array: bool) -> Option<Seq<FeatureModel>> {
    let i = p - 1;
    let end = i + len;
    let needs = k == CigarKind::Match || k == CigarKind::SequenceMatch || k == CigarKind::SequenceMismatch || k
        == CigarKind::Insertion || k == CigarKind::SoftClip;
    let aligned = k == CigarKind::Match || k == CigarKind::SequenceMatch || k == CigarKind::SequenceMismatch;
    let needs_q = !as_array || (len == 1 && aligned);
    if needs && (end > s.len() || (needs_q && end > q.len())) {
        None
    } else if k == CigarKind::Match || k == CigarKind::SequenceMatch || k == CigarKind::SequenceMismatch {
        if len == 1 {
            Some(seq![FeatureModel::ReadBase(p, s[i], q[i])])
        } else if as_array {
            Some(seq![FeatureModel::Bases(p, s.subrange(i, end))])
        } else {
            Some(seq![FeatureModel::Bases(p, s.subrange(i, end)), FeatureModel::Scores(p, q.subrange(i, end))])
        }
    } else if k == CigarKind::Insertion {
        if len == 1 {
            if as_array {
                Some(seq![FeatureModel::InsertBase(p, s[i])])
            } else {
                Some(seq![FeatureModel::InsertBase(p, s[i]), FeatureModel::QualityScore(p, q[i])])
            }
        } else if as_array {
            Some(seq![FeatureModel::Insertion(p, s.subrange(i, end))])
        } else {
            Some(seq![FeatureModel::Insertion(p, s.subrange(i, end)), FeatureModel::Scores(p, q.subrange(i, end))])
        }
    } else if k == CigarKind::SoftClip {
        if as_array {
            Some(seq![FeatureModel::SoftClip(p, s.subrange(i, end))])
        } else if len == 1 {
            Some(seq![FeatureModel::SoftClip(p, s.subrange(i, end)), FeatureModel::QualityScore(p, q[i])])
        } else {
            Some(seq![FeatureModel::SoftClip(p, s.subrange(i, end)), FeatureModel::Scores(p, q.subrange(i, end))])
        }
    } else if k == CigarKind::Deletion {
        Some(seq![FeatureModel::Deletion(p, len)])
    } else if k == CigarKind::Skip {
        Some(seq![FeatureModel::ReferenceSkip(p, len)])
    } else if k == CigarKind::HardClip {
        Some(seq![FeatureModel::HardClip(p, len)])
    } else {
        Some(seq![FeatureModel::Padding(p, len)])
    }
}

/// The features of the first `n` operations, and the read position after them.
pub open spec fn features_upto(ops: Seq<(CigarKind, usize)>, n: int, s: Seq<u8>, q: Seq<u8>, as_array: bool) -> Option<(Seq<FeatureModel>, nat)>
    decreases n,
{
    if n <= 0 {
        Some((Seq::empty(), 1))
    } else {
        match features_upto(ops, n - 1, s, q, as_array) {
            Some((fs, p)) => match op_features(ops[n - 1].0, ops[n - 1].1 as nat, p, s, q, as_array) {
                Some(more) => Some((fs + more, if consumes_read(ops[n - 1].0) { p + ops[n - 1].1 as nat } else { p })),
                None => None,
            },
            None => None,
        }
    }
}

/// The features of a CIGAR over a read's bases and quality scores.
pub open spec fn features_of(ops: Seq<(CigarKind, usize)>, as_array: bool, s: Seq<u8>, q: Seq<u8>) -> Option<Seq<FeatureModel>> {
    match features_upto(ops, ops.len() as int, s, q, as_array) {
        Some((fs, _)) => Some(fs),
        None => None,
    }
}

pub open spec fn features_view(v: Seq<Feature>) -> Seq<FeatureModel> {
    Seq::new(v.len(), |i: int| v[i]@)
}

} // verus!

verus! {

fn sub_vec(s: &[u8], i: usize, end: usize) -> (r: Vec<u8>)
    requires
        i <= end <= s@.len(),
    ensures
        r@ == s@.subrange(i as int, end as int),
{
    vstd::slice::slice_to_vec(vstd::slice::slice_subrange(s, i, end))
}

#[verifier::rlimit(80)]
fn op_features_exec(k: CigarKind, len: usize, p: usize, s: &[u8], q: &[u8], as_array: bool) -> (r: Option<Vec<Feature>>)
    requires
        p >= 1,
        p <= s@.len() + 1,
        s@.len() < usize::MAX,
    ensures
        match op_features(k, len as nat, p as nat, s@, q@, as_array) {
            Some(fs) => r is Some && features_view(r->Some_0@) == fs,
            None => r is None,
        },
{
    let i = p - 1;
    let aligned = k == CigarKind::Match || k == CigarKind::SequenceMatch || k == CigarKind::SequenceMismatch;
    let needs = aligned || k == CigarKind::Insertion || k == CigarKind::SoftClip;
    let needs_q = !as_array || (len == 1 && aligned);
    let mut out: Vec<Feature> = Vec::new();
    if needs {
        if len > s.len() - i {
            return None;
        }
        if needs_q && len > q.len() || needs_q && i > q.len() - len {
            return None;
        }
        let end = i + len;
        if aligned {
            if len == 1 {
                out.push(Feature::ReadBase { position: p, base: s[i], quality_score: q[i] });
            } else {
                out.push(Feature::Bases { position: p, bases: sub_vec(s, i, end) });
                if !as_array {
                    out.push(Feature::Scores { position: p, quality_scores: sub_vec(q, i, end) });
                }
            }
        } else if k == CigarKind::Insertion {
            if len == 1 {
                out.push(Feature::InsertBase { position: p, base: s[i] });
                if !as_array {
                    out.push(Feature::QualityScore { position: p, quality_score: q[i] });
                }
            } else {
                out.push(Feature::Insertion { position: p, bases: sub_vec(s, i, end) });
                if !as_array {
                    out.push(Feature::Scores { position: p, quality_scores: sub_vec(q, i, end) });
                }
            }
        } else {
            out.push(Feature::SoftClip { position: p, bases: sub_vec(s, i, end) });
            if !as_array {
                if len == 1 {
                    out.push(Feature::QualityScore { position: p, quality_score: q[i] });
                } else {
                    out.push(Feature::Scores { position: p, quality_scores: sub_vec(q, i, end) });
                }
            }
        }
    } else if k == CigarKind::Deletion {
        out.push(Feature::Deletion { position: p, len });
    } else if k == CigarKind::Skip {
        out.push(Feature::ReferenceSkip { position: p, len });
    } else if k == CigarKind::HardClip {
        out.push(Feature::HardClip { position: p, len });
    } else {
        out.push(Feature::Padding { position: p, len });
    }
    assert(features_view(out@) =~= op_features(k, len as nat, p as nat, s@, q@, as_array)->Some_0);
    Some(out)
}

/// The features of a record from its CIGAR operations (kind and length),
/// bases and quality scores; with qualities stored as an array, quality
/// companions are left out. Bases or qualities that run out are invalid data.
pub fn cigar_to_features(ops: &[(CigarKind, usize)], as_array: bool, s: &[u8], q: &[u8]) -> (r: Result<Vec<Feature>, Error>)
    requires
        s@.len() < usize::MAX,
    ensures
        match features_of(ops@, as_array, s@, q@) {
            Some(fs) => r is Ok && features_view(r->Ok_0@) == fs,
            None => r == Err::<Vec<Feature>, Error>(Error::InvalidData),
        },
{
    let mut out: Vec<Feature> = Vec::new();
    let mut p: usize = 1;
    let mut n: usize = 0;
    while n < ops.len()
        invariant
            n <= ops@.len(),
            s@.len() < usize::MAX,
            1 <= p <= s@.len() + 1,
            features_upto(ops@, n as int, s@, q@, as_array) == Some((features_view(out@), p as nat)),
        decreases ops@.len() - n,
    {
        let (k, len) = ops[n];
        let more = match op_features_exec(k, len, p, s, q, as_array) {
            Some(m) => m,
            None => {
                proof {
                    lemma_features_none(ops@, (n + 1) as int, ops@.len() as int, s@, q@, as_array);
                }
                return Err(Error::InvalidData);
            },
        };
        let ghost before = features_view(out@);
        let mut more = more;
        let ghost mv = features_view(more@);
        out.append(&mut more);
        assert(features_view(out@) =~= before + mv);
        if k == CigarKind::Match || k == CigarKind::Insertion || k == CigarKind::SoftClip || k == CigarKind::SequenceMatch || k == CigarKind::SequenceMismatch {
            p = p + len;
        }
        n += 1;
    }
    Ok(out)
}

proof fn lemma_features_none(ops: Seq<(CigarKind, usize)>, i: int, n: int, s: Seq<u8>, q: Seq<u8>, as_array: bool)
    requires
        0 < i <= n,
        features_upto(ops, i, s, q, as_array) is None,
    ensures
        features_upto(ops, n, s, q, as_array) is None,
    decreases n - i,
{
    if i < n {
        lemma_features_none(ops, i, n - 1, s, q, as_array);
    }
}

} // verus!
