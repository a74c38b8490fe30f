use cram_codec::md_nm::{cigar_to_features, CigarKind};
use cram_codec::md_nm::{compute_md_nm, Feature};

fn md(features: &[Feature], reference: &[u8], start: usize, read_length: usize) -> (String, u128) {
    let r = compute_md_nm(features, reference, start, read_length).unwrap();
    (String::from_utf8(r.md).unwrap(), r.nm)
}

#[test]
fn test_compute_md_nm_all_match() {
    assert_eq!(md(&[], b"ACGTACGT", 1, 4), ("4".to_string(), 0));
}

#[test]
fn test_compute_md_nm_with_deletion() {
    assert_eq!(md(&[Feature::Deletion { position: 3, len: 2 }], b"ACGTACGT", 1, 4), ("2^GT2".to_string(), 2));
}

#[test]
fn test_compute_md_nm_with_insertion() {
    assert_eq!(md(&[Feature::Insertion { position: 3, bases: b"TT".to_vec() }], b"ACGTACGT", 1, 6), ("4".to_string(), 2));
}

#[test]
fn test_compute_md_nm_with_read_base_mismatch() {
    let f = [Feature::ReadBase { position: 2, base: b'T', quality_score: 30 }];
    assert_eq!(md(&f, b"ACGT", 1, 4), ("1C2".to_string(), 1));
}

#[test]
fn test_compute_md_nm_with_substitution() {
    let f = [Feature::Substitution { position: 2, code: 2 }];
    assert_eq!(md(&f, b"ACGT", 1, 4), ("1C2".to_string(), 1));
}

#[test]
fn test_compute_md_nm_combined_features() {
    let f = [Feature::Insertion { position: 3, bases: b"X".to_vec() }, Feature::Deletion { position: 5, len: 2 }];
    assert_eq!(md(&f, b"ACGTACGT", 1, 6), ("3^TA2".to_string(), 3));
}

#[test]
fn bases_and_companions() {
    let f = [
        Feature::Bases { position: 2, bases: b"cGa".to_vec() },
        Feature::Scores { position: 2, quality_scores: vec![1, 2, 3] },
        Feature::ReferenceSkip { position: 5, len: 3 },
    ];
    // one match, then c G a against C G T (case ignored), then 2 matches after the skip
    assert_eq!(md(&f, b"ACGTACGTAC", 1, 6), ("3T2".to_string(), 1));
}

#[test]
fn out_of_order_feature() {
    let f = [Feature::Bases { position: 3, bases: b"AA".to_vec() }, Feature::ReadBase { position: 3, base: b'A', quality_score: 1 }];
    assert!(compute_md_nm(&f, b"ACGT", 1, 4).is_none());
}



#[test]
fn cigar_features_with_companions() {
    let ops = [(CigarKind::SoftClip, 1), (CigarKind::Match, 1), (CigarKind::Insertion, 2), (CigarKind::Deletion, 3), (CigarKind::Match, 2)];
    let f = cigar_to_features(&ops, false, b"NACGTA", &[1, 2, 3, 4, 5, 6]).unwrap();
    assert_eq!(
        f,
        vec![
            Feature::SoftClip { position: 1, bases: b"N".to_vec() },
            Feature::QualityScore { position: 1, quality_score: 1 },
            Feature::ReadBase { position: 2, base: b'A', quality_score: 2 },
            Feature::Insertion { position: 3, bases: b"CG".to_vec() },
            Feature::Scores { position: 3, quality_scores: vec![3, 4] },
            Feature::Deletion { position: 5, len: 3 },
            Feature::Bases { position: 5, bases: b"TA".to_vec() },
            Feature::Scores { position: 5, quality_scores: vec![5, 6] },
        ]
    );
    let g = cigar_to_features(&ops, true, b"NACGTA", &[1, 2, 3, 4, 5, 6]).unwrap();
    assert_eq!(g.len(), 5);
    assert!(cigar_to_features(&[(CigarKind::Match, 7)], true, b"ACGT", &[]).is_err());
}

#[test]
fn cigar_then_md() {
    let ops = [(CigarKind::Match, 2), (CigarKind::Deletion, 2), (CigarKind::Match, 2)];
    let f = cigar_to_features(&ops, true, b"ACAC", &[]).unwrap();
    assert_eq!(md(&f, b"ACGTAC", 1, 4), ("2^GT2".to_string(), 2));
}

#[test]
fn test_compute_md_nm_with_soft_clip() {
    let f = [Feature::SoftClip { position: 1, bases: b"NN".to_vec() }];
    assert_eq!(md(&f, b"ACGTACGT", 1, 5), ("3".to_string(), 0));
}

#[test]
fn test_compute_md_nm_companion_features() {
    let f = [Feature::Bases { position: 1, bases: b"AC".to_vec() }, Feature::Scores { position: 1, quality_scores: vec![40, 35] }];
    assert_eq!(md(&f, b"ACGT", 1, 4), ("4".to_string(), 0));
}

#[test]
fn test_compute_md_nm_with_reference_skip() {
    let f = [Feature::ReferenceSkip { position: 3, len: 3 }];
    assert_eq!(md(&f, b"ACGTACGT", 1, 4), ("4".to_string(), 0));
}

#[test]
fn test_compute_md_nm_with_insert_base() {
    let f = [Feature::InsertBase { position: 3, base: b'X' }];
    assert_eq!(md(&f, b"ACGTACGT", 1, 5), ("4".to_string(), 1));
}

#[test]
fn many_features() {
    // more than 65,536 features: one base stretch per read position
    let n = 70_000usize;
    let reference = vec![b'A'; n];
    let f: Vec<Feature> = (1..=n).map(|p| Feature::ReadBase { position: p, base: b'A', quality_score: 30 }).collect();
    assert_eq!(md(&f, &reference, 1, n), (n.to_string(), 0));
}

fn ops(list: &[(CigarKind, usize)]) -> Vec<(CigarKind, usize)> {
    list.to_vec()
}

#[test]
fn test_cigar_to_features() {
    let t = |o: &[(CigarKind, usize)], s: &[u8], q: &[u8]| cigar_to_features(&ops(o), false, s, q).unwrap();
    assert_eq!(t(&[(CigarKind::Match, 1)], b"A", &[45]), vec![Feature::ReadBase { position: 1, base: b'A', quality_score: 45 }]);
    assert_eq!(
        t(&[(CigarKind::Match, 2)], b"AC", &[45, 35]),
        vec![Feature::Bases { position: 1, bases: b"AC".to_vec() }, Feature::Scores { position: 1, quality_scores: vec![45, 35] }]
    );
    assert_eq!(
        t(&[(CigarKind::Insertion, 1), (CigarKind::Match, 1)], b"AC", &[45, 35]),
        vec![
            Feature::InsertBase { position: 1, base: b'A' },
            Feature::QualityScore { position: 1, quality_score: 45 },
            Feature::ReadBase { position: 2, base: b'C', quality_score: 35 },
        ]
    );
    assert_eq!(
        t(&[(CigarKind::Insertion, 2), (CigarKind::Match, 1)], b"ACG", &[45, 35, 43]),
        vec![
            Feature::Insertion { position: 1, bases: b"AC".to_vec() },
            Feature::Scores { position: 1, quality_scores: vec![45, 35] },
            Feature::ReadBase { position: 3, base: b'G', quality_score: 43 },
        ]
    );
    assert_eq!(
        t(&[(CigarKind::Deletion, 1), (CigarKind::Match, 2)], b"AC", &[45, 35]),
        vec![
            Feature::Deletion { position: 1, len: 1 },
            Feature::Bases { position: 1, bases: b"AC".to_vec() },
            Feature::Scores { position: 1, quality_scores: vec![45, 35] },
        ]
    );
    assert_eq!(
        t(&[(CigarKind::Skip, 1), (CigarKind::Match, 1)], b"A", &[45]),
        vec![Feature::ReferenceSkip { position: 1, len: 1 }, Feature::ReadBase { position: 1, base: b'A', quality_score: 45 }]
    );
    assert_eq!(
        t(&[(CigarKind::SoftClip, 1), (CigarKind::Match, 1)], b"AC", &[45, 35]),
        vec![
            Feature::SoftClip { position: 1, bases: b"A".to_vec() },
            Feature::QualityScore { position: 1, quality_score: 45 },
            Feature::ReadBase { position: 2, base: b'C', quality_score: 35 },
        ]
    );
    assert_eq!(
        t(&[(CigarKind::SoftClip, 2), (CigarKind::Match, 1)], b"ACG", &[45, 35, 43]),
        vec![
            Feature::SoftClip { position: 1, bases: b"AC".to_vec() },
            Feature::Scores { position: 1, quality_scores: vec![45, 35] },
            Feature::ReadBase { position: 3, base: b'G', quality_score: 43 },
        ]
    );
    assert_eq!(
        t(&[(CigarKind::HardClip, 1), (CigarKind::Match, 1)], b"A", &[45]),
        vec![Feature::HardClip { position: 1, len: 1 }, Feature::ReadBase { position: 1, base: b'A', quality_score: 45 }]
    );
    assert_eq!(
        t(&[(CigarKind::Pad, 1), (CigarKind::Match, 1)], b"A", &[45]),
        vec![Feature::Padding { position: 1, len: 1 }, Feature::ReadBase { position: 1, base: b'A', quality_score: 45 }]
    );
}

#[test]
fn test_cigar_to_features_with_quality_scores_stored_as_array() {
    let t = |o: &[(CigarKind, usize)], s: &[u8], q: &[u8]| cigar_to_features(&ops(o), true, s, q).unwrap();
    assert_eq!(t(&[(CigarKind::Match, 1)], b"A", &[45]), vec![Feature::ReadBase { position: 1, base: b'A', quality_score: 45 }]);
    assert_eq!(t(&[(CigarKind::Match, 2)], b"AC", &[45, 35]), vec![Feature::Bases { position: 1, bases: b"AC".to_vec() }]);
    assert_eq!(
        t(&[(CigarKind::Insertion, 1), (CigarKind::Match, 1)], b"AC", &[45, 35]),
        vec![Feature::InsertBase { position: 1, base: b'A' }, Feature::ReadBase { position: 2, base: b'C', quality_score: 35 }]
    );
    assert_eq!(
        t(&[(CigarKind::Insertion, 2), (CigarKind::Match, 1)], b"ACG", &[45, 35, 43]),
        vec![Feature::Insertion { position: 1, bases: b"AC".to_vec() }, Feature::ReadBase { position: 3, base: b'G', quality_score: 43 }]
    );
    assert_eq!(
        t(&[(CigarKind::SoftClip, 1), (CigarKind::Match, 1)], b"AC", &[45, 35]),
        vec![Feature::SoftClip { position: 1, bases: b"A".to_vec() }, Feature::ReadBase { position: 2, base: b'C', quality_score: 35 }]
    );
}
