use vstd::prelude::*;

use crate::error::Error;
use crate::num::{unsigned_encoding, write_int};
use crate::version::Version;

verus! {

/// The keys of the preservation map.
#[derive(Clone, Copy, Debug, PartialEq, Eq, Structural)]
pub enum Key {
    RecordsHaveNames,
    AlignmentStartsAreDeltas,
    ExternalReferenceSequenceIsRequired,
    SubstitutionMatrix,
    TagSets,
    /// CRAM 4.0: the orientation quality scores are stored in.
    QualityScoreOrientation,
}

/// Two bytes that name no preservation map key.
#[derive(Clone, Debug, PartialEq, Eq)]
pub struct TryFromByteArrayError(pub [u8; 2]);

/// The two ASCII bytes of each key.
pub open spec fn key_bytes(key: Key) -> (u8, u8) {
    match key {
        Key::RecordsHaveNames => (0x52, 0x4e),
        Key::AlignmentStartsAreDeltas => (0x41, 0x50),
        Key::ExternalReferenceSequenceIsRequired => (0x52, 0x52),
        Key::SubstitutionMatrix => (0x53, 0x4d),
        Key::TagSets => (0x54, 0x44),
        Key::QualityScoreOrientation => (0x51, 0x4f),
    }
}

impl Key {
    /// The key that two bytes name.
    pub fn try_from(b: [u8; 2]) -> (r: Result<Key, TryFromByteArrayError>)
        ensures
            match r {
                Ok(key) => key_bytes(key) == (b[0], b[1]),
                Err(e) => e.0 == b && forall|k: Key| key_bytes(k) != (b[0], b[1]),
            },
    {
        let (x, y) = (b[0], b[1]);
        if x == 0x52 && y == 0x4e {
            Ok(Key::RecordsHaveNames)
        } else if x == 0x41 && y == 0x50 {
            Ok(Key::AlignmentStartsAreDeltas)
        } else if x == 0x52 && y == 0x52 {
            Ok(Key::ExternalReferenceSequenceIsRequired)
        } else if x == 0x53 && y == 0x4d {
            Ok(Key::SubstitutionMatrix)
        } else if x == 0x54 && y == 0x44 {
            Ok(Key::TagSets)
        } else if x == 0x51 && y == 0x4f {
            Ok(Key::QualityScoreOrientation)
        } else {
            Err(TryFromByteArrayError(b))
        }
    }

    /// The two bytes of the key.
    pub fn to_bytes(self) -> (r: [u8; 2])
        ensures
            (r[0], r[1]) == key_bytes(self),
    {
        match self {
            Key::RecordsHaveNames => [0x52, 0x4e],
            Key::AlignmentStartsAreDeltas => [0x41, 0x50],
            Key::ExternalReferenceSequenceIsRequired => [0x52, 0x52],
            Key::SubstitutionMatrix => [0x53, 0x4d],
            Key::TagSets => [0x54, 0x44],
            Key::QualityScoreOrientation => [0x51, 0x4f],
        }
    }
}

/// What is preserved of the records, and how.
#[derive(Clone, Debug, PartialEq, Eq)]
pub struct PreservationMap {
    pub records_have_names: bool,
    pub alignment_starts_are_deltas: bool,
    pub external_reference_sequence_is_required: bool,
    /// The substitution matrix, in its five-byte wire form.
    pub substitution_matrix: Vec<u8>,
    /// The tag-set dictionary, in its wire form.
    pub tag_sets: Vec<u8>,
    /// CRAM 4.0: quality scores are in alignment orientation (else sequencing).
    pub qs_seq_orient: bool,
}

impl PreservationMap {
    pub fn new(
        records_have_names: bool,
        alignment_starts_are_deltas: bool,
        external_reference_sequence_is_required: bool,
        substitution_matrix: Vec<u8>,
        tag_sets: Vec<u8>,
    ) -> (r: PreservationMap)
        ensures
            r.records_have_names == records_have_names,
            r.alignment_starts_are_deltas == alignment_starts_are_deltas,
            r.external_reference_sequence_is_required == external_reference_sequence_is_required,
            r.substitution_matrix@ == substitution_matrix@,
            r.tag_sets@ == tag_sets@,
            r.qs_seq_orient,
    {
        PreservationMap {
            records_have_names,
            alignment_starts_are_deltas,
            external_reference_sequence_is_required,
            substitution_matrix,
            tag_sets,
            qs_seq_orient: true,
        }
    }

    pub fn records_have_names(&self) -> (r: bool)
        ensures
            r == self.records_have_names,
    {
        self.records_have_names
    }

    pub fn alignment_starts_are_deltas(&self) -> (r: bool)
        ensures
            r == self.alignment_starts_are_deltas,
    {
        self.alignment_starts_are_deltas
    }

    pub fn external_reference_sequence_is_required(&self) -> (r: bool)
        ensures
            r == self.external_reference_sequence_is_required,
    {
        self.external_reference_sequence_is_required
    }

    pub fn substitution_matrix(&self) -> (r: &Vec<u8>)
        ensures
            r@ == self.substitution_matrix@,
    {
        &self.substitution_matrix
    }

    pub fn tag_sets(&self) -> (r: &Vec<u8>)
        ensures
            r@ == self.tag_sets@,
    {
        &self.tag_sets
    }

    pub fn qs_seq_orient(&self) -> (r: bool)
        ensures
            r == self.qs_seq_orient,
    {
        self.qs_seq_orient
    }
}

pub open spec fn bool_byte(b: bool) -> u8 {
    if b {
        1
    } else {
        0
    }
}

pub open spec fn key_seq(key: Key) -> Seq<u8> {
    seq![key_bytes(key).0, key_bytes(key).1]
}

/// The preservation map's entries: their count, then RN, AP, RR, SM, TD and,
/// from 4.0 on, QO, each key followed by its value.
pub open spec fn preservation_map_entries(pm: PreservationMap, version: Version) -> Seq<u8> {
    unsigned_encoding(if version.uses_vlq_spec() { 6 } else { 5 }, version)
        + key_seq(Key::RecordsHaveNames) + seq![bool_byte(pm.records_have_names)]
        + key_seq(Key::AlignmentStartsAreDeltas) + seq![bool_byte(pm.alignment_starts_are_deltas)]
        + key_seq(Key::ExternalReferenceSequenceIsRequired) + seq![bool_byte(pm.external_reference_sequence_is_required)]
        + key_seq(Key::SubstitutionMatrix) + pm.substitution_matrix@
        + key_seq(Key::TagSets) + pm.tag_sets@
        + if version.uses_vlq_spec() {
            key_seq(Key::QualityScoreOrientation) + seq![bool_byte(pm.qs_seq_orient)]
        } else {
            Seq::empty()
        }
}

fn write_key(dst: &mut Vec<u8>, key: Key)
    ensures
        final(dst)@ == old(dst)@ + key_seq(key),
{
    let b = key.to_bytes();
    dst.push(b[0]);
    dst.push(b[1]);
    assert(dst@ =~= old(dst)@ + key_seq(key));
}

fn write_bool(dst: &mut Vec<u8>, value: bool)
    ensures
        final(dst)@ == old(dst)@.push(bool_byte(value)),
{
    if value {
        dst.push(0x01);
    } else {
        dst.push(0x00);
    }
}

fn write_all(dst: &mut Vec<u8>, src: &Vec<u8>)
    ensures
        final(dst)@ == old(dst)@ + src@,
{
    let mut i: usize = 0;
    while i < src.len()
        invariant
            i <= src@.len(),
            dst@ == old(dst)@ + src@.take(i as int),
        decreases src@.len() - i,
    {
        dst.push(src[i]);
        i += 1;
        assert(dst@ =~= old(dst)@ + src@.take(i as int));
    }
    assert(src@.take(src@.len() as int) =~= src@);
}

/// The preservation map's entries in wire form.
pub fn encode(preservation_map: &PreservationMap, version: Version) -> (r: Vec<u8>)
    ensures
        r@ == preservation_map_entries(*preservation_map, version),
{
    let mut buf: Vec<u8> = Vec::new();
    let n: i32 = if version.uses_vlq() {
        6
    } else {
        5
    };
    write_int(&mut buf, version, n).unwrap();
    write_key(&mut buf, Key::RecordsHaveNames);
    write_bool(&mut buf, preservation_map.records_have_names);
    write_key(&mut buf, Key::AlignmentStartsAreDeltas);
    write_bool(&mut buf, preservation_map.alignment_starts_are_deltas);
    write_key(&mut buf, Key::ExternalReferenceSequenceIsRequired);
    write_bool(&mut buf, preservation_map.external_reference_sequence_is_required);
    write_key(&mut buf, Key::SubstitutionMatrix);
    write_all(&mut buf, &preservation_map.substitution_matrix);
    write_key(&mut buf, Key::TagSets);
    write_all(&mut buf, &preservation_map.tag_sets);
    if version.uses_vlq() {
        write_key(&mut buf, Key::QualityScoreOrientation);
        write_bool(&mut buf, preservation_map.qs_seq_orient);
    }
    assert(buf@ =~= preservation_map_entries(*preservation_map, version));
    buf
}

/// Writes the preservation map: its entries as a length-prefixed array.
pub fn write_preservation_map(dst: &mut Vec<u8>, preservation_map: &PreservationMap, version: Version) -> (r: Result<(), Error>)
    ensures
        preservation_map_entries(*preservation_map, version).len() <= i32::MAX ==> r is Ok
            && final(dst)@ == old(dst)@ + unsigned_encoding(
            preservation_map_entries(*preservation_map, version).len() as int,
            version,
        ) + preservation_map_entries(*preservation_map, version),
        preservation_map_entries(*preservation_map, version).len() > i32::MAX ==> r == Err::<(), Error>(Error::InvalidInput),
{
    let buf = encode(preservation_map, version);
    if buf.len() > i32::MAX as usize {
        return Err(Error::InvalidInput);
    }
    write_int(dst, version, buf.len() as i32).unwrap();
    let ghost mid = dst@;
    write_all(dst, &buf);
    assert(dst@ =~= old(dst)@ + unsigned_encoding(buf@.len() as int, version) + buf@);
    Ok(())
}

} // verus!
