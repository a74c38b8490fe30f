use vstd::prelude::*;

use std::collections::HashSet;

use crate::encoding::{
    Byte, ByteArray, ByteArrayModel, ByteModel, Encoding, Integer, IntegerModel,
};
use crate::version::Version;

verus! {

/// The encoding of each of the 28 data series; a series without one is absent.
#[derive(Clone, Debug, Default, PartialEq, Eq)]
pub struct DataSeriesEncodings {
    pub bam_flags: Option<Encoding<Integer>>,
    pub cram_flags: Option<Encoding<Integer>>,
    pub reference_sequence_ids: Option<Encoding<Integer>>,
    pub read_lengths: Option<Encoding<Integer>>,
    pub alignment_starts: Option<Encoding<Integer>>,
    pub read_group_ids: Option<Encoding<Integer>>,
    pub names: Option<Encoding<ByteArray>>,
    pub mate_flags: Option<Encoding<Integer>>,
    pub mate_reference_sequence_ids: Option<Encoding<Integer>>,
    pub mate_alignment_starts: Option<Encoding<Integer>>,
    pub template_lengths: Option<Encoding<Integer>>,
    pub mate_distances: Option<Encoding<Integer>>,
    pub tag_set_ids: Option<Encoding<Integer>>,
    pub feature_counts: Option<Encoding<Integer>>,
    pub feature_codes: Option<Encoding<Byte>>,
    pub feature_position_deltas: Option<Encoding<Integer>>,
    pub deletion_lengths: Option<Encoding<Integer>>,
    pub stretches_of_bases: Option<Encoding<ByteArray>>,
    pub stretches_of_quality_scores: Option<Encoding<ByteArray>>,
    pub base_substitution_codes: Option<Encoding<Byte>>,
    pub insertion_bases: Option<Encoding<ByteArray>>,
    pub reference_skip_lengths: Option<Encoding<Integer>>,
    pub padding_lengths: Option<Encoding<Integer>>,
    pub hard_clip_lengths: Option<Encoding<Integer>>,
    pub soft_clip_bases: Option<Encoding<ByteArray>>,
    pub mapping_qualities: Option<Encoding<Integer>>,
    pub bases: Option<Encoding<Byte>>,
    pub quality_scores: Option<Encoding<Byte>>,
}

/// The encoding `init` gives an integer series with content id `id`: an
/// External codec before 4.0; from 4.0 on a varint, signed or not as the
/// series' values may be negative.
pub open spec fn default_integer(id: int, signed: bool, version: Version) -> IntegerModel {
    if version.uses_vlq_spec() {
        if signed {
            IntegerModel::VarintSigned(id, 0)
        } else {
            IntegerModel::VarintUnsigned(id, 0)
        }
    } else {
        IntegerModel::External(id)
    }
}

pub open spec fn has_integer(e: Option<Encoding<Integer>>, m: IntegerModel) -> bool {
    e is Some && e->Some_0.codec@ == m
}

pub open spec fn has_byte(e: Option<Encoding<Byte>>, m: ByteModel) -> bool {
    e is Some && e->Some_0.codec@ == m
}

pub open spec fn has_byte_array(e: Option<Encoding<ByteArray>>, m: ByteArrayModel) -> bool {
    e is Some && e->Some_0.codec@ == m
}

/// Every series has the encoding `init` gives it for `version`.
pub open spec fn is_initial(d: DataSeriesEncodings, version: Version) -> bool {
    &&& has_integer(d.bam_flags, default_integer(1, false, version))
    &&& has_integer(d.cram_flags, default_integer(2, false, version))
    &&& has_integer(d.reference_sequence_ids, default_integer(3, true, version))
    &&& has_integer(d.read_lengths, default_integer(4, false, version))
    &&& has_integer(d.alignment_starts, default_integer(5, true, version))
    &&& has_integer(d.read_group_ids, default_integer(6, true, version))
    &&& has_byte_array(d.names, ByteArrayModel::ByteArrayStop(0, 7))
    &&& has_integer(d.mate_flags, default_integer(8, false, version))
    &&& has_integer(d.mate_reference_sequence_ids, default_integer(9, true, version))
    &&& has_integer(d.mate_alignment_starts, default_integer(10, true, version))
    &&& has_integer(d.template_lengths, default_integer(11, true, version))
    &&& has_integer(d.mate_distances, default_integer(12, true, version))
    &&& has_integer(d.tag_set_ids, default_integer(13, false, version))
    &&& has_integer(d.feature_counts, default_integer(14, false, version))
    &&& has_byte(d.feature_codes, ByteModel::External(15))
    &&& has_integer(d.feature_position_deltas, default_integer(16, false, version))
    &&& has_integer(d.deletion_lengths, default_integer(17, false, version))
    &&& has_byte_array(d.stretches_of_bases, ByteArrayModel::ByteArrayStop(0, 18))
    &&& has_byte_array(d.stretches_of_quality_scores, ByteArrayModel::ByteArrayLength(default_integer(19, false, version), ByteModel::External(19)))
    &&& has_byte(d.base_substitution_codes, ByteModel::External(20))
    &&& has_byte_array(d.insertion_bases, ByteArrayModel::ByteArrayStop(0, 21))
    &&& has_integer(d.reference_skip_lengths, default_integer(22, false, version))
    &&& has_integer(d.padding_lengths, default_integer(23, false, version))
    &&& has_integer(d.hard_clip_lengths, default_integer(24, false, version))
    &&& has_byte_array(d.soft_clip_bases, ByteArrayModel::ByteArrayStop(0, 25))
    &&& has_integer(d.mapping_qualities, default_integer(26, false, version))
    &&& has_byte(d.bases, ByteModel::External(27))
    &&& has_byte(d.quality_scores, ByteModel::External(28))
}

/// `d` is `old` with every series whose canonical content id is not in `used` dropped.
pub open spec fn is_pruned(d: DataSeriesEncodings, old: DataSeriesEncodings, used: Set<i32>) -> bool {
    &&& d.bam_flags == if used.contains(1i32) { old.bam_flags } else { None }
    &&& d.cram_flags == if used.contains(2i32) { old.cram_flags } else { None }
    &&& d.reference_sequence_ids == if used.contains(3i32) { old.reference_sequence_ids } else { None }
    &&& d.read_lengths == if used.contains(4i32) { old.read_lengths } else { None }
    &&& d.alignment_starts == if used.contains(5i32) { old.alignment_starts } else { None }
    &&& d.read_group_ids == if used.contains(6i32) { old.read_group_ids } else { None }
    &&& d.names == if used.contains(7i32) { old.names } else { None }
    &&& d.mate_flags == if used.contains(8i32) { old.mate_flags } else { None }
    &&& d.mate_reference_sequence_ids == if used.contains(9i32) { old.mate_reference_sequence_ids } else { None }
    &&& d.mate_alignment_starts == if used.contains(10i32) { old.mate_alignment_starts } else { None }
    &&& d.template_lengths == if used.contains(11i32) { old.template_lengths } else { None }
    &&& d.mate_distances == if used.contains(12i32) { old.mate_distances } else { None }
    &&& d.tag_set_ids == if used.contains(13i32) { old.tag_set_ids } else { None }
    &&& d.feature_counts == if used.contains(14i32) { old.feature_counts } else { None }
    &&& d.feature_codes == if used.contains(15i32) { old.feature_codes } else { None }
    &&& d.feature_position_deltas == if used.contains(16i32) { old.feature_position_deltas } else { None }
    &&& d.deletion_lengths == if used.contains(17i32) { old.deletion_lengths } else { None }
    &&& d.stretches_of_bases == if used.contains(18i32) { old.stretches_of_bases } else { None }
    &&& d.stretches_of_quality_scores == if used.contains(19i32) { old.stretches_of_quality_scores } else { None }
    &&& d.base_substitution_codes == if used.contains(20i32) { old.base_substitution_codes } else { None }
    &&& d.insertion_bases == if used.contains(21i32) { old.insertion_bases } else { None }
    &&& d.reference_skip_lengths == if used.contains(22i32) { old.reference_skip_lengths } else { None }
    &&& d.padding_lengths == if used.contains(23i32) { old.padding_lengths } else { None }
    &&& d.hard_clip_lengths == if used.contains(24i32) { old.hard_clip_lengths } else { None }
    &&& d.soft_clip_bases == if used.contains(25i32) { old.soft_clip_bases } else { None }
    &&& d.mapping_qualities == if used.contains(26i32) { old.mapping_qualities } else { None }
    &&& d.bases == if used.contains(27i32) { old.bases } else { None }
    &&& d.quality_scores == if used.contains(28i32) { old.quality_scores } else { None }
}

/// How many series have an encoding.
pub open spec fn present_count(d: DataSeriesEncodings) -> int {
    (if d.bam_flags is Some { 1int } else { 0int })
        + (if d.cram_flags is Some { 1int } else { 0int })
        + (if d.reference_sequence_ids is Some { 1int } else { 0int })
        + (if d.read_lengths is Some { 1int } else { 0int })
        + (if d.alignment_starts is Some { 1int } else { 0int })
        + (if d.read_group_ids is Some { 1int } else { 0int })
        + (if d.names is Some { 1int } else { 0int })
        + (if d.mate_flags is Some { 1int } else { 0int })
        + (if d.mate_reference_sequence_ids is Some { 1int } else { 0int })
        + (if d.mate_alignment_starts is Some { 1int } else { 0int })
        + (if d.template_lengths is Some { 1int } else { 0int })
        + (if d.mate_distances is Some { 1int } else { 0int })
        + (if d.tag_set_ids is Some { 1int } else { 0int })
        + (if d.feature_counts is Some { 1int } else { 0int })
        + (if d.feature_codes is Some { 1int } else { 0int })
        + (if d.feature_position_deltas is Some { 1int } else { 0int })
        + (if d.deletion_lengths is Some { 1int } else { 0int })
        + (if d.stretches_of_bases is Some { 1int } else { 0int })
        + (if d.stretches_of_quality_scores is Some { 1int } else { 0int })
        + (if d.base_substitution_codes is Some { 1int } else { 0int })
        + (if d.insertion_bases is Some { 1int } else { 0int })
        + (if d.reference_skip_lengths is Some { 1int } else { 0int })
        + (if d.padding_lengths is Some { 1int } else { 0int })
        + (if d.hard_clip_lengths is Some { 1int } else { 0int })
        + (if d.soft_clip_bases is Some { 1int } else { 0int })
        + (if d.mapping_qualities is Some { 1int } else { 0int })
        + (if d.bases is Some { 1int } else { 0int })
        + (if d.quality_scores is Some { 1int } else { 0int })
}

fn one_if<T>(o: &Option<T>) -> (r: usize)
    ensures
        r as int == if *o is Some {
            1int
        } else {
            0int
        },
{
    if o.is_some() {
        1
    } else {
        0
    }
}

/// How many series have an encoding.
pub fn data_series_encodings_len(encodings: &DataSeriesEncodings) -> (r: usize)
    ensures
        r as int == present_count(*encodings),
{
    one_if(&encodings.bam_flags)
        + one_if(&encodings.cram_flags)
        + one_if(&encodings.reference_sequence_ids)
        + one_if(&encodings.read_lengths)
        + one_if(&encodings.alignment_starts)
        + one_if(&encodings.read_group_ids)
        + one_if(&encodings.names)
        + one_if(&encodings.mate_flags)
        + one_if(&encodings.mate_reference_sequence_ids)
        + one_if(&encodings.mate_alignment_starts)
        + one_if(&encodings.template_lengths)
        + one_if(&encodings.mate_distances)
        + one_if(&encodings.tag_set_ids)
        + one_if(&encodings.feature_counts)
        + one_if(&encodings.feature_codes)
        + one_if(&encodings.feature_position_deltas)
        + one_if(&encodings.deletion_lengths)
        + one_if(&encodings.stretches_of_bases)
        + one_if(&encodings.stretches_of_quality_scores)
        + one_if(&encodings.base_substitution_codes)
        + one_if(&encodings.insertion_bases)
        + one_if(&encodings.reference_skip_lengths)
        + one_if(&encodings.padding_lengths)
        + one_if(&encodings.hard_clip_lengths)
        + one_if(&encodings.soft_clip_bases)
        + one_if(&encodings.mapping_qualities)
        + one_if(&encodings.bases)
        + one_if(&encodings.quality_scores)
}

fn contains(used: &HashSet<i32>, id: i32) -> (r: bool)
    ensures
        r == used@.contains(id),
{
    broadcast use vstd::std_specs::hash::group_hash_axioms;

    used.contains(&id)
}

fn prune<T>(slot: &mut Option<T>, keep: bool)
    ensures
        *final(slot) == if keep {
            *old(slot)
        } else {
            None
        },
{
    if !keep {
        *slot = None;
    }
}

fn external(id: i32) -> (r: Option<Encoding<Integer>>)
    ensures
        has_integer(r, IntegerModel::External(id as int)),
{
    Some(Encoding::new(Integer::External { block_content_id: id }))
}

fn byte_external(id: i32) -> (r: Option<Encoding<Byte>>)
    ensures
        has_byte(r, ByteModel::External(id as int)),
{
    Some(Encoding::new(Byte::External { block_content_id: id }))
}

fn stop(id: i32) -> (r: Option<Encoding<ByteArray>>)
    ensures
        has_byte_array(r, ByteArrayModel::ByteArrayStop(0, id as int)),
{
    Some(Encoding::new(ByteArray::ByteArrayStop { stop_byte: 0x00, block_content_id: id }))
}

fn varint_unsigned(id: i32) -> (r: Option<Encoding<Integer>>)
    ensures
        has_integer(r, IntegerModel::VarintUnsigned(id as int, 0)),
{
    Some(Encoding::new(Integer::VarintUnsigned { block_content_id: id, offset: 0 }))
}

fn varint_signed(id: i32) -> (r: Option<Encoding<Integer>>)
    ensures
        has_integer(r, IntegerModel::VarintSigned(id as int, 0)),
{
    Some(Encoding::new(Integer::VarintSigned { block_content_id: id, offset: 0 }))
}

impl DataSeriesEncodings {
    pub fn bam_flags(&self) -> (r: Option<&Encoding<Integer>>)
        ensures
            r is Some <==> self.bam_flags is Some,
            r is Some ==> *r->Some_0 == self.bam_flags->Some_0,
    {
        match &self.bam_flags {
            Some(e) => Some(e),
            None => None,
        }
    }

    pub fn cram_flags(&self) -> (r: Option<&Encoding<Integer>>)
        ensures
            r is Some <==> self.cram_flags is Some,
            r is Some ==> *r->Some_0 == self.cram_flags->Some_0,
    {
        match &self.cram_flags {
            Some(e) => Some(e),
            None => None,
        }
    }

    pub fn reference_sequence_ids(&self) -> (r: Option<&Encoding<Integer>>)
        ensures
            r is Some <==> self.reference_sequence_ids is Some,
            r is Some ==> *r->Some_0 == self.reference_sequence_ids->Some_0,
    {
        match &self.reference_sequence_ids {
            Some(e) => Some(e),
            None => None,
        }
    }

    pub fn read_lengths(&self) -> (r: Option<&Encoding<Integer>>)
        ensures
            r is Some <==> self.read_lengths is Some,
            r is Some ==> *r->Some_0 == self.read_lengths->Some_0,
    {
        match &self.read_lengths {
            Some(e) => Some(e),
            None => None,
        }
    }

    pub fn alignment_starts(&self) -> (r: Option<&Encoding<Integer>>)
        ensures
            r is Some <==> self.alignment_starts is Some,
            r is Some ==> *r->Some_0 == self.alignment_starts->Some_0,
    {
        match &self.alignment_starts {
            Some(e) => Some(e),
            None => None,
        }
    }

    pub fn read_group_ids(&self) -> (r: Option<&Encoding<Integer>>)
        ensures
            r is Some <==> self.read_group_ids is Some,
            r is Some ==> *r->Some_0 == self.read_group_ids->Some_0,
    {
        match &self.read_group_ids {
            Some(e) => Some(e),
            None => None,
        }
    }

    pub fn names(&self) -> (r: Option<&Encoding<ByteArray>>)
        ensures
            r is Some <==> self.names is Some,
            r is Some ==> *r->Some_0 == self.names->Some_0,
    {
        match &self.names {
            Some(e) => Some(e),
            None => None,
        }
    }

    pub fn mate_flags(&self) -> (r: Option<&Encoding<Integer>>)
        ensures
            r is Some <==> self.mate_flags is Some,
            r is Some ==> *r->Some_0 == self.mate_flags->Some_0,
    {
        match &self.mate_flags {
            Some(e) => Some(e),
            None => None,
        }
    }

    pub fn mate_reference_sequence_ids(&self) -> (r: Option<&Encoding<Integer>>)
        ensures
            r is Some <==> self.mate_reference_sequence_ids is Some,
            r is Some ==> *r->Some_0 == self.mate_reference_sequence_ids->Some_0,
    {
        match &self.mate_reference_sequence_ids {
            Some(e) => Some(e),
            None => None,
        }
    }

    pub fn mate_alignment_starts(&self) -> (r: Option<&Encoding<Integer>>)
        ensures
            r is Some <==> self.mate_alignment_starts is Some,
            r is Some ==> *r->Some_0 == self.mate_alignment_starts->Some_0,
    {
        match &self.mate_alignment_starts {
            Some(e) => Some(e),
            None => None,
        }
    }

    pub fn template_lengths(&self) -> (r: Option<&Encoding<Integer>>)
        ensures
            r is Some <==> self.template_lengths is Some,
            r is Some ==> *r->Some_0 == self.template_lengths->Some_0,
    {
        match &self.template_lengths {
            Some(e) => Some(e),
            None => None,
        }
    }

    pub fn mate_distances(&self) -> (r: Option<&Encoding<Integer>>)
        ensures
            r is Some <==> self.mate_distances is Some,
            r is Some ==> *r->Some_0 == self.mate_distances->Some_0,
    {
        match &self.mate_distances {
            Some(e) => Some(e),
            None => None,
        }
    }

    pub fn tag_set_ids(&self) -> (r: Option<&Encoding<Integer>>)
        ensures
            r is Some <==> self.tag_set_ids is Some,
            r is Some ==> *r->Some_0 == self.tag_set_ids->Some_0,
    {
        match &self.tag_set_ids {
            Some(e) => Some(e),
            None => None,
        }
    }

    pub fn feature_counts(&self) -> (r: Option<&Encoding<Integer>>)
        ensures
            r is Some <==> self.feature_counts is Some,
            r is Some ==> *r->Some_0 == self.feature_counts->Some_0,
    {
        match &self.feature_counts {
            Some(e) => Some(e),
            None => None,
        }
    }

    pub fn feature_codes(&self) -> (r: Option<&Encoding<Byte>>)
        ensures
            r is Some <==> self.feature_codes is Some,
            r is Some ==> *r->Some_0 == self.feature_codes->Some_0,
    {
        match &self.feature_codes {
            Some(e) => Some(e),
            None => None,
        }
    }

    pub fn feature_position_deltas(&self) -> (r: Option<&Encoding<Integer>>)
        ensures
            r is Some <==> self.feature_position_deltas is Some,
            r is Some ==> *r->Some_0 == self.feature_position_deltas->Some_0,
    {
        match &self.feature_position_deltas {
            Some(e) => Some(e),
            None => None,
        }
    }

    pub fn deletion_lengths(&self) -> (r: Option<&Encoding<Integer>>)
        ensures
            r is Some <==> self.deletion_lengths is Some,
            r is Some ==> *r->Some_0 == self.deletion_lengths->Some_0,
    {
        match &self.deletion_lengths {
            Some(e) => Some(e),
            None => None,
        }
    }

    pub fn stretches_of_bases(&self) -> (r: Option<&Encoding<ByteArray>>)
        ensures
            r is Some <==> self.stretches_of_bases is Some,
            r is Some ==> *r->Some_0 == self.stretches_of_bases->Some_0,
    {
        match &self.stretches_of_bases {
            Some(e) => Some(e),
            None => None,
        }
    }

    pub fn stretches_of_quality_scores(&self) -> (r: Option<&Encoding<ByteArray>>)
        ensures
            r is Some <==> self.stretches_of_quality_scores is Some,
            r is Some ==> *r->Some_0 == self.stretches_of_quality_scores->Some_0,
    {
        match &self.stretches_of_quality_scores {
            Some(e) => Some(e),
            None => None,
        }
    }

    pub fn base_substitution_codes(&self) -> (r: Option<&Encoding<Byte>>)
        ensures
            r is Some <==> self.base_substitution_codes is Some,
            r is Some ==> *r->Some_0 == self.base_substitution_codes->Some_0,
    {
        match &self.base_substitution_codes {
            Some(e) => Some(e),
            None => None,
        }
    }

    pub fn insertion_bases(&self) -> (r: Option<&Encoding<ByteArray>>)
        ensures
            r is Some <==> self.insertion_bases is Some,
            r is Some ==> *r->Some_0 == self.insertion_bases->Some_0,
    {
        match &self.insertion_bases {
            Some(e) => Some(e),
            None => None,
        }
    }

    pub fn reference_skip_lengths(&self) -> (r: Option<&Encoding<Integer>>)
        ensures
            r is Some <==> self.reference_skip_lengths is Some,
            r is Some ==> *r->Some_0 == self.reference_skip_lengths->Some_0,
    {
        match &self.reference_skip_lengths {
            Some(e) => Some(e),
            None => None,
        }
    }

    pub fn padding_lengths(&self) -> (r: Option<&Encoding<Integer>>)
        ensures
            r is Some <==> self.padding_lengths is Some,
            r is Some ==> *r->Some_0 == self.padding_lengths->Some_0,
    {
        match &self.padding_lengths {
            Some(e) => Some(e),
            None => None,
        }
    }

    pub fn hard_clip_lengths(&self) -> (r: Option<&Encoding<Integer>>)
        ensures
            r is Some <==> self.hard_clip_lengths is Some,
            r is Some ==> *r->Some_0 == self.hard_clip_lengths->Some_0,
    {
        match &self.hard_clip_lengths {
            Some(e) => Some(e),
            None => None,
        }
    }

    pub fn soft_clip_bases(&self) -> (r: Option<&Encoding<ByteArray>>)
        ensures
            r is Some <==> self.soft_clip_bases is Some,
            r is Some ==> *r->Some_0 == self.soft_clip_bases->Some_0,
    {
        match &self.soft_clip_bases {
            Some(e) => Some(e),
            None => None,
        }
    }

    pub fn mapping_qualities(&self) -> (r: Option<&Encoding<Integer>>)
        ensures
            r is Some <==> self.mapping_qualities is Some,
            r is Some ==> *r->Some_0 == self.mapping_qualities->Some_0,
    {
        match &self.mapping_qualities {
            Some(e) => Some(e),
            None => None,
        }
    }

    pub fn bases(&self) -> (r: Option<&Encoding<Byte>>)
        ensures
            r is Some <==> self.bases is Some,
            r is Some ==> *r->Some_0 == self.bases->Some_0,
    {
        match &self.bases {
            Some(e) => Some(e),
            None => None,
        }
    }

    pub fn quality_scores(&self) -> (r: Option<&Encoding<Byte>>)
        ensures
            r is Some <==> self.quality_scores is Some,
            r is Some ==> *r->Some_0 == self.quality_scores->Some_0,
    {
        match &self.quality_scores {
            Some(e) => Some(e),
            None => None,
        }
    }

    /// The default table: every series gets its canonical content id.
    pub fn init(version: Version) -> (r: DataSeriesEncodings)
        ensures
            is_initial(r, version),
    {
        if version.uses_vlq() {
            Self::init_v4()
        } else {
            Self::init_legacy()
        }
    }

    fn init_legacy() -> (r: DataSeriesEncodings)
        ensures
            is_initial(r, Version { major: 3, minor: 0 }),
            forall|v: Version| !v.uses_vlq_spec() ==> is_initial(r, v),
    {
        DataSeriesEncodings {
            bam_flags: external(1),
            cram_flags: external(2),
            reference_sequence_ids: external(3),
            read_lengths: external(4),
            alignment_starts: external(5),
            read_group_ids: external(6),
            names: stop(7),
            mate_flags: external(8),
            mate_reference_sequence_ids: external(9),
            mate_alignment_starts: external(10),
            template_lengths: external(11),
            mate_distances: external(12),
            tag_set_ids: external(13),
            feature_counts: external(14),
            feature_codes: byte_external(15),
            feature_position_deltas: external(16),
            deletion_lengths: external(17),
            stretches_of_bases: stop(18),
            stretches_of_quality_scores: Some(Encoding::new(ByteArray::ByteArrayLength {
                len_encoding: Encoding::new(Integer::External { block_content_id: 19 }),
                value_encoding: Encoding::new(Byte::External { block_content_id: 19 }),
            })),
            base_substitution_codes: byte_external(20),
            insertion_bases: stop(21),
            reference_skip_lengths: external(22),
            padding_lengths: external(23),
            hard_clip_lengths: external(24),
            soft_clip_bases: stop(25),
            mapping_qualities: external(26),
            bases: byte_external(27),
            quality_scores: byte_external(28),
        }
    }

    fn init_v4() -> (r: DataSeriesEncodings)
        ensures
            forall|v: Version| v.uses_vlq_spec() ==> is_initial(r, v),
    {
        DataSeriesEncodings {
            bam_flags: varint_unsigned(1),
            cram_flags: varint_unsigned(2),
            reference_sequence_ids: varint_signed(3),
            read_lengths: varint_unsigned(4),
            alignment_starts: varint_signed(5),
            read_group_ids: varint_signed(6),
            names: stop(7),
            mate_flags: varint_unsigned(8),
            mate_reference_sequence_ids: varint_signed(9),
            mate_alignment_starts: varint_signed(10),
            template_lengths: varint_signed(11),
            mate_distances: varint_signed(12),
            tag_set_ids: varint_unsigned(13),
            feature_counts: varint_unsigned(14),
            feature_codes: byte_external(15),
            feature_position_deltas: varint_unsigned(16),
            deletion_lengths: varint_unsigned(17),
            stretches_of_bases: stop(18),
            stretches_of_quality_scores: Some(Encoding::new(ByteArray::ByteArrayLength {
                len_encoding: Encoding::new(Integer::VarintUnsigned { block_content_id: 19, offset: 0 }),
                value_encoding: Encoding::new(Byte::External { block_content_id: 19 }),
            })),
            base_substitution_codes: byte_external(20),
            insertion_bases: stop(21),
            reference_skip_lengths: varint_unsigned(22),
            padding_lengths: varint_unsigned(23),
            hard_clip_lengths: varint_unsigned(24),
            soft_clip_bases: stop(25),
            mapping_qualities: varint_unsigned(26),
            bases: byte_external(27),
            quality_scores: byte_external(28),
        }
    }

    /// Drops every series whose canonical content id is not among `used`.
    /// This holds only for a table whose ids are still the canonical ones.
    #[verifier::rlimit(50)]
    pub fn retain_used_content_ids(&mut self, used: &HashSet<i32>)
        ensures
            is_pruned(*final(self), *old(self), used@),
    {
        prune(&mut self.bam_flags, contains(used, 1));
        prune(&mut self.cram_flags, contains(used, 2));
        prune(&mut self.reference_sequence_ids, contains(used, 3));
        prune(&mut self.read_lengths, contains(used, 4));
        prune(&mut self.alignment_starts, contains(used, 5));
        prune(&mut self.read_group_ids, contains(used, 6));
        prune(&mut self.names, contains(used, 7));
        prune(&mut self.mate_flags, contains(used, 8));
        prune(&mut self.mate_reference_sequence_ids, contains(used, 9));
        prune(&mut self.mate_alignment_starts, contains(used, 10));
        prune(&mut self.template_lengths, contains(used, 11));
        prune(&mut self.mate_distances, contains(used, 12));
        prune(&mut self.tag_set_ids, contains(used, 13));
        prune(&mut self.feature_counts, contains(used, 14));
        prune(&mut self.feature_codes, contains(used, 15));
        prune(&mut self.feature_position_deltas, contains(used, 16));
        prune(&mut self.deletion_lengths, contains(used, 17));
        prune(&mut self.stretches_of_bases, contains(used, 18));
        prune(&mut self.stretches_of_quality_scores, contains(used, 19));
        prune(&mut self.base_substitution_codes, contains(used, 20));
        prune(&mut self.insertion_bases, contains(used, 21));
        prune(&mut self.reference_skip_lengths, contains(used, 22));
        prune(&mut self.padding_lengths, contains(used, 23));
        prune(&mut self.hard_clip_lengths, contains(used, 24));
        prune(&mut self.soft_clip_bases, contains(used, 25));
        prune(&mut self.mapping_qualities, contains(used, 26));
        prune(&mut self.bases, contains(used, 27));
        prune(&mut self.quality_scores, contains(used, 28));
    }
}

} // verus!

