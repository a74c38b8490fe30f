use vstd::prelude::*;

use std::collections::HashSet;

use crate::block::{block_body, block_bytes, block_writable, Block, ContentType};
use crate::container_header::{Header, ReferenceSequenceContext};
use crate::error::Error;
use crate::slice_header::SliceHeader;
use crate::version::Version;

verus! {

/// The sum of a slice's block sizes.
pub open spec fn slice_total(s: Seq<usize>) -> nat
    decreases s.len(),
{
    if s.len() == 0 {
        0
    } else {
        slice_total(s.drop_last()) + s.last() as nat
    }
}

/// The size of the first `i` slices together.
pub open spec fn slices_before(slices: Seq<Seq<usize>>, i: int) -> nat
    decreases i,
{
    if i <= 0 {
        0
    } else {
        slices_before(slices, i - 1) + slice_total(slices[i - 1])
    }
}

fn slice_size(blocks: &Vec<usize>, limit: usize) -> (r: Option<usize>)
    ensures
        match r {
            Some(n) => n as nat == slice_total(blocks@) && n <= limit,
            None => slice_total(blocks@) > limit,
        },
{
    let mut total: usize = 0;
    let mut i: usize = 0;
    while i < blocks.len()
        invariant
            i <= blocks@.len(),
            total as nat == slice_total(blocks@.take(i as int)),
            total <= limit,
        decreases blocks@.len() - i,
    {
        assert(blocks@.take(i + 1).drop_last() =~= blocks@.take(i as int));
        if blocks[i] > limit - total {
            proof {
                lemma_total_mono(blocks@, (i + 1) as nat);
            }
            return None;
        }
        total = total + blocks[i];
        i += 1;
    }
    assert(blocks@.take(blocks@.len() as int) =~= blocks@);
    Some(total)
}

proof fn lemma_total_mono(s: Seq<usize>, k: nat)
    requires
        k <= s.len(),
    ensures
        slice_total(s.take(k as int)) <= slice_total(s),
    decreases s.len() - k,
{
    if k < s.len() {
        lemma_total_mono(s, k + 1);
        assert(s.take((k + 1) as int).drop_last() =~= s.take(k as int));
    } else {
        assert(s.take(k as int) =~= s);
    }
}

proof fn lemma_before_mono(slices: Seq<Seq<usize>>, i: int, j: int)
    requires
        0 <= i <= j,
    ensures
        slices_before(slices, i) <= slices_before(slices, j),
    decreases j - i,
{
    if i < j {
        lemma_before_mono(slices, i, j - 1);
    }
}

/// Lays out a container body: the compression header block (`ch_size` bytes)
/// and then each slice's blocks. Yields the container length (the sum of all
/// block sizes) and the landmarks (where each slice starts in the body).
pub fn container_layout(ch_size: usize, slice_block_sizes: &Vec<Vec<usize>>) -> (r: Result<(usize, Vec<usize>), Error>)
    ensures
        ch_size + slices_before(slice_block_sizes@.map_values(|v: Vec<usize>| v@), slice_block_sizes@.len() as int) > usize::MAX
            ==> r == Err::<(usize, Vec<usize>), Error>(Error::InvalidInput),
        ch_size + slices_before(slice_block_sizes@.map_values(|v: Vec<usize>| v@), slice_block_sizes@.len() as int) <= usize::MAX
            ==> r is Ok && ({
            let (len, lm) = r->Ok_0;
            let ss = slice_block_sizes@.map_values(|v: Vec<usize>| v@);
            &&& len == ch_size + slices_before(ss, ss.len() as int)
            &&& lm@.len() == ss.len()
            &&& forall|i: int| 0 <= i < lm@.len() ==> lm@[i] == ch_size + slices_before(ss, i)
        }),
{
    let ghost ss = slice_block_sizes@.map_values(|v: Vec<usize>| v@);
    let mut offset: usize = ch_size;
    let mut landmarks: Vec<usize> = Vec::new();
    let mut i: usize = 0;
    while i < slice_block_sizes.len()
        invariant
            i <= slice_block_sizes@.len(),
            ss == slice_block_sizes@.map_values(|v: Vec<usize>| v@),
            offset == ch_size + slices_before(ss, i as int),
            landmarks@.len() == i,
            forall|k: int| 0 <= k < i ==> landmarks@[k] == ch_size + slices_before(ss, k),
        decreases slice_block_sizes@.len() - i,
    {
        landmarks.push(offset);
        assert(ss[i as int] == slice_block_sizes@[i as int]@);
        match slice_size(&slice_block_sizes[i], usize::MAX - offset) {
            Some(n) => {
                offset = offset + n;
            },
            None => {
                proof {
                    lemma_before_mono(ss, (i + 1) as int, ss.len() as int);
                }
                return Err(Error::InvalidInput);
            },
        }
        i += 1;
    }
    Ok((offset, landmarks))
}

/// Landmarks strictly increase, and the first is the compression header
/// block's size, when every slice holds at least one byte.
pub proof fn lemma_landmarks_increase(ch_size: nat, slices: Seq<Seq<usize>>, i: int, j: int)
    requires
        forall|k: int| 0 <= k < slices.len() ==> slice_total(#[trigger] slices[k]) > 0,
        0 <= i < j <= slices.len(),
    ensures
        ch_size + slices_before(slices, i) < ch_size + slices_before(slices, j),
        ch_size + slices_before(slices, 0) == ch_size,
    decreases j - i,
{
    if j - 1 > i {
        lemma_landmarks_increase(ch_size, slices, i, j - 1);
    }
    assert(slice_total(slices[j - 1]) > 0);
}

} // verus!

verus! {

/// Two slice contexts merged into the container's: on one reference, the
/// span from the smaller start to the larger end; two unmapped or two
/// multi-reference contexts stay as they are; anything else cannot merge.
pub open spec fn merge_context(a: ReferenceSequenceContext, b: ReferenceSequenceContext) -> Option<ReferenceSequenceContext> {
    match (a, b) {
        (
            ReferenceSequenceContext::Mapped { reference_sequence_id: i, alignment_start: s1, alignment_end: e1 },
            ReferenceSequenceContext::Mapped { reference_sequence_id: j, alignment_start: s2, alignment_end: e2 },
        ) => if i == j {
            Some(ReferenceSequenceContext::Mapped {
                reference_sequence_id: i,
                alignment_start: if s1 <= s2 { s1 } else { s2 },
                alignment_end: if e1 >= e2 { e1 } else { e2 },
            })
        } else {
            None
        },
        (ReferenceSequenceContext::Unmapped, ReferenceSequenceContext::Unmapped) => Some(a),
        (ReferenceSequenceContext::Many, ReferenceSequenceContext::Many) => Some(a),
        _ => None,
    }
}

/// The merged context of the first `n` slices (`n >= 1`).
pub open spec fn merged_context(ctxs: Seq<ReferenceSequenceContext>, n: int) -> Option<ReferenceSequenceContext>
    decreases n,
{
    if n <= 1 {
        Some(ctxs[0])
    } else {
        match merged_context(ctxs, n - 1) {
            Some(c) => merge_context(c, ctxs[n - 1]),
            None => None,
        }
    }
}

fn merge_context_exec(a: ReferenceSequenceContext, b: ReferenceSequenceContext) -> (r: Option<ReferenceSequenceContext>)
    ensures
        r == merge_context(a, b),
{
    match (a, b) {
        (
            ReferenceSequenceContext::Mapped { reference_sequence_id: i, alignment_start: s1, alignment_end: e1 },
            ReferenceSequenceContext::Mapped { reference_sequence_id: j, alignment_start: s2, alignment_end: e2 },
        ) => if i == j {
            Some(ReferenceSequenceContext::Mapped {
                reference_sequence_id: i,
                alignment_start: if s1 <= s2 { s1 } else { s2 },
                alignment_end: if e1 >= e2 { e1 } else { e2 },
            })
        } else {
            None
        },
        (ReferenceSequenceContext::Unmapped, ReferenceSequenceContext::Unmapped) => Some(a),
        (ReferenceSequenceContext::Many, ReferenceSequenceContext::Many) => Some(a),
        _ => None,
    }
}

/// The number of bytes the blocks take when written.
pub open spec fn total_bytes(blocks: Seq<Block>, version: Version) -> nat
    decreases blocks.len(),
{
    if blocks.len() == 0 {
        0
    } else {
        total_bytes(blocks.drop_last(), version) + block_bytes(blocks.last(), version).len()
    }
}

/// The sum of the read lengths.
pub open spec fn base_sum(lens: Seq<usize>) -> nat
    decreases lens.len(),
{
    if lens.len() == 0 {
        0
    } else {
        base_sum(lens.drop_last()) + lens.last() as nat
    }
}

/// A written block holds at least its method and content type bytes.
pub proof fn lemma_block_bytes_len(b: Block, version: Version)
    ensures
        block_bytes(b, version).len() >= 2,
{
    assert(block_body(b, version).len() >= 2);
}

} // verus!

verus! {

pub open spec fn slice_contexts(slices: Seq<(SliceHeader, Block, Vec<Block>)>) -> Seq<ReferenceSequenceContext> {
    Seq::new(slices.len(), |i: int| slices[i].0.reference_sequence_context)
}

fn writable(b: &Block, version: Version) -> (r: bool)
    ensures
        r == block_writable(*b, version),
{
    b.src.len() <= i32::MAX as usize && b.uncompressed_size <= i32::MAX as usize && !(version.uses_vlq() && b.content_id < 0)
}

proof fn lemma_total_push(blocks: Seq<Block>, b: Block, version: Version)
    ensures
        total_bytes(blocks.push(b), version) == total_bytes(blocks, version) + block_bytes(b, version).len(),
{
    assert(blocks.push(b).drop_last() =~= blocks);
}

proof fn lemma_take_push(blocks: Seq<Block>, b: Block, n: int)
    requires
        0 <= n <= blocks.len(),
    ensures
        blocks.push(b).take(n) == blocks.take(n),
{
    assert(blocks.push(b).take(n) =~= blocks.take(n));
}

/// Pushes a block that can be written, keeping the running size.
fn push_block(blocks: &mut Vec<Block>, size: &mut usize, b: Block, version: Version) -> (r: Result<(), Error>)
    requires
        *old(size) as nat == total_bytes(old(blocks)@, version),
    ensures
        r is Ok ==> final(blocks)@ == old(blocks)@.push(b) && block_writable(b, version)
            && *final(size) as nat == total_bytes(final(blocks)@, version),
        r is Err ==> r == Err::<(), Error>(Error::InvalidInput),
{
    if !writable(&b, version) {
        return Err(Error::InvalidInput);
    }
    let n = match b.size(version) {
        Ok(n) => n,
        Err(e) => return Err(e),
    };
    if n > usize::MAX - *size {
        return Err(Error::InvalidInput);
    }
    proof {
        lemma_total_push(blocks@, b, version);
    }
    *size = *size + n;
    blocks.push(b);
    Ok(())
}

/// Writes a slice's header into a slice header block, then pushes that
/// block, the core data block and the external blocks.
#[verifier::rlimit(80)]
fn push_slice(
    blocks: &mut Vec<Block>,
    size: &mut usize,
    slice_header: &SliceHeader,
    core: Block,
    externals: Vec<Block>,
    version: Version,
) -> (r: Result<(), Error>)
    requires
        *old(size) as nat == total_bytes(old(blocks)@, version),
        forall|q: int| 0 <= q < old(blocks)@.len() ==> block_writable(#[trigger] old(blocks)@[q], version),
    ensures
        r is Err ==> r == Err::<(), Error>(Error::InvalidInput),
        r is Ok ==> {
            &&& final(blocks)@.len() >= old(blocks)@.len() + 2
            &&& final(blocks)@.take(old(blocks)@.len() as int) == old(blocks)@
            &&& final(blocks)@[old(blocks)@.len() as int].content_type == ContentType::SliceHeader
            &&& final(blocks)@[old(blocks)@.len() as int + 1] == core
            &&& *final(size) as nat == total_bytes(final(blocks)@, version)
            &&& *final(size) >= *old(size) + 4
            &&& forall|q: int| 0 <= q < final(blocks)@.len() ==> block_writable(#[trigger] final(blocks)@[q], version)
        },
{
    let ghost before = blocks@;
    let mut buf: Vec<u8> = Vec::new();
    match crate::slice_header::write_header(&mut buf, slice_header, version) {
        Ok(()) => {},
        Err(e) => return Err(e),
    }
    let header_block = match Block::encode(ContentType::SliceHeader, 0, None, buf.as_slice()) {
        Ok(b) => b,
        Err(e) => return Err(e),
    };
    proof {
        lemma_block_bytes_len(header_block, version);
        lemma_block_bytes_len(core, version);
    }
    let ghost hb = header_block;
    let ghost cb = core;
    let ghost size0 = *size;
    match push_block(blocks, size, header_block, version) {
        Ok(()) => {},
        Err(e) => return Err(e),
    }
    match push_block(blocks, size, core, version) {
        Ok(()) => {},
        Err(e) => return Err(e),
    }
    let ghost mid = blocks@;
    let ghost mid_size = *size;
    proof {
        lemma_total_push(before, hb, version);
        lemma_total_push(before.push(hb), cb, version);
        assert(mid == before.push(hb).push(cb));
        assert(mid_size >= size0 + 4);
    }
    assert(mid.take(before.len() as int) =~= before);
    let mut externals = externals;
    while externals.len() > 0
        invariant
            mid.len() == before.len() + 2,
            mid.len() <= blocks@.len(),
            blocks@.take(mid.len() as int) == mid,
            forall|q: int| 0 <= q < blocks@.len() ==> block_writable(#[trigger] blocks@[q], version),
            *size as nat == total_bytes(blocks@, version),
            *size >= mid_size,
        decreases externals@.len(),
    {
        let b = externals.remove(0);
        let ghost pre = blocks@;
        match push_block(blocks, size, b, version) {
            Ok(()) => {},
            Err(err) => return Err(err),
        }
        proof {
            lemma_total_push(pre, b, version);
            assert(blocks@.take(mid.len() as int) =~= pre.take(mid.len() as int));
        }
    }
    proof {
        assert(blocks@.take(before.len() as int) =~= mid.take(before.len() as int));
        assert(blocks@[before.len() as int] == mid[before.len() as int]);
        assert(blocks@[before.len() as int + 1] == mid[before.len() as int + 1]);
    }
    Ok(())
}

/// Assembles a container from its compression header block and its slices
/// (header, core data block, external blocks): the slice header blocks are
/// written, the blocks laid out after the compression header block, and the
/// container header built with the merged reference context, the record and
/// base counts, the block count and the landmarks.
#[verifier::rlimit(100)]
pub fn build_container(
    ch_block: Block,
    slices: Vec<(SliceHeader, Block, Vec<Block>)>,
    record_counter: i64,
    read_lengths: &[usize],
    version: Version,
) -> (r: Result<(Header, usize, Vec<Block>), Error>)
    requires
        slices@.len() > 0,
    ensures
        r is Err ==> r == Err::<(Header, usize, Vec<Block>), Error>(Error::InvalidInput),
        merged_context(slice_contexts(slices@), slices@.len() as int) is None ==> r is Err,
        r is Ok ==> ({
            let (h, size, blocks) = r->Ok_0;
            &&& h.reference_sequence_context == merged_context(slice_contexts(slices@), slices@.len() as int)->Some_0
            &&& h.record_count == read_lengths@.len()
            &&& h.record_counter == record_counter
            &&& h.base_count as int == base_sum(read_lengths@)
            &&& h.block_count == blocks@.len()
            &&& size as nat == total_bytes(blocks@, version)
            &&& blocks@[0] == ch_block
            &&& forall|k: int| 0 <= k < blocks@.len() ==> block_writable(#[trigger] blocks@[k], version)
            &&& h.landmarks@.len() == slices@.len()
            &&& h.landmarks@[0] == block_bytes(ch_block, version).len()
            &&& forall|a: int, b: int| 0 <= a < b < h.landmarks@.len() ==> h.landmarks@[a] < h.landmarks@[b]
            &&& forall|i: int| 0 <= i < h.landmarks@.len() ==> exists|j: int| 0 < j && j + 1 < blocks@.len() && #[trigger] h.landmarks@[i] == h.landmarks@[i]
                && h.landmarks@[i] == total_bytes(#[trigger] blocks@.take(j), version)
                && blocks@[j].content_type == ContentType::SliceHeader && blocks@[j + 1] == slices@[i].1
        }),
{
    let ghost ss = slices@;
    let ghost ctxs = slice_contexts(slices@);
    // reference context
    let mut ctx = slices[0].0.reference_sequence_context;
    let mut i: usize = 1;
    while i < slices.len()
        invariant
            1 <= i <= slices@.len(),
            slices@ == ss,
            ctxs == slice_contexts(ss),
            merged_context(ctxs, i as int) == Some(ctx),
        decreases slices@.len() - i,
    {
        match merge_context_exec(ctx, slices[i].0.reference_sequence_context) {
            Some(c) => ctx = c,
            None => {
                proof {
                    lemma_merge_none(ctxs, (i + 1) as int, ss.len() as int);
                }
                return Err(Error::InvalidInput);
            },
        }
        i += 1;
    }
    // base count
    let mut base: u64 = 0;
    let mut k: usize = 0;
    while k < read_lengths.len()
        invariant
            k <= read_lengths@.len(),
            base as nat == base_sum(read_lengths@.take(k as int)),
            base <= i64::MAX,
        decreases read_lengths@.len() - k,
    {
        assert(read_lengths@.take(k + 1).drop_last() =~= read_lengths@.take(k as int));
        if read_lengths[k] as u64 > i64::MAX as u64 - base {
            return Err(Error::InvalidInput);
        }
        base = base + read_lengths[k] as u64;
        k += 1;
    }
    assert(read_lengths@.take(read_lengths@.len() as int) =~= read_lengths@);
    // blocks and landmarks
    let mut blocks: Vec<Block> = Vec::new();
    let mut size: usize = 0;
    match push_block(&mut blocks, &mut size, ch_block, version) {
        Ok(()) => {},
        Err(e) => return Err(e),
    }
    proof {
        lemma_block_bytes_len(ch_block, version);
        lemma_total_push(Seq::<Block>::empty(), ch_block, version);
        assert(blocks@ =~= Seq::<Block>::empty().push(ch_block));
    }
    let mut landmarks: Vec<usize> = Vec::new();
    let ghost mut idxs: Seq<int> = Seq::empty();
    let mut slices = slices;
    let mut n: usize = 0;
    let count = slices.len();
    while n < count
        invariant
            n <= count,
            count == ss.len(),
            slices@ == ss.skip(n as int),
            blocks@.len() >= 1,
            blocks@[0] == ch_block,
            forall|q: int| 0 <= q < blocks@.len() ==> block_writable(#[trigger] blocks@[q], version),
            size as nat == total_bytes(blocks@, version),
            landmarks@.len() == n,
            idxs.len() == n,
            n > 0 ==> landmarks@[0] == block_bytes(ch_block, version).len(),
            n == 0 ==> size as nat == block_bytes(ch_block, version).len(),
            forall|a: int, b: int| 0 <= a < b < n ==> landmarks@[a] < landmarks@[b],
            forall|a: int| 0 <= a < n ==> landmarks@[a] < size,
            forall|a: int| 0 <= a < n ==> 0 < #[trigger] idxs[a] && idxs[a] + 1 < blocks@.len()
                && landmarks@[a] == total_bytes(blocks@.take(idxs[a]), version)
                && blocks@[idxs[a]].content_type == ContentType::SliceHeader && blocks@[idxs[a] + 1] == ss[a].1,
        decreases count - n,
    {
        let ghost before = blocks@;
        assert(slices@[0] == ss[n as int]);
        let (slice_header, core, externals) = slices.remove(0);
        assert(slices@ =~= ss.skip(n + 1));
        let at = size;
        match push_slice(&mut blocks, &mut size, &slice_header, core, externals, version) {
            Ok(()) => {},
            Err(e) => return Err(e),
        }
        landmarks.push(at);
        proof {
            let j = before.len() as int;
            assert forall|a: int| 0 <= a < n implies 0 < #[trigger] idxs[a] && idxs[a] + 1 < blocks@.len()
                && landmarks@[a] == total_bytes(blocks@.take(idxs[a]), version)
                && blocks@[idxs[a]].content_type == ContentType::SliceHeader && blocks@[idxs[a] + 1] == ss[a].1 by {
                assert(blocks@.take(idxs[a]) =~= before.take(idxs[a]));
                assert(blocks@[idxs[a]] == blocks@.take(j)[idxs[a]]);
                assert(blocks@[idxs[a] + 1] == blocks@.take(j)[idxs[a] + 1]);
            }
            idxs = idxs.push(j);
        }
        n += 1;
    }
    proof {
        assert forall|i: int| 0 <= i < landmarks@.len() implies exists|j: int| 0 < j && j + 1 < blocks@.len() && #[trigger] landmarks@[i] == landmarks@[i]
            && landmarks@[i] == total_bytes(blocks@.take(j), version)
            && blocks@[j].content_type == ContentType::SliceHeader && blocks@[j + 1] == ss[i].1 by {
            let j = idxs[i];
            assert(0 < j && j + 1 < blocks@.len());
        }
    }
    let header = Header {
        reference_sequence_context: ctx,
        record_count: read_lengths.len(),
        record_counter,
        base_count: base as i64,
        block_count: blocks.len(),
        landmarks,
    };
    Ok((header, size, blocks))
}

proof fn lemma_merge_none(ctxs: Seq<ReferenceSequenceContext>, i: int, n: int)
    requires
        1 < i <= n,
        merged_context(ctxs, i) is None,
    ensures
        merged_context(ctxs, n) is None,
    decreases n - i,
{
    if i < n {
        lemma_merge_none(ctxs, i, n - 1);
    }
}

} // verus!

verus! {

/// The content ids of the slices' external blocks, which are the data
/// series and tags that the container uses (the compression header's table
/// is pruned to these).
pub fn used_content_ids(slices: &Vec<(SliceHeader, Block, Vec<Block>)>) -> (r: HashSet<i32>)
    ensures
        forall|id: i32| r@.contains(id) <==> exists|i: int, j: int| 0 <= i < slices@.len() && 0 <= j < slices@[i].2@.len()
            && (#[trigger] slices@[i].2@[j]).content_id == id,
{
    broadcast use vstd::std_specs::hash::group_hash_axioms;

    let mut used: HashSet<i32> = HashSet::new();
    let mut i: usize = 0;
    while i < slices.len()
        invariant
            i <= slices@.len(),
            forall|id: i32| used@.contains(id) <==> exists|a: int, b: int| 0 <= a < i && 0 <= b < slices@[a].2@.len()
                && (#[trigger] slices@[a].2@[b]).content_id == id,
        decreases slices@.len() - i,
    {
        let externals = &slices[i].2;
        let mut j: usize = 0;
        while j < externals.len()
            invariant
                i < slices@.len(),
                externals@ == slices@[i as int].2@,
                j <= externals@.len(),
                forall|id: i32| used@.contains(id) <==> (exists|a: int, b: int| 0 <= a < i && 0 <= b < slices@[a].2@.len()
                    && (#[trigger] slices@[a].2@[b]).content_id == id) || (exists|b: int| 0 <= b < j && (#[trigger] externals@[b]).content_id == id),
            decreases externals@.len() - j,
        {
            used.insert(externals[j].content_id);
            j += 1;
        }
        proof {
            assert forall|id: i32| used@.contains(id) <==> exists|a: int, b: int| 0 <= a < i + 1 && 0 <= b < slices@[a].2@.len()
                && (#[trigger] slices@[a].2@[b]).content_id == id by {
                if exists|b: int| 0 <= b < j && (#[trigger] externals@[b]).content_id == id {
                    let b = choose|b: int| 0 <= b < j && (#[trigger] externals@[b]).content_id == id;
                    assert(slices@[i as int].2@[b].content_id == id);
                }
                if exists|a: int, b: int| 0 <= a < i + 1 && 0 <= b < slices@[a].2@.len() && (#[trigger] slices@[a].2@[b]).content_id == id {
                    let (a, b) = choose|a: int, b: int| 0 <= a < i + 1 && 0 <= b < slices@[a].2@.len() && (#[trigger] slices@[a].2@[b]).content_id == id;
                    if a == i {
                        assert(externals@[b].content_id == id);
                    }
                }
            }
        }
        i += 1;
    }
    used
}

} // verus!
