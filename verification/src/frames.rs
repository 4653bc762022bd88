//! What a client sees of a run.
//!
//! A client holds an array of its own and writes every progress frame into it.
use crate::buckets::{
    concat, contents, lemma_offset_grows, lemma_offset_step, lemma_part_in_concat, offset,
    parts_sorted,
};
use crate::float32::sorted_by_value;
use crate::gpu::GpuContext;
use crate::ratio::Ratio;
use crate::sort::{
    is_batch_of, is_completed, law_gpu_batch_sorts, shows, shows_parts, GpuBatch, SortEvent,
};
use vstd::prelude::*;

verus! {

/// `state` after `values` are written at `indices`, in this order.
pub open spec fn written(state: Seq<u32>, indices: Seq<usize>, values: Seq<u32>) -> Seq<u32>
    decreases indices.len(),
{
    if indices.len() == 0 {
        state
    } else {
        written(state, indices.drop_last(), values).update(
            indices.last() as int,
            values[indices.len() - 1],
        )
    }
}

/// `state` after all progress frames among `events` are written into it.
pub open spec fn replayed(state: Seq<u32>, events: Seq<SortEvent>) -> Seq<u32>
    decreases events.len(),
{
    if events.len() == 0 {
        state
    } else {
        let before = replayed(state, events.drop_last());
        match events.last() {
            SortEvent::Progress { indices, values } => written(before, indices@, values@),
            SortEvent::Done(_) => before,
        }
    }
}

proof fn lemma_written_stretch(state: Seq<u32>, indices: Seq<usize>, values: Seq<u32>, start: int)
    requires
        0 <= start,
        start + indices.len() <= state.len(),
        indices.len() <= values.len(),
        forall|x: int| 0 <= x < indices.len() ==> #[trigger] indices[x] == start + x,
    ensures
        written(state, indices, values).len() == state.len(),
        forall|p: int|
            0 <= p < state.len() ==> #[trigger] written(state, indices, values)[p] == if start <= p
                < start + indices.len() {
                values[p - start]
            } else {
                state[p]
            },
    decreases indices.len(),
{
    if indices.len() > 0 {
        let rest = indices.drop_last();
        assert forall|x: int| 0 <= x < rest.len() implies #[trigger] rest[x] == start + x by {
            assert(rest[x] == indices[x]);
        }
        lemma_written_stretch(state, rest, values, start);
        assert(indices.last() == start + (indices.len() - 1));
    }
}

/// The frames of a run rebuild the array that the run leaves behind, whatever the client's
/// array of that length held before.
pub proof fn law_frames_rebuild(state: Seq<u32>, events: Seq<SortEvent>, parts: Seq<Seq<u32>>)
    requires
        shows_parts(events, parts),
        state.len() == concat(parts).len(),
    ensures
        replayed(state, events) == concat(parts),
{
    lemma_replayed_prefix(state, events, parts, parts.len() as int);
    lemma_offset_grows(parts, parts.len() as int, parts.len() as int);
    assert(events.take(parts.len() as int) =~= events);
    assert(parts.take(parts.len() as int) =~= parts);
    assert(replayed(state, events) =~= concat(parts));
}

proof fn lemma_replayed_prefix(
    state: Seq<u32>,
    events: Seq<SortEvent>,
    parts: Seq<Seq<u32>>,
    k: int,
)
    requires
        shows_parts(events, parts),
        state.len() == concat(parts).len(),
        0 <= k <= parts.len(),
    ensures
        replayed(state, events.take(k)).len() == state.len(),
        forall|p: int|
            0 <= p < offset(parts, k) ==> #[trigger] replayed(state, events.take(k))[p] == concat(
                parts,
            )[p],
    decreases k,
{
    lemma_offset_grows(parts, 0, k);
    if k > 0 {
        let i = k - 1;
        let before = replayed(state, events.take(i));
        lemma_replayed_prefix(state, events, parts, i);
        lemma_offset_grows(parts, 0, i);
        lemma_offset_step(parts, i);
        lemma_offset_grows(parts, k, k);
        lemma_part_in_concat(parts, i);
        assert(events.take(k).drop_last() =~= events.take(i));
        assert(shows(events[i], offset(parts, i), parts[i]));
        let indices = events[i]->indices@;
        lemma_written_stretch(before, indices, parts[i], offset(parts, i));
        assert(replayed(state, events.take(k)) == written(before, indices, parts[i]));
        let all = concat(parts);
        assert forall|p: int| 0 <= p < offset(parts, k) implies #[trigger] replayed(
            state,
            events.take(k),
        )[p] == all[p] by {
            if p >= offset(parts, i) {
                let x = p - offset(parts, i);
                assert(parts[i][x] == all.subrange(offset(parts, i), offset(parts, k))[x]);
            }
        }
    }
}

/// A run over the GPU sorts its array if the GPU sorts every bucket that it is handed: the
/// array then holds the elements that it held before, in ascending order, and the frames
/// rebuild it.
pub proof fn law_gpu_run_sorts(
    data: Seq<u32>,
    threads: int,
    gpu: GpuContext,
    bucket_multiplier: Ratio,
    batch: GpuBatch,
    sorted: Seq<Seq<u32>>,
    after: Seq<Seq<u32>>,
    frames: Seq<SortEvent>,
)
    requires
        is_batch_of(batch, data, threads, gpu, bucket_multiplier),
        parts_sorted(contents(batch.gpu_padded@), sorted),
        is_completed(contents(batch.buckets@), batch.gpu_indices@, sorted, after),
        shows_parts(frames, after),
    ensures
        sorted_by_value(concat(after)),
        concat(after).to_multiset() == data.to_multiset(),
        replayed(data, frames) == concat(after),
{
    law_gpu_batch_sorts(batch, sorted, after);
    crate::permutation::lemma_same_multiset(concat(after), data);
    law_frames_rebuild(data, frames, after);
}

} // verus!
