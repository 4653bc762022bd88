//! The hybrid sort.
//!
//! Tiny arrays are sorted directly on one thread. Everything else goes to the parallel radix
//! sort, unless calibration has found the GPU to be faster on this machine: then arrays that
//! are large enough are cut into buckets of ascending value ranges, the large buckets are
//! sorted on the GPU in one batch, and the sorted buckets are written back one after the
//! other.
use crate::buckets::{
    concat, contents, law_padding_sorts_to_the_end, law_sorted_buckets_merge,
    lemma_concat_of_stretches, lemma_offset_grows, lemma_offset_step, offset, padded, parts_ascend,
    parts_sorted,
};
use crate::float32::{
    is_nan, law_key_sorted_is_value_sorted, no_nan, sort_unstable, sorted_by_key, sorted_by_value,
    value, values, INFINITY_BITS,
};
use crate::gpu::{is_power_of_two, law_powers_of_two, next_power_of_two, GpuContext};
use crate::kernels::MAX_GRID;
use crate::parallel::{install, par_slices_zip_map, pool_threads, thread_count};
use crate::partition::{is_cut, partition_into_buckets};
use crate::permutation::{lemma_mapped_multiset, lemma_same_multiset};
use crate::radix::{copy_into, radix_sorted};
use crate::ratio::{law_rounds_to_nearest, rounded_product, Ratio};
use std::time::{Duration, Instant};
use vstd::prelude::*;
use vstd::seq_lib::lemma_sorted_unique;

verus! {

/// Arrays smaller than this are sorted directly on one thread.
pub const DIRECT_SORT_THRESHOLD: usize = 15_000;

/// Arrays smaller than this never take the GPU path.
pub const GPU_THRESHOLD: usize = 50_000;

/// Buckets smaller than this are sorted on the CPU.
pub const GPU_BUCKET_MIN: usize = 256;

/// A point in time.
#[verifier::external_type_specification]
#[verifier::external_body]
pub struct ExInstant(std::time::Instant);

/// Calls `std::time::Instant::now`. Nothing is claimed of the time.
#[verifier::external_body]
pub(crate) fn now() -> Instant {
    Instant::now()
}

/// Calls `std::time::Instant::elapsed`. Nothing is claimed of the time.
#[verifier::external_body]
pub(crate) fn elapsed_since(start: &Instant) -> Duration {
    start.elapsed()
}

/// Reads the clock once `done` exists, and returns the time since `start`.
pub(crate) fn time_since<T: ?Sized>(start: &Instant, done: &T) -> (elapsed: Duration)
    ensures
        call_ensures(elapsed_since, (start,), elapsed),
{
    elapsed_since(start)
}

/// Whether `elapsed` is the time from `start` to a reading of the clock that was made once
/// `done` existed: the reading was handed `done`.
pub closed spec fn is_time_since<T: ?Sized>(start: Instant, done: &T, elapsed: Duration) -> bool {
    call_ensures(time_since::<T>, (&start, done), elapsed)
}

/// Whether `start` is a reading of the clock.
pub closed spec fn is_reading(start: Instant) -> bool {
    call_ensures(now, (), start)
}

pub(crate) proof fn lemma_is_reading(start: Instant)
    requires
        call_ensures(now, (), start),
    ensures
        is_reading(start),
{
}

pub(crate) proof fn lemma_is_time_since<T: ?Sized>(start: Instant, done: &T, elapsed: Duration)
    requires
        call_ensures(time_since::<T>, (&start, done), elapsed),
    ensures
        is_time_since(start, done, elapsed),
{
}

/// What a finished run reports.
#[derive(Debug)]
pub struct SortRunStats {
    pub elapsed: Duration,
    pub elements: usize,
    pub algorithm: &'static str,
    pub threads_used: usize,
    pub gpu_used: bool,
    pub gpu_device: Option<String>,
    /// The bucket multiplier of a run that took the GPU path.
    pub bucket_multiplier: Option<Ratio>,
}

impl Clone for SortRunStats {
    fn clone(&self) -> (copy: Self)
        ensures
            copy.elapsed == self.elapsed,
            copy.elements == self.elements,
            copy.algorithm@ == self.algorithm@,
            copy.threads_used == self.threads_used,
            copy.gpu_used == self.gpu_used,
            copy.gpu_device is Some == self.gpu_device is Some,
            self.gpu_device is Some ==> copy.gpu_device->0@ == self.gpu_device->0@,
            copy.bucket_multiplier == self.bucket_multiplier,
    {
        SortRunStats {
            elapsed: self.elapsed,
            elements: self.elements,
            algorithm: self.algorithm,
            threads_used: self.threads_used,
            gpu_used: self.gpu_used,
            gpu_device: match &self.gpu_device {
                Some(name) => Some(name.clone()),
                None => None,
            },
            bucket_multiplier: self.bucket_multiplier,
        }
    }
}

/// What a run reports, in the order of the reports.
#[derive(Debug)]
pub enum SortEvent {
    /// The values that now stand at `indices`.
    Progress { indices: Vec<usize>, values: Vec<u32> },
    /// The run is finished.
    Done(SortRunStats),
}

/// How an array is sorted.
#[derive(Clone, Copy, Debug, PartialEq, Eq, Structural)]
pub enum Strategy {
    Trivial,
    Direct,
    Radix,
    Gpu,
}

/// The strategy for `n` elements.
pub open spec fn strategy(n: int, gpu_present: bool, bucket_multiplier: Ratio) -> Strategy {
    if n < 2 {
        Strategy::Trivial
    } else if n < DIRECT_SORT_THRESHOLD {
        Strategy::Direct
    } else if gpu_present && n >= GPU_THRESHOLD && bucket_multiplier.numer > 0 {
        Strategy::Gpu
    } else {
        Strategy::Radix
    }
}

/// The size alone decides unless it is large, and then the GPU and its multiplier do: an array
/// goes over the GPU exactly if it has 50,000 elements or more, there is a GPU, and the
/// multiplier is positive; every other array goes by its size.
pub proof fn law_strategy_by_size(n: int, gpu_present: bool, bucket_multiplier: Ratio)
    requires
        0 <= n,
    ensures
        ({
            let s = strategy(n, gpu_present, bucket_multiplier);
            let gpu = gpu_present && n >= 50_000 && bucket_multiplier.numer > 0;
            &&& s == Strategy::Gpu <==> gpu
            &&& s == Strategy::Trivial <==> n < 2
            &&& s == Strategy::Direct <==> 2 <= n < 15_000
            &&& s == Strategy::Radix <==> n >= 15_000 && !gpu
        }),
{
}

/// Once an array is large enough for a strategy for large arrays, larger ones are too: they
/// never go back to a strategy for smaller ones, and never leave the GPU.
pub proof fn law_strategy_grows(n: int, m: int, gpu_present: bool, bucket_multiplier: Ratio)
    requires
        0 <= n <= m,
    ensures
        ({
            let (a, b) = (
                strategy(n, gpu_present, bucket_multiplier),
                strategy(m, gpu_present, bucket_multiplier),
            );
            &&& a == Strategy::Gpu ==> b == Strategy::Gpu
            &&& a == Strategy::Radix ==> b == Strategy::Radix || b == Strategy::Gpu
            &&& a == Strategy::Direct ==> b != Strategy::Trivial
        }),
{
}

/// Neither the GPU nor the size of the multiplier matters otherwise: without a GPU every
/// multiplier gives the same strategy, and with one every positive multiplier does.
pub proof fn law_strategy_ignores_the_rest(n: int, gpu_present: bool, x: Ratio, y: Ratio)
    requires
        0 <= n,
        !gpu_present || (x.numer > 0 <==> y.numer > 0),
    ensures
        strategy(n, gpu_present, x) == strategy(n, gpu_present, y),
        x.numer == 0 ==> strategy(n, gpu_present, x) == strategy(n, false, y),
{
}

/// The bucket multiplier before calibration: zero, which keeps the GPU out of use.
pub fn default_bucket_multiplier() -> (multiplier: Ratio)
    ensures
        multiplier == (Ratio { numer: 0, denom: 1 }),
{
    Ratio { numer: 0, denom: 1 }
}

/// Picks the strategy for an array.
pub fn choose_strategy(n: usize, gpu_present: bool, bucket_multiplier: Ratio) -> (s: Strategy)
    requires
        bucket_multiplier.wf(),
    ensures
        s == strategy(n as int, gpu_present, bucket_multiplier),
{
    if n < 2 {
        Strategy::Trivial
    } else if n < DIRECT_SORT_THRESHOLD {
        Strategy::Direct
    } else if gpu_present && n >= GPU_THRESHOLD && bucket_multiplier.is_positive() {
        Strategy::Gpu
    } else {
        Strategy::Radix
    }
}

/// The number of buckets of a run: the threads times the multiplier, rounded, and at least
/// one.
pub open spec fn bucket_count(threads: int, bucket_multiplier: Ratio) -> int {
    let product = rounded_product(threads, bucket_multiplier);
    if product < 1 {
        1
    } else if product > usize::MAX {
        usize::MAX as int
    } else {
        product
    }
}

/// The number of buckets is the whole number next to the threads times the multiplier, halves
/// rounded upwards, but at least one, and no more than a machine word holds.
pub proof fn law_bucket_count_is_nearest(threads: int, bucket_multiplier: Ratio)
    requires
        0 <= threads,
        bucket_multiplier.wf(),
    ensures
        ({
            let count = bucket_count(threads, bucket_multiplier);
            let twice = 2 * (threads * bucket_multiplier.numer);
            &&& 1 <= count <= usize::MAX
            &&& count > 1 ==> (2 * count - 1) * bucket_multiplier.denom <= twice
            &&& count < usize::MAX ==> twice < (2 * count + 1) * bucket_multiplier.denom
        }),
{
    law_rounds_to_nearest(threads, bucket_multiplier);
    let count = bucket_count(threads, bucket_multiplier);
    let product = rounded_product(threads, bucket_multiplier);
    let d = bucket_multiplier.denom as int;
    if product < 1 {
        assert((2 * product + 1) * d <= (2 * count + 1) * d) by (nonlinear_arith)
            requires
                product <= count,
                d > 0,
        ;
    } else if product > usize::MAX {
        assert((2 * count - 1) * d <= (2 * product - 1) * d) by (nonlinear_arith)
            requires
                count <= product,
                d > 0,
        ;
    }
}

/// The number of buckets of a run.
pub fn num_buckets(threads: usize, bucket_multiplier: Ratio) -> (count: usize)
    requires
        bucket_multiplier.wf(),
    ensures
        count == bucket_count(threads as int, bucket_multiplier),
{
    let product = bucket_multiplier.scaled(threads);
    if product < 1 {
        1
    } else {
        product
    }
}

/// The name under which a strategy is reported.
pub open spec fn algorithm_name(s: Strategy) -> Seq<char> {
    match s {
        Strategy::Trivial => "trivial"@,
        Strategy::Direct => "direct-sort-tiny"@,
        Strategy::Radix => "cpu-parallel-radix"@,
        Strategy::Gpu => "gsa-hybrid-sample-bitonic"@,
    }
}

/// Whether `stats` are the report of a run without the GPU. The elapsed time is whatever the
/// clock said.
pub open spec fn reports_cpu_run(
    stats: SortRunStats,
    elements: int,
    s: Strategy,
    threads: int,
) -> bool {
    &&& stats.elements == elements
    &&& stats.algorithm@ == algorithm_name(s)
    &&& stats.threads_used == threads
    &&& !stats.gpu_used
    &&& stats.gpu_device is None
    &&& stats.bucket_multiplier is None
}

/// Whether `stats` are the report of a run with the GPU.
pub open spec fn reports_gpu_run(
    stats: SortRunStats,
    elements: int,
    threads: int,
    device: Seq<char>,
    bucket_multiplier: Ratio,
) -> bool {
    &&& stats.elements == elements
    &&& stats.algorithm@ == algorithm_name(Strategy::Gpu)
    &&& stats.threads_used == threads
    &&& stats.gpu_used
    &&& stats.gpu_device is Some
    &&& stats.gpu_device->0@ == device
    &&& stats.bucket_multiplier == Some(bucket_multiplier)
}

/// A report without the GPU says how many elements were sorted, by which algorithm and on how
/// many threads, and that there was no GPU in it.
pub proof fn law_cpu_report(stats: SortRunStats, elements: int, s: Strategy, threads: int)
    requires
        reports_cpu_run(stats, elements, s, threads),
    ensures
        stats.elements == elements,
        stats.threads_used == threads,
        !stats.gpu_used,
        stats.gpu_device is None,
        stats.bucket_multiplier is None,
        s == Strategy::Trivial ==> stats.algorithm@ == "trivial"@,
        s == Strategy::Direct ==> stats.algorithm@ == "direct-sort-tiny"@,
        s == Strategy::Radix ==> stats.algorithm@ == "cpu-parallel-radix"@,
{
}

/// A report with the GPU says how many elements were sorted, on how many threads, on which
/// device and with which multiplier.
pub proof fn law_gpu_report(
    stats: SortRunStats,
    elements: int,
    threads: int,
    device: Seq<char>,
    bucket_multiplier: Ratio,
)
    requires
        reports_gpu_run(stats, elements, threads, device, bucket_multiplier),
    ensures
        stats.elements == elements,
        stats.algorithm@ == "gsa-hybrid-sample-bitonic"@,
        stats.threads_used == threads,
        stats.gpu_used,
        stats.gpu_device is Some,
        stats.gpu_device->0@ == device,
        stats.bucket_multiplier == Some(bucket_multiplier),
{
}

/// The report of a run without the GPU.
fn cpu_stats(elapsed: Duration, elements: usize, s: Strategy, threads: usize) -> (stats:
    SortRunStats)
    ensures
        reports_cpu_run(stats, elements as int, s, threads as int),
        stats.elapsed == elapsed,
{
    SortRunStats {
        elapsed,
        elements,
        algorithm: match s {
            Strategy::Trivial => "trivial",
            Strategy::Direct => "direct-sort-tiny",
            Strategy::Radix => "cpu-parallel-radix",
            Strategy::Gpu => "gsa-hybrid-sample-bitonic",
        },
        threads_used: threads,
        gpu_used: false,
        gpu_device: None,
        bucket_multiplier: None,
    }
}

/// Whether a strategy compares numbers, so that it cannot order not-a-number patterns.
pub open spec fn compares_numbers(s: Strategy) -> bool {
    s == Strategy::Direct || s == Strategy::Gpu
}

/// Whether `after` is what a sort without the GPU makes of `before`.
pub open spec fn is_cpu_sorted(before: Seq<u32>, after: Seq<u32>, s: Strategy) -> bool {
    &&& after.to_multiset() == before.to_multiset()
    &&& sorted_by_value(after)
    &&& s == Strategy::Trivial ==> after == before
    &&& s == Strategy::Radix ==> sorted_by_key(after)
}

/// Sorts by one of the strategies that need no GPU.
fn sort_on_cpu(data: &mut [u32], pool: &rayon::ThreadPool, s: Strategy)
    requires
        s != Strategy::Gpu,
        s == Strategy::Trivial ==> old(data)@.len() < 2,
        s == Strategy::Direct ==> no_nan(old(data)@),
    ensures
        is_cpu_sorted(old(data)@, final(data)@, s),
        final(data)@.len() == old(data)@.len(),
{
    match s {
        Strategy::Direct => {
            sort_unstable(data);
        },
        Strategy::Radix => {
            let unsorted: &[u32] = &*data;
            let run = || -> (sorted: Vec<u32>)
                ensures
                    sorted@.to_multiset() == unsorted@.to_multiset(),
                    sorted_by_key(sorted@),
                { radix_sorted(unsorted) };
            let sorted = install(pool, run);
            proof {
                lemma_same_multiset(data@, sorted@);
                law_key_sorted_is_value_sorted(sorted@);
            }
            copy_into(data, &sorted);
        },
        _ => {},
    }
    proof {
        lemma_same_multiset(data@, old(data)@);
    }
}

/// Every sort without the GPU keeps the elements and leaves their numbers in ascending order,
/// and none changes an array that has nothing to sort.
pub proof fn law_cpu_sorts(before: Seq<u32>, after: Seq<u32>, s: Strategy)
    requires
        is_cpu_sorted(before, after, s),
    ensures
        after.to_multiset() == before.to_multiset(),
        after.len() == before.len(),
        forall|i: int, j: int|
            0 <= i <= j < after.len() ==> value(#[trigger] after[i]) <= value(#[trigger] after[j]),
        before.len() < 2 ==> after == before,
{
    lemma_same_multiset(after, before);
    if before.len() == 1 {
        assert(before.contains(after[0]));
    }
    if before.len() < 2 {
        assert(after =~= before);
    }
}

/// A sorted copy of `data`, made once the clock was read for `start`.
fn sorted_on_cpu(start: &Instant, data: &[u32], pool: &rayon::ThreadPool, s: Strategy) -> (sorted:
    Vec<u32>)
    requires
        s != Strategy::Gpu,
        s == Strategy::Trivial ==> data@.len() < 2,
        s == Strategy::Direct ==> no_nan(data@),
    ensures
        is_cpu_sorted(data@, sorted@, s),
        sorted@.len() == data@.len(),
{
    let mut sorted = vstd::slice::slice_to_vec(data);
    sort_on_cpu(sorted.as_mut_slice(), pool, s);
    sorted
}

/// Whether `elapsed` spans the sort of `before` into `after`: the clock was read before the
/// sort began, which was handed that reading, and again once the sorted array existed.
pub closed spec fn spans_cpu_sort(
    before: &[u32],
    pool: &rayon::ThreadPool,
    s: Strategy,
    after: &[u32],
    elapsed: Duration,
) -> bool {
    exists|start: Instant, sorted: Vec<u32>|
        {
            &&& is_reading(start)
            &&& #[trigger] call_ensures(sorted_on_cpu, (&start, before, pool, s), sorted)
            &&& sorted@ == after@
            &&& is_time_since(start, after, elapsed)
        }
}

/// Whether `sorted` is what a sort without the GPU made of `before`, in a run that was handed
/// the reading `start` when it began.
pub closed spec fn is_cpu_run(
    start: Instant,
    before: &[u32],
    pool: &rayon::ThreadPool,
    s: Strategy,
    sorted: Vec<u32>,
) -> bool {
    call_ensures(sorted_on_cpu, (&start, before, pool, s), sorted)
}

/// The time that a run without the GPU reports runs from before the sort began to after the
/// array was sorted: there is a reading of the clock that the sort was handed when it began,
/// and the time is the one from that reading to another one that was handed the sorted array.
pub proof fn law_cpu_time_spans_the_sort(
    before: &[u32],
    pool: &rayon::ThreadPool,
    s: Strategy,
    after: &[u32],
    elapsed: Duration,
)
    requires
        spans_cpu_sort(before, pool, s, after, elapsed),
    ensures
        exists|start: Instant, sorted: Vec<u32>|
            {
                &&& is_reading(start)
                &&& #[trigger] is_cpu_run(start, before, pool, s, sorted)
                &&& sorted@ == after@
                &&& is_time_since(start, after, elapsed)
            },
{
    let (start, sorted) = choose|start: Instant, sorted: Vec<u32>|
        {
            &&& is_reading(start)
            &&& #[trigger] call_ensures(sorted_on_cpu, (&start, before, pool, s), sorted)
            &&& sorted@ == after@
            &&& is_time_since(start, after, elapsed)
        };
    assert(is_cpu_run(start, before, pool, s, sorted));
}

/// Whether `batch` was prepared once the clock was read for its start.
pub closed spec fn is_prepared_after_start(
    batch: GpuBatch,
    data: &[u32],
    pool: &rayon::ThreadPool,
    threads: usize,
    gpu: &GpuContext,
    bucket_multiplier: Ratio,
) -> bool {
    &&& is_reading(batch.start)
    &&& call_ensures(
        prepare_batch,
        (data, pool, batch.start, threads, gpu, bucket_multiplier),
        batch,
    )
}

/// Whether `batch` is what was prepared of `data`, in a run that was handed the reading `start`
/// when it began.
pub closed spec fn is_preparation(
    start: Instant,
    data: &[u32],
    pool: &rayon::ThreadPool,
    threads: usize,
    gpu: &GpuContext,
    bucket_multiplier: Ratio,
    batch: GpuBatch,
) -> bool {
    call_ensures(prepare_batch, (data, pool, start, threads, gpu, bucket_multiplier), batch)
}

/// The time of a run over the GPU starts before the array is cut into buckets: the batch's start
/// is a reading of the clock that its preparation was handed when it began.
pub proof fn law_gpu_time_starts_before_the_cut(
    batch: GpuBatch,
    data: &[u32],
    pool: &rayon::ThreadPool,
    threads: usize,
    gpu: &GpuContext,
    bucket_multiplier: Ratio,
)
    requires
        is_prepared_after_start(batch, data, pool, threads, gpu, bucket_multiplier),
    ensures
        is_reading(batch.start),
        is_preparation(batch.start, data, pool, threads, gpu, bucket_multiplier, batch),
{
}

/// Only sorts that compare numbers need numbers: an array that has nothing to compare, or that
/// the radix sort takes, may hold any patterns. Every array that can be padded to a power of
/// two can go over the GPU.
pub proof fn law_only_comparisons_need_numbers(s: Strategy, len: int)
    requires
        is_power_of_two(len),
        len <= usize::MAX,
    ensures
        compares_numbers(s) <==> s == Strategy::Direct || s == Strategy::Gpu,
        len <= MAX_ELEMENTS,
{
    let e = choose|e: nat| len == #[trigger] vstd::arithmetic::power2::pow2(e);
    vstd::arithmetic::power2::lemma2_to64();
    vstd::arithmetic::power2::lemma2_to64_rest();
    if usize::BITS == 32 {
        if e > 31 {
            if e > 32 {
                vstd::arithmetic::power2::lemma_pow2_strictly_increases(32, e);
            }
        } else if e < 31 {
            vstd::arithmetic::power2::lemma_pow2_strictly_increases(e, 31);
        }
    } else {
        if e > 63 {
            if e > 64 {
                vstd::arithmetic::power2::lemma_pow2_strictly_increases(64, e);
            }
        } else if e < 63 {
            vstd::arithmetic::power2::lemma_pow2_strictly_increases(e, 63);
        }
    }
}

/// However an array is sorted, on one thread, by the radix sort or over the GPU, the numbers
/// come out in the same order: the choice of the strategy shows in the time alone. Only zeros
/// of different sign, which are equal numbers, may trade places.
pub proof fn law_strategies_agree(before: Seq<u32>, a: Seq<u32>, b: Seq<u32>)
    requires
        a.to_multiset() == before.to_multiset(),
        b.to_multiset() == before.to_multiset(),
        sorted_by_value(a),
        sorted_by_value(b),
    ensures
        values(a) == values(b),
{
    let leq = |x: int, y: int| x <= y;
    let number = |bits: u32| value(bits);
    lemma_mapped_multiset(a, b, number);
    assert(a.map_values(number) =~= values(a));
    assert(b.map_values(number) =~= values(b));
    lemma_sorted_unique(values(a), values(b), leq);
}

/// The largest number of elements that an array can have once it is padded to a power of two.
pub const MAX_ELEMENTS: usize = usize::MAX / 2 + 1;

/// Whether `len` is the smallest power of two that is at least `n`.
pub open spec fn is_padded_len(len: int, n: int) -> bool {
    &&& is_power_of_two(len)
    &&& n <= len
    &&& forall|p: int| #[trigger] is_power_of_two(p) && n <= p ==> len <= p
}

/// Whether `after` are the buckets of `before` once those that are too small for the GPU are
/// sorted.
pub open spec fn is_locally_sorted(before: Seq<Seq<u32>>, after: Seq<Seq<u32>>) -> bool {
    &&& after.len() == before.len()
    &&& forall|i: int|
        0 <= i < before.len() ==> if before[i].len() < GPU_BUCKET_MIN {
            (#[trigger] after[i]).to_multiset() == before[i].to_multiset() && sorted_by_value(
                after[i],
            )
        } else {
            after[i] == before[i]
        }
}

/// Whether `i` is one of `indices`.
pub open spec fn is_among(indices: Seq<usize>, i: int) -> bool {
    exists|m: int| 0 <= m < indices.len() && #[trigger] indices[m] == i
}

/// Whether `indices` are the numbers, below `upto`, of the buckets that go to the GPU, in
/// ascending order.
pub open spec fn are_gpu_indices(parts: Seq<Seq<u32>>, upto: int, indices: Seq<usize>) -> bool {
    &&& forall|m: int|
        0 <= m < indices.len() ==> (#[trigger] indices[m]) < upto && parts[indices[m] as int].len()
            >= GPU_BUCKET_MIN
    &&& forall|i: int|
        0 <= i < upto && (#[trigger] parts[i]).len() >= GPU_BUCKET_MIN ==> is_among(indices, i)
    &&& forall|m: int, l: int|
        0 <= m < l < indices.len() ==> #[trigger] indices[m] < #[trigger] indices[l]
}

/// Whether `padding` are the padded copies of the buckets that go to the GPU.
pub open spec fn are_gpu_buckets(
    parts: Seq<Seq<u32>>,
    indices: Seq<usize>,
    padding: Seq<Seq<u32>>,
) -> bool {
    &&& padding.len() == indices.len()
    &&& forall|m: int|
        0 <= m < indices.len() ==> is_padded_copy(
            #[trigger] padding[m],
            parts[indices[m] as int],
        )
}

/// Whether `copy` is `bucket` padded to a power of two.
pub open spec fn is_padded_copy(copy: Seq<u32>, bucket: Seq<u32>) -> bool {
    &&& is_padded_len(copy.len() as int, bucket.len() as int)
    &&& copy == padded(bucket, copy.len() as int)
}

/// A padded copy of a bucket.
fn pad_bucket(bucket: &Vec<u32>) -> (copy: Vec<u32>)
    requires
        bucket@.len() <= MAX_ELEMENTS,
    ensures
        is_padded_copy(copy@, bucket@),
{
    let padded_len = next_power_of_two(bucket.len());
    let mut copy: Vec<u32> = Vec::with_capacity(padded_len);
    let mut i: usize = 0;
    while i < padded_len
        invariant
            bucket@.len() <= padded_len,
            i <= padded_len,
            copy@ == padded(bucket@, padded_len as int).take(i as int),
        decreases padded_len - i,
    {
        let v = if i < bucket.len() {
            bucket[i]
        } else {
            INFINITY_BITS
        };
        copy.push(v);
        assert(copy@ =~= padded(bucket@, padded_len as int).take(i + 1));
        i = i + 1;
    }
    assert(copy@ =~= padded(bucket@, padded_len as int));
    copy
}

/// The buckets of a run on their way to the GPU.
#[derive(Debug)]
pub struct GpuBatch {
    pub start: Instant,
    pub threads_used: usize,
    pub device_name: String,
    pub bucket_multiplier: Ratio,
    /// All buckets; the ones that are too small for the GPU are already sorted.
    pub buckets: Vec<Vec<u32>>,
    /// The numbers of the buckets that go to the GPU.
    pub gpu_indices: Vec<usize>,
    /// Padded copies of the buckets that go to the GPU.
    pub gpu_padded: Vec<Vec<u32>>,
}

impl GpuBatch {
    /// The buckets' elements, in the order of the buckets.
    pub open spec fn elements(&self) -> Seq<u32> {
        concat(contents(self.buckets@))
    }

    /// Whether the batch is ready for the GPU.
    pub open spec fn wf(&self) -> bool {
        &&& no_nan(self.elements())
        &&& self.elements().len() <= MAX_ELEMENTS
        &&& parts_ascend(contents(self.buckets@))
        &&& forall|i: int|
            0 <= i < self.buckets@.len() && self.buckets@[i]@.len() < GPU_BUCKET_MIN
                ==> sorted_by_value((#[trigger] self.buckets@[i])@)
        &&& are_gpu_indices(
            contents(self.buckets@),
            self.buckets@.len() as int,
            self.gpu_indices@,
        )
        &&& are_gpu_buckets(
            contents(self.buckets@),
            self.gpu_indices@,
            contents(self.gpu_padded@),
        )
    }
}

/// Sorts the buckets that are too small for the GPU, and pads copies of the others.
pub fn sort_small_buckets(buckets: &mut Vec<Vec<u32>>) -> (gpu: (Vec<usize>, Vec<Vec<u32>>))
    requires
        forall|i: int|
            0 <= i < old(buckets)@.len() ==> {
                &&& no_nan((#[trigger] old(buckets)@[i])@)
                &&& old(buckets)@[i]@.len() <= MAX_ELEMENTS
            },
    ensures
        is_locally_sorted(contents(old(buckets)@), contents(final(buckets)@)),
        are_gpu_indices(contents(final(buckets)@), final(buckets)@.len() as int, gpu.0@),
        are_gpu_buckets(contents(final(buckets)@), gpu.0@, contents(gpu.1@)),
{
    let ghost before = buckets@;
    let mut gpu_indices: Vec<usize> = Vec::new();
    let mut gpu_padded: Vec<Vec<u32>> = Vec::new();
    let mut i: usize = 0;
    while i < buckets.len()
        invariant
            buckets@.len() == before.len(),
            i <= before.len(),
            forall|x: int|
                0 <= x < before.len() ==> {
                    &&& no_nan((#[trigger] before[x])@)
                    &&& before[x]@.len() <= MAX_ELEMENTS
                },
            forall|x: int|
                0 <= x < i ==> if before[x]@.len() < GPU_BUCKET_MIN {
                    (#[trigger] buckets@[x])@.to_multiset() == before[x]@.to_multiset()
                        && sorted_by_value(buckets@[x]@) && buckets@[x]@.len() == before[x]@.len()
                } else {
                    buckets@[x] == before[x]
                },
            forall|x: int| i <= x < before.len() ==> #[trigger] buckets@[x] == before[x],
            are_gpu_indices(contents(before), i as int, gpu_indices@),
            are_gpu_buckets(contents(before), gpu_indices@, contents(gpu_padded@)),
        decreases before.len() - i,
    {
        let ghost indices = gpu_indices@;
        let ghost padding = contents(gpu_padded@);
        let len = buckets[i].len();
        if len < 2 {
        } else if len < GPU_BUCKET_MIN {
            let bucket: &mut Vec<u32> = &mut buckets[i];
            sort_unstable(bucket.as_mut_slice());
            proof {
                lemma_same_multiset(buckets@[i as int]@, before[i as int]@);
            }
        } else {
            gpu_padded.push(pad_bucket(&buckets[i]));
            gpu_indices.push(i);
        }
        proof {
            assert forall|x: int|
                0 <= x < i + 1 && (#[trigger] contents(before)[x]).len()
                    >= GPU_BUCKET_MIN implies is_among(gpu_indices@, x) by {
                if x < i {
                    assert(is_among(indices, x));
                    let m = choose|m: int| 0 <= m < indices.len() && #[trigger] indices[m] == x;
                    assert(gpu_indices@[m] == x);
                } else {
                    assert(gpu_indices@[gpu_indices@.len() - 1] == x);
                }
            }
            assert forall|m: int| 0 <= m < gpu_indices@.len() implies is_padded_copy(
                #[trigger] contents(gpu_padded@)[m],
                contents(before)[gpu_indices@[m] as int],
            ) by {
                if m < indices.len() {
                    assert(contents(gpu_padded@)[m] == padding[m]);
                }
            }
        }
        i = i + 1;
    }
    proof {
        let after = contents(buckets@);
        let was = contents(before);
        assert forall|m: int| 0 <= m < gpu_indices@.len() implies (#[trigger] gpu_indices@[m]) < i
            && after[gpu_indices@[m] as int].len() >= GPU_BUCKET_MIN && after[gpu_indices@[m] as int]
            == was[gpu_indices@[m] as int] by {
            assert(was[gpu_indices@[m] as int].len() >= GPU_BUCKET_MIN);
            assert(buckets@[gpu_indices@[m] as int] == before[gpu_indices@[m] as int]);
        }
        assert forall|x: int| 0 <= x < i && (#[trigger] after[x]).len()
            >= GPU_BUCKET_MIN implies is_among(gpu_indices@, x) by {
            assert(after[x] == buckets@[x]@);
            assert(was[x].len() >= GPU_BUCKET_MIN);
        }
        assert forall|m: int| 0 <= m < gpu_indices@.len() implies is_padded_copy(
            #[trigger] contents(gpu_padded@)[m],
            after[gpu_indices@[m] as int],
        ) by {
            assert(after[gpu_indices@[m] as int] == was[gpu_indices@[m] as int]);
        }
        assert forall|x: int| 0 <= x < before.len() implies if was[x].len() < GPU_BUCKET_MIN {
            (#[trigger] after[x]).to_multiset() == was[x].to_multiset() && sorted_by_value(after[x])
        } else {
            after[x] == was[x]
        } by {
            assert(after[x] == buckets@[x]@);
        }
    }
    (gpu_indices, gpu_padded)
}

/// The sum of the lengths.
pub open spec fn total(lens: Seq<usize>) -> int
    decreases lens.len(),
{
    if lens.len() == 0 {
        0
    } else {
        total(lens.drop_last()) + lens.last()
    }
}

proof fn lemma_total_prefix(lens: Seq<usize>, i: int)
    requires
        0 <= i <= lens.len(),
    ensures
        0 <= total(lens.take(i)) <= total(lens),
        i < lens.len() ==> total(lens.take(i + 1)) == total(lens.take(i)) + lens[i],
    decreases lens.len() - i,
{
    if i < lens.len() {
        lemma_total_prefix(lens, i + 1);
        assert(lens.take(i + 1).drop_last() =~= lens.take(i));
    } else {
        assert(lens.take(i) =~= lens);
    }
    lemma_total_positive(lens.take(i));
}

proof fn lemma_total_positive(lens: Seq<usize>)
    ensures
        0 <= total(lens),
    decreases lens.len(),
{
    if lens.len() > 0 {
        lemma_total_positive(lens.drop_last());
    }
}

proof fn lemma_total_is_offset(parts: Seq<Seq<u32>>, lens: Seq<usize>, i: int)
    requires
        lens.len() == parts.len(),
        forall|x: int| 0 <= x < parts.len() ==> #[trigger] lens[x] == parts[x].len(),
        0 <= i <= parts.len(),
    ensures
        total(lens.take(i)) == offset(parts, i),
    decreases i,
{
    if i == 0 {
        assert(lens.take(0) =~= seq![]);
        assert(parts.take(0) =~= seq![]);
    } else {
        lemma_total_is_offset(parts, lens, i - 1);
        lemma_total_prefix(lens, i - 1);
        lemma_offset_step(parts, i - 1);
        assert(lens[i - 1] == parts[i - 1].len());
    }
}

/// Splits an array into consecutive mutable stretches of the given lengths. The array
/// afterwards consists of what the stretches hold then; what lies behind them stays as it is.
#[verifier::rlimit(60)]
#[verifier::spinoff_prover]
fn split_mut_by_lens<'a>(data: &'a mut [u32], lens: &Vec<usize>) -> (out: Vec<&'a mut [u32]>)
    requires
        total(lens@) <= old(data)@.len(),
    ensures
        out@.len() == lens@.len(),
        forall|i: int|
            0 <= i < lens@.len() ==> #[trigger] lens@[i] == out@[i]@.len() && out@[i]@ == old(
                data,
            )@.subrange(total(lens@.take(i)), total(lens@.take(i + 1))),
        (forall|i: int| 0 <= i < lens@.len() ==> #[trigger] lens@[i] == final(out@[i])@.len()) ==> {
            &&& final(data)@.len() == old(data)@.len()
            &&& forall|i: int|
                0 <= i < lens@.len() ==> #[trigger] final(data)@.subrange(
                    total(lens@.take(i)),
                    total(lens@.take(i + 1)),
                ) == final(out@[i])@
            &&& final(data)@.subrange(total(lens@), old(data)@.len() as int) == old(data)@.subrange(
                total(lens@),
                old(data)@.len() as int,
            )
        },
{
    let ghost before = data@;
    let mut rest: &'a mut [u32] = data;
    let mut out: Vec<&'a mut [u32]> = Vec::with_capacity(lens.len());
    let mut i: usize = 0;
    assert(lens@.take(0) =~= seq![]);
    assert(before.subrange(0, before.len() as int) =~= before);
    assert(after_borrow(data)@.subrange(0, after_borrow(data)@.len() as int) =~= after_borrow(
        data,
    )@);
    while i < lens.len()
        invariant
            i <= lens@.len(),
            total(lens@) <= before.len(),
            out@.len() == i,
            0 <= total(lens@.take(i as int)) <= before.len(),
            rest@ == before.subrange(total(lens@.take(i as int)), before.len() as int),
            forall|y: int|
                0 <= y < i ==> #[trigger] lens@[y] == out@[y]@.len() && out@[y]@ == before.subrange(
                    total(lens@.take(y)),
                    total(lens@.take(y + 1)),
                ),
            (forall|y: int| 0 <= y < i ==> #[trigger] lens@[y] == final(out@[y])@.len()) ==> {
                &&& total(lens@.take(i as int)) <= after_borrow(data)@.len()
                &&& after_borrow(data)@.subrange(
                    total(lens@.take(i as int)),
                    after_borrow(data)@.len() as int,
                ) == final(rest)@
                &&& forall|y: int|
                    0 <= y < i ==> #[trigger] after_borrow(data)@.subrange(
                        total(lens@.take(y)),
                        total(lens@.take(y + 1)),
                    ) == final(out@[y])@
            },
        decreases lens@.len() - i,
    {
        proof {
            lemma_total_prefix(lens@, i as int);
            lemma_total_prefix(lens@, i + 1);
        }
        let ghost done = out@;
        let ghost start = total(lens@.take(i as int));
        let ghost end = total(lens@.take(i + 1));
        let (a, b) = rest.split_at_mut(lens[i]);
        assert(a@ =~= before.subrange(start, end));
        assert(b@ =~= before.subrange(end, before.len() as int));
        out.push(a);
        assert(forall|y: int| 0 <= y < i ==> out@[y] == done[y]);
        assert((forall|y: int|
            0 <= y < i + 1 ==> #[trigger] lens@[y] == final(out@[y])@.len()) ==> (forall|y: int|
            0 <= y < i ==> #[trigger] lens@[y] == final(done[y])@.len()));
        assert((forall|y: int| 0 <= y < i + 1 ==> #[trigger] lens@[y] == final(out@[y])@.len())
            ==> lens@[i as int] == final(out@[i as int])@.len());
        assert((forall|y: int| 0 <= y < i + 1 ==> #[trigger] lens@[y] == final(out@[y])@.len()) ==> {
            let all = after_borrow(data)@;
            let tail = all.subrange(start, all.len() as int);
            &&& tail == final(out@[i as int])@ + final(b)@
            &&& end <= all.len()
            &&& all.subrange(start, end) =~= tail.subrange(0, end - start)
            &&& tail.subrange(0, end - start) =~= final(out@[i as int])@
            &&& all.subrange(end, all.len() as int) =~= tail.subrange(
                end - start,
                tail.len() as int,
            )
            &&& tail.subrange(end - start, tail.len() as int) =~= final(b)@
        });
        rest = b;
        i = i + 1;
    }
    assert(lens@.take(i as int) =~= lens@);
    out
}

/// The lengths of the buckets.
fn bucket_lens(buckets: &Vec<Vec<u32>>) -> (lens: Vec<usize>)
    ensures
        lens@.len() == buckets@.len(),
        forall|x: int|
            0 <= x < buckets@.len() ==> #[trigger] lens@[x] == contents(buckets@)[x].len(),
{
    let mut lens: Vec<usize> = Vec::with_capacity(buckets.len());
    let mut i: usize = 0;
    while i < buckets.len()
        invariant
            i <= buckets@.len(),
            lens@.len() == i,
            forall|x: int| 0 <= x < i ==> #[trigger] lens@[x] == contents(buckets@)[x].len(),
        decreases buckets@.len() - i,
    {
        lens.push(buckets[i].len());
        i = i + 1;
    }
    lens
}

/// Writes the buckets one after the other over `data`, in parallel on the pool, and returns
/// what was written for each bucket.
fn place_buckets(data: &mut [u32], buckets: &Vec<Vec<u32>>, pool: &rayon::ThreadPool) -> (placed:
    Vec<Vec<u32>>)
    requires
        concat(contents(buckets@)).len() == old(data)@.len(),
    ensures
        final(data)@ == concat(contents(buckets@)),
        contents(placed@) == contents(buckets@),
{
    let ghost parts = contents(buckets@);
    let lens = bucket_lens(buckets);
    proof {
        lemma_total_is_offset(parts, lens@, parts.len() as int);
        lemma_offset_grows(parts, 0, 0);
        assert(lens@.take(parts.len() as int) =~= lens@);
    }
    let slices = split_mut_by_lens(data, &lens);
    let ghost stretches = slices@;
    assert forall|x: int| 0 <= x < buckets@.len() implies slices@[x]@.len() == (
    #[trigger] buckets@[x])@.len() by {
        assert(lens@[x] == contents(buckets@)[x].len());
    }
    let run = move || -> (placed: Vec<Vec<u32>>)
        requires
            slices@.len() == buckets@.len(),
            forall|i: int|
                0 <= i < buckets@.len() ==> slices@[i]@.len() == (#[trigger] buckets@[i])@.len(),
        ensures
            contents(placed@) == contents(buckets@),
            forall|i: int|
                0 <= i < buckets@.len() ==> final(slices@[i])@ == (#[trigger] buckets@[i])@,
        { copy_buckets(slices, buckets) };
    let placed = install(pool, run);
    assert forall|x: int| 0 <= x < lens@.len() implies #[trigger] lens@[x]
        == final(stretches[x])@.len() by {
        assert(final(stretches[x])@ == buckets@[x]@);
        assert(lens@[x] == contents(buckets@)[x].len());
    }
    proof {
        assert forall|x: int| 0 <= x < parts.len() implies data@.subrange(
            offset(parts, x),
            offset(parts, x + 1),
        ) == #[trigger] parts[x] by {
            lemma_total_is_offset(parts, lens@, x);
            lemma_total_is_offset(parts, lens@, x + 1);
        }
        lemma_concat_of_stretches(parts, data@);
    }
    placed
}

/// Copies each bucket over its stretch, in parallel.
fn copy_buckets(slices: Vec<&mut [u32]>, buckets: &Vec<Vec<u32>>) -> (placed: Vec<Vec<u32>>)
    requires
        slices@.len() == buckets@.len(),
        forall|i: int|
            0 <= i < buckets@.len() ==> slices@[i]@.len() == (#[trigger] buckets@[i])@.len(),
    ensures
        contents(placed@) == contents(buckets@),
        forall|i: int| 0 <= i < buckets@.len() ==> final(slices@[i])@ == (#[trigger] buckets@[i])@,
{
    let place = |item: (&mut [u32], &Vec<u32>)| -> (values: Vec<u32>)
        requires
            item.0@.len() == item.1@.len(),
        ensures
            final(item.0)@ == item.1@,
            values@ == item.1@,
        {
            copy_into(item.0, item.1);
            vstd::slice::slice_to_vec(item.1.as_slice())
        };
    let placed = par_slices_zip_map(slices, buckets.as_slice(), place);
    assert forall|i: int| 0 <= i < buckets@.len() implies final(slices@[i])@ == (
    #[trigger] buckets@[i])@ && contents(placed@)[i] == contents(buckets@)[i] by {
        assert(placed@[i]@ == buckets@[i]@);
    }
    assert(contents(placed@) =~= contents(buckets@));
    placed
}

/// Whether `after` are the buckets of `before` once those with the numbers in `indices` are
/// overwritten by the first elements of the same entry of `sorted`.
pub open spec fn is_completed(
    before: Seq<Seq<u32>>,
    indices: Seq<usize>,
    sorted: Seq<Seq<u32>>,
    after: Seq<Seq<u32>>,
) -> bool {
    &&& after.len() == before.len()
    &&& forall|m: int|
        0 <= m < indices.len() ==> after[#[trigger] indices[m] as int] == sorted[m].take(
            before[indices[m] as int].len() as int,
        )
    &&& forall|i: int|
        0 <= i < before.len() && !is_among(indices, i) ==> #[trigger] after[i] == before[i]
}

/// Overwrites the buckets that were on the GPU by what came back for them, without the
/// padding.
fn complete_buckets(buckets: &mut Vec<Vec<u32>>, indices: &Vec<usize>, sorted: &Vec<Vec<u32>>)
    requires
        sorted@.len() == indices@.len(),
        forall|m: int|
            0 <= m < indices@.len() ==> (#[trigger] indices@[m]) < old(buckets)@.len() && old(
                buckets,
            )@[indices@[m] as int]@.len() <= sorted@[m]@.len(),
        forall|m: int, l: int|
            0 <= m < l < indices@.len() ==> #[trigger] indices@[m] < #[trigger] indices@[l],
    ensures
        is_completed(
            contents(old(buckets)@),
            indices@,
            contents(sorted@),
            contents(final(buckets)@),
        ),
{
    let ghost before = buckets@;
    let mut m: usize = 0;
    while m < indices.len()
        invariant
            m <= indices@.len(),
            sorted@.len() == indices@.len(),
            buckets@.len() == before.len(),
            forall|x: int|
                0 <= x < indices@.len() ==> (#[trigger] indices@[x]) < before.len()
                    && before[indices@[x] as int]@.len() <= sorted@[x]@.len(),
            forall|x: int, l: int|
                0 <= x < l < indices@.len() ==> #[trigger] indices@[x] < #[trigger] indices@[l],
            forall|x: int|
                0 <= x < m ==> buckets@[#[trigger] indices@[x] as int]@ == sorted@[x]@.take(
                    before[indices@[x] as int]@.len() as int,
                ),
            forall|x: int|
                m <= x < indices@.len() ==> buckets@[#[trigger] indices@[x] as int]
                    == before[indices@[x] as int],
            forall|i: int|
                0 <= i < before.len() && !is_among(indices@, i) ==> #[trigger] buckets@[i]
                    == before[i],
        decreases indices@.len() - m,
    {
        let i = indices[m];
        assert(buckets@[indices@[m as int] as int] == before[i as int]);
        let len = buckets[i].len();
        let part = vstd::slice::slice_subrange(sorted[m].as_slice(), 0, len);
        assert(is_among(indices@, i as int));
        assert(part@ =~= sorted@[m as int]@.take(len as int));
        buckets[i] = vstd::slice::slice_to_vec(part);
        m = m + 1;
    }
}

/// Whether `event` shows `values` at the positions from `start` on.
pub open spec fn shows(event: SortEvent, start: int, values: Seq<u32>) -> bool {
    &&& event is Progress
    &&& event->values@ == values
    &&& event->indices@.len() == values.len()
    &&& forall|x: int| 0 <= x < values.len() ==> #[trigger] event->indices@[x] == start + x
}

/// The report of where a bucket was placed.
fn progress_event(start: usize, values: Vec<u32>) -> (event: SortEvent)
    requires
        start + values@.len() <= usize::MAX,
    ensures
        shows(event, start as int, values@),
{
    let len = values.len();
    let mut indices: Vec<usize> = Vec::with_capacity(len);
    let mut x: usize = 0;
    while x < len
        invariant
            x <= len,
            start + len <= usize::MAX,
            indices@.len() == x,
            forall|y: int| 0 <= y < x ==> #[trigger] indices@[y] == start + y,
        decreases len - x,
    {
        indices.push(start + x);
        x = x + 1;
    }
    SortEvent::Progress { indices, values }
}

/// Whether `events` report the placement of each part, one after the other.
pub open spec fn shows_parts(events: Seq<SortEvent>, parts: Seq<Seq<u32>>) -> bool {
    &&& events.len() == parts.len()
    &&& forall|i: int|
        0 <= i < parts.len() ==> shows(#[trigger] events[i], offset(parts, i), parts[i])
}

/// The reports of where the buckets were placed.
fn progress_events(placed: Vec<Vec<u32>>) -> (events: Vec<SortEvent>)
    requires
        concat(contents(placed@)).len() <= usize::MAX,
    ensures
        shows_parts(events@, contents(placed@)),
{
    let ghost parts = contents(placed@);
    let mut events: Vec<SortEvent> = Vec::with_capacity(placed.len());
    let mut start: usize = 0;
    let mut i: usize = 0;
    proof {
        lemma_offset_grows(parts, 0, 0);
    }
    while i < placed.len()
        invariant
            parts == contents(placed@),
            concat(parts).len() <= usize::MAX,
            i <= placed@.len(),
            start == offset(parts, i as int),
            events@.len() == i,
            forall|x: int|
                0 <= x < i ==> shows(#[trigger] events@[x], offset(parts, x), parts[x]),
        decreases placed@.len() - i,
    {
        let values = vstd::slice::slice_to_vec(placed[i].as_slice());
        let len = values.len();
        proof {
            lemma_offset_step(parts, i as int);
            lemma_offset_grows(parts, i + 1, i + 1);
        }
        events.push(progress_event(start, values));
        start = start + len;
        i = i + 1;
    }
    events
}

/// What the GPU returns for a batch completes the sort of the batch's elements, if the GPU
/// sorted what it was given.
pub proof fn law_gpu_batch_sorts(batch: GpuBatch, sorted: Seq<Seq<u32>>, after: Seq<Seq<u32>>)
    requires
        batch.wf(),
        parts_sorted(contents(batch.gpu_padded@), sorted),
        is_completed(contents(batch.buckets@), batch.gpu_indices@, sorted, after),
    ensures
        sorted_by_value(concat(after)),
        concat(after).to_multiset() == batch.elements().to_multiset(),
{
    let parts = contents(batch.buckets@);
    let indices = batch.gpu_indices@;
    assert forall|i: int| 0 <= i < parts.len() implies (#[trigger] after[i]).to_multiset()
        == parts[i].to_multiset() && sorted_by_value(after[i]) by {
        lemma_part_no_nan(parts, i);
        if is_among(indices, i) {
            let m = choose|m: int| 0 <= m < indices.len() && #[trigger] indices[m] == i;
            let copy = contents(batch.gpu_padded@)[m];
            assert(is_padded_copy(copy, parts[i]));
            assert(sorted[m].to_multiset() == copy.to_multiset());
            law_padding_sorts_to_the_end(parts[i], copy.len() as int, sorted[m]);
        } else {
            if parts[i].len() >= GPU_BUCKET_MIN {
                assert(is_among(indices, i));
            }
            assert(sorted_by_value(batch.buckets@[i]@));
        }
    }
    law_sorted_buckets_merge(parts, after);
}

proof fn lemma_part_no_nan(parts: Seq<Seq<u32>>, i: int)
    requires
        0 <= i < parts.len(),
        no_nan(concat(parts)),
    ensures
        no_nan(parts[i]),
{
    crate::buckets::lemma_part_in_concat(parts, i);
    let all = concat(parts);
    assert forall|x: int| 0 <= x < parts[i].len() implies !is_nan(#[trigger] parts[i][x]) by {
        assert(parts[i][x] == all.subrange(offset(parts, i), offset(parts, i + 1))[x]);
        assert(!is_nan(all[offset(parts, i) + x]));
    }
}

/// What a batch hands to the GPU is what the GPU can sort: buckets of numbers whose lengths
/// are powers of two, and that fit the GPU's grid if the array does.
pub proof fn law_batch_fits_gpu(batch: GpuBatch, m: int)
    requires
        batch.wf(),
        0 <= m < batch.gpu_padded@.len(),
    ensures
        is_power_of_two(batch.gpu_padded@[m]@.len() as int),
        no_nan(batch.gpu_padded@[m]@),
        batch.elements().len() <= MAX_GRID ==> batch.gpu_padded@[m]@.len() <= MAX_GRID,
{
    let parts = contents(batch.buckets@);
    let i = batch.gpu_indices@[m] as int;
    let copy = contents(batch.gpu_padded@)[m];
    assert(copy == batch.gpu_padded@[m]@);
    assert(is_padded_copy(copy, parts[i]));
    lemma_part_no_nan(parts, i);
    lemma_offset_step(parts, i);
    lemma_offset_grows(parts, i, i + 1);
    assert forall|x: int| 0 <= x < copy.len() implies !is_nan(#[trigger] copy[x]) by {
        if x < parts[i].len() {
            assert(copy[x] == parts[i][x]);
        }
    }
    vstd::arithmetic::power2::lemma2_to64();
    assert(is_power_of_two(MAX_GRID as int));
}

/// A batch holds every bucket, and hands to the GPU just those with 256 elements or more, in
/// order and each once: a copy with nothing but positive infinities behind the bucket's
/// elements, up to the next power of two. All other buckets are already sorted.
pub proof fn law_batch_splits_by_size(batch: GpuBatch, i: int)
    requires
        batch.wf(),
        0 <= i < batch.buckets@.len(),
    ensures
        batch.buckets@[i]@.len() >= 256 <==> exists|m: int|
            0 <= m < batch.gpu_indices@.len() && #[trigger] batch.gpu_indices@[m] == i,
        batch.buckets@[i]@.len() < 256 ==> sorted_by_value(batch.buckets@[i]@),
        batch.gpu_indices@.len() == batch.gpu_padded@.len(),
        forall|m: int, l: int|
            0 <= m < l < batch.gpu_indices@.len() ==> #[trigger] batch.gpu_indices@[m]
                < #[trigger] batch.gpu_indices@[l],
        forall|m: int|
            0 <= m < batch.gpu_indices@.len() && #[trigger] batch.gpu_indices@[m] == i ==> {
                let (copy, bucket) = (batch.gpu_padded@[m]@, batch.buckets@[i]@);
                &&& bucket.len() <= copy.len() < 2 * bucket.len()
                &&& copy.take(bucket.len() as int) == bucket
                &&& forall|x: int| bucket.len() <= x < copy.len() ==> copy[x] == 0x7f80_0000
            },
{
    let parts = contents(batch.buckets@);
    assert(parts[i] == batch.buckets@[i]@);
    if parts[i].len() >= GPU_BUCKET_MIN {
        assert(is_among(batch.gpu_indices@, i));
    }
    assert forall|m: int|
        0 <= m < batch.gpu_indices@.len() && #[trigger] batch.gpu_indices@[m] == i implies {
        let (copy, bucket) = (batch.gpu_padded@[m]@, batch.buckets@[i]@);
        &&& bucket.len() <= copy.len() < 2 * bucket.len()
        &&& copy.take(bucket.len() as int) == bucket
        &&& forall|x: int| bucket.len() <= x < copy.len() ==> copy[x] == 0x7f80_0000
    } by {
        let (copy, bucket) = (batch.gpu_padded@[m]@, batch.buckets@[i]@);
        assert(contents(batch.gpu_padded@)[m] == copy);
        assert(is_padded_copy(copy, bucket));
        assert(copy.take(bucket.len() as int) =~= bucket);
        law_powers_of_two(copy.len() as int);
        if copy.len() >= 2 * bucket.len() {
            assert(is_power_of_two(copy.len() as int / 2));
            assert(false);
        }
    }
}

/// Before the GPU gets its buckets, those with fewer than 256 elements are put in order, each
/// within itself, and no other bucket is touched.
pub proof fn law_small_buckets_are_sorted(before: Seq<Seq<u32>>, after: Seq<Seq<u32>>, i: int)
    requires
        is_locally_sorted(before, after),
        0 <= i < before.len(),
    ensures
        after.len() == before.len(),
        after[i].to_multiset() == before[i].to_multiset(),
        before[i].len() < 256 ==> sorted_by_value(after[i]),
        before[i].len() >= 256 ==> after[i] == before[i],
{
    assert(after[i].to_multiset() == before[i].to_multiset());
}

/// A batch of a run names the run's threads, device and multiplier, has the nearest number of
/// buckets, and holds the elements of the array, in the buckets that it is cut into.
pub proof fn law_batch_belongs_to_run(
    batch: GpuBatch,
    data: Seq<u32>,
    threads: int,
    gpu: GpuContext,
    bucket_multiplier: Ratio,
)
    requires
        is_batch_of(batch, data, threads, gpu, bucket_multiplier),
    ensures
        batch.wf(),
        batch.elements().to_multiset() == data.to_multiset(),
        batch.buckets@.len() == bucket_count(threads, bucket_multiplier),
        exists|cut: Seq<Seq<u32>>|
            #[trigger] is_cut(data, bucket_count(threads, bucket_multiplier), cut)
                && is_locally_sorted(cut, contents(batch.buckets@)),
        batch.threads_used == threads,
        batch.device_name@ == gpu.device_name@,
        batch.bucket_multiplier == bucket_multiplier,
{
}

/// There is one frame for each bucket, in the order of the buckets: every frame goes on at the
/// position at which the one before it ended.
pub proof fn law_frames_come_in_order(events: Seq<SortEvent>, parts: Seq<Seq<u32>>, i: int)
    requires
        shows_parts(events, parts),
        0 <= i < parts.len(),
    ensures
        events.len() == parts.len(),
        shows(events[i], offset(parts, i), parts[i]),
        offset(parts, 0) == 0,
        offset(parts, i + 1) == offset(parts, i) + parts[i].len(),
{
    lemma_offset_step(parts, i);
    lemma_offset_grows(parts, 0, 0);
    assert(shows(events[i], offset(parts, i), parts[i]));
}

/// A frame shows a stretch of the array: consecutive positions, each with its value.
pub proof fn law_frame_shows_a_stretch(event: SortEvent, start: int, shown: Seq<u32>)
    requires
        shows(event, start, shown),
    ensures
        event matches SortEvent::Progress { indices, values } && values@ == shown && indices@.len()
            == shown.len() && (forall|x: int|
            0 <= x < shown.len() ==> #[trigger] indices@[x] == start + x),
{
}

impl GpuBatch {
    /// Completes the run: takes the GPU's results over into the buckets, writes the buckets
    /// one after the other over `data`, and reports the placement of every bucket and the
    /// end of the run.
    pub fn finish(
        self,
        sorted: Vec<Vec<u32>>,
        data: &mut [u32],
        pool: &rayon::ThreadPool,
    ) -> (events: Vec<SortEvent>)
        requires
            self.wf(),
            sorted@.len() == self.gpu_padded@.len(),
            forall|m: int|
                0 <= m < sorted@.len() ==> (#[trigger] sorted@[m])@.len()
                    == self.gpu_padded@[m]@.len(),
            old(data)@.len() == self.elements().len(),
        ensures
            exists|after: Seq<Seq<u32>>|
                {
                    &&& #[trigger] is_completed(
                        contents(self.buckets@),
                        self.gpu_indices@,
                        contents(sorted@),
                        after,
                    )
                    &&& final(data)@ == concat(after)
                    &&& shows_parts(events@.drop_last(), after)
                },
            events@.len() == self.buckets@.len() + 1,
            events@.last() is Done,
            reports_gpu_run(
                events@.last()->Done_0,
                old(data)@.len() as int,
                self.threads_used as int,
                self.device_name@,
                self.bucket_multiplier,
            ),
            is_time_since::<[u32]>(self.start, &*final(data), events@.last()->Done_0.elapsed),
            parts_sorted(contents(self.gpu_padded@), contents(sorted@)) ==> sorted_by_value(
                final(data)@,
            ) && final(data)@.to_multiset() == self.elements().to_multiset(),
    {
        let n = data.len();
        let ghost batch = self;
        let ghost parts = contents(self.buckets@);
        let mut buckets = self.buckets;
        proof {
            assert forall|m: int| 0 <= m < self.gpu_indices@.len() implies (
            #[trigger] self.gpu_indices@[m]) < buckets@.len()
                && buckets@[self.gpu_indices@[m] as int]@.len() <= sorted@[m]@.len() by {
                assert(is_padded_copy(
                    contents(self.gpu_padded@)[m],
                    parts[self.gpu_indices@[m] as int],
                ));
                assert(sorted@[m]@.len() == self.gpu_padded@[m]@.len());
            }
        }
        complete_buckets(&mut buckets, &self.gpu_indices, &sorted);
        let ghost after = contents(buckets@);
        proof {
            lemma_completed_lengths(batch, contents(sorted@), after);
        }
        let placed = place_buckets(data, &buckets, pool);
        let mut events = progress_events(placed);
        let ghost frames = events@;
        let stats = SortRunStats {
            elapsed: time_since(&self.start, &*data),
            elements: n,
            algorithm: "gsa-hybrid-sample-bitonic",
            threads_used: self.threads_used,
            gpu_used: true,
            gpu_device: Some(self.device_name),
            bucket_multiplier: Some(self.bucket_multiplier),
        };
        events.push(SortEvent::Done(stats));
        proof {
            assert(events@.drop_last() =~= frames);
            assert(is_completed(parts, batch.gpu_indices@, contents(sorted@), after));
            if parts_sorted(contents(batch.gpu_padded@), contents(sorted@)) {
                law_gpu_batch_sorts(batch, contents(sorted@), after);
            }
        }
        events
    }
}

/// Completing the buckets keeps their lengths.
proof fn lemma_completed_lengths(batch: GpuBatch, sorted: Seq<Seq<u32>>, after: Seq<Seq<u32>>)
    requires
        batch.wf(),
        sorted.len() == batch.gpu_padded@.len(),
        forall|m: int|
            0 <= m < sorted.len() ==> (#[trigger] sorted[m]).len() == batch.gpu_padded@[m]@.len(),
        is_completed(contents(batch.buckets@), batch.gpu_indices@, sorted, after),
    ensures
        concat(after).len() == batch.elements().len(),
{
    let parts = contents(batch.buckets@);
    let indices = batch.gpu_indices@;
    assert forall|i: int| 0 <= i < parts.len() implies (#[trigger] after[i]).len()
        == parts[i].len() by {
        if is_among(indices, i) {
            let m = choose|m: int| 0 <= m < indices.len() && #[trigger] indices[m] == i;
            assert(is_padded_copy(contents(batch.gpu_padded@)[m], parts[i]));
            assert(sorted[m].len() == batch.gpu_padded@[m]@.len());
        }
    }
    lemma_concat_same_lengths(parts, after);
}

proof fn lemma_concat_same_lengths(a: Seq<Seq<u32>>, b: Seq<Seq<u32>>)
    requires
        a.len() == b.len(),
        forall|i: int| 0 <= i < a.len() ==> (#[trigger] b[i]).len() == a[i].len(),
    ensures
        concat(a).len() == concat(b).len(),
    decreases a.len(),
{
    if a.len() > 0 {
        assert(b[a.len() - 1].len() == a[a.len() - 1].len());
        lemma_concat_same_lengths(a.drop_last(), b.drop_last());
    }
}

/// How far a sort has come when it returns.
#[derive(Debug)]
pub enum SortStep {
    /// The array is sorted; these are the reports.
    Finished(Vec<SortEvent>),
    /// The array is unchanged, and its buckets wait for the GPU.
    Gpu(GpuBatch),
}

/// Whether `events` are the reports of a run without the GPU: its end, and nothing before.
pub open spec fn reports_only_end(
    events: Seq<SortEvent>,
    elements: int,
    s: Strategy,
    threads: int,
) -> bool {
    &&& events.len() == 1
    &&& events[0] is Done
    &&& reports_cpu_run(events[0]->Done_0, elements, s, threads)
}

/// A run without the GPU makes a single report, at its end.
pub proof fn law_only_the_end_is_reported(
    events: Seq<SortEvent>,
    elements: int,
    s: Strategy,
    threads: int,
)
    requires
        reports_only_end(events, elements, s, threads),
    ensures
        events.len() == 1,
        events[0] matches SortEvent::Done(stats) && reports_cpu_run(stats, elements, s, threads),
{
}

/// Whether `batch` is what a run on `data` hands to the GPU: the buckets that the array is cut
/// into, the small ones sorted.
pub open spec fn is_batch_of(
    batch: GpuBatch,
    data: Seq<u32>,
    threads: int,
    gpu: GpuContext,
    bucket_multiplier: Ratio,
) -> bool {
    &&& batch.wf()
    &&& exists|cut: Seq<Seq<u32>>|
        #[trigger] is_cut(data, bucket_count(threads, bucket_multiplier), cut)
            && is_locally_sorted(cut, contents(batch.buckets@))
    &&& batch.elements().to_multiset() == data.to_multiset()
    &&& batch.elements().len() == data.len()
    &&& batch.buckets@.len() == bucket_count(threads, bucket_multiplier)
    &&& batch.threads_used == threads
    &&& batch.device_name@ == gpu.device_name@
    &&& batch.bucket_multiplier == bucket_multiplier
}

/// Sorts `data` in place, or prepares it for the GPU. The GPU is used only if there is one,
/// the array is large enough and the bucket multiplier is positive; then the batch goes to
/// the GPU, and [`GpuBatch::finish`] completes the sort.
pub fn gsa_sort_tuned(
    data: &mut [u32],
    pool: &rayon::ThreadPool,
    gpu: Option<&GpuContext>,
    bucket_multiplier: Ratio,
) -> (step: SortStep)
    requires
        bucket_multiplier.wf(),
        strategy(old(data)@.len() as int, gpu is Some, bucket_multiplier) == Strategy::Gpu ==> old(
            data,
        )@.len() <= MAX_ELEMENTS,
        compares_numbers(strategy(old(data)@.len() as int, gpu is Some, bucket_multiplier))
            ==> no_nan(old(data)@),
    ensures
        ({
            let s = strategy(old(data)@.len() as int, gpu is Some, bucket_multiplier);
            match step {
                SortStep::Finished(events) => {
                    &&& s != Strategy::Gpu
                    &&& final(data)@.to_multiset() == old(data)@.to_multiset()
                    &&& sorted_by_value(final(data)@)
                    &&& is_cpu_sorted(old(data)@, final(data)@, s)
                    &&& reports_only_end(
                        events@,
                        old(data)@.len() as int,
                        s,
                        pool_threads(*pool) as int,
                    )
                    &&& spans_cpu_sort(
                        &*old(data),
                        pool,
                        s,
                        &*final(data),
                        events@[0]->Done_0.elapsed,
                    )
                },
                SortStep::Gpu(batch) => {
                    &&& s == Strategy::Gpu
                    &&& final(data)@ == old(data)@
                    &&& is_batch_of(
                        batch,
                        old(data)@,
                        pool_threads(*pool) as int,
                        *gpu->0,
                        bucket_multiplier,
                    )
                    &&& is_prepared_after_start(
                        batch,
                        &*old(data),
                        pool,
                        batch.threads_used,
                        gpu->0,
                        bucket_multiplier,
                    )
                },
            }
        }),
{
    let start = now();
    let n = data.len();
    let threads_used = thread_count(pool);
    let s = choose_strategy(n, gpu.is_some(), bucket_multiplier);
    match (s, gpu) {
        (Strategy::Gpu, Some(gpu_ctx)) => {
            let batch = prepare_batch(
                &*data,
                pool,
                start,
                threads_used,
                gpu_ctx,
                bucket_multiplier,
            );
            SortStep::Gpu(batch)
        },
        _ => {
            let sorted = sorted_on_cpu(&start, &*data, pool, s);
            copy_into(data, &sorted);
            let elapsed = time_since(&start, &*data);
            let mut events: Vec<SortEvent> = Vec::new();
            events.push(SortEvent::Done(cpu_stats(elapsed, n, s, threads_used)));
            proof {
                assert(is_reading(start));
                assert(call_ensures(sorted_on_cpu, (&start, &*old(data), pool, s), sorted));
                assert(is_time_since::<[u32]>(start, &*data, elapsed));
                assert(spans_cpu_sort(&*old(data), pool, s, &*data, elapsed));
            }
            SortStep::Finished(events)
        },
    }
}

/// Cuts an array into buckets, sorts the small ones, and pads the others for the GPU.
fn prepare_batch(
    data: &[u32],
    pool: &rayon::ThreadPool,
    start: Instant,
    threads_used: usize,
    gpu: &GpuContext,
    bucket_multiplier: Ratio,
) -> (batch: GpuBatch)
    requires
        bucket_multiplier.wf(),
        0 < data@.len() <= MAX_ELEMENTS,
        no_nan(data@),
    ensures
        is_batch_of(batch, data@, threads_used as int, *gpu, bucket_multiplier),
        batch.start == start,
        batch.threads_used == threads_used,
{
    let count = num_buckets(threads_used, bucket_multiplier);
    let cut = || -> (buckets: Vec<Vec<u32>>)
        ensures
            is_cut(data@, count as int, contents(buckets@)),
            concat(contents(buckets@)).to_multiset() == data@.to_multiset(),
            parts_ascend(contents(buckets@)),
        { partition_into_buckets(data, count) };
    let mut buckets = install(pool, cut);
    let ghost parts = contents(buckets@);
    proof {
        assert(parts.len() == count);
        let all = concat(parts);
        lemma_same_multiset(all, data@);
        lemma_rearranged_no_nan(data@, all);
        assert forall|i: int| 0 <= i < buckets@.len() implies {
            &&& no_nan((#[trigger] buckets@[i])@)
            &&& buckets@[i]@.len() <= MAX_ELEMENTS
        } by {
            assert(parts[i] == buckets@[i]@);
            lemma_part_no_nan(parts, i);
            lemma_offset_step(parts, i);
            lemma_offset_grows(parts, i, i + 1);
        }
    }
    let (gpu_indices, gpu_padded) = sort_small_buckets(&mut buckets);
    proof {
        lemma_local_sort_keeps(parts, contents(buckets@));
        lemma_same_multiset(concat(contents(buckets@)), concat(parts));
        lemma_rearranged_no_nan(concat(parts), concat(contents(buckets@)));
        assert forall|i: int|
            0 <= i < buckets@.len() && buckets@[i]@.len() < GPU_BUCKET_MIN implies sorted_by_value(
            (#[trigger] buckets@[i])@,
        ) by {
            let after = contents(buckets@);
            assert(after[i] == buckets@[i]@);
            if parts[i].len() >= GPU_BUCKET_MIN {
                assert(after[i] == parts[i]);
            }
        }
    }
    GpuBatch {
        start,
        threads_used,
        device_name: gpu.device_name.clone(),
        bucket_multiplier,
        buckets,
        gpu_indices,
        gpu_padded,
    }
}

proof fn lemma_rearranged_no_nan(a: Seq<u32>, b: Seq<u32>)
    requires
        no_nan(a),
        a.to_multiset() == b.to_multiset(),
    ensures
        no_nan(b),
{
    lemma_same_multiset(a, b);
    assert forall|i: int| 0 <= i < b.len() implies !is_nan(#[trigger] b[i]) by {
        assert(a.contains(b[i]));
        let x = choose|x: int| 0 <= x < a.len() && a[x] == b[i];
        assert(!is_nan(a[x]));
    }
}

/// Sorting the small buckets keeps the elements and the buckets' value ranges.
proof fn lemma_local_sort_keeps(before: Seq<Seq<u32>>, after: Seq<Seq<u32>>)
    requires
        is_locally_sorted(before, after),
        parts_ascend(before),
    ensures
        concat(after).to_multiset() == concat(before).to_multiset(),
        parts_ascend(after),
{
    assert forall|i: int| 0 <= i < before.len() implies (#[trigger] after[i]).to_multiset()
        == before[i].to_multiset() by {}
    crate::buckets::lemma_concat_rearranged(before, after);
    crate::buckets::lemma_rearranged_ascend(before, after);
}

/// Sorts `data` in place with the bucket multiplier from before calibration, and returns the
/// reports. That multiplier keeps the GPU out of use, whether there is one or not.
pub fn gsa_sort(data: &mut [u32], pool: &rayon::ThreadPool, gpu: Option<&GpuContext>) -> (events:
    Vec<SortEvent>)
    requires
        2 <= old(data)@.len() < DIRECT_SORT_THRESHOLD ==> no_nan(old(data)@),
    ensures
        ({
            let s = strategy(old(data)@.len() as int, false, Ratio { numer: 0, denom: 1 });
            &&& is_cpu_sorted(old(data)@, final(data)@, s)
            &&& reports_only_end(
                events@,
                old(data)@.len() as int,
                s,
                pool_threads(*pool) as int,
            )
            &&& spans_cpu_sort(
                &*old(data),
                pool,
                s,
                &*final(data),
                events@[0]->Done_0.elapsed,
            )
        }),
{
    match gsa_sort_tuned(data, pool, gpu, default_bucket_multiplier()) {
        SortStep::Finished(events) => events,
        SortStep::Gpu(_) => Vec::new(),
    }
}

} // verus!
