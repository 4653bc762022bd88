//! Sample-sort partitioning: cutting an array into buckets that hold ascending value ranges.
use crate::buckets::{concat, contents, lemma_concat_empty, lemma_concat_push, parts_ascend, parts_disjoint};
use crate::float32::{at_most, no_nan, sort_unstable, sorted_by_value, value};
use crate::parallel::par_map;
use crate::permutation::lemma_same_multiset;
use rand::Rng;
use vstd::prelude::*;
use vstd::seq_lib::to_multiset_build;

verus! {

/// The number of elements drawn for each bucket to pick the pivots from.
pub const SAMPLES_PER_BUCKET: usize = 16;

/// The bucket of an element: the number of pivots that are not greater than it.
pub open spec fn bucket_of(pivots: Seq<u32>, v: u32) -> nat
    decreases pivots.len(),
{
    if pivots.len() == 0 {
        0
    } else {
        bucket_of(pivots.drop_last(), v) + if value(pivots.last()) <= value(v) {
            1nat
        } else {
            0nat
        }
    }
}

/// The elements of `data` that belong to bucket `b`, in their order.
pub open spec fn bucket_elements(data: Seq<u32>, pivots: Seq<u32>, b: int) -> Seq<u32> {
    data.filter(|v: u32| bucket_of(pivots, v) == b)
}

/// Whether `parts` are the buckets that `pivots` cut `data` into.
pub open spec fn is_partition(data: Seq<u32>, pivots: Seq<u32>, parts: Seq<Seq<u32>>) -> bool {
    &&& parts.len() == pivots.len() + 1
    &&& forall|b: int|
        0 <= b < parts.len() ==> #[trigger] parts[b] == bucket_elements(data, pivots, b)
}

/// Whether `pivots` are the evenly spaced elements of `sample` that bound `num_buckets`
/// buckets, once the sample is in ascending order.
pub open spec fn are_pivots(sample: Seq<u32>, num_buckets: int, pivots: Seq<u32>) -> bool {
    &&& pivots.len() == num_buckets - 1
    &&& exists|sorted: Seq<u32>|
        {
            &&& #[trigger] sorted.to_multiset() == sample.to_multiset()
            &&& sorted_by_value(sorted)
            &&& are_spaced(sorted, num_buckets, pivots)
        }
}

/// Whether `pivots` are evenly spaced elements of `sorted`.
pub open spec fn are_spaced(sorted: Seq<u32>, num_buckets: int, pivots: Seq<u32>) -> bool {
    forall|i: int|
        0 <= i < pivots.len() ==> #[trigger] pivots[i] == sorted[pivot_index(
            i,
            sorted.len() as int,
            num_buckets,
        )]
}

/// The position in the ordered sample of the pivot with the number `i`.
#[verifier::opaque]
pub open spec fn pivot_index(i: int, sample_len: int, num_buckets: int) -> int {
    ((i + 1) * sample_len) / num_buckets
}

proof fn lemma_pivot_index(i: int, sample_len: int, num_buckets: int)
    requires
        0 <= i < num_buckets - 1,
        0 < sample_len,
    ensures
        0 <= pivot_index(i, sample_len, num_buckets) < sample_len,
{
    reveal(pivot_index);
    assert(0 <= ((i + 1) * sample_len) / num_buckets < sample_len) by (nonlinear_arith)
        requires
            0 <= i < num_buckets - 1,
            0 < sample_len,
    ;
}

/// Whether `sample` was drawn from `data` for `num_buckets` buckets.
pub open spec fn is_sample(data: Seq<u32>, num_buckets: int, sample: Seq<u32>) -> bool {
    &&& sample.len() == if SAMPLES_PER_BUCKET * num_buckets < data.len() {
        SAMPLES_PER_BUCKET * num_buckets
    } else {
        data.len() as int
    }
    &&& forall|i: int| 0 <= i < sample.len() ==> data.contains(#[trigger] sample[i])
}

/// Whether `parts` are the buckets that `data` is cut into when `num_buckets` are asked for:
/// the whole array for one bucket or none, and otherwise the buckets that the pivots of some
/// sample bound.
pub open spec fn is_cut(data: Seq<u32>, num_buckets: int, parts: Seq<Seq<u32>>) -> bool {
    if num_buckets <= 1 {
        parts == seq![data]
    } else {
        exists|sample: Seq<u32>, pivots: Seq<u32>|
            {
                &&& #[trigger] is_sample(data, num_buckets, sample)
                &&& are_pivots(sample, num_buckets, pivots)
                &&& #[trigger] is_partition(data, pivots, parts)
            }
    }
}

/// A sample has sixteen elements for each bucket, or as many as the array if it has fewer, and
/// all of them are the array's.
pub proof fn law_sample_is_drawn(data: Seq<u32>, num_buckets: int, sample: Seq<u32>)
    requires
        is_sample(data, num_buckets, sample),
    ensures
        sample.len() <= 16 * num_buckets,
        sample.len() <= data.len(),
        sample.len() == 16 * num_buckets || sample.len() == data.len(),
        forall|i: int| 0 <= i < sample.len() ==> data.contains(#[trigger] sample[i]),
{
}

/// Whether the pivot with the number `i` is the one at position `at` of `len` elements in
/// order: as near to the share `(i + 1) / num_buckets` as a position from below can be.
pub open spec fn is_share(at: int, i: int, len: int, num_buckets: int) -> bool {
    0 <= at < len && at * num_buckets <= (i + 1) * len < (at + 1) * num_buckets
}

/// Whether `pivot` is the element of `sorted` at the share of the pivot with the number `i`.
pub open spec fn stands_at_share(sorted: Seq<u32>, num_buckets: int, i: int, pivot: u32) -> bool {
    exists|at: int|
        #[trigger] is_share(at, i, sorted.len() as int, num_buckets) && pivot == sorted[at]
}

/// Whether `pivots` cut `sorted` into equal shares.
pub open spec fn cut_equal_shares(sorted: Seq<u32>, num_buckets: int, pivots: Seq<u32>) -> bool {
    forall|i: int|
        0 <= i < pivots.len() ==> stands_at_share(sorted, num_buckets, i, #[trigger] pivots[i])
}

/// There is a pivot between every two buckets, and the pivots cut the sample, once it is in
/// order, into equal shares.
pub proof fn law_pivots_cut_equal_shares(sample: Seq<u32>, num_buckets: int, pivots: Seq<u32>)
    requires
        1 <= num_buckets,
        sample.len() > 0,
        are_pivots(sample, num_buckets, pivots),
    ensures
        pivots.len() == num_buckets - 1,
        exists|sorted: Seq<u32>|
            {
                &&& #[trigger] sorted.to_multiset() == sample.to_multiset()
                &&& sorted_by_value(sorted)
                &&& cut_equal_shares(sorted, num_buckets, pivots)
            },
{
    let sorted = choose|sorted: Seq<u32>|
        {
            &&& #[trigger] sorted.to_multiset() == sample.to_multiset()
            &&& sorted_by_value(sorted)
            &&& are_spaced(sorted, num_buckets, pivots)
        };
    lemma_same_multiset(sorted, sample);
    let len = sorted.len() as int;
    assert forall|i: int| 0 <= i < pivots.len() implies stands_at_share(
        sorted,
        num_buckets,
        i,
        #[trigger] pivots[i],
    ) by {
        let at = pivot_index(i, len, num_buckets);
        lemma_pivot_index(i, len, num_buckets);
        reveal(pivot_index);
        let share = (i + 1) * len;
        assert(at * num_buckets <= share < (at + 1) * num_buckets) by (nonlinear_arith)
            requires
                at == share / num_buckets,
                num_buckets > 0,
        ;
        assert(is_share(at, i, sorted.len() as int, num_buckets));
        assert(pivots[i] == sorted[at]);
    }
    assert(cut_equal_shares(sorted, num_buckets, pivots));
}

/// An element lies between the pivots of its bucket: no pivot before the bucket is greater
/// than it, and every other one is.
pub proof fn law_bucket_lies_between_pivots(pivots: Seq<u32>, v: u32)
    requires
        sorted_by_value(pivots),
    ensures
        bucket_of(pivots, v) <= pivots.len(),
        forall|i: int|
            0 <= i < pivots.len() ==> (value(#[trigger] pivots[i]) <= value(v) <==> i < bucket_of(
                pivots,
                v,
            )),
    decreases pivots.len(),
{
    if pivots.len() > 0 {
        let front = pivots.drop_last();
        let last = pivots.len() - 1;
        assert forall|i: int, j: int| 0 <= i <= j < front.len() implies value(#[trigger] front[i])
            <= value(#[trigger] front[j]) by {
            assert(front[i] == pivots[i] && front[j] == pivots[j]);
        }
        law_bucket_lies_between_pivots(front, v);
        if value(pivots[last]) <= value(v) {
            if bucket_of(front, v) < front.len() {
                let i = bucket_of(front, v) as int;
                assert(value(front[i]) > value(v));
                assert(value(pivots[i]) <= value(pivots[last]));
            }
        }
        assert forall|i: int| 0 <= i < pivots.len() implies (value(#[trigger] pivots[i]) <= value(v)
            <==> i < bucket_of(pivots, v)) by {
            if i < last {
                assert(front[i] == pivots[i]);
            }
        }
    }
}

/// Whether `at` are the positions in `data`, in order, of the elements of `part`.
pub open spec fn are_positions(data: Seq<u32>, part: Seq<u32>, at: Seq<int>) -> bool {
    &&& at.len() == part.len()
    &&& forall|x: int|
        0 <= x < at.len() ==> 0 <= #[trigger] at[x] < data.len() && data[at[x]] == part[x]
    &&& forall|x: int, y: int| 0 <= x < y < at.len() ==> #[trigger] at[x] < #[trigger] at[y]
}

/// A bucket holds its elements in the order of the array.
pub proof fn law_bucket_keeps_order(data: Seq<u32>, pivots: Seq<u32>, b: int) -> (at: Seq<int>)
    ensures
        are_positions(data, bucket_elements(data, pivots, b), at),
        forall|p: int|
            0 <= p < data.len() ==> (at.contains(p) <==> bucket_of(pivots, #[trigger] data[p])
                == b),
    decreases data.len(),
{
    reveal(Seq::filter);
    if data.len() == 0 {
        seq![]
    } else {
        let front = data.drop_last();
        let before = law_bucket_keeps_order(front, pivots, b);
        let last = data.len() - 1;
        let at = if bucket_of(pivots, data[last]) == b {
            before.push(last)
        } else {
            before
        };
        assert forall|p: int| 0 <= p < data.len() implies (at.contains(p) <==> bucket_of(
            pivots,
            #[trigger] data[p],
        ) == b) by {
            if p < last {
                assert(front[p] == data[p]);
                if before.contains(p) {
                    let x = choose|x: int| 0 <= x < before.len() && before[x] == p;
                    assert(at[x] == p);
                }
                if at.contains(p) {
                    let x = choose|x: int| 0 <= x < at.len() && at[x] == p;
                    assert(before[x] == p);
                }
            } else {
                if bucket_of(pivots, data[last]) == b {
                    assert(at[at.len() - 1] == p);
                } else if at.contains(p) {
                    let x = choose|x: int| 0 <= x < at.len() && at[x] == p;
                    assert(before[x] < front.len());
                }
            }
        }
        at
    }
}

/// An array is cut into as many buckets as were asked for, but at least one, and one bucket is
/// the array itself.
pub proof fn law_cut_has_its_buckets(data: Seq<u32>, num_buckets: int, parts: Seq<Seq<u32>>)
    requires
        0 <= num_buckets,
        is_cut(data, num_buckets, parts),
    ensures
        num_buckets <= 1 ==> parts == seq![data],
        num_buckets >= 1 ==> parts.len() == num_buckets,
        concat(parts).to_multiset() == data.to_multiset(),
        parts_disjoint(parts),
{
    if num_buckets <= 1 {
        assert(parts.drop_last() =~= seq![]);
        assert(concat(parts.drop_last()) =~= Seq::<u32>::empty());
        assert(concat(parts) =~= data);
    } else {
        let (sample, pivots) = choose|sample: Seq<u32>, pivots: Seq<u32>|
            {
                &&& #[trigger] is_sample(data, num_buckets, sample)
                &&& are_pivots(sample, num_buckets, pivots)
                &&& #[trigger] is_partition(data, pivots, parts)
            };
        law_partition(data, pivots, parts);
    }
}

/// Calls `rand::thread_rng` and `Rng::gen_range` on it: a number below `bound`, drawn at
/// random.
#[verifier::external_body]
pub(crate) fn random_below(bound: usize) -> (drawn: usize)
    requires
        bound > 0,
    ensures
        drawn < bound,
{
    rand::thread_rng().gen_range(0..bound)
}

proof fn lemma_bucket_of_bounds(pivots: Seq<u32>, v: u32)
    ensures
        bucket_of(pivots, v) <= pivots.len(),
    decreases pivots.len(),
{
    if pivots.len() > 0 {
        lemma_bucket_of_bounds(pivots.drop_last(), v);
    }
}

/// Greater elements have no smaller buckets.
proof fn lemma_bucket_of_grows(pivots: Seq<u32>, u: u32, v: u32)
    requires
        value(u) <= value(v),
    ensures
        bucket_of(pivots, u) <= bucket_of(pivots, v),
    decreases pivots.len(),
{
    if pivots.len() > 0 {
        lemma_bucket_of_grows(pivots.drop_last(), u, v);
    }
}

/// The bucket is where the pivots that are not greater end.
proof fn lemma_bucket_of_split(pivots: Seq<u32>, v: u32, b: int)
    requires
        0 <= b <= pivots.len(),
        forall|i: int| 0 <= i < b ==> value(#[trigger] pivots[i]) <= value(v),
        forall|i: int| b <= i < pivots.len() ==> value(#[trigger] pivots[i]) > value(v),
    ensures
        bucket_of(pivots, v) == b,
    decreases pivots.len(),
{
    if pivots.len() > 0 {
        let last = pivots.len() - 1;
        let front = pivots.drop_last();
        assert(pivots[last] == pivots.last());
        lemma_bucket_of_split(
            front,
            v,
            if b == pivots.len() {
                b - 1
            } else {
                b
            },
        );
    }
}

/// The buckets of a partition hold the elements of the array, and their value ranges are
/// disjoint and ascend.
pub proof fn law_partition(data: Seq<u32>, pivots: Seq<u32>, parts: Seq<Seq<u32>>)
    requires
        is_partition(data, pivots, parts),
    ensures
        concat(parts).to_multiset() == data.to_multiset(),
        parts_disjoint(parts),
        parts_ascend(parts),
{
    lemma_partition_multiset(data, pivots, parts);
    assert forall|a: int, b: int, x: int, y: int|
        0 <= a < b < parts.len() && 0 <= x < parts[a].len() && 0 <= y < parts[b].len() implies value(
        #[trigger] parts[a][x],
    ) < value(#[trigger] parts[b][y]) by {
        assert(parts[a] == bucket_elements(data, pivots, a));
        assert(parts[b] == bucket_elements(data, pivots, b));
        data.lemma_filter_pred(|v: u32| bucket_of(pivots, v) == a, x);
        data.lemma_filter_pred(|v: u32| bucket_of(pivots, v) == b, y);
        if value(parts[a][x]) >= value(parts[b][y]) {
            lemma_bucket_of_grows(pivots, parts[b][y], parts[a][x]);
        }
    }
}

proof fn lemma_partition_multiset(data: Seq<u32>, pivots: Seq<u32>, parts: Seq<Seq<u32>>)
    requires
        is_partition(data, pivots, parts),
    ensures
        concat(parts).to_multiset() == data.to_multiset(),
    decreases data.len(),
{
    reveal(Seq::filter);
    if data.len() == 0 {
        lemma_concat_empty(parts);
        assert(concat(parts) =~= data);
    } else {
        let front = data.drop_last();
        let v = data.last();
        let c = bucket_of(pivots, v) as int;
        lemma_bucket_of_bounds(pivots, v);
        let before = Seq::new(parts.len(), |b: int| bucket_elements(front, pivots, b));
        assert(is_partition(front, pivots, before));
        lemma_partition_multiset(front, pivots, before);
        assert(parts =~= before.update(c, before[c].push(v))) by {
            assert forall|b: int| 0 <= b < parts.len() implies #[trigger] parts[b] == before.update(
                c,
                before[c].push(v),
            )[b] by {
                assert(parts[b] == bucket_elements(data, pivots, b));
            }
        }
        lemma_concat_push(before, c, v);
        assert(data =~= front.push(v));
        to_multiset_build(front, v);
    }
}

/// Looks an element's bucket up among ascending pivots.
pub fn bucket_index(pivots: &Vec<u32>, v: u32) -> (b: usize)
    requires
        sorted_by_value(pivots@),
        no_nan(pivots@),
        !crate::float32::is_nan(v),
    ensures
        b == bucket_of(pivots@, v),
        b <= pivots@.len(),
{
    let mut low: usize = 0;
    let mut high: usize = pivots.len();
    while low < high
        invariant
            sorted_by_value(pivots@),
            no_nan(pivots@),
            !crate::float32::is_nan(v),
            low <= high <= pivots@.len(),
            forall|i: int| 0 <= i < low ==> value(#[trigger] pivots@[i]) <= value(v),
            forall|i: int| high <= i < pivots@.len() ==> value(#[trigger] pivots@[i]) > value(v),
        decreases high - low,
    {
        let mid = low + (high - low) / 2;
        if at_most(pivots[mid], v) {
            assert forall|i: int| 0 <= i < mid + 1 implies value(#[trigger] pivots@[i]) <= value(
                v,
            ) by {
                assert(value(pivots@[i]) <= value(pivots@[mid as int]));
            }
            low = mid + 1;
        } else {
            assert forall|i: int| mid <= i < pivots@.len() implies value(#[trigger] pivots@[i])
                > value(v) by {
                assert(value(pivots@[mid as int]) <= value(pivots@[i]));
            }
            high = mid;
        }
    }
    proof {
        lemma_bucket_of_split(pivots@, v, low as int);
    }
    low
}

/// Cuts an array into the buckets that ascending pivots bound.
pub fn partition_by_pivots(data: &[u32], pivots: &Vec<u32>) -> (buckets: Vec<Vec<u32>>)
    requires
        sorted_by_value(pivots@),
        no_nan(pivots@),
        no_nan(data@),
        pivots@.len() < usize::MAX,
    ensures
        is_partition(data@, pivots@, contents(buckets@)),
{
    let find = |v: &u32| -> (b: usize)
        requires
            !crate::float32::is_nan(*v),
        ensures
            b == bucket_of(pivots@, *v),
        { bucket_index(pivots, *v) };
    let bucket_idx = par_map(data, find);
    let num_buckets = pivots.len() + 1;
    let mut buckets: Vec<Vec<u32>> = Vec::with_capacity(num_buckets);
    while buckets.len() < num_buckets
        invariant
            buckets@.len() <= num_buckets,
            forall|b: int| 0 <= b < buckets@.len() ==> (#[trigger] buckets@[b])@.len() == 0,
        decreases num_buckets - buckets@.len(),
    {
        buckets.push(Vec::new());
    }
    let mut i: usize = 0;
    proof {
        reveal(Seq::filter);
        assert(data@.take(0) =~= Seq::<u32>::empty());
    }
    while i < data.len()
        invariant
            i <= data@.len(),
            bucket_idx@.len() == data@.len(),
            num_buckets == pivots@.len() + 1,
            buckets@.len() == num_buckets,
            forall|x: int|
                0 <= x < data@.len() ==> #[trigger] bucket_idx@[x] == bucket_of(pivots@, data@[x]),
            forall|b: int|
                0 <= b < num_buckets ==> (#[trigger] buckets@[b])@ == bucket_elements(
                    data@.take(i as int),
                    pivots@,
                    b,
                ),
        decreases data@.len() - i,
    {
        let v = data[i];
        let c = bucket_idx[i];
        proof {
            lemma_bucket_of_bounds(pivots@, v);
            assert(bucket_idx@[i as int] == bucket_of(pivots@, data@[i as int]));
            reveal(Seq::filter);
            assert(data@.take(i + 1).drop_last() =~= data@.take(i as int));
            assert(data@.take(i + 1).last() == v);
        }
        let bucket: &mut Vec<u32> = &mut buckets[c];
        bucket.push(v);
        i = i + 1;
    }
    proof {
        assert(data@.take(i as int) =~= data@);
    }
    buckets
}

/// Draws elements at random, with repetition.
pub fn draw_sample(data: &[u32], num_buckets: usize) -> (sample: Vec<u32>)
    requires
        data@.len() > 0,
    ensures
        is_sample(data@, num_buckets as int, sample@),
{
    let n = data.len();
    let count = if num_buckets <= n / SAMPLES_PER_BUCKET {
        num_buckets * SAMPLES_PER_BUCKET
    } else {
        n
    };
    let mut sample: Vec<u32> = Vec::with_capacity(count);
    while sample.len() < count
        invariant
            n == data@.len(),
            n > 0,
            sample@.len() <= count,
            forall|i: int| 0 <= i < sample@.len() ==> data@.contains(#[trigger] sample@[i]),
        decreases count - sample@.len(),
    {
        let drawn = random_below(n);
        assert(data@.contains(data@[drawn as int]));
        sample.push(data[drawn]);
    }
    sample
}

/// Picks the pivots of `num_buckets` buckets from a sample.
pub fn choose_pivots(sample: Vec<u32>, num_buckets: usize) -> (pivots: Vec<u32>)
    requires
        num_buckets > 0,
        sample@.len() > 0,
        no_nan(sample@),
    ensures
        are_pivots(sample@, num_buckets as int, pivots@),
        sorted_by_value(pivots@),
        no_nan(pivots@),
{
    let ghost drawn = sample@;
    let mut sample = sample;
    sort_unstable(sample.as_mut_slice());
    proof {
        lemma_same_multiset(sample@, drawn);
        assert forall|i: int| 0 <= i < sample@.len() implies !crate::float32::is_nan(
            #[trigger] sample@[i],
        ) by {
            assert(drawn.contains(sample@[i]));
            let x = choose|x: int| 0 <= x < drawn.len() && drawn[x] == sample@[i];
            assert(!crate::float32::is_nan(drawn[x]));
        }
    }
    let len = sample.len();
    let mut pivots: Vec<u32> = Vec::with_capacity(num_buckets - 1);
    let mut i: usize = 1;
    while i < num_buckets
        invariant
            1 <= i <= num_buckets,
            len == sample@.len(),
            len > 0,
            no_nan(sample@),
            pivots@.len() == i - 1,
            no_nan(pivots@),
            are_spaced(sample@, num_buckets as int, pivots@),
        decreases num_buckets - i,
    {
        proof {
            assert(0 <= i * len < 0x1_0000_0000_0000_0000 * 0x1_0000_0000_0000_0000)
                by (nonlinear_arith)
                requires
                    0 <= i < 0x1_0000_0000_0000_0000,
                    0 <= len < 0x1_0000_0000_0000_0000,
            ;
            lemma_pivot_index(i - 1, len as int, num_buckets as int);
        }
        proof {
            reveal(pivot_index);
        }
        let idx = ((i as u128 * len as u128) / num_buckets as u128) as usize;
        assert(idx == pivot_index(i - 1, len as int, num_buckets as int));
        pivots.push(sample[idx]);
        i = i + 1;
    }
    proof {
        assert forall|x: int, y: int| 0 <= x <= y < pivots@.len() implies value(
            #[trigger] pivots@[x],
        ) <= value(#[trigger] pivots@[y]) by {
            let (a, b) = (
                pivot_index(x, len as int, num_buckets as int),
                pivot_index(y, len as int, num_buckets as int),
            );
            lemma_pivot_index(x, len as int, num_buckets as int);
            lemma_pivot_index(y, len as int, num_buckets as int);
            assert(a <= b) by {
                reveal(pivot_index);
                assert(a <= b) by (nonlinear_arith)
                    requires
                        a == ((x + 1) * len) / (num_buckets as int),
                        b == ((y + 1) * len) / (num_buckets as int),
                        0 <= x <= y,
                        0 < len,
                        0 < num_buckets,
                ;
            }
            assert(pivots@[x] == sample@[a] && pivots@[y] == sample@[b]);
            assert(value(sample@[a]) <= value(sample@[b]));
        }
        assert(are_pivots(drawn, num_buckets as int, pivots@));
    }
    pivots
}

/// Cuts an array into `num_buckets` buckets of ascending value ranges, bounded by pivots from
/// a random sample. One bucket, or none, leaves the array whole.
pub fn partition_into_buckets(data: &[u32], num_buckets: usize) -> (buckets: Vec<Vec<u32>>)
    requires
        num_buckets > 1 ==> no_nan(data@) && data@.len() > 0,
    ensures
        is_cut(data@, num_buckets as int, contents(buckets@)),
        concat(contents(buckets@)).to_multiset() == data@.to_multiset(),
        parts_disjoint(contents(buckets@)),
        parts_ascend(contents(buckets@)),
{
    if num_buckets <= 1 {
        let mut buckets: Vec<Vec<u32>> = Vec::new();
        buckets.push(vstd::slice::slice_to_vec(data));
        proof {
            let parts = contents(buckets@);
            assert(parts =~= seq![data@]);
            assert(parts.drop_last() =~= seq![]);
            assert(concat(parts.drop_last()) =~= Seq::<u32>::empty());
            assert(concat(parts) =~= data@);
        }
        return buckets;
    }
    let sample = draw_sample(data, num_buckets);
    proof {
        assert forall|i: int| 0 <= i < sample@.len() implies !crate::float32::is_nan(
            #[trigger] sample@[i],
        ) by {
            assert(data@.contains(sample@[i]));
            let x = choose|x: int| 0 <= x < data@.len() && data@[x] == sample@[i];
            assert(!crate::float32::is_nan(data@[x]));
        }
    }
    let ghost drawn = sample@;
    let pivots = choose_pivots(sample, num_buckets);
    let buckets = partition_by_pivots(data, &pivots);
    proof {
        assert(is_sample(data@, num_buckets as int, drawn));
        law_partition(data@, pivots@, contents(buckets@));
    }
    buckets
}

} // verus!
