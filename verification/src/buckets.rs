//! Arrays cut into consecutive buckets.
use crate::float32::{is_nan, law_key_order, no_nan, sorted_by_value, value, INFINITY_BITS};
use crate::permutation::lemma_same_multiset;
use vstd::prelude::*;
use vstd::seq_lib::{lemma_multiset_commutative, to_multiset_build, to_multiset_len};

verus! {

/// The contents of the buckets.
pub open spec fn contents(buckets: Seq<Vec<u32>>) -> Seq<Seq<u32>> {
    buckets.map_values(|bucket: Vec<u32>| bucket@)
}

/// The elements of all parts, one part after the other.
pub open spec fn concat(parts: Seq<Seq<u32>>) -> Seq<u32>
    decreases parts.len(),
{
    if parts.len() == 0 {
        seq![]
    } else {
        concat(parts.drop_last()) + parts.last()
    }
}

/// The position at which part `i` starts in the concatenation.
pub open spec fn offset(parts: Seq<Seq<u32>>, i: int) -> int {
    concat(parts.take(i)).len() as int
}

/// Whether the parts are value ranges that ascend: no element of a part is greater than one
/// of a later part.
pub open spec fn parts_ascend(parts: Seq<Seq<u32>>) -> bool {
    forall|a: int, b: int, x: int, y: int|
        0 <= a < b < parts.len() && 0 <= x < parts[a].len() && 0 <= y < parts[b].len() ==> value(
            #[trigger] parts[a][x],
        ) <= value(#[trigger] parts[b][y])
}

/// Whether the parts are disjoint value ranges that ascend: every element of a part is smaller
/// than every one of a later part.
pub open spec fn parts_disjoint(parts: Seq<Seq<u32>>) -> bool {
    forall|a: int, b: int, x: int, y: int|
        0 <= a < b < parts.len() && 0 <= x < parts[a].len() && 0 <= y < parts[b].len() ==> value(
            #[trigger] parts[a][x],
        ) < value(#[trigger] parts[b][y])
}

/// Whether every part of `sorted` holds the elements of the same part of `parts`, in
/// ascending order.
pub open spec fn parts_sorted(parts: Seq<Seq<u32>>, sorted: Seq<Seq<u32>>) -> bool {
    &&& sorted.len() == parts.len()
    &&& forall|i: int|
        0 <= i < parts.len() ==> (#[trigger] sorted[i]).to_multiset() == parts[i].to_multiset()
            && sorted_by_value(sorted[i])
}

pub(crate) proof fn lemma_offset_step(parts: Seq<Seq<u32>>, i: int)
    requires
        0 <= i < parts.len(),
    ensures
        offset(parts, i + 1) == offset(parts, i) + parts[i].len(),
        concat(parts.take(i + 1)) == concat(parts.take(i)) + parts[i],
{
    assert(parts.take(i + 1).drop_last() =~= parts.take(i));
}

pub(crate) proof fn lemma_offset_grows(parts: Seq<Seq<u32>>, i: int, j: int)
    requires
        0 <= i <= j <= parts.len(),
    ensures
        0 <= offset(parts, i) <= offset(parts, j) <= concat(parts).len(),
        offset(parts, 0) == 0,
        offset(parts, parts.len() as int) == concat(parts).len(),
    decreases parts.len() - i,
{
    assert(parts.take(0) =~= seq![]);
    assert(parts.take(parts.len() as int) =~= parts);
    if i < parts.len() {
        lemma_offset_step(parts, i);
        lemma_offset_grows(
            parts,
            i + 1,
            if j == i {
                j + 1
            } else {
                j
            },
        );
    }
}

/// Part `i` stands in the concatenation from its offset on.
pub(crate) proof fn lemma_part_in_concat(parts: Seq<Seq<u32>>, i: int)
    requires
        0 <= i < parts.len(),
    ensures
        0 <= offset(parts, i) <= offset(parts, i + 1) <= concat(parts).len(),
        concat(parts).subrange(offset(parts, i), offset(parts, i + 1)) == parts[i],
    decreases parts.len(),
{
    lemma_offset_grows(parts, i, i + 1);
    lemma_offset_step(parts, i);
    if i == parts.len() - 1 {
        assert(parts.take(i) =~= parts.drop_last());
        assert(concat(parts).subrange(offset(parts, i), offset(parts, i + 1)) =~= parts[i]);
    } else {
        let front = parts.drop_last();
        lemma_part_in_concat(front, i);
        assert(front.take(i) =~= parts.take(i));
        assert(front.take(i + 1) =~= parts.take(i + 1));
        assert(concat(parts).subrange(offset(parts, i), offset(parts, i + 1)) =~= concat(
            front,
        ).subrange(offset(parts, i), offset(parts, i + 1)));
    }
}

/// An array whose stretches are the parts is their concatenation.
pub(crate) proof fn lemma_concat_of_stretches(parts: Seq<Seq<u32>>, all: Seq<u32>)
    requires
        all.len() == concat(parts).len(),
        forall|i: int|
            0 <= i < parts.len() ==> all.subrange(offset(parts, i), offset(parts, i + 1))
                == #[trigger] parts[i],
    ensures
        all == concat(parts),
{
    lemma_prefix_of_stretches(parts, all, parts.len() as int);
    lemma_offset_grows(parts, 0, 0);
    assert(parts.take(parts.len() as int) =~= parts);
    assert(all.take(all.len() as int) =~= all);
}

proof fn lemma_prefix_of_stretches(parts: Seq<Seq<u32>>, all: Seq<u32>, k: int)
    requires
        all.len() == concat(parts).len(),
        0 <= k <= parts.len(),
        forall|i: int|
            0 <= i < parts.len() ==> all.subrange(offset(parts, i), offset(parts, i + 1))
                == #[trigger] parts[i],
    ensures
        all.take(offset(parts, k)) == concat(parts.take(k)),
    decreases k,
{
    lemma_offset_grows(parts, k, k);
    if k == 0 {
        assert(all.take(0) =~= concat(parts.take(0)));
    } else {
        lemma_prefix_of_stretches(parts, all, k - 1);
        lemma_offset_step(parts, k - 1);
        lemma_offset_grows(parts, k - 1, k);
        assert(all.subrange(offset(parts, k - 1), offset(parts, k)) == parts[k - 1]);
        lemma_take_split(all, offset(parts, k - 1), offset(parts, k));
    }
}

proof fn lemma_take_split(all: Seq<u32>, a: int, b: int)
    requires
        0 <= a <= b <= all.len(),
    ensures
        all.take(b) == all.take(a) + all.subrange(a, b),
{
    assert(all.take(b) =~= all.take(a) + all.subrange(a, b));
}

/// Appending an element to one part adds it to the elements.
pub(crate) proof fn lemma_concat_push(parts: Seq<Seq<u32>>, c: int, v: u32)
    requires
        0 <= c < parts.len(),
    ensures
        concat(parts.update(c, parts[c].push(v))).to_multiset() == concat(
            parts,
        ).to_multiset().insert(v),
    decreases parts.len(),
{
    let grown = parts.update(c, parts[c].push(v));
    let front = parts.drop_last();
    lemma_multiset_commutative(concat(front), parts.last());
    lemma_multiset_commutative(concat(grown.drop_last()), grown.last());
    if c == parts.len() - 1 {
        assert(grown.drop_last() =~= front);
        to_multiset_build(parts.last(), v);
    } else {
        lemma_concat_push(front, c, v);
        assert(grown.drop_last() =~= front.update(c, front[c].push(v)));
    }
    assert(concat(grown).to_multiset() =~= concat(parts).to_multiset().insert(v));
}

/// Parts without elements have no elements together.
pub(crate) proof fn lemma_concat_empty(parts: Seq<Seq<u32>>)
    requires
        forall|i: int| 0 <= i < parts.len() ==> (#[trigger] parts[i]).len() == 0,
    ensures
        concat(parts) == Seq::<u32>::empty(),
    decreases parts.len(),
{
    if parts.len() > 0 {
        assert(parts[parts.len() - 1].len() == 0);
        lemma_concat_empty(parts.drop_last());
        assert(concat(parts) =~= Seq::<u32>::empty());
    }
}

/// Rearranging within the parts keeps the elements.
pub(crate) proof fn lemma_concat_rearranged(parts: Seq<Seq<u32>>, others: Seq<Seq<u32>>)
    requires
        parts.len() == others.len(),
        forall|i: int|
            0 <= i < parts.len() ==> (#[trigger] others[i]).to_multiset() == parts[i].to_multiset(),
    ensures
        concat(others).to_multiset() == concat(parts).to_multiset(),
    decreases parts.len(),
{
    if parts.len() > 0 {
        lemma_concat_rearranged(parts.drop_last(), others.drop_last());
        lemma_multiset_commutative(concat(parts.drop_last()), parts.last());
        lemma_multiset_commutative(concat(others.drop_last()), others.last());
        assert(others[parts.len() - 1].to_multiset() == parts[parts.len() - 1].to_multiset());
    }
}

/// An element of the concatenation is an element of a part.
proof fn lemma_concat_index(parts: Seq<Seq<u32>>, p: int) -> (at: (int, int))
    requires
        0 <= p < concat(parts).len(),
    ensures
        0 <= at.0 < parts.len(),
        0 <= at.1 < parts[at.0].len(),
        parts[at.0][at.1] == concat(parts)[p],
        at.0 < parts.len() - 1 || p == concat(parts.drop_last()).len() + at.1,
    decreases parts.len(),
{
    let front = parts.drop_last();
    if p < concat(front).len() {
        let at = lemma_concat_index(front, p);
        (at.0, at.1)
    } else {
        (parts.len() - 1, p - concat(front).len())
    }
}

/// Sorted parts that ascend make a sorted array.
proof fn lemma_concat_sorted(parts: Seq<Seq<u32>>)
    requires
        parts_ascend(parts),
        forall|i: int| 0 <= i < parts.len() ==> sorted_by_value(#[trigger] parts[i]),
    ensures
        sorted_by_value(concat(parts)),
    decreases parts.len(),
{
    if parts.len() > 0 {
        let front = parts.drop_last();
        let all = concat(parts);
        let last = parts.len() - 1;
        lemma_concat_sorted(front);
        assert(sorted_by_value(parts[last]));
        assert forall|p: int, q: int| 0 <= p <= q < all.len() implies value(#[trigger] all[p])
            <= value(#[trigger] all[q]) by {
            let m = concat(front).len() as int;
            if q < m {
                assert(all[p] == concat(front)[p] && all[q] == concat(front)[q]);
            } else if p >= m {
                assert(all[p] == parts[last][p - m] && all[q] == parts[last][q - m]);
            } else {
                let at = lemma_concat_index(front, p);
                assert(all[p] == parts[at.0][at.1]);
                assert(all[q] == parts[last][q - m]);
            }
        }
    }
}

/// Rearranging within the parts keeps the parts' value ranges.
pub(crate) proof fn lemma_rearranged_ascend(parts: Seq<Seq<u32>>, sorted: Seq<Seq<u32>>)
    requires
        parts_ascend(parts),
        parts.len() == sorted.len(),
        forall|i: int|
            0 <= i < parts.len() ==> (#[trigger] sorted[i]).to_multiset() == parts[i].to_multiset(),
    ensures
        parts_ascend(sorted),
{
    assert forall|a: int, b: int, x: int, y: int|
        0 <= a < b < sorted.len() && 0 <= x < sorted[a].len() && 0 <= y
            < sorted[b].len() implies value(#[trigger] sorted[a][x]) <= value(
        #[trigger] sorted[b][y],
    ) by {
        lemma_same_multiset(sorted[a], parts[a]);
        lemma_same_multiset(sorted[b], parts[b]);
        assert(parts[a].contains(sorted[a][x]));
        assert(parts[b].contains(sorted[b][y]));
        let u = choose|u: int| 0 <= u < parts[a].len() && parts[a][u] == sorted[a][x];
        let v = choose|v: int| 0 <= v < parts[b].len() && parts[b][v] == sorted[b][y];
        assert(value(parts[a][u]) <= value(parts[b][v]));
    }
}

/// Sorting every bucket of an array that was cut into ascending value ranges sorts the array:
/// writing the sorted buckets one after the other is the whole merge.
pub proof fn law_sorted_buckets_merge(parts: Seq<Seq<u32>>, sorted: Seq<Seq<u32>>)
    requires
        parts_ascend(parts),
        parts_sorted(parts, sorted),
    ensures
        sorted_by_value(concat(sorted)),
        concat(sorted).to_multiset() == concat(parts).to_multiset(),
{
    lemma_concat_rearranged(parts, sorted);
    lemma_rearranged_ascend(parts, sorted);
    lemma_concat_sorted(sorted);
}

/// A bucket filled up with positive infinities to the length `len`.
pub open spec fn padded(bucket: Seq<u32>, len: int) -> Seq<u32> {
    bucket + Seq::new((len - bucket.len()) as nat, |i: int| INFINITY_BITS)
}

proof fn lemma_count_at_most_len(s: Seq<u32>, v: u32)
    ensures
        s.to_multiset().count(v) <= s.len(),
{
    to_multiset_len(s);
}

proof fn lemma_infinities(s: Seq<u32>)
    requires
        forall|i: int| 0 <= i < s.len() ==> s[i] == INFINITY_BITS,
    ensures
        s.to_multiset().count(INFINITY_BITS) == s.len(),
    decreases s.len(),
{
    s.to_multiset_ensures();
    if s.len() > 0 {
        lemma_infinities(s.drop_last());
        assert(s =~= s.drop_last().push(INFINITY_BITS));
        to_multiset_build(s.drop_last(), INFINITY_BITS);
    } else {
        to_multiset_len(s);
    }
}

/// Padding a bucket with positive infinities, sorting it, and cutting it back to its length
/// sorts the bucket: the sentinels end up behind every element.
pub proof fn law_padding_sorts_to_the_end(bucket: Seq<u32>, len: int, sorted: Seq<u32>)
    requires
        bucket.len() <= len,
        no_nan(bucket),
        sorted.to_multiset() == padded(bucket, len).to_multiset(),
        sorted_by_value(sorted),
    ensures
        sorted.len() == len,
        sorted.take(bucket.len() as int).to_multiset() == bucket.to_multiset(),
        sorted_by_value(sorted.take(bucket.len() as int)),
        forall|i: int| bucket.len() <= i < len ==> #[trigger] sorted[i] == INFINITY_BITS,
{
    let m = bucket.len() as int;
    let fill = Seq::new((len - m) as nat, |i: int| INFINITY_BITS);
    let all = bucket + fill;
    lemma_same_multiset(sorted, all);
    lemma_multiset_commutative(bucket, fill);
    lemma_infinities(fill);
    let front = sorted.take(m);
    let back = sorted.skip(m);
    assert forall|i: int| m <= i < len implies #[trigger] sorted[i] == INFINITY_BITS by {
        if sorted[i] != INFINITY_BITS {
            assert forall|x: int| 0 <= x <= i implies #[trigger] sorted[x] != INFINITY_BITS by {
                assert(value(sorted[x]) <= value(sorted[i]));
                assert(all.contains(sorted[i]));
                let y = choose|y: int| 0 <= y < all.len() && all[y] == sorted[i];
                assert(y < m);
                assert(!is_nan(bucket[y]));
                law_key_order(sorted[i], INFINITY_BITS);
                law_key_order(INFINITY_BITS, sorted[i]);
            }
            let low = sorted.take(i + 1);
            let high = sorted.skip(i + 1);
            assert(low + high =~= sorted);
            lemma_multiset_commutative(low, high);
            low.to_multiset_ensures();
            assert(!low.contains(INFINITY_BITS));
            assert(low.to_multiset().count(INFINITY_BITS) == 0);
            lemma_count_at_most_len(high, INFINITY_BITS);
            assert(sorted.to_multiset().count(INFINITY_BITS) == high.to_multiset().count(
                INFINITY_BITS,
            ));
            assert(all.to_multiset().count(INFINITY_BITS) >= len - m);
        }
    }
    assert(front + back =~= sorted);
    lemma_multiset_commutative(front, back);
    assert(back =~= fill);
    assert forall|v: u32| front.to_multiset().count(v) == bucket.to_multiset().count(v) by {
        assert(sorted.to_multiset().count(v) == all.to_multiset().count(v));
    }
    assert(front.to_multiset() =~= bucket.to_multiset());
}

} // verus!
