//! Facts about rearranged sequences.
use vstd::prelude::*;
use vstd::seq_lib::{to_multiset_build, to_multiset_len, to_multiset_remove};

verus! {

/// Whether `slots` sends the positions `0..slots.len()` to distinct positions of the same
/// range.
pub open spec fn is_rearrangement(slots: Seq<int>) -> bool {
    &&& forall|i: int| 0 <= i < slots.len() ==> 0 <= #[trigger] slots[i] < slots.len()
    &&& forall|i: int, j: int|
        0 <= i < j < slots.len() ==> #[trigger] slots[i] != #[trigger] slots[j]
}

/// Closes the gap that the last slot leaves: the slots above it move down by one.
spec fn without_last(slots: Seq<int>) -> Seq<int> {
    Seq::new(
        (slots.len() - 1) as nat,
        |i: int|
            if slots[i] > slots.last() {
                slots[i] - 1
            } else {
                slots[i]
            },
    )
}

/// Distinct slots within the range fill the range.
pub(crate) proof fn lemma_rearrangement_covers(slots: Seq<int>, position: int)
    requires
        is_rearrangement(slots),
        0 <= position < slots.len(),
    ensures
        exists|i: int| 0 <= i < slots.len() && #[trigger] slots[i] == position,
    decreases slots.len(),
{
    let last = slots.last();
    if last == position {
        assert(slots[slots.len() - 1] == position);
    } else {
        let rest = without_last(slots);
        assert(is_rearrangement(rest)) by {
            assert forall|i: int| 0 <= i < rest.len() implies 0 <= #[trigger] rest[i] < rest.len() by {
                assert(slots[i] != slots[slots.len() - 1]);
            }
            assert forall|i: int, j: int| 0 <= i < j < rest.len() implies #[trigger] rest[i]
                != #[trigger] rest[j] by {
                assert(slots[i] != slots[j]);
                assert(slots[i] != slots[slots.len() - 1]);
                assert(slots[j] != slots[slots.len() - 1]);
            }
        }
        let moved = if position > last {
            position - 1
        } else {
            position
        };
        lemma_rearrangement_covers(rest, moved);
        let i = choose|i: int| 0 <= i < rest.len() && #[trigger] rest[i] == moved;
        assert(slots[i] != slots[slots.len() - 1]);
        assert(slots[i] == position);
    }
}

/// Writing each element to a slot of its own keeps the elements.
pub(crate) proof fn lemma_rearranged_multiset<A>(from: Seq<A>, to: Seq<A>, slots: Seq<int>)
    requires
        is_rearrangement(slots),
        from.len() == slots.len(),
        to.len() == slots.len(),
        forall|i: int| 0 <= i < slots.len() ==> to[#[trigger] slots[i]] == from[i],
    ensures
        to.to_multiset() == from.to_multiset(),
    decreases slots.len(),
{
    if slots.len() == 0 {
        assert(to =~= from);
    } else {
        let last = slots.last();
        let rest = without_last(slots);
        let shorter = to.remove(last);
        assert forall|i: int| 0 <= i < rest.len() implies 0 <= #[trigger] rest[i] < rest.len()
            && shorter[rest[i]] == from.drop_last()[i] by {
            assert(slots[i] != slots[slots.len() - 1]);
            assert(to[slots[i]] == from[i]);
        }
        assert forall|i: int, j: int| 0 <= i < j < rest.len() implies #[trigger] rest[i]
            != #[trigger] rest[j] by {
            assert(slots[i] != slots[j]);
            assert(slots[i] != slots[slots.len() - 1]);
            assert(slots[j] != slots[slots.len() - 1]);
        }
        lemma_rearranged_multiset(from.drop_last(), shorter, rest);
        assert(from =~= from.drop_last().push(from.last()));
        to_multiset_build(from.drop_last(), from.last());
        to_multiset_remove(to, last);
        assert(to[slots[slots.len() - 1]] == from.last());
        to.to_multiset_ensures();
        assert(to.to_multiset().count(to[last]) > 0) by {
            assert(to.contains(to[last]));
        }
        assert(to.to_multiset() =~= shorter.to_multiset().insert(from.last()));
    }
}

/// Rearranged sequences have the same length and the same elements.
pub(crate) proof fn lemma_same_multiset<A>(a: Seq<A>, b: Seq<A>)
    requires
        a.to_multiset() == b.to_multiset(),
    ensures
        a.len() == b.len(),
        forall|i: int| 0 <= i < a.len() ==> b.contains(#[trigger] a[i]),
        forall|i: int| 0 <= i < b.len() ==> a.contains(#[trigger] b[i]),
{
    to_multiset_len(a);
    to_multiset_len(b);
    a.to_multiset_ensures();
    b.to_multiset_ensures();
    assert forall|i: int| 0 <= i < a.len() implies b.contains(#[trigger] a[i]) by {
        assert(a.contains(a[i]));
        assert(b.to_multiset().count(a[i]) > 0);
    }
    assert forall|i: int| 0 <= i < b.len() implies a.contains(#[trigger] b[i]) by {
        assert(b.contains(b[i]));
        assert(a.to_multiset().count(b[i]) > 0);
    }
}

/// Mapping the elements of rearranged sequences gives rearranged sequences.
pub(crate) proof fn lemma_mapped_multiset<A, B>(a: Seq<A>, b: Seq<A>, f: spec_fn(A) -> B)
    requires
        a.to_multiset() == b.to_multiset(),
    ensures
        a.map_values(f).to_multiset() == b.map_values(f).to_multiset(),
    decreases a.len(),
{
    lemma_same_multiset(a, b);
    if a.len() == 0 {
        assert(a.map_values(f) =~= b.map_values(f));
    } else {
        let x = a.last();
        assert(b.contains(a[a.len() - 1]));
        let i = choose|i: int| 0 <= i < b.len() && b[i] == x;
        let rest = b.remove(i);
        assert(a =~= a.drop_last().push(x));
        to_multiset_build(a.drop_last(), x);
        to_multiset_remove(b, i);
        assert(a.drop_last().to_multiset() =~= a.to_multiset().remove(x));
        lemma_mapped_multiset(a.drop_last(), rest, f);
        assert(a.map_values(f) =~= a.drop_last().map_values(f).push(f(x)));
        to_multiset_build(a.drop_last().map_values(f), f(x));
        assert(rest.map_values(f) =~= b.map_values(f).remove(i));
        to_multiset_remove(b.map_values(f), i);
        b.map_values(f).to_multiset_ensures();
        assert(b.map_values(f).contains(b.map_values(f)[i]));
        assert(b.map_values(f).to_multiset() =~= rest.map_values(f).to_multiset().insert(f(x)));
    }
}

} // verus!
