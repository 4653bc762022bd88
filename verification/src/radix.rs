//! Parallel radix sort of `f32` bit patterns.
//!
//! The patterns are mapped onto unsigned keys that ascend with the numbers, and the keys are
//! sorted least significant digit first, in four passes of eight-bit digits. Each pass counts
//! the digits of every chunk, turns the counts into the slot at which each chunk's keys with
//! each digit start, and moves every key to its slot. Keys with equal digits keep their order
//! within a pass, which is what makes the passes add up to a sort.
use crate::float32::{from_key, key, pattern, sorted_by_key, to_key};
use crate::parallel::{
    chunk_at, chunk_count, chunk_start, current_threads, lemma_chunk_bounds, par_chunks_map,
    par_chunks_zip_map, par_map,
};
use crate::permutation::{
    is_rearrangement, lemma_mapped_multiset, lemma_rearranged_multiset,
    lemma_rearrangement_covers, lemma_same_multiset,
};
use vstd::arithmetic::div_mod::lemma_mod_breakdown;
use vstd::arithmetic::power2::{lemma2_to64, lemma_pow2_adds, lemma_pow2_pos, pow2};
use vstd::bits::lemma_u32_shr_is_div;
use vstd::prelude::*;

verus! {

/// The number of bits of a digit.
pub const RADIX_BITS: u32 = 8;

/// The number of digits.
pub const RADIX_SIZE: usize = 256;

/// The bits of a key that make up its lowest digit.
pub const RADIX_MASK: u32 = 255;

/// The number of passes over the keys.
pub const PASSES: u32 = 4;

/// The digit of `k` that starts at bit `shift`.
pub open spec fn digit(k: u32, shift: u32) -> int {
    (k as int / pow2(shift as nat) as int) % RADIX_SIZE as int
}

/// The bits of `k` below bit `shift`.
pub open spec fn low_bits(k: u32, shift: nat) -> int {
    k as int % pow2(shift) as int
}

/// Whether the bits below bit `shift` ascend.
pub open spec fn sorted_by_low_bits(keys: Seq<u32>, shift: nat) -> bool {
    forall|i: int, j: int|
        0 <= i <= j < keys.len() ==> low_bits(#[trigger] keys[i], shift) <= low_bits(
            #[trigger] keys[j],
            shift,
        )
}

/// How many of `keys` have the digit `d`.
pub open spec fn digit_count(keys: Seq<u32>, shift: u32, d: int) -> nat
    decreases keys.len(),
{
    if keys.len() == 0 {
        0
    } else {
        digit_count(keys.drop_last(), shift, d) + if digit(keys.last(), shift) == d {
            1nat
        } else {
            0nat
        }
    }
}

/// How many of `keys` have a digit below `d`.
pub open spec fn count_below(keys: Seq<u32>, shift: u32, d: int) -> nat
    decreases d,
{
    if d <= 0 {
        0
    } else {
        count_below(keys, shift, d - 1) + digit_count(keys, shift, d - 1)
    }
}

/// The slot that a pass moves `keys[i]` to: behind all keys with a smaller digit and behind
/// the earlier keys with the same digit.
pub open spec fn slot(keys: Seq<u32>, shift: u32, i: int) -> int {
    let d = digit(keys[i], shift);
    (count_below(keys, shift, d) + digit_count(keys.take(i), shift, d)) as int
}

/// Whether `out` is what a pass makes of `keys`.
pub open spec fn is_pass(keys: Seq<u32>, out: Seq<u32>, shift: u32) -> bool {
    &&& out.len() == keys.len()
    &&& forall|i: int| #![trigger keys[i]] 0 <= i < keys.len() ==> out[slot(keys, shift, i)] == keys[i]
}

proof fn lemma_count_concat(a: Seq<u32>, b: Seq<u32>, shift: u32, d: int)
    ensures
        digit_count(a + b, shift, d) == digit_count(a, shift, d) + digit_count(b, shift, d),
    decreases b.len(),
{
    if b.len() == 0 {
        assert(a + b =~= a);
    } else {
        assert((a + b).drop_last() =~= a + b.drop_last());
        lemma_count_concat(a, b.drop_last(), shift, d);
    }
}

proof fn lemma_count_prefix(keys: Seq<u32>, shift: u32, d: int, i: int, j: int)
    requires
        0 <= i <= j <= keys.len(),
    ensures
        digit_count(keys.take(i), shift, d) <= digit_count(keys.take(j), shift, d),
        i < j && digit(keys[i], shift) == d ==> digit_count(keys.take(i), shift, d) < digit_count(
            keys.take(j),
            shift,
            d,
        ),
    decreases j - i,
{
    if i < j {
        lemma_count_prefix(keys, shift, d, i, j - 1);
        assert(keys.take(j).drop_last() =~= keys.take(j - 1));
    }
}

proof fn lemma_count_bounded(keys: Seq<u32>, shift: u32, d: int)
    ensures
        digit_count(keys, shift, d) <= keys.len(),
    decreases keys.len(),
{
    if keys.len() > 0 {
        lemma_count_bounded(keys.drop_last(), shift, d);
    }
}

proof fn lemma_below_grows(keys: Seq<u32>, shift: u32, d: int, e: int)
    requires
        0 <= d <= e,
    ensures
        count_below(keys, shift, d) <= count_below(keys, shift, e),
    decreases e - d,
{
    if d < e {
        lemma_below_grows(keys, shift, d, e - 1);
    }
}

proof fn lemma_below_drop_last(keys: Seq<u32>, shift: u32, d: int)
    requires
        keys.len() > 0,
        0 <= d,
    ensures
        count_below(keys, shift, d) == count_below(keys.drop_last(), shift, d) + if 0 <= digit(
            keys.last(),
            shift,
        ) < d {
            1nat
        } else {
            0nat
        },
    decreases d,
{
    if d > 0 {
        lemma_below_drop_last(keys, shift, d - 1);
    }
}

proof fn lemma_digit_range(k: u32, shift: u32)
    ensures
        0 <= digit(k, shift) < RADIX_SIZE,
{
}

proof fn lemma_below_all(keys: Seq<u32>, shift: u32)
    ensures
        count_below(keys, shift, RADIX_SIZE as int) == keys.len(),
    decreases keys.len(),
{
    if keys.len() == 0 {
        lemma_below_empty(keys, shift, RADIX_SIZE as int);
    } else {
        lemma_digit_range(keys.last(), shift);
        lemma_below_drop_last(keys, shift, RADIX_SIZE as int);
        lemma_below_all(keys.drop_last(), shift);
    }
}

proof fn lemma_below_empty(keys: Seq<u32>, shift: u32, d: int)
    requires
        keys.len() == 0,
    ensures
        count_below(keys, shift, d) == 0,
    decreases d,
{
    if d > 0 {
        lemma_below_empty(keys, shift, d - 1);
    }
}

/// Slots lie within the array and order the keys by digit, then by position.
proof fn lemma_slot_order(keys: Seq<u32>, shift: u32, i: int, j: int)
    requires
        0 <= i < keys.len(),
        0 <= j < keys.len(),
    ensures
        0 <= slot(keys, shift, i) < keys.len(),
        digit(keys[i], shift) < digit(keys[j], shift) ==> slot(keys, shift, i) < slot(keys, shift, j),
        digit(keys[i], shift) == digit(keys[j], shift) && i < j ==> slot(keys, shift, i) < slot(
            keys,
            shift,
            j,
        ),
{
    let d = digit(keys[i], shift);
    lemma_digit_range(keys[i], shift);
    lemma_digit_range(keys[j], shift);
    lemma_count_prefix(keys, shift, d, i, keys.len() as int);
    assert(keys.take(keys.len() as int) =~= keys);
    lemma_below_grows(keys, shift, d + 1, RADIX_SIZE as int);
    lemma_below_all(keys, shift);
    if d < digit(keys[j], shift) {
        lemma_below_grows(keys, shift, d + 1, digit(keys[j], shift));
    } else if d == digit(keys[j], shift) && i < j {
        lemma_count_prefix(keys, shift, d, i, j);
    }
}

/// The slots of all keys, in the order of the keys.
pub open spec fn slots_of(keys: Seq<u32>, shift: u32) -> Seq<int> {
    Seq::new(keys.len(), |i: int| slot(keys, shift, i))
}

/// No two keys share a slot, and every slot lies within the array: the writes of a pass never
/// meet, whichever chunk they come from.
pub proof fn law_slots_distinct(keys: Seq<u32>, shift: u32)
    ensures
        is_rearrangement(slots_of(keys, shift)),
{
    let slots = slots_of(keys, shift);
    assert forall|i: int| 0 <= i < slots.len() implies 0 <= #[trigger] slots[i] < slots.len() by {
        lemma_slot_order(keys, shift, i, i);
    }
    assert forall|i: int, j: int| 0 <= i < j < slots.len() implies #[trigger] slots[i]
        != #[trigger] slots[j] by {
        lemma_slot_order(keys, shift, i, j);
        lemma_slot_order(keys, shift, j, i);
    }
}

/// A pass keeps the keys, and puts one digit more of them in order.
pub proof fn law_pass_extends_order(keys: Seq<u32>, out: Seq<u32>, shift: u32)
    requires
        is_pass(keys, out, shift),
        sorted_by_low_bits(keys, shift as nat),
    ensures
        out.to_multiset() == keys.to_multiset(),
        sorted_by_low_bits(out, (shift + RADIX_BITS) as nat),
{
    let slots = slots_of(keys, shift);
    law_slots_distinct(keys, shift);
    assert forall|i: int| 0 <= i < slots.len() implies out[#[trigger] slots[i]] == keys[i] by {}
    lemma_rearranged_multiset(keys, out, slots);
    lemma2_to64();
    lemma_pow2_pos(shift as nat);
    lemma_pow2_adds(shift as nat, RADIX_BITS as nat);
    let p = pow2(shift as nat) as int;
    assert forall|x: int, y: int| 0 <= x <= y < out.len() implies low_bits(
        #[trigger] out[x],
        (shift + RADIX_BITS) as nat,
    ) <= low_bits(#[trigger] out[y], (shift + RADIX_BITS) as nat) by {
        lemma_rearrangement_covers(slots, x);
        lemma_rearrangement_covers(slots, y);
        let i = choose|i: int| 0 <= i < slots.len() && #[trigger] slots[i] == x;
        let j = choose|j: int| 0 <= j < slots.len() && #[trigger] slots[j] == y;
        lemma_slot_order(keys, shift, j, i);
        let (a, b) = (keys[i], keys[j]);
        lemma_mod_breakdown(a as int, p, RADIX_SIZE as int);
        lemma_mod_breakdown(b as int, p, RADIX_SIZE as int);
        let (da, db) = (digit(a, shift), digit(b, shift));
        assert(da <= db);
        if da == db {
            assert(i <= j);
            assert(low_bits(keys[i], shift as nat) <= low_bits(keys[j], shift as nat));
        } else {
            assert(p * da + a as int % p <= p * db + b as int % p) by (nonlinear_arith)
                requires
                    da + 1 <= db,
                    p > 0,
            ;
        }
    }
}

/// Whether `hist` holds for each digit how many of `keys` have it.
pub open spec fn is_histogram(hist: [usize; RADIX_SIZE], keys: Seq<u32>, shift: u32) -> bool {
    forall|d: int| 0 <= d < RADIX_SIZE ==> #[trigger] hist@[d] == digit_count(keys, shift, d)
}

/// Whether the slots of `chunk` stay within bounds when its digits start at `starts`.
pub open spec fn slots_fit(chunk: Seq<u32>, starts: [usize; RADIX_SIZE], shift: u32) -> bool {
    forall|d: int|
        0 <= d < RADIX_SIZE ==> #[trigger] starts@[d] + digit_count(chunk, shift, d) <= usize::MAX
}

/// Whether `slots` are the slots of `chunk` when its digits start at `starts`.
pub open spec fn are_chunk_slots(
    slots: Seq<usize>,
    chunk: Seq<u32>,
    starts: [usize; RADIX_SIZE],
    shift: u32,
) -> bool {
    &&& slots.len() == chunk.len()
    &&& forall|x: int|
        0 <= x < chunk.len() ==> #[trigger] slots[x] == starts@[digit(chunk[x], shift)]
            + digit_count(chunk.take(x), shift, digit(chunk[x], shift))
}

/// The executable form of [`digit`].
fn digit_at(k: u32, shift: u32) -> (d: usize)
    requires
        shift < 32,
    ensures
        d == digit(k, shift),
        d < RADIX_SIZE,
{
    proof {
        lemma_u32_shr_is_div(k, shift);
        let x = k >> shift;
        assert(x & 255 == x % 256) by (bit_vector);
    }
    ((k >> shift) & RADIX_MASK) as usize
}

/// A count of zero for every digit.
fn no_counts() -> (hist: [usize; RADIX_SIZE])
    ensures
        forall|d: int| 0 <= d < RADIX_SIZE ==> #[trigger] hist@[d] == 0,
{
    let mut hist: [usize; RADIX_SIZE] = [0usize; 256];
    let mut d: usize = 0;
    while d < RADIX_SIZE
        invariant
            d <= RADIX_SIZE,
            forall|x: int| 0 <= x < d ==> #[trigger] hist@[x] == 0,
        decreases RADIX_SIZE - d,
    {
        hist[d] = 0;
        d = d + 1;
    }
    hist
}

/// Counts the digits of one chunk.
pub fn histogram(chunk: &[u32], shift: u32) -> (hist: [usize; RADIX_SIZE])
    requires
        shift < 32,
    ensures
        is_histogram(hist, chunk@, shift),
{
    let mut hist = no_counts();
    let mut i: usize = 0;
    assert(chunk@.take(0) =~= Seq::<u32>::empty());
    assert forall|d: int| 0 <= d < RADIX_SIZE implies #[trigger] hist@[d] == digit_count(
        chunk@.take(0),
        shift,
        d,
    ) by {
        assert(hist@[d] == 0);
    }
    while i < chunk.len()
        invariant
            shift < 32,
            i <= chunk@.len(),
            forall|d: int|
                0 <= d < RADIX_SIZE ==> #[trigger] hist@[d] == digit_count(
                    chunk@.take(i as int),
                    shift,
                    d,
                ),
        decreases chunk@.len() - i,
    {
        let d = digit_at(chunk[i], shift);
        proof {
            assert(chunk@.take(i + 1).drop_last() =~= chunk@.take(i as int));
            lemma_count_bounded(chunk@.take(i as int), shift, d as int);
        }
        hist[d] = hist[d] + 1;
        i = i + 1;
    }
    assert(chunk@.take(i as int) =~= chunk@);
    hist
}

/// The sum of what the first `c` histograms hold for the digit `d`.
pub open spec fn column_sum(hists: Seq<[usize; RADIX_SIZE]>, d: int, c: int) -> nat
    decreases c,
{
    if c <= 0 {
        0
    } else {
        column_sum(hists, d, c - 1) + hists[c - 1]@[d] as nat
    }
}

/// The sum of what all histograms hold for the digits below `d`.
pub open spec fn total_below(hists: Seq<[usize; RADIX_SIZE]>, d: int) -> nat
    decreases d,
{
    if d <= 0 {
        0
    } else {
        total_below(hists, d - 1) + column_sum(hists, d - 1, hists.len() as int)
    }
}

proof fn lemma_column_grows(hists: Seq<[usize; RADIX_SIZE]>, d: int, b: int, c: int)
    requires
        0 <= b <= c,
    ensures
        column_sum(hists, d, b) <= column_sum(hists, d, c),
    decreases c - b,
{
    if b < c {
        lemma_column_grows(hists, d, b, c - 1);
    }
}

proof fn lemma_total_grows(hists: Seq<[usize; RADIX_SIZE]>, d: int, e: int)
    requires
        0 <= d <= e,
    ensures
        total_below(hists, d) <= total_below(hists, e),
    decreases e - d,
{
    if d < e {
        lemma_total_grows(hists, d, e - 1);
    }
}

/// Turns the histograms of the chunks into the slots at which the chunks' keys start: for
/// each digit, behind all smaller digits and behind the same digit of the earlier chunks.
pub fn chunk_offsets(hists: &Vec<[usize; RADIX_SIZE]>) -> (offsets: Vec<[usize; RADIX_SIZE]>)
    requires
        total_below(hists@, RADIX_SIZE as int) <= usize::MAX,
    ensures
        offsets@.len() == hists@.len(),
        forall|c: int, d: int|
            0 <= c < hists@.len() && 0 <= d < RADIX_SIZE ==> #[trigger] offsets@[c]@[d]
                == total_below(hists@, d) + column_sum(hists@, d, c),
{
    let num_chunks = hists.len();
    let mut offsets: Vec<[usize; RADIX_SIZE]> = Vec::new();
    while offsets.len() < num_chunks
        invariant
            num_chunks == hists@.len(),
            offsets@.len() <= num_chunks,
        decreases num_chunks - offsets@.len(),
    {
        offsets.push([0usize; 256]);
    }
    let mut running: usize = 0;
    let mut d: usize = 0;
    while d < RADIX_SIZE
        invariant
            num_chunks == hists@.len(),
            offsets@.len() == num_chunks,
            total_below(hists@, RADIX_SIZE as int) <= usize::MAX,
            d <= RADIX_SIZE,
            running == total_below(hists@, d as int),
            forall|c: int, e: int|
                0 <= c < num_chunks && 0 <= e < d ==> #[trigger] offsets@[c]@[e] == total_below(
                    hists@,
                    e,
                ) + column_sum(hists@, e, c),
        decreases RADIX_SIZE - d,
    {
        let mut c: usize = 0;
        while c < num_chunks
            invariant
                num_chunks == hists@.len(),
                offsets@.len() == num_chunks,
                total_below(hists@, RADIX_SIZE as int) <= usize::MAX,
                d < RADIX_SIZE,
                c <= num_chunks,
                running == total_below(hists@, d as int) + column_sum(hists@, d as int, c as int),
                forall|b: int, e: int|
                    0 <= b < num_chunks && 0 <= e < d ==> #[trigger] offsets@[b]@[e]
                        == total_below(hists@, e) + column_sum(hists@, e, b),
                forall|b: int|
                    0 <= b < c ==> (#[trigger] offsets@[b])@[d as int] == total_below(
                        hists@,
                        d as int,
                    ) + column_sum(hists@, d as int, b),
            decreases num_chunks - c,
        {
            proof {
                lemma_column_grows(hists@, d as int, c + 1, num_chunks as int);
                lemma_total_grows(hists@, d + 1, RADIX_SIZE as int);
            }
            let mut row = offsets[c];
            row[d] = running;
            offsets[c] = row;
            running = running + hists[c][d];
            c = c + 1;
        }
        d = d + 1;
    }
    offsets
}

/// The slots of one chunk's keys, from the slots at which the chunk's digits start.
pub fn chunk_slots(chunk: &[u32], starts: [usize; RADIX_SIZE], shift: u32) -> (slots: Vec<usize>)
    requires
        shift < 32,
        slots_fit(chunk@, starts, shift),
    ensures
        are_chunk_slots(slots@, chunk@, starts, shift),
{
    let mut next = starts;
    let mut slots: Vec<usize> = Vec::with_capacity(chunk.len());
    let mut i: usize = 0;
    assert(chunk@.take(0) =~= Seq::<u32>::empty());
    while i < chunk.len()
        invariant
            shift < 32,
            i <= chunk@.len(),
            slots@.len() == i,
            slots_fit(chunk@, starts, shift),
            forall|d: int|
                0 <= d < RADIX_SIZE ==> #[trigger] next@[d] == starts@[d] + digit_count(
                    chunk@.take(i as int),
                    shift,
                    d,
                ),
            forall|x: int|
                0 <= x < i ==> #[trigger] slots@[x] == starts@[digit(chunk@[x], shift)]
                    + digit_count(chunk@.take(x), shift, digit(chunk@[x], shift)),
        decreases chunk@.len() - i,
    {
        let d = digit_at(chunk[i], shift);
        proof {
            assert(chunk@.take(i + 1).drop_last() =~= chunk@.take(i as int));
            lemma_count_prefix(chunk@, shift, d as int, i as int, chunk@.len() as int);
            assert(chunk@.take(chunk@.len() as int) =~= chunk@);
            assert(starts@[d as int] + digit_count(chunk@, shift, d as int) <= usize::MAX);
        }
        let target = next[d];
        slots.push(target);
        next[d] = target + 1;
        i = i + 1;
    }
    slots
}

/// Whether `hists` are the histograms of the chunks of `keys`.
spec fn are_histograms(
    keys: Seq<u32>,
    chunk_len: int,
    shift: u32,
    hists: Seq<[usize; RADIX_SIZE]>,
) -> bool {
    &&& hists.len() == chunk_count(keys.len() as int, chunk_len)
    &&& forall|c: int|
        0 <= c < hists.len() ==> is_histogram(
            #[trigger] hists[c],
            chunk_at(keys, chunk_len, c),
            shift,
        )
}

/// Up to a chunk, the histograms count what the keys before the chunk hold.
proof fn lemma_column_counts(
    keys: Seq<u32>,
    chunk_len: int,
    shift: u32,
    hists: Seq<[usize; RADIX_SIZE]>,
    d: int,
    c: int,
)
    requires
        chunk_len > 0,
        are_histograms(keys, chunk_len, shift, hists),
        0 <= d < RADIX_SIZE,
        0 <= c <= hists.len(),
    ensures
        column_sum(hists, d, c) == digit_count(
            keys.take(chunk_start(keys.len() as int, chunk_len, c)),
            shift,
            d,
        ),
    decreases c,
{
    let n = keys.len() as int;
    lemma_chunk_bounds(n, chunk_len, c);
    if c == 0 {
        assert(keys.take(0) =~= Seq::<u32>::empty());
    } else {
        lemma_chunk_bounds(n, chunk_len, c - 1);
        lemma_column_counts(keys, chunk_len, shift, hists, d, c - 1);
        let before = keys.take(chunk_start(n, chunk_len, c - 1));
        lemma_count_concat(before, chunk_at(keys, chunk_len, c - 1), shift, d);
        assert(before + chunk_at(keys, chunk_len, c - 1) =~= keys.take(
            chunk_start(n, chunk_len, c),
        ));
        assert(hists[c - 1]@[d] == digit_count(chunk_at(keys, chunk_len, c - 1), shift, d));
    }
}

proof fn lemma_total_counts(
    keys: Seq<u32>,
    chunk_len: int,
    shift: u32,
    hists: Seq<[usize; RADIX_SIZE]>,
    d: int,
)
    requires
        chunk_len > 0,
        are_histograms(keys, chunk_len, shift, hists),
        0 <= d <= RADIX_SIZE,
    ensures
        total_below(hists, d) == count_below(keys, shift, d),
    decreases d,
{
    if d > 0 {
        let n = keys.len() as int;
        lemma_total_counts(keys, chunk_len, shift, hists, d - 1);
        lemma_column_counts(keys, chunk_len, shift, hists, d - 1, hists.len() as int);
        lemma_chunk_bounds(n, chunk_len, hists.len() as int);
        assert(keys.take(n) =~= keys);
    }
}

/// Moves every key to the slot that its digit gives it. The histograms and the slots of the
/// chunks are computed in parallel; the result does not depend on the length of the chunks.
pub fn radix_pass(keys: &Vec<u32>, shift: u32, chunk_len: usize) -> (out: Vec<u32>)
    requires
        shift < 32,
        chunk_len > 0,
    ensures
        is_pass(keys@, out@, shift),
{
    let n = keys.len();
    let ghost len = chunk_len as int;
    let count_digits = |chunk: &[u32]| -> (hist: [usize; RADIX_SIZE])
        ensures
            is_histogram(hist, chunk@, shift),
        { histogram(chunk, shift) };
    let hists = par_chunks_map(keys.as_slice(), chunk_len, count_digits);
    assert(are_histograms(keys@, len, shift, hists@));
    proof {
        lemma_total_counts(keys@, len, shift, hists@, RADIX_SIZE as int);
        lemma_below_all(keys@, shift);
    }
    let offsets = chunk_offsets(&hists);
    let ghost starts = offsets@;
    proof {
        assert forall|c: int, d: int| 0 <= c < starts.len() && 0 <= d < RADIX_SIZE implies
            #[trigger] starts[c]@[d] == count_below(keys@, shift, d) + digit_count(
            keys@.take(chunk_start(n as int, len, c)),
            shift,
            d,
        ) && starts[c]@[d] + digit_count(chunk_at(keys@, len, c), shift, d) <= n by {
            lemma_total_counts(keys@, len, shift, hists@, d);
            lemma_column_counts(keys@, len, shift, hists@, d, c);
            lemma_column_counts(keys@, len, shift, hists@, d, c + 1);
            lemma_column_grows(hists@, d, c + 1, hists@.len() as int);
            lemma_total_grows(hists@, d + 1, RADIX_SIZE as int);
            assert(hists@[c]@[d] == digit_count(chunk_at(keys@, len, c), shift, d));
        }
    }
    let assign_slots = |item: (&[u32], [usize; RADIX_SIZE])| -> (slots: Vec<usize>)
        requires
            slots_fit(item.0@, item.1, shift),
        ensures
            are_chunk_slots(slots@, item.0@, item.1, shift),
        { chunk_slots(item.0, item.1, shift) };
    let slots = par_chunks_zip_map(keys.as_slice(), chunk_len, offsets, assign_slots);
    proof {
        assert forall|c: int, x: int|
            0 <= c < slots@.len() && 0 <= x < chunk_at(keys@, len, c).len() implies slots@[c]@.len()
            == chunk_at(keys@, len, c).len() && #[trigger] slots@[c]@[x] == slot(
            keys@,
            shift,
            chunk_start(n as int, len, c) + x,
        ) by {
            lemma_chunk_bounds(n as int, len, c);
            let start = chunk_start(n as int, len, c);
            let chunk = chunk_at(keys@, len, c);
            let d = digit(chunk[x], shift);
            lemma_digit_range(chunk[x], shift);
            assert(slots@[c]@.len() == chunk.len());
            assert(slots@[c]@[x] == starts[c]@[d] + digit_count(chunk.take(x), shift, d));
            lemma_count_concat(keys@.take(start), chunk.take(x), shift, d);
            assert(keys@.take(start) + chunk.take(x) =~= keys@.take(start + x));
        }
    }
    let mut out: Vec<u32> = vec![0u32; n];
    let mut c: usize = 0;
    let mut i: usize = 0;
    let ghost spots = slots_of(keys@, shift);
    proof {
        lemma_chunk_bounds(n as int, len, 0);
        law_slots_distinct(keys@, shift);
    }
    while c < slots.len()
        invariant
            n == keys@.len(),
            out@.len() == n,
            chunk_len > 0,
            len == chunk_len,
            slots@.len() == chunk_count(n as int, len),
            c <= slots@.len(),
            i == chunk_start(n as int, len, c as int),
            spots == slots_of(keys@, shift),
            is_rearrangement(spots),
            forall|b: int, x: int|
                0 <= b < slots@.len() && 0 <= x < chunk_at(keys@, len, b).len() ==> slots@[b]@.len()
                    == chunk_at(keys@, len, b).len() && #[trigger] slots@[b]@[x] == slot(
                    keys@,
                    shift,
                    chunk_start(n as int, len, b) + x,
                ),
            forall|b: int|
                0 <= b < slots@.len() ==> (#[trigger] slots@[b])@.len() == chunk_at(
                    keys@,
                    len,
                    b,
                ).len(),
            forall|j: int| 0 <= j < i ==> out@[#[trigger] spots[j]] == keys@[j],
        decreases slots@.len() - c,
    {
        let chunk: &Vec<usize> = &slots[c];
        proof {
            lemma_chunk_bounds(n as int, len, c as int);
            lemma_chunk_bounds(n as int, len, c + 1);
        }
        let ghost start = i as int;
        let mut x: usize = 0;
        assert forall|y: int| 0 <= y < chunk@.len() implies #[trigger] chunk@[y] == spots[start
            + y] by {
            assert(slots@[c as int]@[y] == slot(keys@, shift, start + y));
        }
        while x < chunk.len()
            invariant
                n == keys@.len(),
                out@.len() == n,
                spots.len() == n,
                is_rearrangement(spots),
                0 <= start <= start + chunk@.len() <= n,
                x <= chunk@.len(),
                i == start + x,
                forall|y: int|
                    0 <= y < chunk@.len() ==> #[trigger] chunk@[y] == spots[start + y],
                forall|j: int| 0 <= j < i ==> out@[#[trigger] spots[j]] == keys@[j],
            decreases chunk@.len() - x,
        {
            let target = chunk[x];
            assert(target == spots[i as int]);
            out[target] = keys[i];
            x = x + 1;
            i = i + 1;
        }
        c = c + 1;
    }
    proof {
        lemma_chunk_bounds(n as int, len, slots@.len() as int);
        assert forall|j: int| #![trigger keys@[j]] 0 <= j < keys@.len() implies out@[slot(
            keys@,
            shift,
            j,
        )] == keys@[j] by {
            assert(out@[spots[j]] == keys@[j]);
        }
    }
    out
}

/// Sorts keys in passes over their digits.
pub fn radix_sort_keys(keys: Vec<u32>, chunk_len: usize) -> (sorted: Vec<u32>)
    requires
        chunk_len > 0,
    ensures
        sorted@.to_multiset() == keys@.to_multiset(),
        forall|i: int, j: int|
            0 <= i <= j < sorted@.len() ==> #[trigger] sorted@[i] <= #[trigger] sorted@[j],
{
    let ghost unsorted = keys@;
    let mut keys = keys;
    let mut pass: u32 = 0;
    proof {
        lemma2_to64();
        assert(sorted_by_low_bits(keys@, 0));
    }
    while pass < PASSES
        invariant
            chunk_len > 0,
            pass <= PASSES,
            keys@.to_multiset() == unsorted.to_multiset(),
            sorted_by_low_bits(keys@, (pass * RADIX_BITS) as nat),
        decreases PASSES - pass,
    {
        let shift = pass * RADIX_BITS;
        let scratch = radix_pass(&keys, shift, chunk_len);
        proof {
            law_pass_extends_order(keys@, scratch@, shift);
        }
        keys = scratch;
        pass = pass + 1;
    }
    proof {
        lemma2_to64();
        assert forall|i: int, j: int| 0 <= i <= j < keys@.len() implies #[trigger] keys@[i]
            <= #[trigger] keys@[j] by {
            assert(low_bits(keys@[i], 32) <= low_bits(keys@[j], 32));
        }
    }
    keys
}

/// Sorts bit patterns by their keys, in chunks of the given length.
pub fn radix_sorted_in_chunks(data: &[u32], chunk_len: usize) -> (sorted: Vec<u32>)
    requires
        chunk_len > 0,
    ensures
        sorted@.to_multiset() == data@.to_multiset(),
        sorted_by_key(sorted@),
{
    let ghost key_of = |bits: u32| key(bits);
    let ghost pattern_of = |k: u32| pattern(k);
    let map_in = |bits: &u32| -> (k: u32)
        ensures
            k == key(*bits),
        { to_key(*bits) };
    let keys = par_map(data, map_in);
    assert(keys@ =~= data@.map_values(key_of));
    let ghost unsorted = keys@;
    let keys = radix_sort_keys(keys, chunk_len);
    let map_out = |k: &u32| -> (bits: u32)
        ensures
            bits == pattern(*k),
        { from_key(*k) };
    let sorted = par_map(keys.as_slice(), map_out);
    proof {
        assert(sorted@ =~= keys@.map_values(pattern_of));
        lemma_mapped_multiset(keys@, unsorted, pattern_of);
        assert(unsorted.map_values(pattern_of) =~= data@);
        assert forall|i: int, j: int| 0 <= i <= j < sorted@.len() implies key(
            #[trigger] sorted@[i],
        ) <= key(#[trigger] sorted@[j]) by {
            assert(keys@[i] <= keys@[j]);
        }
    }
    sorted
}

/// Sorts bit patterns by their keys on the current rayon pool, with one chunk for each of
/// the pool's threads.
pub fn radix_sorted(data: &[u32]) -> (sorted: Vec<u32>)
    ensures
        sorted@.to_multiset() == data@.to_multiset(),
        sorted_by_key(sorted@),
{
    let n = data.len();
    let threads = current_threads();
    let num_threads = if threads > 1 {
        threads
    } else {
        1
    };
    let chunk_len = if n > 1 {
        (n - 1) / num_threads + 1
    } else {
        1
    };
    radix_sorted_in_chunks(data, chunk_len)
}

/// Sorts `data` in place with a four-pass radix sort, on whichever rayon pool is current. The
/// result is the one arrangement of the elements whose keys ascend: numbers ascend, and
/// negative zeros come before positive ones.
pub fn radix_sort_f32_parallel(data: &mut [u32])
    ensures
        final(data)@.to_multiset() == old(data)@.to_multiset(),
        sorted_by_key(final(data)@),
{
    let n = data.len();
    if n < 2 {
        return;
    }
    let sorted = radix_sorted(&*data);
    proof {
        lemma_same_multiset(data@, sorted@);
    }
    copy_into(data, &sorted);
}

/// Copies `source` over `target`.
pub(crate) fn copy_into(target: &mut [u32], source: &Vec<u32>)
    requires
        old(target)@.len() == source@.len(),
    ensures
        final(target)@ == source@,
{
    let mut i: usize = 0;
    while i < source.len()
        invariant
            i <= source@.len(),
            target@.len() == source@.len(),
            forall|j: int| 0 <= j < i ==> target@[j] == source@[j],
        decreases source@.len() - i,
    {
        target[i] = source[i];
        i = i + 1;
    }
    assert(target@ =~= source@);
}

/// Two arrays with the same elements and ascending keys are the same array, so the sorted
/// array does not depend on the order of the input or on how the work is split into chunks.
pub proof fn law_sorted_by_key_unique(a: Seq<u32>, b: Seq<u32>)
    requires
        a.to_multiset() == b.to_multiset(),
        sorted_by_key(a),
        sorted_by_key(b),
    ensures
        a == b,
{
    let leq = |x: u32, y: u32| key(x) <= key(y);
    assert(vstd::relations::total_ordering(leq)) by {
        assert forall|x: u32, y: u32| key(x) <= key(y) && key(y) <= key(x) implies x == y by {
            crate::float32::law_key_round_trip(x);
            crate::float32::law_key_round_trip(y);
        }
    }
    vstd::seq_lib::lemma_sorted_unique(a, b, leq);
}

} // verus!
