//! The compute kernels that carry out the steps of the bitonic network.
//!
//! A kernel is run by a grid of threads, one for each element, that is cut into threadgroups.
//! The kernels for small distances copy a group's elements into the group's shared memory,
//! take many steps there, and copy them back; the kernel for large distances takes one step
//! over the whole grid.
use crate::bitonic::{
    exchanged, group_exchanged, group_merged, group_network, is_lower, is_upward, lemma_block_of,
    lemma_merged_in_group, lemma_merged_len, lemma_multiple_of_part, lemma_nested,
    lemma_network_in_group, lemma_network_len, lemma_partner, lemma_shifted_block, merged, network,
    partner,
};
use crate::float32::{at_most, no_nan, value, values};
use crate::gpu::is_power_of_two;
use crate::permutation::lemma_rearranged_multiset;
use vstd::arithmetic::power2::{
    lemma2_to64, lemma_pow2_adds, lemma_pow2_pos, lemma_pow2_strictly_increases, lemma_pow2_unfold,
    pow2,
};
use vstd::bits::{lemma_u32_shl_is_mul, lemma_u32_shr_is_div};
use vstd::prelude::*;
use vstd::seq_lib::lemma_multiset_commutative;

verus! {

/// The number of elements that one threadgroup's shared memory holds.
pub const MAX_BLOCK: u64 = 1024;

/// The number of threads that the kernels can tell apart by their 32-bit positions.
pub const MAX_GRID: u64 = 0x1_0000_0000;

/// The stage that a kernel's 32-bit stage word stands for. The stage of the whole grid does
/// not fit and wraps to zero, which every thread position reads as an upward block.
pub open spec fn stage_of(word: u32) -> int {
    if word == 0 {
        MAX_GRID as int
    } else {
        word as int
    }
}

/// Every 32-bit position is a position of the grid, and every stage up to the whole grid has a
/// word of its own.
pub proof fn law_positions_fill_the_grid(position: u32, word: u32, other: u32)
    ensures
        position < MAX_GRID,
        MAX_GRID == u32::MAX + 1,
        MAX_BLOCK == 1024,
        1 <= stage_of(word) <= MAX_GRID,
        stage_of(word) == stage_of(other) ==> word == other,
{
}

/// Pairing a position by flipping one of its bits.
proof fn lemma_flip(id: u32, j: u32)
    requires
        is_power_of_two(j as int),
    ensures
        (id ^ j) > id <==> is_lower(id as int, j as int),
        is_lower(id as int, j as int) ==> id ^ j == id + j,
        (id & j) == 0 <==> is_lower(id as int, j as int),
{
    let e = choose|e: nat| j == #[trigger] pow2(e);
    lemma2_to64();
    if e >= 32 {
        if e > 32 {
            lemma_pow2_strictly_increases(32, e);
        }
        assert(false);
    }
    let shift = e as u32;
    lemma_u32_shr_is_div(id, shift);
    lemma_u32_shl_is_mul(1u32, shift);
    assert(j == 1u32 << shift);
    let x = id >> shift;
    assert(x & 1 == x % 2) by (bit_vector);
    assert(x as int == id as int / j as int);
    if x & 1 == 0 {
        assert((id ^ (1u32 << shift)) == id + (1u32 << shift)) by (bit_vector)
            requires
                shift < 32,
                (id >> shift) & 1 == 0,
        ;
        assert((id & (1u32 << shift)) == 0) by (bit_vector)
            requires
                shift < 32,
                (id >> shift) & 1 == 0,
        ;
        lemma_pow2_pos(e);
    } else {
        assert((id ^ (1u32 << shift)) < id && (id & (1u32 << shift)) != 0) by (bit_vector)
            requires
                shift < 32,
                (id >> shift) & 1 != 0,
        ;
    }
}

/// Whether a step with distance `j` belongs to the stage that `k` stands for, on an array of
/// `len` elements.
pub open spec fn step_fits(len: int, j: u32, k: u32) -> bool {
    &&& is_power_of_two(j as int)
    &&& is_power_of_two(stage_of(k))
    &&& j < stage_of(k)
    &&& len % (2 * j as int) == 0
    &&& len <= MAX_GRID
}

proof fn lemma_stage_multiple(len: int, j: u32, k: u32) -> (c: int)
    requires
        step_fits(len, j, k),
    ensures
        0 < j,
        0 < c,
        stage_of(k) == (2 * j as int) * c,
{
    let e = choose|e: nat| j == #[trigger] pow2(e);
    lemma_pow2_pos(e);
    let f = choose|f: nat| stage_of(k) == #[trigger] pow2(f);
    if f < e {
        lemma_pow2_strictly_increases(f, e);
    }
    lemma_pow2_adds(e + 1, (f - e - 1) as nat);
    lemma_pow2_unfold(e + 1);
    lemma_pow2_pos((f - e - 1) as nat);
    pow2((f - e - 1) as nat) as int
}

/// Swapping two elements keeps the elements.
proof fn lemma_swap_multiset(s: Seq<u32>, x: int, y: int)
    requires
        0 <= x < y < s.len(),
    ensures
        s.update(x, s[y]).update(y, s[x]).to_multiset() == s.to_multiset(),
{
    let slots = Seq::new(
        s.len(),
        |i: int|
            if i == x {
                y
            } else if i == y {
                x
            } else {
                i
            },
    );
    lemma_rearranged_multiset(s, s.update(x, s[y]).update(y, s[x]), slots);
}

/// The lower position of the pair that `x` belongs to.
spec fn first_of_pair(x: int, j: int) -> int {
    if is_lower(x, j) {
        x
    } else {
        x - j
    }
}

/// One compare-exchange step of the threads from position `base` on, over the elements that
/// they share: the thread at each position whose partner lies above it orders the pair.
pub fn exchange_step(shared: &mut [u32], base: usize, j: u32, k: u32)
    requires
        step_fits(old(shared)@.len() as int, j, k),
        base as int % (2 * j as int) == 0,
        base + old(shared)@.len() <= MAX_GRID,
        no_nan(old(shared)@),
    ensures
        values(final(shared)@) == group_exchanged(
            values(old(shared)@),
            base as int,
            j as int,
            stage_of(k),
        ),
        final(shared)@.to_multiset() == old(shared)@.to_multiset(),
        final(shared)@.len() == old(shared)@.len(),
        no_nan(final(shared)@),
{
    let n = shared.len();
    let ghost before = shared@;
    let ghost after = group_exchanged(values(before), base as int, j as int, stage_of(k));
    let ghost c = lemma_stage_multiple(n as int, j, k);
    let mut lid: usize = 0;
    proof {
        assert forall|x: int| 0 <= x < n implies first_of_pair(x, j as int) >= 0 by {
            lemma_partner(x, j as int, n as int);
        }
    }
    while lid < n
        invariant
            n == shared@.len(),
            n == before.len(),
            step_fits(n as int, j, k),
            base as int % (2 * j as int) == 0,
            base + n <= MAX_GRID,
            0 < c,
            stage_of(k) == (2 * j as int) * c,
            after == group_exchanged(values(before), base as int, j as int, stage_of(k)),
            lid <= n,
            no_nan(shared@),
            shared@.to_multiset() == before.to_multiset(),
            forall|x: int|
                0 <= x < n ==> if first_of_pair(x, j as int) < lid {
                    value(#[trigger] shared@[x]) == after[x]
                } else {
                    shared@[x] == before[x]
                },
        decreases n - lid,
    {
        let position = lid as u32;
        let other = position ^ j;
        proof {
            lemma_flip(position, j);
            lemma_partner(lid as int, j as int, n as int);
        }
        if other > position {
            let ixj = other as usize;
            let gid = (base + lid) as u32;
            proof {
                assert(ixj == partner(lid as int, j as int));
                lemma_upward(gid, k);
                lemma_shifted_block(base as int, lid as int, 2 * j as int);
                lemma_shifted_block(base as int, ixj as int, 2 * j as int);
                lemma_nested(base + ixj, base + lid, 2 * j as int, c);
                lemma_swap_multiset(shared@, lid as int, ixj as int);
            }
            let upward = (gid & k) == 0;
            let a = shared[lid];
            let b = shared[ixj];
            if !at_most(a, b) == upward {
                shared[lid] = b;
                shared[ixj] = a;
            }
        }
        proof {
            assert forall|x: int| 0 <= x < n && first_of_pair(x, j as int) == lid implies is_lower(
                lid as int,
                j as int,
            ) && (x == lid || x == partner(lid as int, j as int)) by {
                lemma_partner(x, j as int, n as int);
            }
        }
        lid = lid + 1;
    }
    proof {
        assert forall|x: int| 0 <= x < n implies first_of_pair(x, j as int) < n by {
            lemma_partner(x, j as int, n as int);
        }
    }
    assert(values(shared@) =~= after);
}

/// The direction of a position's block, read off one bit of the position.
proof fn lemma_upward(id: u32, k: u32)
    requires
        is_power_of_two(stage_of(k)),
    ensures
        (id & k) == 0 <==> is_upward(id as int, stage_of(k)),
{
    if k == 0 {
        assert(id & 0 == 0) by (bit_vector);
        assert(id as int / 0x1_0000_0000 == 0);
    } else {
        lemma_flip(id, k);
    }
}

/// A compute kernel with its parameters.
#[derive(Clone, Copy, Debug, PartialEq, Eq, Structural)]
pub enum Kernel {
    /// Sorts every block of `block_size` elements in shared memory, upwards and downwards in
    /// turn.
    LocalSort { block_size: u32 },
    /// One compare-exchange step across threadgroups.
    GlobalStep { j: u32, k: u32 },
    /// The steps of stage `k` whose distance is smaller than a block, in shared memory.
    LocalMerge { block_size: u32, k: u32 },
}

/// What a kernel makes of the numbers in the buffer.
pub open spec fn kernel_effect(kernel: Kernel, v: Seq<int>) -> Seq<int> {
    match kernel {
        Kernel::LocalSort { block_size } => network(v, block_size as int),
        Kernel::GlobalStep { j, k } => exchanged(v, j as int, stage_of(k)),
        Kernel::LocalMerge { block_size, k } => merged(v, block_size as int / 2, stage_of(k)),
    }
}

/// Whether a kernel may run on a buffer of `len` elements.
pub open spec fn kernel_fits(kernel: Kernel, len: int) -> bool {
    &&& is_power_of_two(len)
    &&& len <= MAX_GRID
    &&& match kernel {
        Kernel::LocalSort { block_size } => is_power_of_two(block_size as int) && block_size <= len,
        Kernel::GlobalStep { j, k } => step_fits(len, j, k),
        Kernel::LocalMerge { block_size, k } => {
            &&& is_power_of_two(block_size as int)
            &&& is_power_of_two(stage_of(k))
            &&& block_size <= stage_of(k) <= len
        },
    }
}

/// Whether a kernel may run in a group of `len` elements from position `base` on.
pub open spec fn group_fits(kernel: Kernel, len: int, base: int) -> bool {
    &&& base + len <= MAX_GRID
    &&& match kernel {
        Kernel::LocalSort { block_size } => is_power_of_two(len) && base % len == 0,
        Kernel::GlobalStep { j, k } => step_fits(len, j, k) && base % (2 * j as int) == 0,
        Kernel::LocalMerge { block_size, k } => {
            &&& is_power_of_two(len)
            &&& is_power_of_two(stage_of(k))
            &&& len <= stage_of(k)
            &&& base % len == 0
        },
    }
}

pub(crate) proof fn lemma_power_divides(a: int, b: int)
    requires
        is_power_of_two(a),
        is_power_of_two(b),
        a <= b,
    ensures
        0 < a,
        b % a == 0,
        a == b || 2 * a <= b,
        is_power_of_two(2 * a),
        a >= 2 ==> is_power_of_two(a / 2) && 2 * (a / 2) == a,
{
    let e = choose|e: nat| a == #[trigger] pow2(e);
    let f = choose|f: nat| b == #[trigger] pow2(f);
    lemma_pow2_pos(e);
    lemma_pow2_unfold(e + 1);
    assert(2 * a == pow2(e + 1));
    if f < e {
        lemma_pow2_strictly_increases(f, e);
    }
    lemma_pow2_adds(e, (f - e) as nat);
    let c = pow2((f - e) as nat) as int;
    assert(b == c * a + 0) by (nonlinear_arith)
        requires
            b == a * c,
    ;
    lemma_block_of(c, a, 0);
    if f > e {
        if f > e + 1 {
            lemma_pow2_strictly_increases(e + 1, f);
        }
    }
    if a >= 2 {
        lemma2_to64();
        assert(e > 0);
        lemma_pow2_unfold(e);
        assert(a / 2 == pow2((e - 1) as nat));
    }
}

/// Runs the steps of stage `k` with the distances `from`, `from / 2`, and so on down to 1.
fn merge_group(shared: &mut [u32], base: usize, from: u32, k: u32)
    requires
        from == 0 || step_fits(old(shared)@.len() as int, from, k) && base as int % (2 * from as int)
            == 0,
        base + old(shared)@.len() <= MAX_GRID,
        no_nan(old(shared)@),
    ensures
        values(final(shared)@) == group_merged(
            values(old(shared)@),
            base as int,
            from as int,
            stage_of(k),
        ),
        final(shared)@.to_multiset() == old(shared)@.to_multiset(),
        final(shared)@.len() == old(shared)@.len(),
        no_nan(final(shared)@),
{
    let ghost before = shared@;
    let mut j = from;
    while j > 0
        invariant
            shared@.len() == before.len(),
            j == 0 || step_fits(shared@.len() as int, j, k) && base as int % (2 * j as int) == 0,
            base + before.len() <= MAX_GRID,
            no_nan(shared@),
            shared@.to_multiset() == before.to_multiset(),
            group_merged(values(shared@), base as int, j as int, stage_of(k)) == group_merged(
                values(before),
                base as int,
                from as int,
                stage_of(k),
            ),
        decreases j,
    {
        exchange_step(shared, base, j, k);
        proof {
            lemma_power_divides(j as int, stage_of(k));
            if j >= 2 {
                lemma_multiple_of_part(shared@.len() as int, j as int, 2);
                lemma_multiple_of_part(base as int, j as int, 2);
            }
        }
        j = j / 2;
    }
}

/// Runs the stages 2, 4, and so on up to the size of the group.
fn sort_group(shared: &mut [u32], base: usize)
    requires
        is_power_of_two(old(shared)@.len() as int),
        old(shared)@.len() <= u32::MAX,
        base as int % old(shared)@.len() as int == 0,
        base + old(shared)@.len() <= MAX_GRID,
        no_nan(old(shared)@),
    ensures
        values(final(shared)@) == group_network(
            values(old(shared)@),
            base as int,
            old(shared)@.len() as int,
        ),
        final(shared)@.to_multiset() == old(shared)@.to_multiset(),
        final(shared)@.len() == old(shared)@.len(),
        no_nan(final(shared)@),
{
    let block_size = shared.len() as u64;
    let ghost before = shared@;
    let mut k: u64 = 2;
    proof {
        lemma2_to64();
        assert(is_power_of_two(1int));
        assert(is_power_of_two(2int));
        lemma_power_divides(block_size as int, block_size as int);
    }
    while k <= block_size
        invariant
            shared@.len() == before.len(),
            block_size == before.len(),
            is_power_of_two(k as int),
            is_power_of_two(block_size as int),
            block_size <= u32::MAX,
            base as int % block_size as int == 0,
            base + block_size <= MAX_GRID,
            2 <= k,
            k == 2 * block_size || k <= block_size,
            no_nan(shared@),
            shared@.to_multiset() == before.to_multiset(),
            values(shared@) == group_network(values(before), base as int, k as int / 2),
        decreases 2 * block_size - k,
    {
        proof {
            lemma_power_divides(k as int, block_size as int);
            lemma_power_divides(k as int / 2, block_size as int);
            lemma_multiple_transfers(base as int, block_size as int, k as int);
        }
        merge_group(shared, base, (k / 2) as u32, k as u32);
        k = k * 2;
    }
    assert(k as int / 2 == block_size);
}

/// A multiple of a multiple is a multiple.
proof fn lemma_multiple_transfers(n: int, m: int, d: int)
    requires
        0 < d,
        0 < m,
        m % d == 0,
        n % m == 0,
    ensures
        n % d == 0,
{
    let c = m / d;
    assert(m == d * c && 0 < c) by (nonlinear_arith)
        requires
            0 < d,
            0 < m,
            m % d == 0,
            c == m / d,
    ;
    lemma_multiple_of_part(n, d, c);
}

/// Replacing a stretch by a rearrangement of it keeps the elements.
proof fn lemma_replaced_stretch(a: Seq<u32>, start: int, stretch: Seq<u32>)
    requires
        0 <= start,
        start + stretch.len() <= a.len(),
        stretch.to_multiset() == a.subrange(start, start + stretch.len()).to_multiset(),
    ensures
        (a.take(start) + stretch + a.skip(start + stretch.len())).to_multiset() == a.to_multiset(),
{
    let (front, back) = (a.take(start), a.skip(start + stretch.len()));
    let was = a.subrange(start, start + stretch.len());
    lemma_multiset_commutative(front, stretch);
    lemma_multiset_commutative(front, was);
    lemma_multiset_commutative(front + stretch, back);
    lemma_multiset_commutative(front + was, back);
    assert(front + was + back =~= a);
}

/// What a kernel makes of the numbers in one group's shared memory.
pub open spec fn group_effect(kernel: Kernel, s: Seq<int>, base: int) -> Seq<int> {
    match kernel {
        Kernel::LocalSort { block_size } => group_network(s, base, block_size as int),
        Kernel::GlobalStep { j, k } => group_exchanged(s, base, j as int, stage_of(k)),
        Kernel::LocalMerge { block_size, k } => group_merged(
            s,
            base,
            block_size as int / 2,
            stage_of(k),
        ),
    }
}

/// The number of elements that a group shares: its block for the kernels in shared memory,
/// and the whole buffer of `len` elements for the other one.
pub open spec fn group_len(kernel: Kernel, len: int) -> int {
    match kernel {
        Kernel::LocalSort { block_size } => block_size as int,
        Kernel::GlobalStep { j, k } => len,
        Kernel::LocalMerge { block_size, k } => block_size as int,
    }
}

/// Running a kernel group by group, each on its own copy of its elements, is the same as
/// running it on the whole buffer.
pub proof fn law_groups_are_independent(kernel: Kernel, v: Seq<int>, base: int)
    requires
        kernel_fits(kernel, v.len() as int),
        0 <= base,
        base % group_len(kernel, v.len() as int) == 0,
        base + group_len(kernel, v.len() as int) <= v.len(),
    ensures
        kernel_effect(kernel, v).len() == v.len(),
        kernel_effect(kernel, v).subrange(
            base,
            base + group_len(kernel, v.len() as int),
        ) == group_effect(
            kernel,
            v.subrange(base, base + group_len(kernel, v.len() as int)),
            base,
        ),
{
    let len = v.len() as int;
    match kernel {
        Kernel::LocalSort { block_size } => {
            let block = block_size as int;
            let e = choose|e: nat| block == #[trigger] pow2(e);
            lemma_power_divides(block, len);
            lemma_block_of(1, block, 0);
            lemma_network_in_group(v, base, block, e);
            lemma_network_len(v, block);
        },
        Kernel::GlobalStep { j, k } => {
            assert(base == 0) by (nonlinear_arith)
                requires
                    0 <= base,
                    base + len <= len,
            ;
            let out = exchanged(v, j as int, stage_of(k));
            assert(v.subrange(0, len) =~= v);
            assert(out.subrange(0, len) =~= group_exchanged(v, 0, j as int, stage_of(k)));
        },
        Kernel::LocalMerge { block_size, k } => {
            let block = block_size as int;
            lemma_power_divides(block, len);
            lemma_merged_len(v, block / 2, stage_of(k));
            if block >= 2 {
                let e = choose|e: nat| block / 2 == #[trigger] pow2(e);
                lemma_block_of(1, block, 0);
                lemma_merged_in_group(v, base, block, e, stage_of(k));
            }
        },
    }
}

impl Kernel {
    /// Runs the kernel in one group's shared memory.
    fn run_group(&self, shared: &mut [u32], base: usize)
        requires
            old(shared)@.len() == group_len(*self, old(shared)@.len() as int),
            group_fits(*self, old(shared)@.len() as int, base as int),
            no_nan(old(shared)@),
        ensures
            values(final(shared)@) == group_effect(*self, values(old(shared)@), base as int),
            final(shared)@.to_multiset() == old(shared)@.to_multiset(),
            final(shared)@.len() == old(shared)@.len(),
            no_nan(final(shared)@),
    {
        match self {
            Kernel::LocalSort { block_size } => {
                sort_group(shared, base);
            },
            Kernel::GlobalStep { j, k } => {
                exchange_step(shared, base, *j, *k);
            },
            Kernel::LocalMerge { block_size, k } => {
                proof {
                    lemma_power_divides(*block_size as int, stage_of(*k));
                    lemma_power_divides(*block_size as int, *block_size as int);
                }
                merge_group(shared, base, *block_size / 2, *k);
            },
        }
    }

    /// Runs the kernel on a buffer in plain memory: in one go if all threads work on the whole
    /// buffer, and otherwise each group on a copy of its elements.
    pub fn run(&self, data: &mut [u32])
        requires
            kernel_fits(*self, old(data)@.len() as int),
            no_nan(old(data)@),
        ensures
            values(final(data)@) == kernel_effect(*self, values(old(data)@)),
            final(data)@.to_multiset() == old(data)@.to_multiset(),
            final(data)@.len() == old(data)@.len(),
            no_nan(final(data)@),
    {
        match self {
            Kernel::LocalSort { block_size } => {
                self.run_groups(data, *block_size as usize);
            },
            Kernel::GlobalStep { j, k } => {
                proof {
                    let v = values(data@);
                    let len = v.len() as int;
                    lemma_power_divides(len, len);
                    law_groups_are_independent(*self, v, 0);
                    assert(v.subrange(0, len) =~= v);
                    assert(kernel_effect(*self, v).subrange(0, len) =~= kernel_effect(*self, v));
                    lemma_power_divides(*j as int, stage_of(*k));
                    lemma_block_of(0, 2 * *j as int, 0);
                }
                self.run_group(data, 0);
            },
            Kernel::LocalMerge { block_size, k } => {
                self.run_groups(data, *block_size as usize);
            },
        }
    }

    /// Runs the kernel on every group of `len` elements, each on a copy of its elements.
    fn run_groups(&self, data: &mut [u32], len: usize)
        requires
            kernel_fits(*self, old(data)@.len() as int),
            len == group_len(*self, old(data)@.len() as int),
            !(self is GlobalStep),
            no_nan(old(data)@),
        ensures
            values(final(data)@) == kernel_effect(*self, values(old(data)@)),
            final(data)@.to_multiset() == old(data)@.to_multiset(),
            final(data)@.len() == old(data)@.len(),
            no_nan(final(data)@),
    {
        let n = data.len();
        let ghost before = data@;
        let ghost target = kernel_effect(*self, values(before));
        let mut base: usize = 0;
        proof {
            lemma_power_divides(len as int, n as int);
            law_groups_are_independent(*self, values(before), 0);
        }
        while base < n
            invariant
                data@.len() == n,
                before.len() == n,
                target.len() == n,
                target == kernel_effect(*self, values(before)),
                kernel_fits(*self, n as int),
                !(self is GlobalStep),
                len == group_len(*self, n as int),
                0 < len,
                n as int % len as int == 0,
                base as int % len as int == 0,
                base <= n,
                no_nan(before),
                no_nan(data@),
                data@.to_multiset() == before.to_multiset(),
                forall|x: int| 0 <= x < base ==> value(#[trigger] data@[x]) == target[x],
                forall|x: int| base <= x < n ==> #[trigger] data@[x] == before[x],
            decreases n - base,
        {
            proof {
                lemma_next_group(base as int, len as int, n as int);
            }
            let ghost was = data@;
            let ghost stretch = was.subrange(base as int, base + len);
            assert(stretch =~= before.subrange(base as int, base + len));
            let mut shared = vstd::slice::slice_to_vec(
                vstd::slice::slice_subrange(&*data, base, base + len),
            );
            proof {
                assert(values(stretch) =~= values(before).subrange(base as int, base + len));
                law_groups_are_independent(*self, values(before), base as int);
            }
            self.run_group(shared.as_mut_slice(), base);
            copy_back(data, base, &shared);
            proof {
                lemma_replaced_stretch(was, base as int, shared@);
                assert forall|x: int| base <= x < base + len implies value(#[trigger] data@[x])
                    == target[x] by {
                    assert(data@[x] == shared@[x - base]);
                    assert(values(shared@)[x - base] == target.subrange(
                        base as int,
                        base + len,
                    )[x - base]);
                }
            }
            base = base + len;
        }
        assert(values(data@) =~= target);
    }
}

/// The next group starts where this one ends.
proof fn lemma_next_group(base: int, len: int, n: int)
    requires
        0 < len,
        0 <= base < n,
        base % len == 0,
        n % len == 0,
    ensures
        base + len <= n,
        (base + len) % len == 0,
{
    let (q, p) = (base / len, n / len);
    assert(base == len * q && n == len * p) by (nonlinear_arith)
        requires
            0 < len,
            base % len == 0,
            n % len == 0,
            q == base / len,
            p == n / len,
    ;
    assert(q + 1 <= p) by (nonlinear_arith)
        requires
            0 < len,
            len * q < len * p,
    ;
    assert(base + len == (q + 1) * len + 0 && base + len <= n) by (nonlinear_arith)
        requires
            0 < len,
            base == len * q,
            n == len * p,
            q + 1 <= p,
    ;
    lemma_block_of(q + 1, len, 0);
}

/// Copies `shared` over the elements of `data` from `base` on.
fn copy_back(data: &mut [u32], base: usize, shared: &Vec<u32>)
    requires
        base + shared@.len() <= old(data)@.len(),
    ensures
        final(data)@ == old(data)@.take(base as int) + shared@ + old(data)@.skip(
            base + shared@.len(),
        ),
{
    let ghost before = data@;
    let n = data.len();
    let mut i: usize = 0;
    while i < shared.len()
        invariant
            i <= shared@.len(),
            data@.len() == before.len(),
            n == before.len(),
            base + shared@.len() <= n,
            data@ == before.take(base as int) + shared@.take(i as int) + before.skip(base + i),
        decreases shared@.len() - i,
    {
        data[base + i] = shared[i];
        i = i + 1;
        assert(data@ =~= before.take(base as int) + shared@.take(i as int) + before.skip(base + i));
    }
    assert(shared@.take(i as int) =~= shared@);
}

} // verus!
