//! The GPU side of the hybrid sort: which compute kernels are dispatched to sort a bucket.
//!
//! Bitonic sort is a data-independent sorting network, so the whole sort of a padded bucket is
//! a fixed list of kernel dispatches. Steps whose distance is smaller than a threadgroup stay
//! inside one dispatch; only the steps that cross threadgroups need one of their own.
use crate::bitonic::{ascending, exchanged, law_network_sorts, merged, network};
use crate::float32::{no_nan, sorted_by_value, value, values};
use crate::kernels::{
    kernel_effect, kernel_fits, lemma_power_divides, stage_of, Kernel, MAX_BLOCK, MAX_GRID,
};
use crate::ratio::Ratio;
use vstd::arithmetic::power2::{
    lemma2_to64, lemma_pow2_pos, lemma_pow2_strictly_increases, lemma_pow2_unfold, pow2,
};
use vstd::prelude::*;

verus! {

/// Whether `n` is a power of two.
pub open spec fn is_power_of_two(n: int) -> bool {
    exists|e: nat| n == #[trigger] pow2(e)
}

/// Rounds `n` up to the next power of two (1 for `n == 0`).
pub fn next_power_of_two(n: usize) -> (r: usize)
    requires
        n <= usize::MAX / 2 + 1,
    ensures
        is_power_of_two(r as int),
        n <= r,
        forall|p: int| #[trigger] is_power_of_two(p) && n <= p ==> r <= p,
{
    let mut r: usize = 1;
    let ghost mut e: nat = 0;
    let ghost bound = (usize::MAX / 2 + 1) as int;
    proof {
        lemma2_to64();
        if bound == pow2(31) {
            assert(is_power_of_two(bound));
        } else {
            assert(bound == pow2(63)) by {
                vstd::arithmetic::power2::lemma2_to64_rest();
            }
        }
        assert forall|p: int| #[trigger] is_power_of_two(p) implies 1 <= p by {
            let x = choose|x: nat| p == #[trigger] pow2(x);
            lemma_pow2_pos(x);
        }
    }
    while r < n
        invariant
            1 <= r == pow2(e),
            n <= bound <= usize::MAX,
            is_power_of_two(bound),
            forall|p: int| #[trigger] is_power_of_two(p) && n <= p ==> r <= p,
        decreases bound - r,
    {
        proof {
            lemma_pow2_unfold(e + 1);
            assert forall|p: int| #[trigger] is_power_of_two(p) && n <= p implies 2 * r <= p by {
                let x = choose|x: nat| p == #[trigger] pow2(x);
                if x < e {
                    lemma_pow2_strictly_increases(x, e);
                } else if x > e + 1 {
                    lemma_pow2_strictly_increases(e + 1, x);
                }
            }
        }
        r = r * 2;
        proof {
            e = e + 1;
        }
    }
    r
}

/// One kernel dispatch: the kernel, the number of threads, and the number of threads in each
/// threadgroup.
#[derive(Clone, Copy, Debug, PartialEq, Eq, Structural)]
pub struct Dispatch {
    pub kernel: Kernel,
    pub grid_width: u64,
    pub group_width: u64,
}

/// What the dispatches of `plan` make of the numbers in the buffer, one after the other.
pub open spec fn plan_effect(plan: Seq<Dispatch>, v: Seq<int>) -> Seq<int>
    decreases plan.len(),
{
    if plan.len() == 0 {
        v
    } else {
        kernel_effect(plan.last().kernel, plan_effect(plan.drop_last(), v))
    }
}

/// The cross-threadgroup steps of stage `k`, with the distances `j`, `j / 2`, and so on while
/// they are not smaller than a block.
pub open spec fn global_steps(n: int, block: int, group: u64, j: int, k: int) -> Seq<Dispatch>
    decreases j,
{
    if j < block || j <= 0 {
        seq![]
    } else {
        seq![
            Dispatch {
                kernel: Kernel::GlobalStep { j: j as u32, k: k as u32 },
                grid_width: n as u64,
                group_width: group,
            },
        ] + global_steps(n, block, group, j / 2, k)
    }
}

/// The dispatches of stage `k`: the cross-threadgroup steps, then one for all smaller
/// distances, if there are any.
pub open spec fn stage_plan(n: int, block: int, group: u64, k: int) -> Seq<Dispatch> {
    global_steps(n, block, group, k / 2, k) + if block >= 2 {
        seq![
            Dispatch {
                kernel: Kernel::LocalMerge { block_size: block as u32, k: k as u32 },
                grid_width: n as u64,
                group_width: block as u64,
            },
        ]
    } else {
        seq![]
    }
}

/// The dispatches of the stages `k`, `2 * k`, and so on up to `n`.
pub open spec fn later_stages(n: int, block: int, group: u64, k: int) -> Seq<Dispatch>
    decreases
            if k > n {
                0
            } else {
                n + 1 - k
            },
{
    if k <= 0 || k > n {
        seq![]
    } else {
        stage_plan(n, block, group, k) + later_stages(n, block, group, 2 * k)
    }
}

/// The dispatches that sort a buffer of `n` elements with blocks of `block` elements and
/// threadgroups of at most `group` threads for the cross-threadgroup steps.
pub open spec fn bucket_plan(n: int, block: int, group: u64) -> Seq<Dispatch> {
    seq![
        Dispatch {
            kernel: Kernel::LocalSort { block_size: block as u32 },
            grid_width: n as u64,
            group_width: block as u64,
        },
    ] + later_stages(n, block, group, 2 * block)
}

proof fn lemma_plan_concat(p: Seq<Dispatch>, q: Seq<Dispatch>, v: Seq<int>)
    ensures
        plan_effect(p + q, v) == plan_effect(q, plan_effect(p, v)),
    decreases q.len(),
{
    if q.len() == 0 {
        assert(p + q =~= p);
    } else {
        assert((p + q).drop_last() =~= p + q.drop_last());
        lemma_plan_concat(p, q.drop_last(), v);
    }
}

proof fn lemma_plan_single(d: Dispatch, v: Seq<int>)
    ensures
        plan_effect(seq![d], v) == kernel_effect(d.kernel, v),
{
    reveal_with_fuel(plan_effect, 2);
    assert(seq![d].drop_last() =~= Seq::<Dispatch>::empty());
}

/// Whether every dispatch of `plan` may run on a buffer of `n` elements.
pub open spec fn plan_fits(plan: Seq<Dispatch>, n: int) -> bool {
    forall|i: int| 0 <= i < plan.len() ==> kernel_fits((#[trigger] plan[i]).kernel, n)
}

/// The word that the kernels get for stage `k`.
proof fn lemma_stage_word(k: int)
    requires
        is_power_of_two(k),
        1 <= k <= MAX_GRID,
    ensures
        stage_of(k as u32) == k,
{
    let w = k as u64;
    assert(w == 0x1_0000_0000u64 ==> w as u32 == 0) by (bit_vector);
}

proof fn lemma_global_steps(n: int, block: int, group: u64, j: int, k: int, v: Seq<int>)
    requires
        is_power_of_two(n),
        is_power_of_two(block),
        (is_power_of_two(j) && block <= 2 * j) || (j == 0 && block == 1),
        is_power_of_two(k),
        j < k <= n <= MAX_GRID,
    ensures
        merged(plan_effect(global_steps(n, block, group, j, k), v), block / 2, k) == merged(v, j, k),
        plan_fits(global_steps(n, block, group, j, k), n),
    decreases j,
{
    let plan = global_steps(n, block, group, j, k);
    if j > 0 {
        lemma_power_divides(j, k);
    }
    lemma_power_divides(block, n);
    lemma_stage_word(k);
    if j < block {
        if j > 0 {
            lemma_power_divides(j, block);
        }
        assert(j == block / 2);
    } else {
        let d = Dispatch {
            kernel: Kernel::GlobalStep { j: j as u32, k: k as u32 },
            grid_width: n as u64,
            group_width: group,
        };
        let rest = global_steps(n, block, group, j / 2, k);
        let next = exchanged(v, j, k);
        lemma_power_divides(j, k);
        lemma_power_divides(2 * j, n);
        assert(kernel_fits(d.kernel, n));
        lemma_plan_concat(seq![d], rest, v);
        lemma_plan_single(d, v);
        if block == 1 && j == 1 {
            lemma_global_steps(n, block, group, 0, k, next);
        } else {
            lemma_power_divides(block, j);
            lemma_global_steps(n, block, group, j / 2, k, next);
        }
        assert(plan =~= seq![d] + rest);
    }
}

/// The dispatches of one stage do what the stage of the network does.
proof fn lemma_stage_plan(n: int, block: int, group: u64, k: int, v: Seq<int>)
    requires
        is_power_of_two(n),
        is_power_of_two(block),
        is_power_of_two(k),
        2 * block <= k <= n <= MAX_GRID,
        block <= MAX_BLOCK,
    ensures
        plan_effect(stage_plan(n, block, group, k), v) == merged(v, k / 2, k),
        plan_fits(stage_plan(n, block, group, k), n),
{
    lemma_power_divides(k, n);
    lemma_power_divides(block, n);
    let steps = global_steps(n, block, group, k / 2, k);
    lemma_global_steps(n, block, group, k / 2, k, v);
    lemma_stage_word(k);
    if block >= 2 {
        let d = Dispatch {
            kernel: Kernel::LocalMerge { block_size: block as u32, k: k as u32 },
            grid_width: n as u64,
            group_width: block as u64,
        };
        lemma_plan_concat(steps, seq![d], v);
        lemma_plan_single(d, plan_effect(steps, v));
    } else {
        assert(steps + Seq::<Dispatch>::empty() =~= steps);
        assert(merged(plan_effect(steps, v), 0, k) == plan_effect(steps, v));
    }
}

proof fn lemma_later_stages(n: int, block: int, group: u64, k: int, v: Seq<int>)
    requires
        is_power_of_two(n),
        is_power_of_two(block),
        is_power_of_two(k),
        2 * block <= k <= 2 * n,
        n <= MAX_GRID,
        block <= MAX_BLOCK,
    ensures
        plan_effect(later_stages(n, block, group, k), network(v, k / 2)) == network(v, n),
        plan_fits(later_stages(n, block, group, k), n),
    decreases 2 * n - k,
{
    lemma_power_divides(block, n);
    lemma_power_divides(k, k);
    if k > n {
        lemma_power_divides(n, k);
        assert(k / 2 == n);
    } else {
        let before = network(v, k / 2);
        lemma_power_divides(k, n);
        lemma_stage_plan(n, block, group, k, before);
        lemma_plan_concat(
            stage_plan(n, block, group, k),
            later_stages(n, block, group, 2 * k),
            before,
        );
        lemma_later_stages(n, block, group, 2 * k, v);
        assert((2 * k) / 2 == k);
    }
}

/// The plan of a bucket sorts it: whatever numbers the buffer holds, after the last dispatch
/// they ascend. Only steps that cross threadgroups are dispatched one by one, yet together
/// the dispatches are exactly the steps of the bitonic network.
pub proof fn law_plan_sorts(n: int, block: int, group: u64, v: Seq<int>)
    requires
        is_power_of_two(n),
        is_power_of_two(block),
        block <= n <= MAX_GRID,
        block <= MAX_BLOCK,
        v.len() == n,
    ensures
        plan_effect(bucket_plan(n, block, group), v) == network(v, n),
        ascending(plan_effect(bucket_plan(n, block, group), v)),
        plan_fits(bucket_plan(n, block, group), n),
{
    lemma_power_divides(block, n);
    let d = Dispatch {
        kernel: Kernel::LocalSort { block_size: block as u32 },
        grid_width: n as u64,
        group_width: block as u64,
    };
    let rest = later_stages(n, block, group, 2 * block);
    lemma_plan_concat(seq![d], rest, v);
    lemma_plan_single(d, v);
    lemma_later_stages(n, block, group, 2 * block, v);
    let e = choose|e: nat| n == #[trigger] pow2(e);
    law_network_sorts(v, e);
}

/// The number of dispatches for a bucket of `2^levels` blocks: one for all blocks, and for
/// each later stage one for every step that crosses threadgroups and, unless a block is a
/// single element, one for the steps that do not.
pub open spec fn dispatch_count(levels: int, block: int) -> int {
    1 + levels * (levels + 1) / 2 + if block >= 2 {
        levels
    } else {
        0
    }
}

proof fn lemma_global_step_count(n: int, block: int, group: u64, e: nat, k: int)
    requires
        1 <= block,
    ensures
        global_steps(n, block, group, block * pow2(e), k).len() == e + 1,
    decreases e,
{
    let j = block * pow2(e);
    lemma_pow2_pos(e);
    assert(j >= block) by (nonlinear_arith)
        requires
            j == block * pow2(e),
            pow2(e) >= 1,
            block >= 1,
    ;
    if e == 0 {
        lemma2_to64();
        assert(global_steps(n, block, group, j / 2, k).len() == 0);
    } else {
        let p = (e - 1) as nat;
        lemma_pow2_unfold(e);
        assert(j == 2 * (block * pow2(p))) by (nonlinear_arith)
            requires
                j == block * pow2(e),
                pow2(e) == 2 * pow2(p),
        ;
        lemma_global_step_count(n, block, group, p, k);
    }
}

proof fn lemma_later_stage_count(block: int, group: u64, m: nat, levels: nat)
    requires
        1 <= block,
        1 <= m <= levels + 1,
    ensures
        later_stages(block * pow2(levels), block, group, block * pow2(m)).len() == dispatch_count(
            levels as int,
            block,
        ) - dispatch_count(m - 1, block),
    decreases levels + 1 - m,
{
    let n = block * pow2(levels);
    let k = block * pow2(m);
    let (mi, p) = (m as int, (m - 1) as nat);
    assert(mi * (mi + 1) == (mi - 1) * mi + 2 * mi) by (nonlinear_arith);
    lemma_pow2_pos(m);
    lemma_pow2_unfold(m);
    lemma_pow2_unfold(m + 1);
    assert(k > 0 && k == 2 * (block * pow2(p)) && 2 * k == block * pow2(m + 1)) by (nonlinear_arith)
        requires
            k == block * pow2(m),
            pow2(m) == 2 * pow2(p),
            pow2(m + 1) == 2 * pow2(m),
            pow2(m) >= 1,
            block >= 1,
    ;
    if m == levels + 1 {
        lemma_pow2_strictly_increases(levels, m);
        assert(k > n) by (nonlinear_arith)
            requires
                k == block * pow2(m),
                n == block * pow2(levels),
                pow2(m) > pow2(levels),
                block >= 1,
        ;
    } else {
        if m < levels {
            lemma_pow2_strictly_increases(m, levels);
        }
        assert(k <= n) by (nonlinear_arith)
            requires
                k == block * pow2(m),
                n == block * pow2(levels),
                pow2(m) <= pow2(levels),
                block >= 1,
        ;
        lemma_global_step_count(n, block, group, p, k);
        lemma_later_stage_count(block, group, m + 1, levels);
        assert(stage_plan(n, block, group, k).len() == dispatch_count(mi, block) - dispatch_count(
            mi - 1,
            block,
        ));
    }
}

/// The number of dispatches grows with the square of the logarithm of the number of blocks,
/// not of the number of elements.
pub proof fn law_dispatch_count(block: int, group: u64, levels: nat)
    requires
        1 <= block,
    ensures
        bucket_plan(block * pow2(levels), block, group).len() == dispatch_count(
            levels as int,
            block,
        ),
{
    lemma2_to64();
    lemma_later_stage_count(block, group, 1, levels);
    assert(block * pow2(1) == 2 * block);
}

proof fn lemma_global_widths(n: int, block: int, group: u64, j: int, k: int, i: int)
    requires
        1 <= n <= MAX_GRID,
        0 <= i < global_steps(n, block, group, j, k).len(),
    ensures
        global_steps(n, block, group, j, k)[i].grid_width == n,
        global_steps(n, block, group, j, k)[i].group_width == group,
        global_steps(n, block, group, j, k)[i].kernel is GlobalStep,
    decreases j,
{
    if i > 0 {
        lemma_global_widths(n, block, group, j / 2, k, i - 1);
    }
}

/// Whether a dispatch has one thread for each of `n` elements, in groups of `block` threads in
/// shared memory and of `group` threads otherwise.
spec fn has_widths(d: Dispatch, n: int, block: int, group: u64) -> bool {
    &&& d.grid_width == n
    &&& match d.kernel {
        Kernel::LocalSort { block_size } => d.group_width == block && block_size == block,
        Kernel::GlobalStep { j, k } => d.group_width == group,
        Kernel::LocalMerge { block_size, k } => d.group_width == block && block_size == block,
    }
}

proof fn lemma_later_widths(n: int, block: int, group: u64, k: int, i: int)
    requires
        1 <= n <= MAX_GRID,
        1 <= block <= MAX_BLOCK,
        0 <= i < later_stages(n, block, group, k).len(),
    ensures
        has_widths(later_stages(n, block, group, k)[i], n, block, group),
    decreases
            if k > n {
                0
            } else {
                n + 1 - k
            },
{
    let steps = global_steps(n, block, group, k / 2, k);
    let stage = stage_plan(n, block, group, k);
    if i < stage.len() {
        if i < steps.len() {
            lemma_global_widths(n, block, group, k / 2, k, i);
        }
    } else {
        lemma_later_widths(n, block, group, 2 * k, i - stage.len());
    }
}

/// Every dispatch of a bucket's plan runs one thread for each element of the bucket, in
/// threadgroups that the device can run.
pub proof fn law_one_thread_for_each_element(gpu: &GpuContext, n: int, block: int, i: int)
    requires
        gpu.max_threads_per_threadgroup > 0,
        is_power_of_two(n),
        n <= MAX_GRID,
        gpu.is_block_size(n, block),
        0 <= i < bucket_plan(n, block, gpu.full_group(n)).len(),
    ensures
        gpu.can_dispatch(bucket_plan(n, block, gpu.full_group(n))[i], n),
        ({
            let d = bucket_plan(n, block, gpu.full_group(n))[i];
            let max = gpu.max_threads_per_threadgroup;
            &&& d.grid_width == n
            &&& 0 < d.group_width <= max
            &&& d.group_width <= n
            &&& d.kernel is GlobalStep ==> d.group_width == max || d.group_width == n
            &&& d.kernel matches Kernel::LocalSort { block_size } ==> d.group_width == block_size
            &&& d.kernel matches Kernel::LocalMerge { block_size, k } ==> d.group_width
                == block_size
        }),
{
    gpu.lemma_block_size(n, block);
    law_block_is_as_wide_as_possible(gpu, n, block);
    let group = gpu.full_group(n);
    if i > 0 {
        lemma_later_widths(n, block, group, 2 * block, i - 1);
        assert(bucket_plan(n, block, group)[i] == later_stages(n, block, group, 2 * block)[i - 1]);
    }
}

/// A block is a power of two that the device, the shared memory and the bucket allow, and the
/// next one would be too wide for one of them.
pub proof fn law_block_is_as_wide_as_possible(gpu: &GpuContext, n: int, block: int)
    requires
        gpu.max_threads_per_threadgroup > 0,
        is_power_of_two(n),
        gpu.is_block_size(n, block),
    ensures
        is_power_of_two(block),
        1 <= block <= n,
        block <= gpu.max_threads_per_threadgroup,
        block <= 1024,
        2 * block > n || 2 * block > gpu.max_threads_per_threadgroup || 2 * block > 1024,
{
    gpu.lemma_block_size(n, block);
}

/// A number is a power of two exactly if it is one, or twice a power of two.
pub proof fn law_powers_of_two(n: int)
    ensures
        is_power_of_two(n) <==> n == 1 || (n > 1 && n % 2 == 0 && is_power_of_two(n / 2)),
{
    lemma2_to64();
    if is_power_of_two(n) {
        let e = choose|e: nat| n == #[trigger] pow2(e);
        lemma_pow2_pos(e);
        if e > 0 {
            lemma_pow2_unfold(e);
            lemma_pow2_pos((e - 1) as nat);
            assert(n / 2 == pow2((e - 1) as nat));
        }
    }
    if n == 1 {
        assert(n == pow2(0));
    } else if n > 1 && n % 2 == 0 && is_power_of_two(n / 2) {
        let e = choose|e: nat| n / 2 == #[trigger] pow2(e);
        lemma_pow2_unfold(e + 1);
        assert(n == pow2(e + 1));
    }
}

/// The occupancy is a fraction between zero and one: all of the threads if the bucket fills a
/// threadgroup, and otherwise the bucket's share of one. Larger buckets never have less of it.
pub proof fn law_occupancy_is_a_share(padded_len: int, larger: int, max_threads: u64)
    requires
        0 <= padded_len <= larger,
    ensures
        ({
            let (o, l) = (occupancy(padded_len, max_threads), occupancy(larger, max_threads));
            &&& o.wf()
            &&& o.numer <= o.denom
            &&& max_threads == 0 ==> o.numer == 0
            &&& 0 < max_threads <= padded_len ==> o.numer == o.denom
            &&& padded_len <= max_threads ==> o.numer * max_threads == padded_len * o.denom
            &&& o.numer * l.denom <= l.numer * o.denom
        }),
{
    let (o, l) = (occupancy(padded_len, max_threads), occupancy(larger, max_threads));
    assert(padded_len < max_threads ==> padded_len * max_threads == max_threads * padded_len)
        by (nonlinear_arith);
    if larger < max_threads {
        assert(padded_len * max_threads <= larger * max_threads) by (nonlinear_arith)
            requires
                padded_len <= larger,
        ;
    }
}

/// A GPU, as far as the sort needs to know it.
#[derive(Debug)]
pub struct GpuContext {
    pub device_name: String,
    pub max_threads_per_threadgroup: u64,
    pub thread_execution_width: u64,
}

/// What the startup and per-run logs report of a GPU.
#[derive(Debug)]
pub struct GpuStats {
    pub device_name: String,
    pub max_threads_per_threadgroup: u64,
    pub thread_execution_width: u64,
    /// Estimated fraction of the threads that run in full threadgroups.
    pub occupancy_estimate: Ratio,
}

/// Whether `c` is the largest power of two that is at most `cap`.
pub open spec fn is_largest_power(c: int, cap: int) -> bool {
    is_power_of_two(c) && c <= cap < 2 * c
}

/// The padded length as a fraction of a threadgroup, at most one; zero for a device without
/// threads.
pub open spec fn occupancy(padded_len: int, max_threads: u64) -> Ratio {
    if max_threads == 0 {
        Ratio { numer: 0, denom: 1 }
    } else if padded_len >= max_threads {
        Ratio { numer: 1, denom: 1 }
    } else {
        Ratio { numer: padded_len as u64, denom: max_threads }
    }
}

impl GpuContext {
    /// The largest number of threads in a threadgroup of the shared-memory kernels.
    pub open spec fn block_cap(&self) -> int {
        if self.max_threads_per_threadgroup < MAX_BLOCK {
            self.max_threads_per_threadgroup as int
        } else {
            MAX_BLOCK as int
        }
    }

    /// The number of threads in a threadgroup of the cross-threadgroup kernel.
    pub open spec fn full_group(&self, n_padded: int) -> u64 {
        if self.max_threads_per_threadgroup < n_padded {
            self.max_threads_per_threadgroup
        } else {
            n_padded as u64
        }
    }

    /// Whether `block` is the width of the shared-memory kernels' threadgroups for a bucket
    /// of `n_padded` elements: the largest power of two that the device and the shared
    /// memory allow, but no more than the bucket.
    pub open spec fn is_block_size(&self, n_padded: int, block: int) -> bool {
        exists|c: int|
            #[trigger] is_largest_power(c, self.block_cap()) && block == (if c < n_padded {
                c
            } else {
                n_padded
            })
    }

    /// Whether the device can carry out a dispatch on a buffer of `n` elements, and misses none
    /// of them: there is one thread for each element, and no threadgroup is empty, wider than
    /// the device allows, or wider than the grid. A kernel in shared memory has exactly the
    /// threads of one block in a group, which fit its shared memory; the other one fills its
    /// groups as far as the device and the grid allow.
    pub open spec fn can_dispatch(&self, dispatch: Dispatch, n: int) -> bool {
        &&& dispatch.grid_width == n
        &&& 0 < dispatch.group_width <= self.max_threads_per_threadgroup
        &&& dispatch.group_width <= dispatch.grid_width
        &&& match dispatch.kernel {
            Kernel::LocalSort { block_size } => dispatch.group_width == block_size <= 1024,
            Kernel::GlobalStep { j, k } => dispatch.group_width == self.max_threads_per_threadgroup
                || dispatch.group_width == n,
            Kernel::LocalMerge { block_size, k } => dispatch.group_width == block_size <= 1024,
        }
    }

    /// The width of the shared-memory kernels' threadgroups for a bucket of `n_padded`
    /// elements.
    pub fn block_size_for(&self, n_padded: usize) -> (block: usize)
        requires
            self.max_threads_per_threadgroup > 0,
        ensures
            self.is_block_size(n_padded as int, block as int),
            block <= n_padded,
            block <= self.max_threads_per_threadgroup,
            block <= 1024,
    {
        let cap: u64 = if self.max_threads_per_threadgroup < MAX_BLOCK {
            self.max_threads_per_threadgroup
        } else {
            MAX_BLOCK
        };
        let mut c: u64 = 1;
        proof {
            lemma2_to64();
            assert(is_power_of_two(1int));
        }
        while 2 * c <= cap
            invariant
                is_power_of_two(c as int),
                1 <= c <= cap <= MAX_BLOCK,
            decreases cap - c,
        {
            proof {
                lemma_power_divides(c as int, c as int);
            }
            c = 2 * c;
        }
        assert(is_largest_power(c as int, self.block_cap()));
        if (c as usize) < n_padded {
            c as usize
        } else {
            n_padded
        }
    }

    /// The dispatches that sort a padded bucket of `n_padded` elements.
    pub fn encode_bucket_sort(&self, n_padded: usize) -> (plan: Vec<Dispatch>)
        requires
            self.max_threads_per_threadgroup > 0,
            is_power_of_two(n_padded as int),
            n_padded <= MAX_GRID,
        ensures
            exists|block: int|
                #[trigger] self.is_block_size(n_padded as int, block) && plan@ == bucket_plan(
                    n_padded as int,
                    block,
                    self.full_group(n_padded as int),
                ),
            forall|i: int|
                0 <= i < plan@.len() ==> self.can_dispatch(#[trigger] plan@[i], n_padded as int)
                    && plan@[i].grid_width == n_padded,
    {
        let block_size = self.block_size_for(n_padded);
        let n: u64 = n_padded as u64;
        let block: u64 = block_size as u64;
        let group: u64 = if self.max_threads_per_threadgroup < n {
            self.max_threads_per_threadgroup
        } else {
            n
        };
        proof {
            self.lemma_block_size(n_padded as int, block as int);
            lemma_power_divides(block as int, n as int);
        }
        let mut plan: Vec<Dispatch> = Vec::new();
        plan.push(
            Dispatch {
                kernel: Kernel::LocalSort { block_size: block as u32 },
                grid_width: n,
                group_width: block,
            },
        );
        let ghost whole = bucket_plan(n as int, block as int, group);
        let mut k: u64 = block * 2;
        assert(plan@ + later_stages(n as int, block as int, group, k as int) =~= whole);
        while k <= n
            invariant
                1 <= block <= MAX_BLOCK,
                is_power_of_two(k as int),
                is_power_of_two(n as int),
                n <= MAX_GRID,
                1 <= k <= 2 * n,
                plan@ + later_stages(n as int, block as int, group, k as int) == whole,
            decreases 2 * n - k,
        {
            let ghost done = plan@;
            let ghost rest = later_stages(n as int, block as int, group, 2 * k as int);
            let mut j: u64 = k / 2;
            while j >= block
                invariant
                    1 <= block <= MAX_BLOCK,
                    j <= k / 2,
                    k <= n <= MAX_GRID,
                    plan@ + global_steps(n as int, block as int, group, j as int, k as int) == done
                        + global_steps(
                        n as int,
                        block as int,
                        group,
                        k as int / 2,
                        k as int,
                    ),
                decreases j,
            {
                let ghost before = plan@;
                let step = Dispatch {
                    kernel: Kernel::GlobalStep { j: j as u32, k: #[verifier::truncate] (k as u32) },
                    grid_width: n,
                    group_width: group,
                };
                plan.push(step);
                assert(plan@ + global_steps(n as int, block as int, group, j as int / 2, k as int)
                    =~= before + global_steps(n as int, block as int, group, j as int, k as int));
                j = j / 2;
            }
            if block >= 2 {
                plan.push(
                    Dispatch {
                        kernel: Kernel::LocalMerge {
                            block_size: block as u32,
                            k: #[verifier::truncate] (k as u32),
                        },
                        grid_width: n,
                        group_width: block,
                    },
                );
            }
            assert(plan@ =~= done + stage_plan(n as int, block as int, group, k as int));
            assert(plan@ + rest =~= whole);
            proof {
                lemma_power_divides(k as int, n as int);
            }
            k = k * 2;
        }
        assert(plan@ =~= whole);
        proof {
            assert forall|i: int| 0 <= i < plan@.len() implies self.can_dispatch(
                #[trigger] plan@[i],
                n_padded as int,
            ) && plan@[i].grid_width == n_padded by {
                law_one_thread_for_each_element(self, n_padded as int, block as int, i);
            }
        }
        plan
    }

    proof fn lemma_block_size(&self, n_padded: int, block: int)
        requires
            self.max_threads_per_threadgroup > 0,
            is_power_of_two(n_padded),
            self.is_block_size(n_padded, block),
        ensures
            is_power_of_two(block),
            1 <= block <= n_padded,
            block <= MAX_BLOCK,
    {
        lemma_power_divides(block, block);
    }

    /// Sorts a buffer by the dispatches of its plan, run in plain memory.
    pub fn bitonic_sort(&self, data: &mut [u32])
        requires
            self.max_threads_per_threadgroup > 0,
            is_power_of_two(old(data)@.len() as int),
            old(data)@.len() <= MAX_GRID,
            no_nan(old(data)@),
        ensures
            final(data)@.to_multiset() == old(data)@.to_multiset(),
            final(data)@.len() == old(data)@.len(),
            sorted_by_value(final(data)@),
    {
        let n = data.len();
        let ghost before = data@;
        let plan = self.encode_bucket_sort(n);
        proof {
            let block = choose|block: int|
                #[trigger] self.is_block_size(n as int, block) && plan@ == bucket_plan(
                    n as int,
                    block,
                    self.full_group(n as int),
                );
            self.lemma_block_size(n as int, block);
            law_plan_sorts(n as int, block, self.full_group(n as int), values(before));
        }
        let mut i: usize = 0;
        assert(plan@.take(0) =~= Seq::<Dispatch>::empty());
        while i < plan.len()
            invariant
                i <= plan@.len(),
                n == data@.len(),
                n == before.len(),
                plan_fits(plan@, n as int),
                no_nan(data@),
                data@.to_multiset() == before.to_multiset(),
                values(data@) == plan_effect(plan@.take(i as int), values(before)),
            decreases plan@.len() - i,
        {
            let kernel = plan[i].kernel;
            kernel.run(data);
            assert(plan@.take(i + 1).drop_last() =~= plan@.take(i as int));
            i = i + 1;
        }
        proof {
            assert(plan@.take(i as int) =~= plan@);
            assert forall|x: int, y: int| 0 <= x <= y < data@.len() implies value(
                #[trigger] data@[x],
            ) <= value(#[trigger] data@[y]) by {
                assert(values(data@)[x] <= values(data@)[y]);
            }
        }
    }

    /// Sorts every padded bucket by the dispatches of its plan, run in plain memory.
    pub fn sort_padded_buckets(&self, buckets: &mut Vec<Vec<u32>>)
        requires
            self.max_threads_per_threadgroup > 0,
            forall|i: int|
                0 <= i < old(buckets)@.len() ==> {
                    &&& is_power_of_two((#[trigger] old(buckets)@[i])@.len() as int)
                    &&& old(buckets)@[i]@.len() <= MAX_GRID
                    &&& no_nan(old(buckets)@[i]@)
                },
        ensures
            final(buckets)@.len() == old(buckets)@.len(),
            forall|i: int|
                0 <= i < old(buckets)@.len() ==> {
                    &&& (#[trigger] final(buckets)@[i])@.to_multiset() == old(
                        buckets,
                    )@[i]@.to_multiset()
                    &&& final(buckets)@[i]@.len() == old(buckets)@[i]@.len()
                    &&& sorted_by_value(final(buckets)@[i]@)
                },
    {
        let ghost before = buckets@;
        let mut i: usize = 0;
        while i < buckets.len()
            invariant
                self.max_threads_per_threadgroup > 0,
                buckets@.len() == before.len(),
                i <= before.len(),
                forall|x: int|
                    0 <= x < before.len() ==> {
                        &&& is_power_of_two((#[trigger] before[x])@.len() as int)
                        &&& before[x]@.len() <= MAX_GRID
                        &&& no_nan(before[x]@)
                    },
                forall|x: int|
                    0 <= x < i ==> {
                        &&& (#[trigger] buckets@[x])@.to_multiset() == before[x]@.to_multiset()
                        &&& buckets@[x]@.len() == before[x]@.len()
                        &&& sorted_by_value(buckets@[x]@)
                    },
                forall|x: int| i <= x < before.len() ==> #[trigger] buckets@[x] == before[x],
            decreases before.len() - i,
        {
            let bucket: &mut Vec<u32> = &mut buckets[i];
            if bucket.len() > 1 {
                self.bitonic_sort(bucket.as_mut_slice());
            }
            i = i + 1;
        }
    }

    /// What the logs report of the device and of a run with buckets of `padded_len` elements.
    pub fn stats(&self, padded_len: usize) -> (stats: GpuStats)
        ensures
            stats.device_name@ == self.device_name@,
            stats.max_threads_per_threadgroup == self.max_threads_per_threadgroup,
            stats.thread_execution_width == self.thread_execution_width,
            stats.occupancy_estimate == occupancy(
                padded_len as int,
                self.max_threads_per_threadgroup,
            ),
    {
        let max = self.max_threads_per_threadgroup;
        let padded: u64 = padded_len as u64;
        let occupancy_estimate = if max == 0 {
            Ratio { numer: 0, denom: 1 }
        } else if padded >= max {
            Ratio { numer: 1, denom: 1 }
        } else {
            Ratio { numer: padded, denom: max }
        };
        GpuStats {
            device_name: self.device_name.clone(),
            max_threads_per_threadgroup: max,
            thread_execution_width: self.thread_execution_width,
            occupancy_estimate,
        }
    }
}

} // verus!
