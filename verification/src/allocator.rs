//! A scratch memory arena of a fixed size.
//!
//! The arena is filled with bytes that are hard to compress, so that the operating system
//! backs every page with memory, and one byte of every page is changed from time to time, so
//! that it stays that way. Byte ranges are handed out from the front to the back.
use crate::parallel::{
    chunk_at, chunk_count, chunk_start, current_threads, lemma_chunk_bounds, par_chunks_for_each,
};
use std::ops::Range;
use vstd::prelude::*;

verus! {

/// The distance between two bytes that keep their pages in memory.
pub const PAGE_SIZE: usize = 4096;

/// The odd constant that spreads the seeds of the chunks.
pub const SEED_STEP: u64 = 0x9E37_79B9_7F4A_7C15;

/// The filler's state at the start of a chunk.
pub open spec fn seed(chunk: int) -> u64 {
    ((chunk * SEED_STEP + 1) % 0x1_0000_0000_0000_0000) as u64
}

/// The filler's next state.
pub open spec fn scrambled(state: u64) -> u64 {
    let a = state ^ (state << 13u64);
    let b = a ^ (a >> 7u64);
    b ^ (b << 17u64)
}

/// The filler's state after some steps.
pub open spec fn state_after(start: u64, steps: int) -> u64
    decreases steps,
{
    if steps <= 0 {
        start
    } else {
        scrambled(state_after(start, steps - 1))
    }
}

/// The byte at position `k` of a chunk: the low byte of the state.
pub open spec fn filler(chunk: int, k: int) -> u8 {
    (state_after(seed(chunk), k + 1) % 256) as u8
}

/// Whether `bytes` are filled chunk by chunk.
pub open spec fn is_filled(bytes: Seq<u8>, chunk_len: int) -> bool {
    forall|i: int|
        0 <= i < bytes.len() ==> #[trigger] bytes[i] == filler(i / chunk_len, i % chunk_len)
}

/// The length of the chunks that `threads` threads fill.
pub open spec fn chunk_len_for(len: int, threads: int) -> int {
    let per_thread = len / if threads < 1 {
        1
    } else {
        threads
    };
    if per_thread < PAGE_SIZE {
        PAGE_SIZE as int
    } else {
        per_thread
    }
}

/// Chunks have at least 4096 bytes, and otherwise as many as each thread gets when all get
/// equally many.
pub proof fn law_chunks_are_shares(len: int, threads: int)
    requires
        0 <= len,
        1 <= threads,
    ensures
        ({
            let chunk_len = chunk_len_for(len, threads);
            &&& chunk_len >= 4096
            &&& chunk_len > 4096 ==> chunk_len * threads <= len
            &&& len < (chunk_len + 1) * threads
            &&& chunk_len_for(len, 0) == chunk_len_for(len, 1)
        }),
{
    let share = len / threads;
    let chunk_len = chunk_len_for(len, threads);
    assert(share * threads <= len < (share + 1) * threads) by (nonlinear_arith)
        requires
            share == len / threads,
            threads > 0,
    ;
    assert((share + 1) * threads <= (chunk_len + 1) * threads) by (nonlinear_arith)
        requires
            share <= chunk_len,
            threads > 0,
    ;
}

/// Whether `next` comes from `state` over `first` and `second`, by three shifts that are each
/// mixed in by exclusive or.
pub open spec fn is_mixed(state: u64, first: u64, second: u64, next: u64) -> bool {
    &&& first == state ^ (state << 13u64)
    &&& second == first ^ (first >> 7u64)
    &&& next == second ^ (second << 17u64)
}

/// The bytes of a chunk are the low bytes of a run of states. The run starts from a number that
/// only the chunk's number decides, and each state comes from the one before by three shifts,
/// each mixed in by exclusive or.
pub proof fn law_filler_is_a_run_of_states(
    chunk: int,
    states: Seq<u64>,
    first: Seq<u64>,
    second: Seq<u64>,
    k: int,
)
    requires
        0 <= chunk,
        0 <= k < states.len() - 1,
        states[0] == (chunk * 0x9E37_79B9_7F4A_7C15 + 1) % 0x1_0000_0000_0000_0000,
        forall|i: int|
            0 <= i < k + 1 ==> #[trigger] is_mixed(
                states[i],
                first[i],
                second[i],
                states[i + 1],
            ),
    ensures
        filler(chunk, k) == states[k + 1] % 256,
{
    lemma_states(chunk, states, first, second, k + 1);
}

proof fn lemma_states(
    chunk: int,
    states: Seq<u64>,
    first: Seq<u64>,
    second: Seq<u64>,
    k: int,
)
    requires
        0 <= chunk,
        0 <= k < states.len(),
        states[0] == (chunk * 0x9E37_79B9_7F4A_7C15 + 1) % 0x1_0000_0000_0000_0000,
        forall|i: int|
            0 <= i < k ==> #[trigger] is_mixed(states[i], first[i], second[i], states[i + 1]),
    ensures
        state_after(seed(chunk), k) == states[k],
    decreases k,
{
    if k > 0 {
        lemma_states(chunk, states, first, second, k - 1);
        assert(is_mixed(states[k - 1], first[k - 1], second[k - 1], states[k - 1 + 1]));
    }
}

/// Filling goes chunk by chunk: position `k` of chunk `c` gets that chunk's byte `k`.
pub proof fn law_chunks_are_filled(bytes: Seq<u8>, chunk_len: int, c: int, k: int)
    requires
        is_filled(bytes, chunk_len),
        0 <= c,
        0 <= k < chunk_len,
        c * chunk_len + k < bytes.len(),
    ensures
        bytes[c * chunk_len + k] == filler(c, k),
{
    let i = c * chunk_len + k;
    assert(0 <= c * chunk_len) by (nonlinear_arith)
        requires
            0 <= c,
            0 < chunk_len,
    ;
    vstd::arithmetic::div_mod::lemma_fundamental_div_mod_converse(i, chunk_len, c, k);
    assert(bytes[i] == filler(i / chunk_len, i % chunk_len));
}

/// The length of the chunks that `threads` threads fill.
pub fn fill_chunk_len(len: usize, threads: usize) -> (chunk_len: usize)
    ensures
        chunk_len == chunk_len_for(len as int, threads as int),
        chunk_len > 0,
{
    let num_chunks = if threads < 1 {
        1
    } else {
        threads
    };
    let per_thread = len / num_chunks;
    if per_thread < PAGE_SIZE {
        PAGE_SIZE
    } else {
        per_thread
    }
}

/// The filler's next state.
fn scramble(state: u64) -> (next: u64)
    ensures
        next == scrambled(state),
{
    let a = state ^ (state << 13u64);
    let b = a ^ (a >> 7u64);
    b ^ (b << 17u64)
}

/// Fills one chunk.
fn fill_chunk(chunk_index: usize, chunk: &mut [u8])
    ensures
        final(chunk)@.len() == old(chunk)@.len(),
        forall|k: int|
            0 <= k < old(chunk)@.len() ==> #[trigger] final(chunk)@[k] == filler(
                chunk_index as int,
                k,
            ),
{
    let mut state: u64 = (chunk_index as u64).wrapping_mul(SEED_STEP).wrapping_add(1);
    assert(state == seed(chunk_index as int)) by {
        let product = chunk_index as u64 * SEED_STEP;
        assert(product % 0x1_0000_0000_0000_0000 + 1 == (product + 1) % 0x1_0000_0000_0000_0000 || (
        product + 1) % 0x1_0000_0000_0000_0000 == 0);
    }
    let len = chunk.len();
    let mut k: usize = 0;
    while k < len
        invariant
            k <= len,
            chunk@.len() == len,
            state == state_after(seed(chunk_index as int), k as int),
            forall|x: int| 0 <= x < k ==> #[trigger] chunk@[x] == filler(chunk_index as int, x),
        decreases len - k,
    {
        state = scramble(state);
        assert(state as u8 == state % 256) by (bit_vector);
        chunk[k] = state as u8;
        k = k + 1;
    }
}

/// Fills `bytes` chunk by chunk, in parallel.
pub fn fill(bytes: &mut [u8], chunk_len: usize)
    requires
        chunk_len > 0,
    ensures
        final(bytes)@.len() == old(bytes)@.len(),
        is_filled(final(bytes)@, chunk_len as int),
{
    let len = bytes.len();
    let fill_one = |item: (usize, &mut [u8])|
        ensures
            final(item.1)@.len() == old(item.1)@.len(),
            forall|k: int|
                0 <= k < old(item.1)@.len() ==> #[trigger] final(item.1)@[k] == filler(item.0 as int, k),
        { fill_chunk(item.0, item.1) };
    par_chunks_for_each(bytes, chunk_len, fill_one);
    proof {
        let d = chunk_len as int;
        assert forall|i: int| 0 <= i < len implies #[trigger] bytes@[i] == filler(i / d, i % d) by {
            lemma_position_in_chunk(len as int, d, i);
            let c = (i / d) as usize;
            assert(c == i / d);
            let part = chunk_at(bytes@, d, c as int);
            assert(part[i % d] == bytes@[i]);
        }
    }
}

/// Every position stands in one of the chunks.
proof fn lemma_position_in_chunk(len: int, chunk_len: int, i: int)
    requires
        0 <= i < len,
        0 < chunk_len,
    ensures
        0 <= i / chunk_len <= i,
        i / chunk_len < chunk_count(len, chunk_len),
        0 <= i % chunk_len,
        chunk_start(len, chunk_len, i / chunk_len) + i % chunk_len == i,
        i < chunk_start(len, chunk_len, i / chunk_len + 1),
{
    let c = i / chunk_len;
    assert(i == c * chunk_len + i % chunk_len && 0 <= i % chunk_len < chunk_len && 0 <= c <= i)
        by (nonlinear_arith)
        requires
            c == i / chunk_len,
            0 < chunk_len,
            0 <= i,
    ;
    assert(c < (len + chunk_len - 1) / chunk_len) by (nonlinear_arith)
        requires
            c * chunk_len <= i < len,
            0 < chunk_len,
    ;
    assert((c + 1) * chunk_len == c * chunk_len + chunk_len) by (nonlinear_arith);
    lemma_chunk_bounds(len, chunk_len, c);
}

/// Whether the low `bits` bits of `x` are zero.
spec fn low_bits_zero(x: u64, bits: u64) -> bool {
    x << ((64 - bits) as u64) == 0
}

/// A state whose low bits are zero, and whose next state's are too, has seven more low bits
/// that are zero.
proof fn lemma_zeros_spread(x: u64, bits: u64)
    by (bit_vector)
    requires
        8 <= bits <= 57,
        low_bits_zero(x, bits),
        low_bits_zero(scrambled(x), bits),
    ensures
        low_bits_zero(x, (bits + 7) as u64),
{
}

/// The filler never gets stuck at zero.
proof fn lemma_scrambled_nonzero(x: u64)
    by (bit_vector)
    requires
        x != 0,
    ensures
        scrambled(x) != 0,
{
}

proof fn lemma_state_nonzero(start: u64, steps: int)
    requires
        start != 0,
    ensures
        state_after(start, steps) != 0,
    decreases steps,
{
    if steps > 0 {
        lemma_state_nonzero(start, steps - 1);
        lemma_scrambled_nonzero(state_after(start, steps - 1));
    }
}

proof fn lemma_zero_run(start: u64, i: int, n: int)
    requires
        0 <= i,
        0 <= n <= 8,
        forall|x: int| i <= x <= i + n ==> (#[trigger] state_after(start, x)) % 256 == 0,
    ensures
        low_bits_zero(state_after(start, i), (8 + 7 * n) as u64),
    decreases n,
{
    if n == 0 {
        let s = state_after(start, i);
        assert(s << 56u64 == 0) by (bit_vector)
            requires
                s % 256 == 0,
        ;
    } else {
        lemma_zero_run(start, i, n - 1);
        lemma_zero_run(start, i + 1, n - 1);
        assert(state_after(start, i + 1) == scrambled(state_after(start, i)));
        lemma_zeros_spread(state_after(start, i), (8 + 7 * (n - 1)) as u64);
    }
}

/// No chunk that fits into memory starts at zero: the seed's constant is odd, so that only one
/// number in a machine word is sent to zero, and that one is too large.
proof fn lemma_seed_nonzero(chunk: int)
    requires
        0 <= chunk < 0x8_0000_0000_0000,
    ensures
        seed(chunk) != 0,
{
    let word = 0x1_0000_0000_0000_0000int;
    let inverse = 0xF1DE_83E1_9937_733Dint;
    let carry = 0x957B_BF35_006E_D677int;
    let sum = chunk * SEED_STEP + 1;
    if sum % word == 0 {
        let q = sum / word;
        assert(sum == word * q);
        assert(SEED_STEP * inverse == 1 + word * carry);
        assert(chunk + inverse == word * (q * inverse - chunk * carry));
        assert(0 < chunk + inverse < word);
    }
}

/// Nine bytes in a row of the filler are never all zero.
proof fn lemma_filler_nonzero(chunk: int, k: int) -> (x: int)
    requires
        0 <= chunk < 0x8_0000_0000_0000,
        0 <= k,
    ensures
        k <= x < k + 9,
        filler(chunk, x) != 0,
{
    let start = seed(chunk);
    lemma_seed_nonzero(chunk);
    if forall|x: int| k <= x < k + 9 ==> #[trigger] filler(chunk, x) == 0 {
        assert forall|y: int| k + 1 <= y <= k + 9 implies (#[trigger] state_after(start, y)) % 256
            == 0 by {
            assert(filler(chunk, y - 1) == 0);
        }
        lemma_zero_run(start, k + 1, 8);
        lemma_state_nonzero(start, k + 1);
        let s = state_after(start, k + 1);
        assert(s << 0u64 == s) by (bit_vector);
    }
    choose|x: int| k <= x < k + 9 && #[trigger] filler(chunk, x) != 0
}

/// Whether the page with the number `page` holds a byte that is not zero.
pub open spec fn is_page_written(bytes: Seq<u8>, page: int) -> bool {
    exists|i: int|
        page * PAGE_SIZE <= i < (page + 1) * PAGE_SIZE && #[trigger] bytes[i] != 0
}

/// Filling memory leaves no page at zero, wherever the chunks begin: every whole page holds a
/// byte that is not zero.
pub proof fn law_every_page_is_written(bytes: Seq<u8>, chunk_len: int, page: int)
    requires
        is_filled(bytes, chunk_len),
        chunk_len >= PAGE_SIZE,
        bytes.len() <= isize::MAX,
        0 <= page,
        (page + 1) * PAGE_SIZE <= bytes.len(),
    ensures
        is_page_written(bytes, page),
{
    let start = page * PAGE_SIZE;
    let (c, r) = (start / chunk_len, start % chunk_len);
    assert(start == c * chunk_len + r && 0 <= r < chunk_len && 0 <= c) by (nonlinear_arith)
        requires
            c == start / chunk_len,
            r == start % chunk_len,
            0 <= start,
            0 < chunk_len,
    ;
    assert(c < 0x8_0000_0000_0000 - 1) by (nonlinear_arith)
        requires
            c * chunk_len <= start < 0x8000_0000_0000_0000 - 4096,
            chunk_len >= 4096,
    ;
    let (chunk, from) = if r + 9 <= chunk_len {
        (c, r)
    } else {
        (c + 1, 0)
    };
    assert((c + 1) * chunk_len == c * chunk_len + chunk_len) by (nonlinear_arith);
    let x = lemma_filler_nonzero(chunk, from);
    let i = chunk * chunk_len + x;
    vstd::arithmetic::div_mod::lemma_fundamental_div_mod_converse(i, chunk_len, chunk, x);
    assert(bytes[i] == filler(i / chunk_len, i % chunk_len));
}

/// Whether `after` is `before` with one byte of every page changed.
pub open spec fn is_touched(before: Seq<u8>, after: Seq<u8>) -> bool {
    &&& after.len() == before.len()
    &&& forall|i: int|
        0 <= i < before.len() ==> #[trigger] after[i] == if i % PAGE_SIZE as int == 0 {
            ((before[i] + 1) % 256) as u8
        } else {
            before[i]
        }
}

/// Touching changes the first byte of every page, and no other byte.
pub proof fn law_touching_changes_every_page(before: Seq<u8>, after: Seq<u8>, i: int)
    requires
        is_touched(before, after),
        0 <= i < before.len(),
    ensures
        after.len() == before.len(),
        after[i] != before[i] <==> i % 4096 == 0,
        i % 4096 == 0 && before[i] < 255 ==> after[i] == before[i] + 1,
        i % 4096 == 0 && before[i] == 255 ==> after[i] == 0,
{
}

/// Changes one byte of every page.
pub fn touch_pages(bytes: &mut Vec<u8>)
    ensures
        is_touched(old(bytes)@, final(bytes)@),
{
    let ghost before = bytes@;
    let len = bytes.len();
    let mut i: usize = 0;
    while i < len
        invariant
            i <= len,
            len == before.len(),
            bytes@.len() == len,
            i % PAGE_SIZE == 0 || i == len,
            forall|x: int| i <= x < len ==> #[trigger] bytes@[x] == before[x],
            forall|x: int|
                0 <= x < i ==> #[trigger] bytes@[x] == if x % PAGE_SIZE as int == 0 {
                    ((before[x] + 1) % 256) as u8
                } else {
                    before[x]
                },
        decreases len - i,
    {
        let prev = bytes[i];
        bytes[i] = prev.wrapping_add(1);
        if len - i <= PAGE_SIZE {
            i = len;
        } else {
            i = i + PAGE_SIZE;
        }
    }
}

/// The range that an arena of `capacity` bytes hands out for `size` bytes when `used` bytes
/// are taken, as its start and its end.
pub open spec fn allotted(used: int, capacity: int, size: int) -> Option<(int, int)> {
    if used + size <= capacity {
        Some((used, used + size))
    } else {
        None
    }
}

/// How many bytes are taken after a request.
pub open spec fn used_after(used: int, capacity: int, size: int) -> int {
    if used + size <= capacity {
        used + size
    } else {
        used
    }
}

/// How many bytes are taken after requests for `sizes` bytes, one after the other.
pub open spec fn used_after_all(used: int, capacity: int, sizes: Seq<usize>) -> int
    decreases sizes.len(),
{
    if sizes.len() == 0 {
        used
    } else {
        used_after(
            used_after_all(used, capacity, sizes.drop_last()),
            capacity,
            sizes.last() as int,
        )
    }
}

/// A scratch memory arena.
pub struct ScratchArena {
    buffer: Vec<u8>,
    offset: usize,
}

impl ScratchArena {
    #[verifier::type_invariant]
    spec fn wf(self) -> bool {
        self.offset <= self.buffer@.len()
    }

    /// The arena's memory.
    pub closed spec fn bytes(self) -> Seq<u8> {
        self.buffer@
    }

    /// How many bytes are taken.
    pub closed spec fn used(self) -> int {
        self.offset as int
    }

    /// An arena of `size_bytes` bytes, all of them written, so that no page is left at zero.
    /// How many chunks they are written in depends on the machine.
    pub fn new(size_bytes: usize) -> (arena: Self)
        requires
            size_bytes <= isize::MAX,
        ensures
            arena.bytes().len() == size_bytes,
            arena.used() == 0,
            exists|threads: int|
                0 <= threads && is_filled(
                    arena.bytes(),
                    #[trigger] chunk_len_for(size_bytes as int, threads),
                ),
            forall|page: int|
                0 <= page && (page + 1) * PAGE_SIZE <= size_bytes ==> #[trigger] is_page_written(
                    arena.bytes(),
                    page,
                ),
    {
        let mut buffer: Vec<u8> = vec![0u8; size_bytes];
        let threads = current_threads();
        let chunk_len = fill_chunk_len(buffer.len(), threads);
        fill(buffer.as_mut_slice(), chunk_len);
        assert(is_filled(buffer@, chunk_len_for(size_bytes as int, threads as int)));
        proof {
            assert forall|page: int|
                0 <= page && (page + 1) * PAGE_SIZE <= size_bytes implies #[trigger] is_page_written(
                buffer@,
                page,
            ) by {
                law_every_page_is_written(buffer@, chunk_len as int, page);
            }
        }
        ScratchArena { buffer, offset: 0 }
    }

    /// Changes one byte of every page, which keeps the arena in memory.
    pub fn keep_resident(&mut self)
        ensures
            is_touched(old(self).bytes(), final(self).bytes()),
            final(self).used() == old(self).used(),
    {
        proof {
            use_type_invariant(&*self);
        }
        let mut buffer: Vec<u8> = Vec::new();
        let offset = self.offset;
        self.offset = 0;
        std::mem::swap(&mut buffer, &mut self.buffer);
        touch_pages(&mut buffer);
        self.buffer = buffer;
        self.offset = offset;
    }

    /// Hands out `size` bytes, or nothing if so many are not left.
    pub fn allocate(&mut self, size: usize) -> (range: Option<Range<usize>>)
        ensures
            match range {
                Some(r) => allotted(
                    old(self).used(),
                    old(self).bytes().len() as int,
                    size as int,
                ) == Some((r.start as int, r.end as int)),
                None => allotted(
                    old(self).used(),
                    old(self).bytes().len() as int,
                    size as int,
                ) is None,
            },
            match range {
                Some(r) => {
                    &&& r.start == old(self).used()
                    &&& r.end - r.start == size
                    &&& r.end <= old(self).bytes().len()
                    &&& final(self).used() == r.end
                },
                None => {
                    &&& old(self).used() + size > old(self).bytes().len()
                    &&& final(self).used() == old(self).used()
                },
            },
            final(self).used() == used_after(
                old(self).used(),
                old(self).bytes().len() as int,
                size as int,
            ),
            final(self).bytes() == old(self).bytes(),
    {
        proof {
            use_type_invariant(&*self);
        }
        let start = self.offset;
        if size > self.buffer.len() - start {
            return None;
        }
        self.offset = start + size;
        Some(start..start + size)
    }

    /// Takes everything back that was handed out.
    pub fn reset(&mut self)
        ensures
            final(self).used() == 0,
            final(self).bytes() == old(self).bytes(),
    {
        self.offset = 0;
    }

    /// The size of the arena.
    pub fn committed_bytes(&self) -> (size: usize)
        ensures
            size == self.bytes().len(),
    {
        self.buffer.len()
    }
}

proof fn lemma_used_grows(capacity: int, sizes: Seq<usize>, i: int, j: int)
    requires
        0 <= capacity,
        0 <= i <= j <= sizes.len(),
    ensures
        0 <= used_after_all(0, capacity, sizes.take(i)) <= used_after_all(
            0,
            capacity,
            sizes.take(j),
        ) <= capacity,
    decreases j,
{
    if j > 0 {
        assert(sizes.take(j).drop_last() =~= sizes.take(j - 1));
        if i < j {
            lemma_used_grows(capacity, sizes, i, j - 1);
        } else {
            lemma_used_grows(capacity, sizes, j - 1, j - 1);
        }
    }
}

/// A range that is handed out has exactly the length that was asked for. It starts where the
/// last one ended, ends inside the arena, and is taken from then on; and a request is refused
/// only if so many bytes are not left.
pub proof fn law_range_has_its_length(used: int, capacity: int, size: int)
    requires
        0 <= used <= capacity,
        0 <= size,
    ensures
        match allotted(used, capacity, size) {
            Some(r) => {
                &&& r.1 - r.0 == size
                &&& r.0 == used
                &&& r.1 <= capacity
                &&& used_after(used, capacity, size) == r.1
            },
            None => size > capacity - used && used_after(used, capacity, size) == used,
        },
{
}

/// Whatever is asked for since the arena was made or reset, the ranges that it hands out lie
/// inside the arena, and no two of them overlap.
pub proof fn law_ranges_disjoint(capacity: int, sizes: Seq<usize>, i: int, j: int)
    requires
        0 <= capacity,
        0 <= i < j < sizes.len(),
    ensures
        match (
            allotted(used_after_all(0, capacity, sizes.take(i)), capacity, sizes[i] as int),
            allotted(used_after_all(0, capacity, sizes.take(j)), capacity, sizes[j] as int),
        ) {
            (Some(a), Some(b)) => 0 <= a.0 <= a.1 <= b.0 <= b.1 <= capacity,
            _ => true,
        },
{
    lemma_used_grows(capacity, sizes, 0, i);
    lemma_used_grows(capacity, sizes, i + 1, j);
    assert(sizes.take(i + 1).drop_last() =~= sizes.take(i));
}

/// A refused request changes nothing: what is asked for after it is answered as if it had
/// never been made.
pub proof fn law_refusal_has_no_effect(used: int, capacity: int, refused: usize, size: int)
    requires
        allotted(used, capacity, refused as int) is None,
    ensures
        allotted(used_after(used, capacity, refused as int), capacity, size) == allotted(
            used,
            capacity,
            size,
        ),
{
}

} // verus!
