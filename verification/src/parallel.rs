//! The calls into the rayon thread pool.
//!
//! Each function hands its work to one combination of rayon's parallel iterators and states
//! what that combination promises, in terms of the work's own contract.
use rayon::iter::{
    IndexedParallelIterator, IntoParallelIterator, IntoParallelRefIterator, ParallelIterator,
};
use rayon::slice::{ParallelSlice, ParallelSliceMut};
use vstd::prelude::*;

verus! {

/// A rayon thread pool.
#[verifier::external_type_specification]
#[verifier::external_body]
pub struct ExThreadPool(rayon::ThreadPool);

/// The number of worker threads that a pool was made with.
pub uninterp spec fn pool_threads(pool: rayon::ThreadPool) -> nat;

/// The number of chunks that `len` elements make.
pub open spec fn chunk_count(len: int, chunk_len: int) -> int {
    (len + chunk_len - 1) / chunk_len
}

/// The position at which the chunk with the number `c` of `len` elements starts, and the one
/// before it ends.
pub open spec fn chunk_start(len: int, chunk_len: int, c: int) -> int {
    if c * chunk_len < len {
        c * chunk_len
    } else {
        len
    }
}

/// The chunk with the number `c`: every chunk but the last has `chunk_len` elements.
pub open spec fn chunk_at<T>(items: Seq<T>, chunk_len: int, c: int) -> Seq<T> {
    items.subrange(
        chunk_start(items.len() as int, chunk_len, c),
        chunk_start(items.len() as int, chunk_len, c + 1),
    )
}

/// Chunks are consecutive, and together cover all elements.
pub(crate) proof fn lemma_chunk_bounds(len: int, chunk_len: int, c: int)
    requires
        0 <= len,
        0 < chunk_len,
        0 <= c <= chunk_count(len, chunk_len),
    ensures
        0 <= chunk_start(len, chunk_len, c) <= chunk_start(len, chunk_len, c + 1) <= len,
        c < chunk_count(len, chunk_len) ==> chunk_start(len, chunk_len, c) == c * chunk_len < len,
        c == chunk_count(len, chunk_len) ==> chunk_start(len, chunk_len, c) == len,
        0 <= chunk_count(len, chunk_len) <= len,
        chunk_start(len, chunk_len, 0) == 0,
{
    let count = chunk_count(len, chunk_len);
    assert(count * chunk_len <= len + chunk_len - 1 < (count + 1) * chunk_len) by (nonlinear_arith)
        requires
            count == (len + chunk_len - 1) / chunk_len,
            chunk_len > 0,
    ;
    assert((count + 1) * chunk_len == count * chunk_len + chunk_len) by (nonlinear_arith);
    assert((c + 1) * chunk_len == c * chunk_len + chunk_len) by (nonlinear_arith);
    assert(0 <= c * chunk_len) by (nonlinear_arith)
        requires
            0 <= c,
            0 < chunk_len,
    ;
    if c < count {
        assert(c * chunk_len + chunk_len <= count * chunk_len) by (nonlinear_arith)
            requires
                c + 1 <= count,
                chunk_len > 0,
        ;
    }
    assert(0 <= count <= len) by (nonlinear_arith)
        requires
            count == (len + chunk_len - 1) / chunk_len,
            chunk_len > 0,
            len >= 0,
    ;
    assert(0 * chunk_len == 0);
}

/// Calls `rayon::ThreadPool::current_num_threads`: the number of threads that the pool was
/// made with.
#[verifier::external_body]
pub(crate) fn thread_count(pool: &rayon::ThreadPool) -> (threads: usize)
    ensures
        threads == pool_threads(*pool),
{
    pool.current_num_threads()
}

/// Calls `rayon::current_num_threads`. The number depends on the pool that the calling
/// thread belongs to, so nothing is claimed of it.
#[verifier::external_body]
pub(crate) fn current_threads() -> usize {
    rayon::current_num_threads()
}

/// Calls `rayon::ThreadPool::install`: the result is what `op` returns, run inside the pool.
#[verifier::external_body]
pub(crate) fn install<R: Send, F: FnOnce() -> R + Send>(
    pool: &rayon::ThreadPool,
    op: F,
) -> (result: R)
    requires
        call_requires(op, ()),
    ensures
        call_ensures(op, (), result),
{
    pool.install(op)
}

/// Calls `par_iter().map(f).collect()`: one result of `f` for each element, in the order of
/// the elements.
#[verifier::external_body]
pub(crate) fn par_map<T: Sync, U: Send, F: Fn(&T) -> U + Sync + Send>(
    items: &[T],
    f: F,
) -> (out: Vec<U>)
    requires
        forall|i: int| 0 <= i < items@.len() ==> call_requires(f, (&#[trigger] items@[i],)),
    ensures
        out@.len() == items@.len(),
        forall|i: int|
            0 <= i < items@.len() ==> call_ensures(f, (&items@[i],), #[trigger] out@[i]),
{
    items.par_iter().map(f).collect()
}

/// Calls `par_chunks(chunk_len).map(f).collect()`: one result of `f` for each chunk, in the
/// order of the chunks.
#[verifier::external_body]
pub(crate) fn par_chunks_map<T: Sync, U: Send, F: Fn(&[T]) -> U + Sync + Send>(
    items: &[T],
    chunk_len: usize,
    f: F,
) -> (out: Vec<U>)
    requires
        chunk_len > 0,
        forall|c: int, chunk: &[T]|
            0 <= c < chunk_count(items@.len() as int, chunk_len as int) && chunk@
                == #[trigger] chunk_at(items@, chunk_len as int, c) ==> #[trigger] call_requires(
                f,
                (chunk,),
            ),
    ensures
        out@.len() == chunk_count(items@.len() as int, chunk_len as int),
        forall|c: int|
            0 <= c < out@.len() ==> exists|chunk: &[T]|
                chunk@ == chunk_at(items@, chunk_len as int, c) && call_ensures(
                    f,
                    (chunk,),
                    #[trigger] out@[c],
                ),
{
    items.par_chunks(chunk_len).map(f).collect()
}

/// Calls `par_chunks(chunk_len).zip(others.into_par_iter()).map(f).collect()`: one result of
/// `f` for each chunk and its partner, in the order of the chunks.
#[verifier::external_body]
pub(crate) fn par_chunks_zip_map<
    T: Sync,
    V: Send,
    U: Send,
    F: Fn((&[T], V)) -> U + Sync + Send,
>(items: &[T], chunk_len: usize, others: Vec<V>, f: F) -> (out: Vec<U>)
    requires
        chunk_len > 0,
        others@.len() == chunk_count(items@.len() as int, chunk_len as int),
        forall|c: int, chunk: &[T]|
            0 <= c < others@.len() && chunk@ == chunk_at(items@, chunk_len as int, c)
                ==> #[trigger] call_requires(f, ((chunk, others@[c]),)),
    ensures
        out@.len() == others@.len(),
        forall|c: int|
            0 <= c < out@.len() ==> exists|chunk: &[T]|
                chunk@ == chunk_at(items@, chunk_len as int, c) && call_ensures(
                    f,
                    ((chunk, others@[c]),),
                    #[trigger] out@[c],
                ),
{
    items.par_chunks(chunk_len).zip(others.into_par_iter()).map(f).collect()
}

/// Calls `par_chunks_mut(chunk_len).enumerate().for_each(f)`: `f` changes each chunk once,
/// and is given the chunk's number with it.
#[verifier::external_body]
pub(crate) fn par_chunks_for_each<T: Send, F: Fn((usize, &mut [T])) + Sync + Send>(
    items: &mut [T],
    chunk_len: usize,
    f: F,
)
    requires
        chunk_len > 0,
        forall|c: usize, chunk: &mut [T]|
            c < chunk_count(old(items)@.len() as int, chunk_len as int) && chunk@ == chunk_at(
                old(items)@,
                chunk_len as int,
                c as int,
            ) ==> #[trigger] call_requires(f, ((c, chunk),)),
    ensures
        final(items)@.len() == old(items)@.len(),
        forall|c: usize|
            #![trigger chunk_at(final(items)@, chunk_len as int, c as int)]
            c < chunk_count(old(items)@.len() as int, chunk_len as int) ==> exists|chunk: &mut [T]|
                chunk@ == chunk_at(old(items)@, chunk_len as int, c as int) && final(chunk)@
                    == chunk_at(final(items)@, chunk_len as int, c as int) && #[trigger] call_ensures(
                    f,
                    ((c, chunk),),
                    (),
                ),
{
    items.par_chunks_mut(chunk_len).enumerate().for_each(f)
}

/// Calls `into_par_iter().zip(sources.par_iter()).map(f).collect()`: one result of `f` for each
/// slice and its source, in the order of the slices.
#[verifier::external_body]
pub(crate) fn par_slices_zip_map<
    T: Send,
    S: Sync,
    U: Send,
    F: Fn((&mut [T], &S)) -> U + Sync + Send,
>(slices: Vec<&mut [T]>, sources: &[S], f: F) -> (out: Vec<U>)
    requires
        slices@.len() == sources@.len(),
        forall|i: int|
            0 <= i < sources@.len() ==> call_requires(f, ((slices@[i], &#[trigger] sources@[i]),)),
    ensures
        out@.len() == sources@.len(),
        forall|i: int|
            0 <= i < sources@.len() ==> call_ensures(
                f,
                ((slices@[i], &sources@[i]),),
                #[trigger] out@[i],
            ),
{
    slices.into_par_iter().zip(sources.par_iter()).map(f).collect()
}

} // verus!
