//! The size of the thread pool.
//!
//! The pool claims at least 70% of the logical cores, rounded up, so that the machine is
//! visibly busy rather than idle for safety's sake.
use crate::parallel::pool_threads;
use crate::text::{decimal, push_decimal};
use vstd::prelude::*;

verus! {

/// The number of logical cores that is assumed where the system does not tell.
pub const DEFAULT_CORES: usize = 4;

/// Why rayon could not start a pool's threads.
#[verifier::external_type_specification]
#[verifier::external_body]
pub struct ExThreadPoolBuildError(rayon::ThreadPoolBuildError);

/// A thread pool and how it was sized.
pub struct PoolInfo {
    pub pool: rayon::ThreadPool,
    pub logical_cores: usize,
    pub threads_claimed: usize,
}

/// The pool could not be built.
#[derive(Debug)]
pub struct PoolBuildError {
    pub cause: rayon::ThreadPoolBuildError,
}

/// The number of logical cores, given what the system says.
pub open spec fn cores_of(available: Option<usize>) -> int {
    match available {
        Some(cores) => cores as int,
        None => DEFAULT_CORES as int,
    }
}

/// The number of threads that are claimed: 70% of the cores, rounded up, and at least one.
pub open spec fn claimed(cores: int) -> int {
    let share = (7 * cores + 9) / 10;
    if share < 1 {
        1
    } else {
        share
    }
}

/// The largest number of threads in a rayon pool: as many as its counters can hold.
pub open spec fn most_threads() -> int {
    if usize::BITS == 64 {
        0xffff
    } else {
        0xff
    }
}

/// The name of a worker thread.
pub fn worker_name(i: usize) -> (name: String)
    ensures
        name@ == "gsa-worker-"@ + decimal(i as int),
{
    let mut name = "gsa-worker-".to_owned();
    push_decimal(&mut name, i);
    name
}

/// The number of threads that are claimed of so many cores.
pub fn threads_to_claim(logical_cores: usize) -> (threads: usize)
    ensures
        threads == claimed(logical_cores as int),
{
    let share = (logical_cores / 10) * 7 + ((logical_cores % 10) * 7 + 9) / 10;
    if share < 1 {
        1
    } else {
        share
    }
}

/// Calls `rayon::ThreadPoolBuilder::build`: the pool has as many threads as were asked for,
/// up to the largest number that a pool can have. Worker `i` is called `worker_name(i)`;
/// whether the system grants the threads is up to the system.
#[verifier::external_body]
fn build_threads(threads: usize) -> (built: Result<
    rayon::ThreadPool,
    rayon::ThreadPoolBuildError,
>)
    requires
        threads > 0,
    ensures
        built matches Ok(pool) ==> pool_threads(pool) == if threads < most_threads() {
            threads as int
        } else {
            most_threads()
        },
{
    rayon::ThreadPoolBuilder::new().num_threads(threads).thread_name(|i| worker_name(i)).build()
}

/// What is reported of a pool, given what became of building it.
pub fn pool_info(
    built: Result<rayon::ThreadPool, rayon::ThreadPoolBuildError>,
    logical_cores: usize,
    threads_claimed: usize,
) -> (result: Result<PoolInfo, PoolBuildError>)
    ensures
        match built {
            Ok(pool) => result == Ok::<PoolInfo, PoolBuildError>(
                PoolInfo { pool, logical_cores, threads_claimed },
            ),
            Err(cause) => result == Err::<PoolInfo, PoolBuildError>(PoolBuildError { cause }),
        },
{
    match built {
        Ok(pool) => Ok(PoolInfo { pool, logical_cores, threads_claimed }),
        Err(cause) => Err(PoolBuildError { cause }),
    }
}

/// Builds the pool for a machine on which the system reports `available` logical cores.
pub fn build_pool(available: Option<usize>) -> (result: Result<PoolInfo, PoolBuildError>)
    ensures
        result matches Ok(info) ==> {
            &&& info.logical_cores == cores_of(available)
            &&& info.threads_claimed == claimed(cores_of(available))
            &&& pool_threads(info.pool) == if info.threads_claimed < most_threads() {
                info.threads_claimed as int
            } else {
                most_threads()
            }
        },
{
    let logical_cores = match available {
        Some(cores) => cores,
        None => DEFAULT_CORES,
    };
    let threads_claimed = threads_to_claim(logical_cores);
    let built = build_threads(threads_claimed);
    pool_info(built, logical_cores, threads_claimed)
}

/// The pool claims at least 70% of the cores, no more than it must for that, and never more
/// than there are.
pub proof fn law_claims_share(cores: int)
    requires
        1 <= cores,
    ensures
        10 * claimed(cores) >= 7 * cores,
        10 * (claimed(cores) - 1) < 7 * cores,
        1 <= claimed(cores) <= cores,
{
}

/// The pool has a thread even if the system reports no cores, more cores never get fewer
/// threads, and a system that reports nothing counts as one with four cores.
pub proof fn law_claims_grow(cores: int, more: int, available: Option<usize>)
    requires
        0 <= cores <= more,
    ensures
        claimed(0) == 1,
        claimed(cores) <= claimed(more),
        available is None ==> cores_of(available) == 4,
        available is Some ==> cores_of(available) == available->0,
{
}

} // verus!
