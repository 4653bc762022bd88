//! Calibration at startup.
//!
//! Whether the GPU beats the parallel radix sort, and with how many buckets, depends on the
//! machine. So both are timed once, on copies of one array: the GPU path with each of a few
//! bucket multipliers, after one run that is not timed, and then the radix sort. The GPU is
//! used from then on only if one of its runs was faster.
//!
//! The runs on the GPU are made by the caller: [`Calibration::next_run`] says what to run,
//! and [`Calibration::record`] takes the time that it took.
use crate::float32::sorted_by_key;
use crate::parallel::install;
use crate::radix::radix_sort_f32_parallel;
use crate::ratio::Ratio;
use crate::sort::{
    is_reading, is_time_since, lemma_is_reading, lemma_is_time_since, now, strategy, time_since,
    Strategy,
};
use std::time::{Duration, Instant};
use vstd::prelude::*;

verus! {

/// The number of elements of the array that calibration sorts.
pub const CALIBRATION_SIZE: usize = 400_000;

/// The number of bucket multipliers that are tried.
pub const CANDIDATE_COUNT: usize = 8;

/// The total number of nanoseconds of a duration.
pub uninterp spec fn nanos_of(duration: Duration) -> nat;

/// `Duration::as_nanos` returns the total number of nanoseconds of the duration.
pub assume_specification[ Duration::as_nanos ](duration: &Duration) -> (nanos: u128)
    ensures
        nanos == nanos_of(*duration),
;

/// The bucket multipliers that are tried, as fractions.
pub open spec fn candidates() -> Seq<Ratio> {
    seq![
        Ratio { numer: 1, denom: 2 },
        Ratio { numer: 1, denom: 1 },
        Ratio { numer: 3, denom: 2 },
        Ratio { numer: 2, denom: 1 },
        Ratio { numer: 3, denom: 1 },
        Ratio { numer: 4, denom: 1 },
        Ratio { numer: 6, denom: 1 },
        Ratio { numer: 8, denom: 1 },
    ]
}

/// The candidate with the number `i`.
fn candidate(i: usize) -> (multiplier: Ratio)
    requires
        i < CANDIDATE_COUNT,
    ensures
        multiplier == candidates()[i as int],
{
    match i {
        0 => Ratio { numer: 1, denom: 2 },
        1 => Ratio { numer: 1, denom: 1 },
        2 => Ratio { numer: 3, denom: 2 },
        3 => Ratio { numer: 2, denom: 1 },
        4 => Ratio { numer: 3, denom: 1 },
        5 => Ratio { numer: 4, denom: 1 },
        6 => Ratio { numer: 6, denom: 1 },
        _ => Ratio { numer: 8, denom: 1 },
    }
}

/// How long the GPU path took with one bucket multiplier.
#[derive(Clone, Copy, Debug, PartialEq, Eq, Structural)]
pub struct Trial {
    pub multiplier: Ratio,
    pub elapsed_nanos: u128,
}

/// What calibration found.
#[derive(Debug)]
pub struct AutotuneResult {
    /// Zero if the radix sort won, which keeps the GPU out of use; otherwise the multiplier
    /// of the fastest run on the GPU.
    pub bucket_multiplier: Ratio,
    pub trials: Vec<Trial>,
    pub radix_nanos: u128,
    pub gpu_best_nanos: u128,
}

impl AutotuneResult {
    /// Whether the GPU is used.
    pub fn gpu_selected(&self) -> (selected: bool)
        ensures
            selected == (self.bucket_multiplier.numer > 0),
    {
        self.bucket_multiplier.numer > 0
    }
}

/// Whether `i` is the number of the first trial that no other one beats.
pub open spec fn is_fastest(trials: Seq<Trial>, i: int) -> bool {
    &&& 0 <= i < trials.len()
    &&& forall|j: int|
        0 <= j < i ==> trials[i].elapsed_nanos < (#[trigger] trials[j]).elapsed_nanos
    &&& forall|j: int|
        0 <= j < trials.len() ==> trials[i].elapsed_nanos <= (#[trigger] trials[j]).elapsed_nanos
}

/// Whether `result` is what the trials and the radix sort's time come to, where `i` is the
/// number of the fastest trial: the radix sort wins a tie.
pub open spec fn is_verdict(
    result: AutotuneResult,
    trials: Seq<Trial>,
    radix_nanos: u128,
    i: int,
) -> bool {
    &&& result.trials@ == trials
    &&& result.radix_nanos == radix_nanos
    &&& result.gpu_best_nanos == trials[i].elapsed_nanos
    &&& result.bucket_multiplier == if radix_nanos <= trials[i].elapsed_nanos {
        Ratio { numer: 0, denom: 1 }
    } else {
        trials[i].multiplier
    }
}

/// The number of the first trial that no other one beats.
pub fn fastest(trials: &Vec<Trial>) -> (i: usize)
    requires
        trials@.len() > 0,
    ensures
        is_fastest(trials@, i as int),
{
    let mut best: usize = 0;
    let mut j: usize = 1;
    while j < trials.len()
        invariant
            0 <= best < j <= trials@.len(),
            forall|x: int|
                0 <= x < best ==> trials@[best as int].elapsed_nanos < (
                #[trigger] trials@[x]).elapsed_nanos,
            forall|x: int|
                0 <= x < j ==> trials@[best as int].elapsed_nanos <= (
                #[trigger] trials@[x]).elapsed_nanos,
        decreases trials@.len() - j,
    {
        if trials[j].elapsed_nanos < trials[best].elapsed_nanos {
            best = j;
        }
        j = j + 1;
    }
    best
}

/// Decides between the fastest run on the GPU and the radix sort.
pub fn decide(trials: Vec<Trial>, radix_nanos: u128) -> (result: AutotuneResult)
    requires
        trials@.len() > 0,
    ensures
        forall|i: int| #[trigger]
            is_fastest(trials@, i) ==> is_verdict(result, trials@, radix_nanos, i),
        exists|i: int| #[trigger] is_fastest(trials@, i),
{
    let i = fastest(&trials);
    let best = trials[i];
    let bucket_multiplier = if radix_nanos <= best.elapsed_nanos {
        Ratio { numer: 0, denom: 1 }
    } else {
        best.multiplier
    };
    let ghost all = trials@;
    let result = AutotuneResult {
        bucket_multiplier,
        trials,
        radix_nanos,
        gpu_best_nanos: best.elapsed_nanos,
    };
    proof {
        assert(is_verdict(result, all, radix_nanos, i as int));
        assert forall|x: int| #[trigger] is_fastest(all, x) implies is_verdict(
            result,
            all,
            radix_nanos,
            x,
        ) by {
            law_fastest_unique(all, i as int, x);
        }
    }
    result
}

/// There is only one first fastest trial.
pub proof fn law_fastest_unique(trials: Seq<Trial>, i: int, j: int)
    requires
        is_fastest(trials, i),
        is_fastest(trials, j),
    ensures
        i == j,
{
    if i < j {
        assert(trials[j].elapsed_nanos < trials[i].elapsed_nanos);
    } else if j < i {
        assert(trials[i].elapsed_nanos < trials[j].elapsed_nanos);
    }
}

/// The GPU is selected exactly if one of its trials was faster than the radix sort, and then
/// with the multiplier of a trial that no other one beats.
pub proof fn law_gpu_selected_iff_faster(
    result: AutotuneResult,
    trials: Seq<Trial>,
    radix_nanos: u128,
    i: int,
)
    requires
        is_fastest(trials, i),
        is_verdict(result, trials, radix_nanos, i),
        forall|j: int| 0 <= j < trials.len() ==> (#[trigger] trials[j]).multiplier.numer > 0,
    ensures
        (result.bucket_multiplier.numer > 0) <==> exists|j: int|
            0 <= j < trials.len() && (#[trigger] trials[j]).elapsed_nanos < radix_nanos,
        result.bucket_multiplier.numer > 0 ==> {
            &&& result.bucket_multiplier == trials[i].multiplier
            &&& forall|j: int|
                0 <= j < trials.len() ==> result.gpu_best_nanos <= (
                #[trigger] trials[j]).elapsed_nanos
        },
{
    if radix_nanos > trials[i].elapsed_nanos {
        assert(trials[i].elapsed_nanos < radix_nanos);
    }
}

/// The fastest trial took no longer than any other, and less than every earlier one.
pub proof fn law_fastest_is_first(trials: Seq<Trial>, i: int, j: int)
    requires
        is_fastest(trials, i),
        0 <= j < trials.len(),
    ensures
        0 <= i < trials.len(),
        trials[i].elapsed_nanos <= trials[j].elapsed_nanos,
        j < i ==> trials[i].elapsed_nanos < trials[j].elapsed_nanos,
{
}

/// A verdict reports the times that it rests on: all trials, the radix sort, and the fastest
/// trial. The radix sort wins unless that trial was faster, and then it is the multiplier of
/// that trial that is used.
pub proof fn law_verdict_rests_on_the_times(
    result: AutotuneResult,
    trials: Seq<Trial>,
    radix_nanos: u128,
    i: int,
)
    requires
        is_fastest(trials, i),
        is_verdict(result, trials, radix_nanos, i),
    ensures
        result.trials@ == trials,
        result.radix_nanos == radix_nanos,
        result.gpu_best_nanos == trials[i].elapsed_nanos,
        radix_nanos > trials[i].elapsed_nanos ==> result.bucket_multiplier == trials[i].multiplier,
        radix_nanos <= trials[i].elapsed_nanos ==> result.bucket_multiplier.numer == 0
            && result.bucket_multiplier.wf(),
{
}

/// Eight multipliers are tried, from half the threads to eight times as many, each larger than
/// the one before; and every run of calibration, with one of them or with the multiplier of the
/// first run, goes over the GPU.
pub proof fn law_calibration_runs_on_the_gpu(i: int)
    requires
        0 <= i < candidates().len(),
    ensures
        CALIBRATION_SIZE == 400_000,
        candidates().len() == 8 == CANDIDATE_COUNT,
        candidates()[i].wf(),
        strategy(CALIBRATION_SIZE as int, true, candidates()[i]) == Strategy::Gpu,
        strategy(CALIBRATION_SIZE as int, true, Ratio { numer: 1, denom: 1 }) == Strategy::Gpu,
        i + 1 < 8 ==> candidates()[i].numer * candidates()[i + 1].denom < candidates()[i
            + 1].numer * candidates()[i].denom,
        2 * candidates()[0].numer == candidates()[0].denom,
        candidates()[7].numer == 8 * candidates()[7].denom,
{
    let c = candidates();
    assert(i == 0 || i == 1 || i == 2 || i == 3 || i == 4 || i == 5 || i == 6 || i == 7);
    assert(c[0].numer == 1 && c[0].denom == 2 && c[1].numer == 1 && c[1].denom == 1);
    assert(c[2].numer == 3 && c[2].denom == 2 && c[3].numer == 2 && c[3].denom == 1);
    assert(c[4].numer == 3 && c[4].denom == 1 && c[5].numer == 4 && c[5].denom == 1);
    assert(c[6].numer == 6 && c[6].denom == 1 && c[7].numer == 8 && c[7].denom == 1);
}

/// One run on the GPU that calibration asks for.
#[derive(Debug)]
pub struct CalibrationRun {
    /// The array to sort.
    pub data: Vec<u32>,
    pub bucket_multiplier: Ratio,
}

/// How far calibration has come: whether the first run, which is not timed, was made, and the
/// trials since then.
pub struct Calibration {
    base: Vec<u32>,
    warmed_up: bool,
    trials: Vec<Trial>,
}

/// What calibration has recorded.
pub struct TrialLog {
    pub warmed_up: bool,
    pub trials: Seq<Trial>,
}

/// What calibration has recorded after one more run took `elapsed_nanos`.
pub open spec fn recorded(progress: TrialLog, elapsed_nanos: u128) -> TrialLog {
    if !progress.warmed_up {
        TrialLog { warmed_up: true, trials: progress.trials }
    } else {
        TrialLog {
            warmed_up: true,
            trials: progress.trials.push(
                Trial {
                    multiplier: candidates()[progress.trials.len() as int],
                    elapsed_nanos,
                },
            ),
        }
    }
}

/// What calibration has recorded after runs that took `times`, one after the other.
pub open spec fn recorded_all(times: Seq<u128>) -> TrialLog
    decreases times.len(),
{
    if times.len() == 0 {
        TrialLog { warmed_up: false, trials: seq![] }
    } else {
        recorded(recorded_all(times.drop_last()), times.last())
    }
}

/// The first time that is recorded counts for nothing; every other one counts for its
/// candidate, in the order of the candidates.
pub proof fn law_trials_in_order(times: Seq<u128>)
    requires
        times.len() <= CANDIDATE_COUNT + 1,
    ensures
        recorded_all(times).warmed_up == (times.len() > 0),
        recorded_all(times).trials == Seq::new(
            if times.len() > 0 {
                (times.len() - 1) as nat
            } else {
                0
            },
            |i: int| Trial { multiplier: candidates()[i], elapsed_nanos: times[i + 1] },
        ),
    decreases times.len(),
{
    if times.len() > 0 {
        law_trials_in_order(times.drop_last());
        assert(recorded_all(times).trials =~= Seq::new(
            (times.len() - 1) as nat,
            |i: int| Trial { multiplier: candidates()[i], elapsed_nanos: times[i + 1] },
        ));
    }
}

impl Calibration {
    #[verifier::type_invariant]
    spec fn wf(self) -> bool {
        &&& self.trials@.len() <= CANDIDATE_COUNT
        &&& self.trials@.len() > 0 ==> self.warmed_up
        &&& forall|i: int|
            0 <= i < self.trials@.len() ==> (#[trigger] self.trials@[i]).multiplier
                == candidates()[i]
    }

    /// The array of which every run sorts a copy.
    pub closed spec fn array(self) -> Seq<u32> {
        self.base@
    }

    /// What was recorded so far.
    pub closed spec fn progress(self) -> TrialLog {
        TrialLog { warmed_up: self.warmed_up, trials: self.trials@ }
    }

    /// Whether all runs on the GPU are made.
    pub open spec fn complete(self) -> bool {
        self.progress().trials.len() == CANDIDATE_COUNT
    }

    /// Starts the calibration on an array.
    pub fn new(base: Vec<u32>) -> (calibration: Self)
        ensures
            calibration.array() == base@,
            calibration.progress() == recorded_all(seq![]),
    {
        let calibration = Calibration { base, warmed_up: false, trials: Vec::new() };
        assert(calibration.progress().trials =~= seq![]);
        calibration
    }

    /// The next run on the GPU: first one with as many buckets as threads, then one for each
    /// candidate. There is none once all are made.
    pub fn next_run(&self) -> (run: Option<CalibrationRun>)
        ensures
            self.progress().trials.len() <= CANDIDATE_COUNT,
            run is None <==> self.complete(),
            run matches Some(r) ==> {
                &&& r.data@ == self.array()
                &&& r.bucket_multiplier == if self.progress().warmed_up {
                    candidates()[self.progress().trials.len() as int]
                } else {
                    Ratio { numer: 1, denom: 1 }
                }
            },
    {
        proof {
            use_type_invariant(self);
        }
        if self.trials.len() == CANDIDATE_COUNT {
            return None;
        }
        let bucket_multiplier = if self.warmed_up {
            candidate(self.trials.len())
        } else {
            Ratio { numer: 1, denom: 1 }
        };
        Some(
            CalibrationRun {
                data: vstd::slice::slice_to_vec(self.base.as_slice()),
                bucket_multiplier,
            },
        )
    }

    /// Takes down how long the run that was asked for took.
    pub fn record(&mut self, elapsed_nanos: u128)
        requires
            !old(self).complete(),
        ensures
            final(self).array() == old(self).array(),
            final(self).progress() == recorded(old(self).progress(), elapsed_nanos),
    {
        proof {
            use_type_invariant(&*self);
        }
        if !self.warmed_up {
            self.warmed_up = true;
        } else {
            let multiplier = candidate(self.trials.len());
            let mut trials: Vec<Trial> = Vec::new();
            std::mem::swap(&mut trials, &mut self.trials);
            trials.push(Trial { multiplier, elapsed_nanos });
            self.trials = trials;
        }
    }

    /// Times the radix sort on a copy of the array, and decides. The sorted copy is returned
    /// with the decision.
    pub fn finish(self, pool: &rayon::ThreadPool) -> (finished: (AutotuneResult, Vec<u32>))
        requires
            self.complete(),
        ensures
            exists|i: int|
                is_fastest(self.progress().trials, i) && #[trigger] is_verdict(
                    finished.0,
                    self.progress().trials,
                    finished.0.radix_nanos,
                    i,
                ),
            exists|elapsed: Duration| finished.0.radix_nanos == #[trigger] nanos_of(elapsed),
            spans_radix_sort(self.array(), pool, finished.1, finished.0.radix_nanos),
            finished.1@.to_multiset() == self.array().to_multiset(),
            sorted_by_key(finished.1@),
    {
        let (sorted, radix_nanos) = time_radix(&self.base, pool);
        let finished = (decide(self.trials, radix_nanos), sorted);
        proof {
            let trials = self.progress().trials;
            let i = choose|i: int| #[trigger] is_fastest(trials, i);
            assert(is_verdict(finished.0, trials, radix_nanos, i));
            assert(is_verdict(finished.0, trials, finished.0.radix_nanos, i));
        }
        finished
    }
}

/// Sorts a copy of `base` by the radix sort on the pool, and returns the sorted copy with the
/// time that it took in nanoseconds, which is whatever the clock said.
fn time_radix(base: &Vec<u32>, pool: &rayon::ThreadPool) -> (timed: (Vec<u32>, u128))
    ensures
        timed.0@.to_multiset() == base@.to_multiset(),
        sorted_by_key(timed.0@),
        exists|elapsed: Duration| timed.1 == #[trigger] nanos_of(elapsed),
        spans_radix_sort(base@, pool, timed.0, timed.1),
{
    let data = vstd::slice::slice_to_vec(base.as_slice());
    let ghost copy = data;
    let start = now();
    let sorted = radix_run(&start, data, pool);
    let elapsed = time_since(&start, &sorted);
    let nanos = elapsed.as_nanos();
    proof {
        lemma_is_reading(start);
        lemma_is_time_since(start, &sorted, elapsed);
        assert(call_ensures(radix_run, (&start, copy, pool), sorted));
        assert(spans_radix_sort(base@, pool, sorted, nanos));
    }
    (sorted, nanos)
}

/// Runs the radix sort of `data` on the pool, once the clock was read for `start`.
fn radix_run(start: &Instant, data: Vec<u32>, pool: &rayon::ThreadPool) -> (sorted: Vec<u32>)
    ensures
        sorted@.to_multiset() == data@.to_multiset(),
        sorted_by_key(sorted@),
{
    let ghost unsorted = data@;
    let run = move || -> (sorted: Vec<u32>)
        ensures
            sorted@.to_multiset() == unsorted.to_multiset(),
            sorted_by_key(sorted@),
        {
            let mut sorted = data;
            radix_sort_f32_parallel(sorted.as_mut_slice());
            sorted
        };
    install(pool, run)
}

/// Whether `sorted` is what the radix sort made of `data` on the pool, in a run that was handed
/// the reading `start` when it began.
pub closed spec fn is_radix_run(
    start: Instant,
    data: Vec<u32>,
    pool: &rayon::ThreadPool,
    sorted: Vec<u32>,
) -> bool {
    call_ensures(radix_run, (&start, data, pool), sorted)
}

/// The radix sort's time runs from before the sort began to after the sorted array existed:
/// there is a reading of the clock that the sort was handed when it began, and the time is the
/// one from that reading to another one that was handed what that very sort returned.
pub proof fn law_radix_time_spans_the_sort(
    array: Seq<u32>,
    pool: &rayon::ThreadPool,
    sorted: Vec<u32>,
    nanos: u128,
)
    requires
        spans_radix_sort(array, pool, sorted, nanos),
    ensures
        exists|start: Instant, data: Vec<u32>, elapsed: Duration|
            {
                &&& data@ == array
                &&& is_reading(start)
                &&& #[trigger] is_radix_run(start, data, pool, sorted)
                &&& #[trigger] is_time_since(start, &sorted, elapsed)
                &&& nanos == nanos_of(elapsed)
            },
{
    let (start, data, elapsed) = choose|start: Instant, data: Vec<u32>, elapsed: Duration|
        {
            &&& data@ == array
            &&& is_reading(start)
            &&& #[trigger] call_ensures(radix_run, (&start, data, pool), sorted)
            &&& #[trigger] is_time_since(start, &sorted, elapsed)
            &&& nanos == nanos_of(elapsed)
        };
    assert(is_radix_run(start, data, pool, sorted));
    assert(is_time_since(start, &sorted, elapsed));
}

/// Whether `nanos` spans the radix sort of `array` into `sorted`: it is the time from a
/// reading of the clock that the sort was handed when it began, to a reading that was handed
/// the sorted array.
pub closed spec fn spans_radix_sort(
    array: Seq<u32>,
    pool: &rayon::ThreadPool,
    sorted: Vec<u32>,
    nanos: u128,
) -> bool {
    exists|start: Instant, data: Vec<u32>, elapsed: Duration|
        {
            &&& data@ == array
            &&& is_reading(start)
            &&& #[trigger] call_ensures(radix_run, (&start, data, pool), sorted)
            &&& #[trigger] is_time_since(start, &sorted, elapsed)
            &&& nanos == nanos_of(elapsed)
        }
}

} // verus!
