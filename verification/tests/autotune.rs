use gsa_engine::autotune::{decide, fastest, Calibration, Trial};
use gsa_engine::ratio::Ratio;
use gsa_engine::threadpool::build_pool;

fn trial(numer: u64, elapsed_nanos: u128) -> Trial {
    Trial { multiplier: Ratio { numer, denom: 1 }, elapsed_nanos }
}

#[test]
fn the_first_of_the_fastest_counts() {
    assert_eq!(fastest(&vec![trial(1, 5), trial(2, 3), trial(3, 3), trial(4, 4)]), 1);
    assert_eq!(fastest(&vec![trial(1, 5)]), 0);
    assert_eq!(fastest(&vec![trial(1, 5), trial(2, 5)]), 0);
}

#[test]
fn faster_gpu_runs_select_the_gpu() {
    let result = decide(vec![trial(1, 50), trial(2, 30), trial(3, 40)], 31);
    assert!(result.gpu_selected());
    assert_eq!(result.bucket_multiplier, Ratio { numer: 2, denom: 1 });
    assert_eq!(result.gpu_best_nanos, 30);
    assert_eq!(result.radix_nanos, 31);
    assert_eq!(result.trials, vec![trial(1, 50), trial(2, 30), trial(3, 40)]);
}

#[test]
fn the_radix_sort_wins_a_tie() {
    for radix_nanos in [30, 1] {
        let result = decide(vec![trial(1, 50), trial(2, 30)], radix_nanos);
        assert!(!result.gpu_selected());
        assert_eq!(result.bucket_multiplier, Ratio { numer: 0, denom: 1 });
        assert_eq!(result.gpu_best_nanos, 30);
    }
}

#[test]
fn candidates_are_tried_in_order() {
    let base = vec![3, 1, 2];
    let mut calibration = Calibration::new(base.clone());
    let expected = [(1, 1), (1, 2), (1, 1), (3, 2), (2, 1), (3, 1), (4, 1), (6, 1), (8, 1)];
    for (k, (numer, denom)) in expected.iter().enumerate() {
        let run = calibration.next_run().unwrap();
        assert_eq!(run.data, base);
        assert_eq!(run.bucket_multiplier, Ratio { numer: *numer, denom: *denom });
        calibration.record(100 + k as u128);
    }
    assert!(calibration.next_run().is_none());
    let info = build_pool(Some(2)).ok().unwrap();
    let (result, sorted) = calibration.finish(&info.pool);
    assert_eq!(sorted, vec![1, 2, 3]);
    assert_eq!(result.trials.len(), 8);
    for (k, t) in result.trials.iter().enumerate() {
        let (numer, denom) = expected[k + 1];
        assert_eq!(t.multiplier, Ratio { numer, denom });
        assert_eq!(t.elapsed_nanos, 101 + k as u128);
    }
    assert_eq!(result.gpu_best_nanos, 101);
    assert_eq!(result.gpu_selected(), result.radix_nanos > 101);
}

#[test]
fn slow_gpus_lose() {
    let mut calibration = Calibration::new((0..1000u32).rev().collect());
    while calibration.next_run().is_some() {
        calibration.record(u128::MAX);
    }
    let info = build_pool(Some(2)).ok().unwrap();
    let (result, sorted) = calibration.finish(&info.pool);
    assert_eq!(sorted, (0..1000u32).collect::<Vec<u32>>());
    assert!(!result.gpu_selected());
    assert!(result.radix_nanos > 0);
    assert!(result.radix_nanos < 60_000_000_000);
}

#[test]
fn instant_gpus_win() {
    let mut calibration = Calibration::new((0..1000u32).rev().collect());
    while calibration.next_run().is_some() {
        calibration.record(0);
    }
    let info = build_pool(Some(2)).ok().unwrap();
    let (result, _) = calibration.finish(&info.pool);
    assert!(result.gpu_selected());
    assert_eq!(result.bucket_multiplier, Ratio { numer: 1, denom: 2 });
}
