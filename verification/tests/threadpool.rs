use gsa_engine::threadpool::{build_pool, pool_info, threads_to_claim, worker_name};

#[test]
fn claims_seven_tenths_rounded_up() {
    let cases = [(0, 1), (1, 1), (2, 2), (3, 3), (4, 3), (8, 6), (10, 7), (11, 8), (16, 12), (64, 45)];
    for (cores, threads) in cases {
        assert_eq!(threads_to_claim(cores), threads);
    }
    for cores in 1..1000usize {
        let threads = threads_to_claim(cores);
        assert_eq!(threads, ((cores as f64) * 0.70).ceil() as usize);
        assert!(threads <= cores);
    }
}

#[test]
fn pools_have_the_claimed_threads() {
    let info = build_pool(Some(8)).ok().unwrap();
    assert_eq!(info.logical_cores, 8);
    assert_eq!(info.threads_claimed, 6);
    assert_eq!(info.pool.current_num_threads(), 6);
}

#[test]
fn unknown_machines_count_as_four_cores() {
    let info = build_pool(None).ok().unwrap();
    assert_eq!(info.logical_cores, 4);
    assert_eq!(info.threads_claimed, 3);
    assert_eq!(info.pool.current_num_threads(), 3);
}

#[test]
fn workers_are_numbered() {
    assert_eq!(worker_name(0), "gsa-worker-0");
    assert_eq!(worker_name(9), "gsa-worker-9");
    assert_eq!(worker_name(10), "gsa-worker-10");
    assert_eq!(worker_name(65_534), "gsa-worker-65534");
}

#[test]
fn failures_keep_their_cause() {
    let first = rayon::ThreadPoolBuilder::new().num_threads(1).build_global();
    let second = rayon::ThreadPoolBuilder::new().num_threads(1).build_global();
    assert!(first.is_ok());
    let cause = second.err().unwrap();
    let text = cause.to_string();
    let error = pool_info(Err(cause), 8, 6).err().unwrap();
    assert_eq!(error.cause.to_string(), text);
}
