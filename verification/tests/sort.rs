use gsa_engine::gpu::GpuContext;
use gsa_engine::ratio::Ratio;
use gsa_engine::sort::{
    choose_strategy, default_bucket_multiplier, gsa_sort, gsa_sort_tuned, num_buckets,
    sort_small_buckets, GpuBatch, SortEvent, SortRunStats, SortStep, Strategy,
    DIRECT_SORT_THRESHOLD, GPU_BUCKET_MIN, GPU_THRESHOLD,
};
use gsa_engine::threadpool::{build_pool, PoolInfo};
use rand::Rng;

fn bits(values: &[f32]) -> Vec<u32> {
    values.iter().map(|v| v.to_bits()).collect()
}

fn floats(patterns: &[u32]) -> Vec<f32> {
    patterns.iter().map(|p| f32::from_bits(*p)).collect()
}

fn pool() -> PoolInfo {
    match build_pool(Some(4)) {
        Ok(info) => info,
        Err(e) => panic!("failed to build the thread pool: {:?}", e),
    }
}

fn gpu() -> GpuContext {
    GpuContext {
        device_name: String::from("Test GPU"),
        max_threads_per_threadgroup: 1024,
        thread_execution_width: 32,
    }
}

fn random_input(n: usize) -> Vec<f32> {
    let mut rng = rand::thread_rng();
    (0..n).map(|_| rng.gen_range(-1e6..1e6)).collect()
}

fn sorted_copy(input: &[f32]) -> Vec<f32> {
    let mut expected = input.to_vec();
    expected.sort_unstable_by(|a, b| a.partial_cmp(b).unwrap());
    expected
}

fn run_sort(input: Vec<f32>) -> Vec<f32> {
    let pool_info = pool();
    let mut data = bits(&input);
    let events = gsa_sort(&mut data, &pool_info.pool, None);
    assert_eq!(events.len(), 1);
    assert!(matches!(events[0], SortEvent::Done(_)));
    floats(&data)
}

fn done(events: &[SortEvent]) -> &SortRunStats {
    match events.last() {
        Some(SortEvent::Done(stats)) => stats,
        _ => panic!("the last report is not the end of the run"),
    }
}

fn finished(step: SortStep) -> Vec<SortEvent> {
    match step {
        SortStep::Finished(events) => events,
        SortStep::Gpu(_) => panic!("the run went to the GPU"),
    }
}

fn batch(step: SortStep) -> GpuBatch {
    match step {
        SortStep::Gpu(batch) => batch,
        SortStep::Finished(_) => panic!("the run did not go to the GPU"),
    }
}

#[test]
fn empty_array() {
    assert_eq!(run_sort(vec![]), Vec::<f32>::new());
}

#[test]
fn single_element() {
    assert_eq!(run_sort(vec![42.0]), vec![42.0]);
}

#[test]
fn duplicates() {
    let result = run_sort(vec![3.0, 1.0, 3.0, 1.0, 2.0, 3.0]);
    assert_eq!(result, vec![1.0, 1.0, 2.0, 3.0, 3.0, 3.0]);
}

#[test]
fn already_sorted() {
    let input: Vec<f32> = (0..1000).map(|i| i as f32).collect();
    assert_eq!(run_sort(input.clone()), input);
}

#[test]
fn reverse_sorted() {
    let input: Vec<f32> = (0..1000).map(|i| (1000 - i) as f32).collect();
    let expected = sorted_copy(&input);
    assert_eq!(run_sort(input), expected);
}

#[test]
fn random_large_cpu_fallback() {
    let mut rng = rand::thread_rng();
    let input: Vec<f32> = (0..20_000).map(|_| rng.gen_range(-1e6..1e6)).collect();
    let mut expected = input.clone();
    expected.sort_unstable_by(|a, b| a.partial_cmp(b).unwrap());
    assert_eq!(run_sort(input), expected);
}

#[test]
fn strategies_by_size() {
    let zero = default_bucket_multiplier();
    let two = Ratio { numer: 2, denom: 1 };
    assert_eq!(zero, Ratio { numer: 0, denom: 1 });
    assert_eq!(choose_strategy(0, true, two), Strategy::Trivial);
    assert_eq!(choose_strategy(1, true, two), Strategy::Trivial);
    assert_eq!(choose_strategy(2, true, two), Strategy::Direct);
    assert_eq!(choose_strategy(DIRECT_SORT_THRESHOLD - 1, true, two), Strategy::Direct);
    assert_eq!(choose_strategy(DIRECT_SORT_THRESHOLD, true, two), Strategy::Radix);
    assert_eq!(choose_strategy(GPU_THRESHOLD - 1, true, two), Strategy::Radix);
    assert_eq!(choose_strategy(GPU_THRESHOLD, true, two), Strategy::Gpu);
    assert_eq!(choose_strategy(GPU_THRESHOLD, false, two), Strategy::Radix);
    assert_eq!(choose_strategy(GPU_THRESHOLD, true, zero), Strategy::Radix);
}

#[test]
fn bucket_counts_round_half_up() {
    assert_eq!(num_buckets(3, Ratio { numer: 1, denom: 2 }), 2);
    assert_eq!(num_buckets(4, Ratio { numer: 1, denom: 2 }), 2);
    assert_eq!(num_buckets(5, Ratio { numer: 3, denom: 2 }), 8);
    assert_eq!(num_buckets(6, Ratio { numer: 8, denom: 1 }), 48);
    assert_eq!(num_buckets(1, Ratio { numer: 1, denom: 100 }), 1);
    assert_eq!(num_buckets(usize::MAX, Ratio { numer: u64::MAX, denom: 1 }), usize::MAX);
}

#[test]
fn reports_name_the_strategy() {
    let pool_info = pool();
    for (n, name) in [(1, "trivial"), (100, "direct-sort-tiny"), (15_000, "cpu-parallel-radix")] {
        let mut data = bits(&random_input(n));
        let events = gsa_sort(&mut data, &pool_info.pool, Some(&gpu()));
        let stats = done(&events);
        assert_eq!(stats.algorithm, name);
        assert_eq!(stats.elements, n);
        assert_eq!(stats.threads_used, 3);
        assert!(!stats.gpu_used);
        assert!(stats.gpu_device.is_none());
        assert!(stats.bucket_multiplier.is_none());
    }
}

#[test]
fn untuned_sorts_leave_the_gpu_out() {
    let pool_info = pool();
    let input = random_input(GPU_THRESHOLD);
    let mut data = bits(&input);
    let events = gsa_sort(&mut data, &pool_info.pool, Some(&gpu()));
    assert_eq!(done(&events).algorithm, "cpu-parallel-radix");
    assert_eq!(floats(&data), sorted_copy(&input));
}

#[test]
fn strategies_agree() {
    let pool_info = pool();
    let input = random_input(GPU_THRESHOLD);
    let two = Ratio { numer: 2, denom: 1 };
    let mut by_radix = bits(&input);
    finished(gsa_sort_tuned(&mut by_radix, &pool_info.pool, None, two));
    let mut by_gpu = bits(&input);
    let batch = batch(gsa_sort_tuned(&mut by_gpu, &pool_info.pool, Some(&gpu()), two));
    assert_eq!(by_gpu, bits(&input));
    let mut sorted = batch.gpu_padded.clone();
    gpu().sort_padded_buckets(&mut sorted);
    batch.finish(sorted, &mut by_gpu, &pool_info.pool);
    assert_eq!(floats(&by_gpu), floats(&by_radix));
    assert_eq!(floats(&by_gpu), sorted_copy(&input));
}

#[test]
fn batches_are_ready_for_the_gpu() {
    let pool_info = pool();
    let input = random_input(60_000);
    let mut data = bits(&input);
    let multiplier = Ratio { numer: 4, denom: 1 };
    let batch = batch(gsa_sort_tuned(&mut data, &pool_info.pool, Some(&gpu()), multiplier));
    assert_eq!(batch.threads_used, 3);
    assert_eq!(batch.device_name, "Test GPU");
    assert_eq!(batch.bucket_multiplier, multiplier);
    assert_eq!(batch.buckets.len(), 12);
    assert_eq!(batch.gpu_indices.len(), batch.gpu_padded.len());
    for (index, padded) in batch.gpu_indices.iter().zip(batch.gpu_padded.iter()) {
        let bucket = &batch.buckets[*index];
        assert!(bucket.len() >= GPU_BUCKET_MIN);
        assert_eq!(padded.len(), bucket.len().next_power_of_two());
        assert_eq!(&padded[..bucket.len()], &bucket[..]);
        assert!(padded[bucket.len()..].iter().all(|p| *p == f32::INFINITY.to_bits()));
    }
    let all: Vec<f32> = batch.buckets.iter().flat_map(|b| floats(b)).collect();
    assert_eq!(sorted_copy(&all), sorted_copy(&input));
}

#[test]
fn frames_rebuild_the_array() {
    let pool_info = pool();
    let mut data = bits(&random_input(50_000));
    let multiplier = Ratio { numer: 3, denom: 1 };
    let batch = batch(gsa_sort_tuned(&mut data, &pool_info.pool, Some(&gpu()), multiplier));
    let buckets = batch.buckets.len();
    let mut sorted = batch.gpu_padded.clone();
    gpu().sort_padded_buckets(&mut sorted);
    let events = batch.finish(sorted, &mut data, &pool_info.pool);
    assert_eq!(events.len(), buckets + 1);
    let mut seen = vec![0u32; data.len()];
    for event in &events {
        if let SortEvent::Progress { indices, values } = event {
            assert_eq!(indices.len(), values.len());
            for (i, v) in indices.iter().zip(values.iter()) {
                seen[*i] = *v;
            }
        }
    }
    assert_eq!(seen, data);
    let stats = done(&events).clone();
    assert_eq!(stats.algorithm, "gsa-hybrid-sample-bitonic");
    assert_eq!(stats.elements, 50_000);
    assert_eq!(stats.threads_used, 3);
    assert!(stats.gpu_used);
    assert_eq!(stats.gpu_device, Some(String::from("Test GPU")));
    assert_eq!(stats.bucket_multiplier, Some(multiplier));
}

#[test]
fn one_bucket_is_one_frame() {
    let pool_info = pool();
    let input = random_input(50_000);
    let mut data = bits(&input);
    let tiny = Ratio { numer: 1, denom: 1000 };
    let batch = batch(gsa_sort_tuned(&mut data, &pool_info.pool, Some(&gpu()), tiny));
    assert_eq!(batch.gpu_indices, vec![0]);
    let mut sorted = batch.gpu_padded.clone();
    assert_eq!(sorted[0].len(), 65_536);
    gpu().sort_padded_buckets(&mut sorted);
    assert!(sorted[0][50_000..].iter().all(|p| *p == f32::INFINITY.to_bits()));
    let events = batch.finish(sorted, &mut data, &pool_info.pool);
    assert_eq!(events.len(), 2);
    assert_eq!(floats(&data), sorted_copy(&input));
}

#[test]
fn equal_elements_share_a_bucket() {
    let pool_info = pool();
    let mut data = bits(&vec![7.0; 50_000]);
    let two = Ratio { numer: 2, denom: 1 };
    let batch = batch(gsa_sort_tuned(&mut data, &pool_info.pool, Some(&gpu()), two));
    assert_eq!(batch.gpu_indices, vec![5]);
    let mut sorted = batch.gpu_padded.clone();
    gpu().sort_padded_buckets(&mut sorted);
    batch.finish(sorted, &mut data, &pool_info.pool);
    assert_eq!(data, bits(&vec![7.0; 50_000]));
}

#[test]
fn small_buckets_are_sorted_at_once() {
    let large = bits(&random_input(GPU_BUCKET_MIN));
    let mut buckets = vec![bits(&[2.0, 1.0]), vec![], large.clone(), bits(&[5.0])];
    let (indices, padded) = sort_small_buckets(&mut buckets);
    assert_eq!(buckets, vec![bits(&[1.0, 2.0]), vec![], large.clone(), bits(&[5.0])]);
    assert_eq!(indices, vec![2]);
    assert_eq!(padded, vec![large]);
}

#[test]
fn infinite_elements_survive_the_padding() {
    let pool_info = pool();
    let mut input = random_input(50_000);
    for v in input.iter_mut().take(1000) {
        *v = f32::INFINITY;
    }
    input[1000] = f32::NEG_INFINITY;
    let mut data = bits(&input);
    let two = Ratio { numer: 2, denom: 1 };
    let batch = batch(gsa_sort_tuned(&mut data, &pool_info.pool, Some(&gpu()), two));
    let mut sorted = batch.gpu_padded.clone();
    gpu().sort_padded_buckets(&mut sorted);
    batch.finish(sorted, &mut data, &pool_info.pool);
    assert_eq!(floats(&data), sorted_copy(&input));
    assert_eq!(data[0], f32::NEG_INFINITY.to_bits());
    assert!(data[49_000..].iter().all(|p| *p == f32::INFINITY.to_bits()));
}
