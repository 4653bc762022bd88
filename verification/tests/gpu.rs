use gsa_engine::gpu::{next_power_of_two, Dispatch, GpuContext};
use gsa_engine::kernels::{exchange_step, Kernel};
use gsa_engine::ratio::Ratio;
use rand::Rng;

fn context(max_threads: u64) -> GpuContext {
    GpuContext {
        device_name: String::from("Test GPU"),
        max_threads_per_threadgroup: max_threads,
        thread_execution_width: 32,
    }
}

fn random_patterns(n: usize) -> Vec<u32> {
    let mut rng = rand::thread_rng();
    (0..n).map(|_| rng.gen_range(-1e6f32..1e6).to_bits()).collect()
}

fn floats(patterns: &[u32]) -> Vec<f32> {
    patterns.iter().map(|p| f32::from_bits(*p)).collect()
}

fn sorted_floats(patterns: &[u32]) -> Vec<f32> {
    let mut expected = floats(patterns);
    expected.sort_unstable_by(|a, b| a.partial_cmp(b).unwrap());
    expected
}

#[test]
fn rounds_up_to_powers_of_two() {
    let cases = [(0, 1), (1, 1), (2, 2), (3, 4), (5, 8), (1024, 1024), (1025, 2048)];
    for (n, expected) in cases {
        assert_eq!(next_power_of_two(n), expected);
    }
    assert_eq!(next_power_of_two(usize::MAX / 2 + 1), usize::MAX / 2 + 1);
}

#[test]
fn block_sizes_are_powers_of_two() {
    assert_eq!(context(1024).block_size_for(1 << 20), 1024);
    assert_eq!(context(4096).block_size_for(1 << 20), 1024);
    assert_eq!(context(1000).block_size_for(1 << 20), 512);
    assert_eq!(context(1024).block_size_for(256), 256);
    assert_eq!(context(1).block_size_for(256), 1);
}

#[test]
fn plans_list_the_dispatches() {
    let plan = context(4).encode_bucket_sort(8);
    let wide = |kernel| Dispatch { kernel, grid_width: 8, group_width: 4 };
    assert_eq!(
        plan,
        vec![
            wide(Kernel::LocalSort { block_size: 4 }),
            wide(Kernel::GlobalStep { j: 4, k: 8 }),
            wide(Kernel::LocalMerge { block_size: 4, k: 8 }),
        ]
    );
    let single = context(1).encode_bucket_sort(4);
    let narrow = |kernel| Dispatch { kernel, grid_width: 4, group_width: 1 };
    assert_eq!(
        single,
        vec![
            narrow(Kernel::LocalSort { block_size: 1 }),
            narrow(Kernel::GlobalStep { j: 1, k: 2 }),
            narrow(Kernel::GlobalStep { j: 2, k: 4 }),
            narrow(Kernel::GlobalStep { j: 1, k: 4 }),
        ]
    );
}

#[test]
fn threadgroups_of_the_device_are_used_across_blocks() {
    let plan = context(1000).encode_bucket_sort(2048);
    assert_eq!(plan[0].group_width, 512);
    assert_eq!(plan[1].kernel, Kernel::GlobalStep { j: 512, k: 1024 });
    assert_eq!(plan[1].group_width, 1000);
}

#[test]
fn dispatches_are_counted_by_blocks() {
    assert_eq!(context(1024).encode_bucket_sort(1024).len(), 1);
    assert_eq!(context(1024).encode_bucket_sort(2048).len(), 3);
    assert_eq!(context(1024).encode_bucket_sort(131_072).len(), 36);
    assert_eq!(context(1).encode_bucket_sort(131_072).len(), 154);
}

#[test]
fn plans_sort() {
    for max_threads in [1, 2, 48, 256, 1024] {
        for n in [1, 2, 4, 512, 4096] {
            let before = random_patterns(n);
            let mut data = before.clone();
            context(max_threads).bitonic_sort(&mut data);
            assert_eq!(floats(&data), sorted_floats(&before));
        }
    }
}

#[test]
fn kernels_do_their_steps() {
    let bits = |values: &[f32]| -> Vec<u32> { values.iter().map(|v| v.to_bits()).collect() };
    let mut data = bits(&[2.0, 1.0, 3.0, 4.0]);
    Kernel::LocalSort { block_size: 2 }.run(&mut data);
    assert_eq!(data, bits(&[1.0, 2.0, 4.0, 3.0]));
    Kernel::GlobalStep { j: 2, k: 4 }.run(&mut data);
    assert_eq!(data, bits(&[1.0, 2.0, 4.0, 3.0]));
    Kernel::LocalMerge { block_size: 2, k: 4 }.run(&mut data);
    assert_eq!(data, bits(&[1.0, 2.0, 3.0, 4.0]));
}

#[test]
fn groups_order_by_their_place_in_the_grid() {
    let bits = |values: &[f32]| -> Vec<u32> { values.iter().map(|v| v.to_bits()).collect() };
    let mut first = bits(&[2.0, 1.0]);
    exchange_step(&mut first, 0, 1, 2);
    assert_eq!(first, bits(&[1.0, 2.0]));
    let mut second = bits(&[1.0, 2.0]);
    exchange_step(&mut second, 2, 1, 2);
    assert_eq!(second, bits(&[2.0, 1.0]));
    let mut whole = bits(&[4.0, 3.0, 2.0, 1.0, 8.0, 7.0, 6.0, 5.0]);
    Kernel::LocalSort { block_size: 4 }.run(&mut whole);
    assert_eq!(whole, bits(&[1.0, 2.0, 3.0, 4.0, 8.0, 7.0, 6.0, 5.0]));
}

#[test]
fn batches_sort_every_bucket() {
    let before = vec![random_patterns(256), random_patterns(1), random_patterns(2048)];
    let mut buckets = before.clone();
    context(1024).sort_padded_buckets(&mut buckets);
    assert_eq!(floats(&buckets[0]), sorted_floats(&before[0]));
    assert_eq!(buckets[1], before[1]);
    assert_eq!(floats(&buckets[2]), sorted_floats(&before[2]));
}

#[test]
fn occupancy_is_at_most_one() {
    let gpu = context(1024);
    assert_eq!(gpu.stats(4096).occupancy_estimate, Ratio { numer: 1, denom: 1 });
    assert_eq!(gpu.stats(1024).occupancy_estimate, Ratio { numer: 1, denom: 1 });
    assert_eq!(gpu.stats(800).occupancy_estimate, Ratio { numer: 800, denom: 1024 });
    assert_eq!(gpu.stats(256).occupancy_estimate, Ratio { numer: 256, denom: 1024 });
    assert_eq!(context(0).stats(256).occupancy_estimate, Ratio { numer: 0, denom: 1 });
    let stats = gpu.stats(256);
    assert_eq!(stats.device_name, "Test GPU");
    assert_eq!(stats.max_threads_per_threadgroup, 1024);
    assert_eq!(stats.thread_execution_width, 32);
}
