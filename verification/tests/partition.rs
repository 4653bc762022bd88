use gsa_engine::partition::{
    bucket_index, choose_pivots, draw_sample, partition_by_pivots, partition_into_buckets,
};
use rand::Rng;

fn bits(values: &[f32]) -> Vec<u32> {
    values.iter().map(|v| v.to_bits()).collect()
}

fn floats(patterns: &[u32]) -> Vec<f32> {
    patterns.iter().map(|p| f32::from_bits(*p)).collect()
}

#[test]
fn elements_equal_to_a_pivot_go_above_it() {
    let pivots = bits(&[-1.0, 2.0, 2.0]);
    for (v, bucket) in [(-5.0f32, 0), (-1.0, 1), (0.0, 1), (2.0, 3), (9.0, 3)] {
        assert_eq!(bucket_index(&pivots, v.to_bits()), bucket);
    }
}

#[test]
fn buckets_keep_the_order_of_the_array() {
    let data = bits(&[5.0, -3.0, 1.0, 7.0, -4.0, 2.0]);
    let buckets = partition_by_pivots(&data, &bits(&[0.0, 5.0]));
    assert_eq!(
        buckets,
        vec![bits(&[-3.0, -4.0]), bits(&[1.0, 2.0]), bits(&[5.0, 7.0])]
    );
}

#[test]
fn pivots_are_spaced_evenly() {
    let sample = bits(&[8.0, 6.0, 7.0, 5.0, 3.0, 0.0, 9.0, 1.0]);
    assert_eq!(choose_pivots(sample.clone(), 4), bits(&[3.0, 6.0, 8.0]));
    assert_eq!(choose_pivots(sample, 2), bits(&[6.0]));
}

#[test]
fn samples_come_from_the_array() {
    let data = bits(&[1.0, 2.0, 3.0]);
    let sample = draw_sample(&data, 4);
    assert_eq!(sample.len(), 3);
    assert!(sample.iter().all(|v| data.contains(v)));
    let wide: Vec<u32> = bits(&(0..1000).map(|i| i as f32).collect::<Vec<f32>>());
    let sample = draw_sample(&wide, 4);
    assert_eq!(sample.len(), 64);
    assert!(sample.iter().any(|v| *v != sample[0]));
}

#[test]
fn value_ranges_ascend() {
    let mut rng = rand::thread_rng();
    let data: Vec<f32> = (0..5000).map(|_| rng.gen_range(-1e3..1e3)).collect();
    let buckets = partition_into_buckets(&bits(&data), 7);
    assert_eq!(buckets.len(), 7);
    let mut greatest = f32::NEG_INFINITY;
    for bucket in &buckets {
        let values = floats(bucket);
        assert!(values.iter().all(|v| *v > greatest));
        greatest = values.iter().cloned().fold(greatest, f32::max);
    }
    let mut all: Vec<f32> = buckets.iter().flat_map(|b| floats(b)).collect();
    let mut expected = data.clone();
    all.sort_unstable_by(|a, b| a.partial_cmp(b).unwrap());
    expected.sort_unstable_by(|a, b| a.partial_cmp(b).unwrap());
    assert_eq!(all, expected);
}

#[test]
fn one_bucket_is_the_array() {
    let data = bits(&[3.0, 1.0, 2.0]);
    assert_eq!(partition_into_buckets(&data, 1), vec![data.clone()]);
    assert_eq!(partition_into_buckets(&data, 0), vec![data]);
}
