use gsa_engine::float32::{at_most, compare, from_key, to_key};
use gsa_engine::radix::{
    chunk_offsets, chunk_slots, histogram, radix_pass, radix_sort_f32_parallel, radix_sorted_in_chunks,
};
use rand::Rng;
use std::cmp::Ordering;

fn bits(values: &[f32]) -> Vec<u32> {
    values.iter().map(|v| v.to_bits()).collect()
}

fn floats(patterns: &[u32]) -> Vec<f32> {
    patterns.iter().map(|p| f32::from_bits(*p)).collect()
}

fn check(input: Vec<f32>) {
    let mut expected = input.clone();
    expected.sort_unstable_by(|a, b| a.partial_cmp(b).unwrap());
    let mut patterns = bits(&input);
    radix_sort_f32_parallel(&mut patterns);
    assert_eq!(floats(&patterns), expected);
}

#[test]
fn empty() {
    check(vec![]);
}

#[test]
fn single() {
    check(vec![1.0]);
}

#[test]
fn mixed_signs_and_duplicates() {
    check(vec![3.0, -1.0, 0.0, -0.0, 5.5, -5.5, 3.0, -1.0, 100.0, -100.0]);
}

#[test]
fn already_sorted_and_reverse() {
    let asc: Vec<f32> = (0..5000).map(|i| i as f32).collect();
    check(asc.clone());
    let desc: Vec<f32> = asc.into_iter().rev().collect();
    check(desc);
}

#[test]
fn random_large() {
    let mut rng = rand::thread_rng();
    let input: Vec<f32> = (0..123_457).map(|_| rng.gen_range(-1e9..1e9)).collect();
    check(input);
}

#[test]
fn keys_order_like_numbers() {
    let ascending = [
        f32::NEG_INFINITY,
        f32::MIN,
        -1.5,
        -1.0,
        -f32::MIN_POSITIVE,
        -1e-45,
        -0.0,
        0.0,
        1e-45,
        f32::MIN_POSITIVE,
        1.0,
        1.5,
        f32::MAX,
        f32::INFINITY,
    ];
    for pair in ascending.windows(2) {
        assert!(to_key(pair[0].to_bits()) < to_key(pair[1].to_bits()));
        assert!(at_most(pair[0].to_bits(), pair[1].to_bits()));
    }
    assert_eq!(to_key(0), 0x8000_0000);
    assert_eq!(to_key(0x8000_0000), 0x7fff_ffff);
    assert_eq!(to_key(1.0f32.to_bits()), 0xbf80_0000);
    assert_eq!(to_key((-1.0f32).to_bits()), 0x407f_ffff);
}

#[test]
fn keys_round_trip() {
    for pattern in [0, 1, 0x7f80_0000, 0x8000_0000, 0x8000_0001, 0xff80_0000, u32::MAX] {
        assert_eq!(from_key(to_key(pattern)), pattern);
        assert_eq!(to_key(from_key(pattern)), pattern);
    }
}

#[test]
fn zeros_compare_equal() {
    let (negative, positive) = ((-0.0f32).to_bits(), 0.0f32.to_bits());
    assert_eq!(compare(negative, positive), Ordering::Equal);
    assert_eq!(compare(1.0f32.to_bits(), 2.0f32.to_bits()), Ordering::Less);
    assert_eq!(compare((-1.0f32).to_bits(), (-2.0f32).to_bits()), Ordering::Greater);
    assert!(at_most(positive, negative));
}

#[test]
fn negative_zeros_come_first() {
    let mut patterns = bits(&[0.0, -0.0, 0.0, -0.0]);
    radix_sort_f32_parallel(&mut patterns);
    assert_eq!(patterns, bits(&[-0.0, -0.0, 0.0, 0.0]));
}

#[test]
fn infinities_sort_to_the_ends() {
    let mut patterns = bits(&[f32::INFINITY, 1.0, f32::NEG_INFINITY, -1.0]);
    radix_sort_f32_parallel(&mut patterns);
    assert_eq!(patterns, bits(&[f32::NEG_INFINITY, -1.0, 1.0, f32::INFINITY]));
}

#[test]
fn result_does_not_depend_on_chunks() {
    let mut rng = rand::thread_rng();
    let input: Vec<u32> = (0..1000).map(|_| rng.gen_range(-10.0f32..10.0).to_bits()).collect();
    let whole = radix_sorted_in_chunks(&input, 1000);
    for chunk_len in [1, 7, 333, 999, 5000] {
        assert_eq!(radix_sorted_in_chunks(&input, chunk_len), whole);
    }
}

#[test]
fn histograms_count_digits() {
    let hist = histogram(&[0x0102, 0x0202, 0x0103], 0);
    assert_eq!(hist[2], 2);
    assert_eq!(hist[3], 1);
    assert_eq!(hist.iter().sum::<usize>(), 3);
    let hist = histogram(&[0x0102, 0x0202, 0x0103], 8);
    assert_eq!(hist[1], 2);
    assert_eq!(hist[2], 1);
}

#[test]
fn offsets_go_by_digit_and_then_by_chunk() {
    let hists = vec![histogram(&[5, 7, 5], 0), histogram(&[7, 5], 0)];
    let offsets = chunk_offsets(&hists);
    assert_eq!(offsets[0][5], 0);
    assert_eq!(offsets[1][5], 2);
    assert_eq!(offsets[0][7], 3);
    assert_eq!(offsets[1][7], 4);
}

#[test]
fn a_pass_is_stable() {
    let keys = vec![0x0201, 0x0100, 0x0101, 0x0200];
    assert_eq!(radix_pass(&keys, 0, 3), vec![0x0100, 0x0200, 0x0201, 0x0101]);
    assert_eq!(radix_pass(&keys, 8, 1), vec![0x0100, 0x0101, 0x0201, 0x0200]);
}

#[test]
fn slots_of_all_chunks_are_distinct() {
    let chunks = [vec![5, 7, 5], vec![7, 5]];
    let hists = vec![histogram(&chunks[0], 0), histogram(&chunks[1], 0)];
    let offsets = chunk_offsets(&hists);
    assert_eq!(chunk_slots(&chunks[0], offsets[0], 0), vec![0, 3, 1]);
    assert_eq!(chunk_slots(&chunks[1], offsets[1], 0), vec![4, 2]);
}
