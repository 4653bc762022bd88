use gsa_engine::allocator::{fill, fill_chunk_len, touch_pages, ScratchArena, PAGE_SIZE};

#[test]
fn chunks_are_filled_from_their_own_seeds() {
    let mut bytes = vec![0u8; 18];
    fill(&mut bytes, 8);
    assert_eq!(&bytes[0..8], &[65, 65, 41, 37, 101, 1, 113, 13]);
    assert_eq!(&bytes[8..16], &[110, 180, 13, 19, 43, 123, 25, 159]);
    assert_eq!(&bytes[16..18], &[27, 173]);
}

#[test]
fn chunks_are_at_least_a_page() {
    assert_eq!(fill_chunk_len(1 << 20, 4), 1 << 18);
    assert_eq!(fill_chunk_len(1 << 20, 1 << 10), PAGE_SIZE);
    assert_eq!(fill_chunk_len(1 << 20, 0), 1 << 20);
    assert_eq!(fill_chunk_len(0, 4), PAGE_SIZE);
}

#[test]
fn one_byte_of_every_page_changes() {
    let mut bytes = vec![255u8; 2 * PAGE_SIZE + 1];
    touch_pages(&mut bytes);
    assert_eq!(bytes[0], 0);
    assert_eq!(bytes[1], 255);
    assert_eq!(bytes[PAGE_SIZE - 1], 255);
    assert_eq!(bytes[PAGE_SIZE], 0);
    assert_eq!(bytes[2 * PAGE_SIZE], 0);
    assert_eq!(bytes.iter().filter(|b| **b == 0).count(), 3);
    touch_pages(&mut bytes);
    assert_eq!(bytes[0], 1);
}

#[test]
fn ranges_are_disjoint_until_reset() {
    let mut arena = ScratchArena::new(100);
    assert_eq!(arena.committed_bytes(), 100);
    assert_eq!(arena.allocate(40), Some(0..40));
    assert_eq!(arena.allocate(0), Some(40..40));
    assert_eq!(arena.allocate(60), Some(40..100));
    assert_eq!(arena.allocate(1), None);
    assert_eq!(arena.allocate(0), Some(100..100));
    arena.reset();
    assert_eq!(arena.allocate(100), Some(0..100));
}

#[test]
fn refusals_take_nothing() {
    let mut arena = ScratchArena::new(100);
    assert_eq!(arena.allocate(101), None);
    assert_eq!(arena.allocate(usize::MAX), None);
    assert_eq!(arena.allocate(30), Some(0..30));
    assert_eq!(arena.allocate(usize::MAX), None);
    assert_eq!(arena.allocate(71), None);
    assert_eq!(arena.allocate(70), Some(30..100));
}

#[test]
fn staying_resident_keeps_what_is_taken() {
    let mut arena = ScratchArena::new(3 * PAGE_SIZE);
    assert_eq!(arena.allocate(PAGE_SIZE), Some(0..PAGE_SIZE));
    arena.keep_resident();
    assert_eq!(arena.committed_bytes(), 3 * PAGE_SIZE);
    assert_eq!(arena.allocate(PAGE_SIZE), Some(PAGE_SIZE..2 * PAGE_SIZE));
}

#[test]
fn empty_arenas_hand_out_nothing() {
    let mut arena = ScratchArena::new(0);
    arena.keep_resident();
    assert_eq!(arena.committed_bytes(), 0);
    assert_eq!(arena.allocate(1), None);
    assert_eq!(arena.allocate(0), Some(0..0));
}

#[test]
fn no_page_is_left_at_zero() {
    for chunk_len in [PAGE_SIZE, PAGE_SIZE + 3, 2 * PAGE_SIZE - 1, 10 * PAGE_SIZE] {
        let mut bytes = vec![0u8; 9 * PAGE_SIZE];
        fill(&mut bytes, chunk_len);
        for page in bytes.chunks(PAGE_SIZE) {
            assert!(page.iter().any(|b| *b != 0));
        }
    }
}
