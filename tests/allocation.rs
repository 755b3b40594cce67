use bit_index::bits::set_bits;
use bit_index::{BitIndex, BitIndexError};

fn reserved(n: usize) -> BitIndex {
    let mut index = BitIndex::new();
    for _ in 0..n {
        index.reserve_slot();
    }
    index
}

#[test]
fn first_reservation_is_slot_zero() {
    let mut index = BitIndex::new();
    assert_eq!(0, index.total_size());
    assert_eq!(0, index.reserve_slot());
    assert_eq!(1, index.size());
    assert_eq!(8, index.total_size());
}

#[test]
fn freed_gap_is_reused() {
    let mut index = reserved(40);
    assert_eq!(Ok(()), index.remove(25));
    assert_eq!(39, index.size());
    assert_eq!(Ok(26), index.find_idx_by_ordinal(25));
    assert_eq!(25, index.reserve_slot());
    assert_eq!(40, index.size());
}

#[test]
fn ninth_reservation_grows_by_a_byte() {
    let mut index = reserved(8);
    assert_eq!(8, index.total_size());
    assert_eq!(8, index.reserve_slot());
    assert_eq!(16, index.total_size());
    assert_eq!(9, index.size());
}

#[test]
fn removing_a_free_slot_changes_nothing() {
    let mut index = reserved(3);
    assert_eq!(Ok(()), index.remove(1));
    assert_eq!(2, index.size());
    assert_eq!(Ok(()), index.remove(1));
    assert_eq!(2, index.size());
    assert_eq!(Ok(()), index.remove(5));
    assert_eq!(2, index.size());
}

#[test]
fn removing_beyond_capacity_is_refused() {
    let mut index = reserved(3);
    assert_eq!(Err(BitIndexError::IndexOutOfRange), index.remove(8));
    assert_eq!(3, index.size());
    let mut empty = BitIndex::new();
    assert_eq!(Err(BitIndexError::IndexOutOfRange), empty.remove(0));
}

#[test]
fn ordinal_beyond_count_is_refused() {
    let index = reserved(5);
    assert_eq!(Ok(4), index.find_idx_by_ordinal(4));
    assert_eq!(Err(BitIndexError::OrdinalOutOfRange), index.find_idx_by_ordinal(5));
    assert_eq!(Err(BitIndexError::OrdinalOutOfRange), BitIndex::new().find_idx_by_ordinal(0));
}

#[test]
fn capacity_grows_in_whole_bytes_and_never_shrinks() {
    let mut index = BitIndex::new();
    let mut last: usize = 0;
    for i in 0..30usize {
        let slot = index.reserve_slot();
        if i % 3 == 0 {
            assert_eq!(Ok(()), index.remove(slot));
        }
        let cap = index.total_size();
        assert_eq!(0, cap % 8);
        assert!(cap >= last);
        last = cap;
    }
}

#[test]
fn count_matches_set_bits() {
    let mut index = reserved(20);
    for idx in [3usize, 7, 11, 19, 7] {
        assert_eq!(Ok(()), index.remove(idx));
    }
    let mut ones: usize = 0;
    for s in 0..index.total_size() {
        if index.find_next(s) == Some(s) {
            ones += 1;
        }
    }
    assert_eq!(16, index.size());
    assert_eq!(ones, index.size());
}

#[test]
fn reserve_then_remove_restores_count() {
    let mut index = reserved(10);
    assert_eq!(Ok(()), index.remove(4));
    let before = index.size();
    let slot = index.reserve_slot();
    assert_eq!(Ok(()), index.remove(slot));
    assert_eq!(before, index.size());
    let again = index.reserve_slot();
    assert_eq!(None, [0usize, 1, 2, 3, 5, 6, 7, 8, 9].iter().position(|&s| s == again));
}

#[test]
fn reservations_are_distinct() {
    let mut index = reserved(12);
    for idx in [0usize, 5, 9] {
        assert_eq!(Ok(()), index.remove(idx));
    }
    let mut seen: Vec<usize> = Vec::new();
    for _ in 0..20usize {
        let s = index.reserve_slot();
        assert!(!seen.contains(&s));
        seen.push(s);
    }
}

#[test]
fn cursor_wraps_to_free_slot_below() {
    let mut index = reserved(12);
    assert_eq!(Ok(()), index.remove(2));
    assert_eq!(12, index.reserve_slot());
    assert_eq!(13, index.reserve_slot());
    assert_eq!(14, index.reserve_slot());
    assert_eq!(15, index.reserve_slot());
    // the scan runs off the end and wraps to the gap at 2
    assert_eq!(2, index.reserve_slot());
    assert_eq!(16, index.reserve_slot());
}

#[test]
fn ordinals_enumerate_occupied_slots_in_order() {
    let mut index = reserved(24);
    for idx in [0usize, 4, 5, 6, 7, 15, 23] {
        assert_eq!(Ok(()), index.remove(idx));
    }
    let expected: Vec<usize> = vec![1, 2, 3, 8, 9, 10, 11, 12, 13, 14, 16, 17, 18, 19, 20, 21, 22];
    let mut got: Vec<usize> = Vec::new();
    for k in 0..index.size() {
        got.push(index.find_idx_by_ordinal(k).unwrap());
    }
    assert_eq!(expected, got);
}

#[test]
fn find_next_finds_smallest_occupied_at_or_after() {
    let mut index = reserved(24);
    for idx in [0usize, 1, 4, 5, 6, 7, 8, 9, 10, 11, 12, 13, 14, 15, 23] {
        assert_eq!(Ok(()), index.remove(idx));
    }
    assert_eq!(Some(2), index.find_next(0));
    assert_eq!(Some(2), index.find_next(2));
    assert_eq!(Some(3), index.find_next(3));
    assert_eq!(Some(16), index.find_next(4));
    assert_eq!(Some(22), index.find_next(22));
    assert_eq!(None, index.find_next(23));
    assert_eq!(None, index.find_next(1000));
    assert_eq!(Ok(2), index.find_idx_by_ordinal(0));
    assert_eq!(None, BitIndex::new().find_next(0));
}

#[test]
fn set_occupies_and_frees() {
    let mut index = BitIndex::new();
    index.set(19, true);
    assert_eq!(24, index.total_size());
    assert_eq!(1, index.size());
    assert_eq!(Some(19), index.find_next(0));
    index.set(19, true);
    assert_eq!(1, index.size());
    index.set(3, true);
    assert_eq!(2, index.size());
    index.set(19, false);
    assert_eq!(1, index.size());
    index.set(100, false);
    assert_eq!(24, index.total_size());
    assert_eq!(Some(3), index.find_next(0));
    assert_eq!(None, index.find_next(4));
}

#[test]
fn add_range_occupies_every_slot_in_range() {
    let mut index = reserved(3);
    index.add_range(2, 11);
    assert_eq!(16, index.total_size());
    assert_eq!(11, index.size());
    assert_eq!(Ok(10), index.find_idx_by_ordinal(10));
    assert_eq!(None, index.find_next(11));
    index.add_range(5, 5);
    assert_eq!(11, index.size());
    assert_eq!(11, index.reserve_slot());
}

#[test]
fn popcount_of_bytes() {
    assert_eq!(0, set_bits(0));
    assert_eq!(1, set_bits(0b1000_0000));
    assert_eq!(3, set_bits(0b0000_1011));
    assert_eq!(4, set_bits(0b1010_1010));
    assert_eq!(8, set_bits(0xff));
}
