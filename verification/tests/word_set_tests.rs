use simdset::ImmutableSet;

fn small_test_set() -> Vec<u64> {
    vec![
        0,
        1,
        2,
        3,
        0b00000000_11111111_00000000_11111111_00000000_11111111_00000000_11111111,
        0b10000000_00000000_00000000_00000000_00000000_00000000_00000000_00000000,
        0b01010101_01010101_01010101_01010101_01010101_01010101_01010101_01010101,
        0b11111111_00000000_11111111_00000000_11111111_00000000_11111111_00000000,
        0b10101010_10101010_10101010_10101010_10101010_10101010_10101010_10101010,
        !0u64,
    ]
}

#[test]
fn test_count_matches_expected_size() {
    let min: u32 = <u64 as ImmutableSet>::set_range_min();
    let max: u32 = <u64 as ImmutableSet>::set_range_max();
    for i in min..=max {
        for round in min..max {
            let mut set: u64 = 0u64;
            for element in 0..i {
                set = set.add((element + round) % (max + 1) + min);
            }
            assert_eq!(set.count(), i);
        }
    }
    let full: u64 = <u64 as ImmutableSet>::new_full_set();
    assert_eq!(full.count(), max - min + 1);
}

#[test]
fn test_union_contains_all_items() {
    let full: u64 = <u64 as ImmutableSet>::new_full_set();
    let cases: Vec<(u64, u64, u64)> =
        vec![(1, 2, 3), (0, 10, 10), (0, full, full), (full, 0, full)];
    for (set, other, expected) in cases {
        assert_eq!(set.union(other), expected);
    }
}

#[test]
fn test_shift_right_1_moves_all_items() {
    let max: u32 = <u64 as ImmutableSet>::set_range_max();
    for set in small_test_set() {
        let shifted: u64 = set.shift_set(1);

        // every value shifted up 1 should have its predecessor in the original set
        let mut shifted_iter = shifted.values();
        for value in shifted_iter.collect_remaining() {
            assert_eq!(set.contains(value - 1), true);
        }

        // every value in the original set should have its successor in the
        // shifted set, unless the value is at the end of the set's range
        let mut original_iter = set.values();
        for value in original_iter.collect_remaining() {
            if value + 1 < max {
                assert_eq!(shifted.contains(value + 1), true);
            }
        }

        let shifted_back: u64 = shifted.shift_set(-1);
        if !set.contains(max) {
            assert_eq!(set, shifted_back);
        } else if set.count() > 0 {
            assert_eq!(shifted_back.is_subset_of(set), true);
        }
    }
}

#[test]
fn test_empty_is_always_subset() {
    for set in small_test_set() {
        assert_eq!(0u64.is_subset_of(set), true);
    }
}

#[test]
fn test_empty_is_proper_subset_of_non_empty_sets() {
    for set in small_test_set() {
        assert_eq!(0u64.is_proper_subset_of(set), set != 0);
    }
}

#[test]
fn test_new_collects_distinct_values() {
    let set: u64 = <u64 as ImmutableSet>::new(vec![0, 1, 2]);
    assert_eq!(set.count(), 3);
    let repeated: u64 = <u64 as ImmutableSet>::new(vec![5, 5, 3, 5]);
    assert_eq!(repeated, <u64 as ImmutableSet>::new(vec![3, 5]));
    assert_eq!(repeated.count(), 2);
}

#[test]
fn test_overlaps_scenarios() {
    assert_eq!(0b101u64.overlaps(0b010), false);
    assert_eq!(0b101u64.overlaps(0b001), true);
}

#[test]
fn test_contains_bounds() {
    let set: u64 = <u64 as ImmutableSet>::new(vec![0, 63]);
    assert_eq!(set.contains(0), true);
    assert_eq!(set.contains(63), true);
    assert_eq!(set.contains(1), false);
    assert_eq!(set.contains(64), false);
    assert_eq!(set.contains(1000), false);
}

#[test]
fn test_add_remove_roundtrip() {
    let set: u64 = <u64 as ImmutableSet>::new(vec![7]);
    let grown: u64 = set.add(40);
    assert_eq!(grown.contains(40), true);
    assert_eq!(grown.remove(40), set);
    assert_eq!(set.remove(7), 0);
    assert_eq!(grown.count(), 2);
}

#[test]
fn test_add_vec_extends_set() {
    let set: u64 = 1u64.add_vec(vec![1, 63]);
    assert_eq!(set.contains(0), true);
    assert_eq!(set.contains(1), true);
    assert_eq!(set.contains(63), true);
    assert_eq!(set.count(), 3);
}

#[test]
fn test_empty_and_full_predicates() {
    let empty: u64 = <u64 as ImmutableSet>::new_empty_set();
    let full: u64 = <u64 as ImmutableSet>::new_full_set();
    assert_eq!(empty.is_set_empty(), true);
    assert_eq!(empty.is_set_full(), false);
    assert_eq!(full.is_set_full(), true);
    assert_eq!(full.is_set_empty(), false);
    assert_eq!(empty.count(), 0);
    assert_eq!(full.count(), 64);
    assert_eq!(full.clear(), empty);
}

#[test]
fn test_except_and_symmetric_except() {
    assert_eq!(0b1100u64.except(0b0100), 0b1000);
    assert_eq!(0b1010u64.symmetric_except(0b0110), 0b1100);
    assert_eq!(0b1010u64.intersection(0b0110), 0b0010);
}

#[test]
fn test_superset_family() {
    assert_eq!(0b111u64.is_superset_of(0b101), true);
    assert_eq!(0b111u64.is_proper_superset_of(0b101), true);
    assert_eq!(0b101u64.is_superset_of(0b101), true);
    assert_eq!(0b101u64.is_proper_superset_of(0b101), false);
    assert_eq!(0b101u64.is_superset_of(0b111), false);
    assert_eq!(0b101u64.is_proper_subset_of(0b111), true);
    assert_eq!(0b101u64.is_subset_of(0b101), true);
    assert_eq!(0b101u64.is_proper_subset_of(0b101), false);
}

#[test]
fn test_shift_set_edges() {
    let set: u64 = <u64 as ImmutableSet>::new(vec![0, 5, 63]);
    assert_eq!(set.shift_set(0), set);
    assert_eq!(set.shift_set(64), 0);
    assert_eq!(set.shift_set(-64), 0);
    assert_eq!(set.shift_set(1000), 0);
    assert_eq!(set.shift_set(-1000), 0);
    let shifted: u64 = set.shift_set(5);
    assert_eq!(shifted, <u64 as ImmutableSet>::new(vec![5, 10]));
    assert_eq!(set.shift_set(-5), <u64 as ImmutableSet>::new(vec![0, 58]));
}

#[test]
fn test_shift_adjacent_pulls_in_neighbors() {
    let set: u64 = <u64 as ImmutableSet>::new(vec![0]);
    let adjacent: u64 = <u64 as ImmutableSet>::new(vec![63]);
    // shifting up exposes the top of the window below
    assert_eq!(set.shift_adjacent(1, adjacent), <u64 as ImmutableSet>::new(vec![0, 1]));
    // shifting down exposes the bottom of the window above
    let above: u64 = <u64 as ImmutableSet>::new(vec![0]);
    assert_eq!(set.shift_adjacent(-1, above), <u64 as ImmutableSet>::new(vec![63]));
    // a zero shift changes nothing
    assert_eq!(set.shift_adjacent(0, adjacent), set);
}

#[test]
fn test_values_enumerates_ascending() {
    let set: u64 = <u64 as ImmutableSet>::new(vec![9, 1, 4]);
    let mut iter = set.values();
    assert_eq!(iter.collect_remaining(), vec![1, 4, 9]);
    let empty: u64 = <u64 as ImmutableSet>::new_empty_set();
    let mut none_iter = empty.values();
    assert_eq!(none_iter.collect_remaining(), Vec::<u32>::new());
    let mut step_iter = set.values();
    assert_eq!(step_iter.next(), Some(1));
    assert_eq!(step_iter.next(), Some(4));
    assert_eq!(step_iter.next(), Some(9));
    assert_eq!(step_iter.next(), None);
}
