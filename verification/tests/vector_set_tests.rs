use simdset::ImmutableSet;
use simdset::vector_set::VectorSet;

fn vs(values: Vec<u32>) -> VectorSet {
    <VectorSet as ImmutableSet>::new(values)
}

#[test]
fn test_vector_lane_layout() {
    let set: VectorSet = vs(vec![0, 64, 200]);
    assert_eq!(set.contains(64), true);
    assert_eq!(set.contains(0), true);
    assert_eq!(set.contains(200), true);
    assert_eq!(set.contains(1), false);
    assert_eq!(set.contains(256), false);
    // value 64 maps to lane 1, bit 0; value 200 to lane 3, bit 8
    assert_eq!(set.lane0, 1);
    assert_eq!(set.lane1, 1);
    assert_eq!(set.lane2, 0);
    assert_eq!(set.lane3, 1u64 << 8);
    assert_eq!(set.count(), 3);
}

#[test]
fn test_vector_empty_and_full() {
    let empty: VectorSet = <VectorSet as ImmutableSet>::new_empty_set();
    let full: VectorSet = <VectorSet as ImmutableSet>::new_full_set();
    assert_eq!(empty.is_set_empty(), true);
    assert_eq!(full.is_set_full(), true);
    assert_eq!(empty.count(), 0);
    assert_eq!(full.count(), 256);
    assert_eq!(<VectorSet as ImmutableSet>::set_range_min(), 0);
    assert_eq!(<VectorSet as ImmutableSet>::set_range_max(), 255);
    assert_eq!(full.clear(), empty);
    assert_eq!(full.compliment(), empty);
    assert_eq!(empty.compliment(), full);
}

#[test]
fn test_vector_bitwise_operations() {
    let a: VectorSet = vs(vec![1, 70, 130, 255]);
    let b: VectorSet = vs(vec![1, 70, 200]);
    let union = a.union(b);
    assert_eq!(union, vs(vec![1, 70, 130, 200, 255]));
    assert_eq!(a.intersection(b), vs(vec![1, 70]));
    assert_eq!(a.except(b), vs(vec![130, 255]));
    assert_eq!(a.symmetric_except(b), vs(vec![130, 200, 255]));
    assert_eq!(a.overlaps(b), true);
    assert_eq!(vs(vec![5]).overlaps(vs(vec![6])), false);
}

#[test]
fn test_vector_add_remove() {
    let set: VectorSet = <VectorSet as ImmutableSet>::new_empty_set();
    let grown: VectorSet = set.add(255).add(63).add(64);
    assert_eq!(grown.count(), 3);
    assert_eq!(grown.contains(255), true);
    assert_eq!(grown.remove(255).contains(255), false);
    assert_eq!(grown.remove(255).remove(64).remove(63), set);
    let many: VectorSet = set.add_vec(vec![3, 120, 190, 250]);
    assert_eq!(many.count(), 4);
    assert_eq!(many.contains(190), true);
}

#[test]
fn test_vector_shift_within_lane() {
    let set: VectorSet = vs(vec![0, 5]);
    assert_eq!(set.shift_set(0), set);
    assert_eq!(set.shift_set(3), vs(vec![3, 8]));
    assert_eq!(set.shift_set(-3), vs(vec![2]));
    assert_eq!(set.shift_set(256), <VectorSet as ImmutableSet>::new_empty_set());
    assert_eq!(set.shift_set(-256), <VectorSet as ImmutableSet>::new_empty_set());
}

#[test]
fn test_vector_shift_carries_across_lanes() {
    // a shift by one must carry the top bit of a lane into the next lane
    let set: VectorSet = vs(vec![63]);
    let up = set.shift_set(1);
    assert_eq!(up.contains(64), true);
    assert_eq!(up.count(), 1);
    assert_eq!(up.shift_set(-1), set);

    // whole-lane moves plus a sub-lane remainder
    let wide: VectorSet = vs(vec![0, 100, 255]);
    let moved = wide.shift_set(65);
    assert_eq!(moved, vs(vec![65, 165]));
    let back = wide.shift_set(-65);
    assert_eq!(back, vs(vec![35, 190]));

    // an exact multiple of the lane width moves lanes wholesale
    let paged = wide.shift_set(128);
    assert_eq!(paged, vs(vec![128, 228]));
    assert_eq!(wide.shift_set(-128), vs(vec![127]));

    // members pushed past the top of the domain are dropped
    assert_eq!(vs(vec![200]).shift_set(100), <VectorSet as ImmutableSet>::new_empty_set());
}

#[test]
fn test_vector_shift_adjacent() {
    let set: VectorSet = vs(vec![0]);
    let below: VectorSet = vs(vec![255]);
    assert_eq!(set.shift_adjacent(1, below), vs(vec![0, 1]));
    let above: VectorSet = vs(vec![0]);
    assert_eq!(set.shift_adjacent(-1, above), vs(vec![255]));
    assert_eq!(set.shift_adjacent(0, below), set);

    // shifts larger than one lane still pull the neighbour in correctly
    assert_eq!(set.shift_adjacent(100, below), vs(vec![99, 100]));
    let far_above: VectorSet = vs(vec![30]);
    assert_eq!(set.shift_adjacent(-100, far_above), vs(vec![156 + 30]));
}

#[test]
fn test_vector_relational_family() {
    let small: VectorSet = vs(vec![10, 70]);
    let big: VectorSet = vs(vec![10, 70, 200]);
    let empty: VectorSet = <VectorSet as ImmutableSet>::new_empty_set();
    assert_eq!(small.is_subset_of(big), true);
    assert_eq!(small.is_proper_subset_of(big), true);
    assert_eq!(small.is_subset_of(small), true);
    assert_eq!(small.is_proper_subset_of(small), false);
    assert_eq!(big.is_superset_of(small), true);
    assert_eq!(big.is_proper_superset_of(small), true);
    assert_eq!(big.is_subset_of(small), false);
    assert_eq!(empty.is_subset_of(small), true);
    assert_eq!(empty.is_proper_subset_of(empty), false);
    assert_eq!(empty.is_proper_subset_of(small), true);
}

#[test]
fn test_vector_values_enumerates_ascending() {
    let set: VectorSet = vs(vec![200, 5, 70]);
    let mut iter = set.values();
    assert_eq!(iter.collect_remaining(), vec![5, 70, 200]);
    let mut step_iter = set.values();
    assert_eq!(step_iter.next(), Some(5));
    assert_eq!(step_iter.next(), Some(70));
    assert_eq!(step_iter.next(), Some(200));
    assert_eq!(step_iter.next(), None);
}
