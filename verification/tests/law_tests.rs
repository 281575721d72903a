use simdset::ImmutableSet;
use simdset::vector_set::VectorSet;

#[test]
fn test_union_laws_concrete() {
    let a: u64 = <u64 as ImmutableSet>::new(vec![1, 40]);
    let b: u64 = <u64 as ImmutableSet>::new(vec![2, 40, 63]);
    let c: u64 = <u64 as ImmutableSet>::new(vec![0, 2]);
    assert_eq!(a.union(b), b.union(a));
    assert_eq!(a.union(b).union(c), a.union(b.union(c)));
    assert_eq!(a.union(<u64 as ImmutableSet>::new_empty_set()), a);
    let full: u64 = <u64 as ImmutableSet>::new_full_set();
    assert_eq!(a.union(full), full);
}

#[test]
fn test_union_laws_concrete_vector() {
    let a: VectorSet = <VectorSet as ImmutableSet>::new(vec![1, 100]);
    let b: VectorSet = <VectorSet as ImmutableSet>::new(vec![100, 250]);
    assert_eq!(a.union(b), b.union(a));
    assert_eq!(a.union(<VectorSet as ImmutableSet>::new_empty_set()), a);
    let full: VectorSet = <VectorSet as ImmutableSet>::new_full_set();
    assert_eq!(a.union(full), full);
}

#[test]
fn test_compliment_laws_concrete() {
    let a: u64 = 0b1010;
    assert_eq!(a.compliment().compliment(), a);
    assert_eq!(a.union(a.compliment()), <u64 as ImmutableSet>::new_full_set());
    assert_eq!(a.intersection(a.compliment()), <u64 as ImmutableSet>::new_empty_set());
    let v: VectorSet = <VectorSet as ImmutableSet>::new(vec![0, 77, 255]);
    assert_eq!(v.compliment().compliment(), v);
    assert_eq!(v.union(v.compliment()), <VectorSet as ImmutableSet>::new_full_set());
    assert_eq!(
        v.intersection(v.compliment()),
        <VectorSet as ImmutableSet>::new_empty_set()
    );
}

#[test]
fn test_subset_laws_concrete() {
    let a: u64 = <u64 as ImmutableSet>::new(vec![3, 17]);
    let b: u64 = <u64 as ImmutableSet>::new(vec![3, 17]);
    // reflexive, and antisymmetric on equal sets
    assert_eq!(a.is_subset_of(a), true);
    assert_eq!(a.is_subset_of(b) && b.is_subset_of(a), true);
    assert_eq!(a, b);
}

#[test]
fn test_shift_inverse_law_concrete() {
    // no member at the top of the range: shifting up then down is exact
    let a: u64 = <u64 as ImmutableSet>::new(vec![0, 5, 62]);
    assert_eq!(a.shift_set(1).shift_set(-1), a);
    // the top member is lost, the rest survive as a subset
    let b: u64 = <u64 as ImmutableSet>::new(vec![0, 63]);
    let back: u64 = b.shift_set(1).shift_set(-1);
    assert_eq!(back.is_subset_of(b), true);
    assert_eq!(back, <u64 as ImmutableSet>::new(vec![0]));
    let v: VectorSet = <VectorSet as ImmutableSet>::new(vec![4, 130]);
    assert_eq!(v.shift_set(1).shift_set(-1), v);
    let w: VectorSet = <VectorSet as ImmutableSet>::new(vec![4, 255]);
    let w_back: VectorSet = w.shift_set(1).shift_set(-1);
    assert_eq!(w_back.is_subset_of(w), true);
    assert_eq!(w_back, <VectorSet as ImmutableSet>::new(vec![4]));
}

#[test]
fn test_count_matches_values_len() {
    let sets: Vec<u64> = vec![0, 1, 0b1011, !0u64];
    for set in sets {
        let mut iter = set.values();
        let yielded: Vec<u32> = iter.collect_remaining();
        assert_eq!(set.count() as usize, yielded.len());
    }
    let v: VectorSet = <VectorSet as ImmutableSet>::new(vec![0, 64, 128, 192, 255]);
    let mut iter = v.values();
    assert_eq!(v.count() as usize, iter.collect_remaining().len());
}

#[test]
fn test_round_trip_distinct_sorted() {
    let values: Vec<u32> = vec![9, 1, 9, 4, 1];
    let set: u64 = <u64 as ImmutableSet>::new(values);
    let mut iter = set.values();
    assert_eq!(iter.collect_remaining(), vec![1, 4, 9]);
}
