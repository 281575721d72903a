//! The single-word set: a fixed 64-slot set backed by one `u64`, bit `i`
//! holding membership of the value `i`.

use vstd::prelude::*;
use vstd::set_lib::set_int_range;
use vstd::set_lib::lemma_int_range;

use crate::ImmutableSet;
use crate::ImmutableSetIterator;
use crate::bits::bit64;
use crate::bits::lemma_bit_and;
use crate::bits::lemma_bit_ext;
use crate::bits::lemma_bit_nonzero;
use crate::bits::lemma_bit_not;
use crate::bits::lemma_bit_or;
use crate::bits::lemma_bit_shl;
use crate::bits::lemma_bit_shr;
use crate::bits::lemma_bit_single;
use crate::bits::lemma_bit_xor;
use crate::bits::lemma_bit_zero;
use crate::model::lemma_nonempty_has_member;
use crate::model::lemma_values_in_push;
use crate::model::members_below;
use crate::model::shifted_members;
use crate::model::values_in;

verus! {

/// The members a word holds: the positions of its set bits.
pub open spec fn word_members(w: u64) -> Set<int> {
    Set::new(|v: int| 0 <= v < 64 && bit64(w, v as u64))
}

/// Counts the set bits of a word.
pub(crate) fn word_count(w: u64) -> (r: u32)
    ensures
        word_members(w).finite(),
        r as int == word_members(w).len(),
{
    let mut c: u32 = 0;
    let mut i: u32 = 0;
    proof {
        assert(members_below(word_members(w), 0) =~= Set::<int>::empty());
    }
    while i < 64
        invariant
            i <= 64,
            c <= i,
            c as int == members_below(word_members(w), i as int).len(),
            members_below(word_members(w), i as int).finite(),
        decreases 64 - i,
    {
        let is_member = (w >> (i as u64)) & 1u64 == 1u64;
        proof {
            let m = word_members(w);
            let mb = members_below(m, i as int);
            assert((i as int) as u64 == i as u64);
            assert(is_member == bit64(w, i as u64));
            if is_member {
                assert(m.contains(i as int));
                assert(!mb.contains(i as int));
                assert(members_below(m, i as int + 1) =~= mb.insert(i as int));
            } else {
                assert(members_below(m, i as int + 1) =~= mb);
            }
        }
        if is_member {
            c = c + 1;
        }
        i = i + 1;
    }
    proof {
        assert(members_below(word_members(w), 64) =~= word_members(w));
    }
    c
}

/// Tests whether every member of `a` is a member of `b`, through the
/// symmetric difference of the two words.
pub(crate) fn word_subset(a: u64, b: u64) -> (r: bool)
    ensures
        r <==> word_members(a).subset_of(word_members(b)),
{
    let d = a ^ b;
    let r = (a & d) == 0;
    proof {
        lemma_bit_xor(a, b);
        lemma_bit_and(a, d);
        lemma_bit_zero();
        if a & d == 0 {
            assert forall|v: int| word_members(a).contains(v) implies word_members(
                b,
            ).contains(v) by {
                assert(bit64(a & d, v as u64) == bit64(0u64, v as u64));
            };
        } else {
            lemma_bit_nonzero(a & d);
            let i = choose|i: u64| i < 64 && bit64(a & d, i);
            assert(word_members(a).contains(i as int));
            assert(!word_members(b).contains(i as int));
        }
    }
    r
}

/// Tests whether the two words share a member.
pub(crate) fn word_overlaps(a: u64, b: u64) -> (r: bool)
    ensures
        r <==> word_members(a).intersect(word_members(b)) != Set::<int>::empty(),
{
    let r = (a & b) != 0;
    proof {
        lemma_bit_and(a, b);
        lemma_bit_zero();
        if a & b == 0 {
            assert forall|v: int| !word_members(a).intersect(word_members(b)).contains(
                v,
            ) by {
                if 0 <= v < 64 {
                    assert(bit64(a & b, v as u64) == bit64(0u64, v as u64));
                }
            };
            assert(word_members(a).intersect(word_members(b)) =~= Set::<int>::empty());
        } else {
            lemma_bit_nonzero(a & b);
            let i = choose|i: u64| i < 64 && bit64(a & b, i);
            assert(word_members(a).intersect(word_members(b)).contains(i as int));
        }
    }
    r
}

impl ImmutableSet for u64 {
    open spec fn members(&self) -> Set<int> {
        word_members(*self)
    }

    open spec fn spec_range_max() -> int {
        63
    }

    proof fn lemma_members_in_domain(&self) {
    }

    proof fn lemma_range_max_fits() {
    }

    proof fn lemma_members_determine_value(a: u64, b: u64) {
        assert forall|i: u64| i < 64 implies bit64(a, i) == bit64(b, i) by {
            assert(word_members(a).contains(i as int) == word_members(b).contains(
                i as int,
            ));
        };
        lemma_bit_ext(a, b);
    }

    fn set_range_min() -> u32 {
        0
    }

    fn set_range_max() -> u32 {
        63
    }

    fn is_set_empty(&self) -> (r: bool) {
        proof {
            if *self == 0 {
                lemma_bit_zero();
                assert(word_members(*self) =~= Set::<int>::empty());
            } else {
                lemma_bit_nonzero(*self);
                let i = choose|i: u64| i < 64 && bit64(*self, i);
                assert(word_members(*self).contains(i as int));
            }
        }
        *self == 0
    }

    fn is_set_full(&self) -> (r: bool) {
        proof {
            lemma_bit_not(*self);
            lemma_bit_zero();
            if !*self == 0 {
                assert forall|v: int| 0 <= v < 64 implies word_members(*self).contains(
                    v,
                ) by {
                    assert(bit64(!*self, v as u64) == bit64(0u64, v as u64));
                };
                assert(word_members(*self) =~= set_int_range(0, 64));
            } else {
                lemma_bit_nonzero(!*self);
                let i = choose|i: u64| i < 64 && bit64(!*self, i);
                assert(!word_members(*self).contains(i as int));
                assert(set_int_range(0, 64).contains(i as int));
            }
        }
        !*self == 0
    }

    fn new_empty_set() -> (r: u64) {
        proof {
            lemma_bit_zero();
            assert(word_members(0) =~= Set::<int>::empty());
        }
        0u64
    }

    fn new_full_set() -> (r: u64) {
        proof {
            lemma_bit_not(0u64);
            lemma_bit_zero();
            assert(word_members(!0u64) =~= set_int_range(0, 64));
            lemma_int_range(0, 64);
        }
        !0u64
    }

    fn new(values: Vec<u32>) -> (r: u64) {
        let mut set: u64 = 0;
        let mut idx: usize = 0;
        proof {
            lemma_bit_zero();
            assert(word_members(0) =~= Set::<int>::empty());
            assert(values_in(values@.take(0)) =~= Set::<int>::empty());
        }
        while idx < values.len()
            invariant
                idx <= values@.len(),
                forall|j: int| 0 <= j < values@.len() ==> (#[trigger] values@[j]) as int
                    <= 63,
                word_members(set) == values_in(values@.take(idx as int)),
            decreases values@.len() - idx,
        {
            let ghost prefix = values@.take(idx as int);
            let v = values[idx];
            set = ImmutableSet::add(&set, v);
            proof {
                assert(values@.take(idx as int + 1) =~= prefix.push(v));
                lemma_values_in_push(prefix, v);
            }
            idx = idx + 1;
        }
        proof {
            assert(values@.take(values@.len() as int) =~= values@);
        }
        set
    }

    fn count(&self) -> (r: u32) {
        word_count(*self)
    }

    fn shift_set(&self, delta: i32) -> (r: u64) {
        let w = *self;
        if delta == 0 {
            proof {
                assert(shifted_members(word_members(w), 0, 64) =~= word_members(w));
            }
            w
        } else if delta >= 64 || delta <= -64 {
            proof {
                lemma_bit_zero();
                assert(word_members(0u64) =~= shifted_members(
                    word_members(w),
                    delta as int,
                    64,
                ));
            }
            0u64
        } else if delta > 0 {
            let d = delta as u64;
            let r = w << d;
            proof {
                assert forall|v: int| 0 <= v < 64 implies #[trigger] word_members(
                    r,
                ).contains(v) == shifted_members(word_members(w), delta as int, 64).contains(
                    v,
                ) by {
                    lemma_bit_shl(w, d, v as u64);
                };
                assert(word_members(r) =~= shifted_members(
                    word_members(w),
                    delta as int,
                    64,
                ));
            }
            r
        } else {
            let d = (-delta) as u64;
            let r = w >> d;
            proof {
                assert forall|v: int| 0 <= v < 64 implies #[trigger] word_members(
                    r,
                ).contains(v) == shifted_members(word_members(w), delta as int, 64).contains(
                    v,
                ) by {
                    lemma_bit_shr(w, d, v as u64);
                };
                assert(word_members(r) =~= shifted_members(
                    word_members(w),
                    delta as int,
                    64,
                ));
            }
            r
        }
    }

    fn shift_adjacent(&self, delta: i32, adjacent: u64) -> (r: u64) {
        if delta == 0 {
            return *self;
        }
        let shifted = ImmutableSet::shift_set(self, delta);
        let moved_in = if delta < 0 {
            ImmutableSet::shift_set(&adjacent, delta + 64)
        } else {
            ImmutableSet::shift_set(&adjacent, delta - 64)
        };
        ImmutableSet::union(&shifted, moved_in)
    }

    fn union(&self, other: u64) -> (r: u64) {
        let r = *self | other;
        proof {
            lemma_bit_or(*self, other);
            assert(word_members(r) =~= word_members(*self).union(word_members(other)));
        }
        r
    }

    fn intersection(&self, other: u64) -> (r: u64) {
        let r = *self & other;
        proof {
            lemma_bit_and(*self, other);
            assert(word_members(r) =~= word_members(*self).intersect(
                word_members(other),
            ));
        }
        r
    }

    fn compliment(&self) -> (r: u64) {
        let r = !*self;
        proof {
            lemma_bit_not(*self);
            assert(word_members(r) =~= set_int_range(0, 64).difference(
                word_members(*self),
            ));
        }
        r
    }

    fn add(&self, value: u32) -> (r: u64) {
        let mask = 1u64 << (value as u64);
        let r = *self | mask;
        proof {
            lemma_bit_single(value as u64);
            lemma_bit_or(*self, mask);
            assert(word_members(r) =~= word_members(*self).insert(value as int));
        }
        r
    }

    fn add_vec(&self, values: Vec<u32>) -> (r: u64) {
        let mut set: u64 = *self;
        let mut idx: usize = 0;
        proof {
            assert(values_in(values@.take(0)) =~= Set::<int>::empty());
            assert(word_members(set) =~= word_members(*self).union(
                values_in(values@.take(0)),
            ));
        }
        while idx < values.len()
            invariant
                idx <= values@.len(),
                forall|j: int| 0 <= j < values@.len() ==> (#[trigger] values@[j]) as int
                    <= 63,
                word_members(set) == word_members(*self).union(
                    values_in(values@.take(idx as int)),
                ),
            decreases values@.len() - idx,
        {
            let ghost prefix = values@.take(idx as int);
            let v = values[idx];
            set = ImmutableSet::add(&set, v);
            proof {
                assert(values@.take(idx as int + 1) =~= prefix.push(v));
                lemma_values_in_push(prefix, v);
                assert(word_members(set) =~= word_members(*self).union(
                    values_in(values@.take(idx as int + 1)),
                ));
            }
            idx = idx + 1;
        }
        proof {
            assert(values@.take(values@.len() as int) =~= values@);
        }
        set
    }

    fn clear(&self) -> (r: u64) {
        proof {
            lemma_bit_zero();
            assert(word_members(0) =~= Set::<int>::empty());
        }
        0u64
    }

    fn contains(&self, value: u32) -> (r: bool) {
        if value > 63 {
            return false;
        }
        let mask = 1u64 << (value as u64);
        let r = *self & mask != 0;
        proof {
            lemma_bit_single(value as u64);
            lemma_bit_and(*self, mask);
            lemma_bit_zero();
            if *self & mask != 0 {
                lemma_bit_nonzero(*self & mask);
                let i = choose|i: u64| i < 64 && bit64(*self & mask, i);
                assert(i == value as u64 && bit64(*self, i));
            } else {
                assert(bit64(*self & mask, value as u64) == bit64(0u64, value as u64));
            }
        }
        r
    }

    fn except(&self, other: u64) -> (r: u64) {
        let r = *self & !other;
        proof {
            lemma_bit_not(other);
            lemma_bit_and(*self, !other);
            assert(word_members(r) =~= word_members(*self).difference(
                word_members(other),
            ));
        }
        r
    }

    fn is_proper_subset_of(&self, other: u64) -> (r: bool) {
        let d = *self ^ other;
        let sub = word_subset(*self, other);
        let extra = word_overlaps(other, d);
        proof {
            lemma_bit_xor(*self, other);
            if sub {
                if extra {
                    lemma_nonempty_has_member(
                        word_members(other).intersect(word_members(d)),
                    );
                    let v = choose|v: int|
                        word_members(other).intersect(word_members(d)).contains(v);
                    assert(!word_members(*self).contains(v));
                } else {
                    assert forall|v: int| word_members(other).contains(v) implies word_members(
                        *self,
                    ).contains(v) by {
                        if !word_members(*self).contains(v) {
                            assert(word_members(other).intersect(word_members(d)).contains(
                                v,
                            ));
                        }
                    };
                    assert(word_members(*self) =~= word_members(other));
                }
            }
        }
        sub && extra
    }

    fn is_subset_of(&self, other: u64) -> (r: bool) {
        word_subset(*self, other)
    }

    fn is_proper_superset_of(&self, other: u64) -> (r: bool) {
        let d = *self ^ other;
        let sup = word_subset(other, *self);
        let extra = word_overlaps(*self, d);
        proof {
            lemma_bit_xor(*self, other);
            if sup {
                if extra {
                    lemma_nonempty_has_member(
                        word_members(*self).intersect(word_members(d)),
                    );
                    let v = choose|v: int|
                        word_members(*self).intersect(word_members(d)).contains(v);
                    assert(!word_members(other).contains(v));
                } else {
                    assert forall|v: int| word_members(*self).contains(v) implies word_members(
                        other,
                    ).contains(v) by {
                        if !word_members(other).contains(v) {
                            assert(word_members(*self).intersect(word_members(d)).contains(
                                v,
                            ));
                        }
                    };
                    assert(word_members(*self) =~= word_members(other));
                }
            }
        }
        sup && extra
    }

    fn is_superset_of(&self, other: u64) -> (r: bool) {
        word_subset(other, *self)
    }

    fn overlaps(&self, other: u64) -> (r: bool) {
        word_overlaps(*self, other)
    }

    fn remove(&self, value: u32) -> (r: u64) {
        let mask = 1u64 << (value as u64);
        let r = *self & !mask;
        proof {
            lemma_bit_single(value as u64);
            lemma_bit_not(mask);
            lemma_bit_and(*self, !mask);
            assert(word_members(r) =~= word_members(*self).remove(value as int));
        }
        r
    }

    fn symmetric_except(&self, other: u64) -> (r: u64) {
        let r = *self ^ other;
        proof {
            lemma_bit_xor(*self, other);
            assert(word_members(r) =~= word_members(*self).union(
                word_members(other),
            ).difference(word_members(*self).intersect(word_members(other))));
        }
        r
    }

    fn values(&self) -> (r: ImmutableSetIterator<u64>) {
        ImmutableSetIterator::from_set(*self)
    }
}

} // verus!
