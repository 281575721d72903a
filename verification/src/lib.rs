//! Immutable fixed-domain sets of small non-negative integers, stored as
//! bit patterns in one or more 64-bit words.
//!
//! A set value is a plain bit pattern: bit `i` is set exactly when the
//! integer `i` is a member. Each representation fixes a closed domain of
//! values it can hold; every operation is pure and returns a new value.
//! The contracts are stated over `members`, the set of integers a value
//! holds.

use vstd::prelude::*;
use vstd::set_lib::set_int_range;

pub mod bits;
pub mod laws;
pub mod model;
pub mod vector_set;
pub mod word_set;

use crate::model::shifted_members;
use crate::model::values_in;
use crate::model::lemma_bounded_set_finite;

verus! {

/// An immutable set of integers drawn from the fixed domain
/// `[0, Self::spec_range_max()]`.
pub trait ImmutableSet: Sized + Copy {
    /// The integers this value holds.
    spec fn members(&self) -> Set<int>;

    /// The largest integer the domain admits (the smallest is 0).
    spec fn spec_range_max() -> int;

    /// Every member lies in the domain.
    proof fn lemma_members_in_domain(&self)
        ensures
            forall|v: int| #[trigger] self.members().contains(v) ==> 0 <= v
                <= Self::spec_range_max(),
    ;

    /// The domain bound fits in a `u32` cursor.
    proof fn lemma_range_max_fits()
        ensures
            0 <= Self::spec_range_max() < 0xffff_ffff,
    ;

    /// A set value is nothing but its members: equal members mean equal
    /// values.
    proof fn lemma_members_determine_value(a: Self, b: Self)
        requires
            a.members() == b.members(),
        ensures
            a == b,
    ;

    /// The smallest value the domain admits.
    fn set_range_min() -> (r: u32)
        ensures
            r == 0u32,
    ;

    /// The largest value the domain admits.
    fn set_range_max() -> (r: u32)
        ensures
            r as int == Self::spec_range_max(),
    ;

    /// True exactly when the set has no member.
    fn is_set_empty(&self) -> (r: bool)
        ensures
            r <==> self.members() == Set::<int>::empty(),
    ;

    /// True exactly when every value of the domain is a member.
    fn is_set_full(&self) -> (r: bool)
        ensures
            r <==> self.members() == set_int_range(0, Self::spec_range_max() + 1),
    ;

    /// The set with no members: the all-zero bit pattern.
    fn new_empty_set() -> (r: Self)
        ensures
            r.members() == Set::<int>::empty(),
    ;

    /// The set holding the whole domain: the all-one bit pattern.
    fn new_full_set() -> (r: Self)
        ensures
            r.members() == set_int_range(0, Self::spec_range_max() + 1),
            r.members().finite(),
            r.members().len() == Self::spec_range_max() + 1,
    ;

    /// The set holding exactly the given values, which must lie in the
    /// domain; order and repetition make no difference.
    fn new(values: Vec<u32>) -> (r: Self)
        requires
            forall|j: int| 0 <= j < values@.len() ==> (#[trigger] values@[j]) as int
                <= Self::spec_range_max(),
        ensures
            r.members() == values_in(values@),
    ;

    /// The number of members.
    fn count(&self) -> (r: u32)
        ensures
            self.members().finite(),
            r as int == self.members().len(),
    ;

    /// Moves every member up by `delta` (down for a negative `delta`).
    /// Members pushed outside the domain are dropped; a zero shift
    /// returns the set unchanged.
    fn shift_set(&self, delta: i32) -> (r: Self)
        ensures
            r.members() == shifted_members(
                self.members(),
                delta as int,
                Self::spec_range_max() + 1,
            ),
            delta == 0 ==> r == *self,
    ;

    /// Shifts as `shift_set` does, and also pulls in the members of a
    /// set occupying the neighbouring domain window that the shift
    /// exposes: the window below the domain for a positive `delta`, the
    /// window above it for a negative one.
    fn shift_adjacent(&self, delta: i32, adjacent: Self) -> (r: Self)
        ensures
            delta == 0 ==> r == *self,
            delta > 0 ==> r.members() == shifted_members(
                self.members(),
                delta as int,
                Self::spec_range_max() + 1,
            ).union(
                shifted_members(
                    adjacent.members(),
                    delta as int - (Self::spec_range_max() + 1),
                    Self::spec_range_max() + 1,
                ),
            ),
            delta < 0 ==> r.members() == shifted_members(
                self.members(),
                delta as int,
                Self::spec_range_max() + 1,
            ).union(
                shifted_members(
                    adjacent.members(),
                    delta as int + Self::spec_range_max() + 1,
                    Self::spec_range_max() + 1,
                ),
            ),
    ;

    /// The members of either set.
    fn union(&self, other: Self) -> (r: Self)
        ensures
            r.members() == self.members().union(other.members()),
    ;

    /// The members of both sets.
    fn intersection(&self, other: Self) -> (r: Self)
        ensures
            r.members() == self.members().intersect(other.members()),
    ;

    /// The values of the domain that are not members.
    fn compliment(&self) -> (r: Self)
        ensures
            r.members() == set_int_range(0, Self::spec_range_max() + 1).difference(
                self.members(),
            ),
    ;

    /// The set with `value` added. Values outside the domain are ruled
    /// out at the contract level: callers must stay within it.
    fn add(&self, value: u32) -> (r: Self)
        requires
            value as int <= Self::spec_range_max(),
        ensures
            r.members() == self.members().insert(value as int),
    ;

    /// The set with every given in-domain value added.
    fn add_vec(&self, values: Vec<u32>) -> (r: Self)
        requires
            forall|j: int| 0 <= j < values@.len() ==> (#[trigger] values@[j]) as int
                <= Self::spec_range_max(),
        ensures
            r.members() == self.members().union(values_in(values@)),
    ;

    /// The empty set.
    fn clear(&self) -> (r: Self)
        ensures
            r.members() == Set::<int>::empty(),
    ;

    /// Membership test; any value outside the domain is simply not a
    /// member, so the test is safe for every input.
    fn contains(&self, value: u32) -> (r: bool)
        ensures
            r == self.members().contains(value as int),
    ;

    /// The members of this set that are not members of `other`.
    fn except(&self, other: Self) -> (r: Self)
        ensures
            r.members() == self.members().difference(other.members()),
    ;

    /// True when every member is a member of `other` and the sets
    /// differ.
    fn is_proper_subset_of(&self, other: Self) -> (r: bool)
        ensures
            r <==> (self.members().subset_of(other.members()) && self.members()
                != other.members()),
    ;

    /// True when every member is a member of `other`.
    fn is_subset_of(&self, other: Self) -> (r: bool)
        ensures
            r <==> self.members().subset_of(other.members()),
    ;

    /// True when every member of `other` is a member and the sets
    /// differ.
    fn is_proper_superset_of(&self, other: Self) -> (r: bool)
        ensures
            r <==> (other.members().subset_of(self.members()) && self.members()
                != other.members()),
    ;

    /// True when every member of `other` is a member.
    fn is_superset_of(&self, other: Self) -> (r: bool)
        ensures
            r <==> other.members().subset_of(self.members()),
    ;

    /// True when the two sets share a member.
    fn overlaps(&self, other: Self) -> (r: bool)
        ensures
            r <==> self.members().intersect(other.members()) != Set::<int>::empty(),
    ;

    /// The set with `value` taken out. Values outside the domain are
    /// ruled out at the contract level: callers must stay within it.
    fn remove(&self, value: u32) -> (r: Self)
        requires
            value as int <= Self::spec_range_max(),
        ensures
            r.members() == self.members().remove(value as int),
    ;

    /// The members of exactly one of the two sets.
    fn symmetric_except(&self, other: Self) -> (r: Self)
        ensures
            r.members() == self.members().union(other.members()).difference(
                self.members().intersect(other.members()),
            ),
    ;

    /// An enumerator over a snapshot of the set, yielding the members
    /// in ascending order.
    fn values(&self) -> (r: ImmutableSetIterator<Self>)
        ensures
            r.cursor() == 0,
            r.source() == *self,
    ;
}

/// A lazy enumerator of the members of a set snapshot, in ascending
/// order. It keeps a working copy of the set and a cursor; each step
/// tests the lowest domain position of the copy, shifts the copy down
/// by one, and moves the cursor up by one.
pub struct ImmutableSetIterator<T> {
    count: u32,
    value: T,
}

impl<T> ImmutableSetIterator<T> {
    /// The cursor: the next candidate value to test.
    pub closed spec fn cursor(&self) -> int {
        self.count as int
    }

    /// The working copy of the set being enumerated.
    pub closed spec fn source(&self) -> T {
        self.value
    }

    /// Starts an enumeration of the members of `value`.
    pub fn from_set(value: T) -> (r: Self)
        ensures
            r.cursor() == 0,
            r.source() == value,
    {
        ImmutableSetIterator { count: 0u32, value }
    }
}

/// The sequence is strictly ascending.
pub open spec fn ascending(s: Seq<u32>) -> bool {
    forall|i: int, j: int| 0 <= i < j < s.len() ==> s[i] < s[j]
}

/// Every value of the sequence lies below every member of the set.
pub open spec fn all_below(s: Seq<u32>, rem: Set<int>) -> bool {
    forall|i: int, k: int| #![trigger rem.contains(k), s[i]] 0 <= i < s.len()
        && rem.contains(k) ==> (s[i] as int) < k
}

impl<T: ImmutableSet> ImmutableSetIterator<T> {
    /// The values the enumerator has not yielded yet.
    pub closed spec fn remaining(&self) -> Set<int> {
        Set::new(|v: int| self.value.members().contains(v - self.count))
    }

    /// A freshly started enumeration has the whole snapshot ahead of it.
    pub proof fn lemma_initial(&self)
        requires
            self.cursor() == 0,
        ensures
            self.remaining() == self.source().members(),
            self.wf(),
    {
        self.value.lemma_members_in_domain();
        assert(self.remaining() =~= self.source().members());
    }

    /// The values still to be yielded all lie in the domain.
    pub open spec fn wf(&self) -> bool {
        forall|v: int| #[trigger] self.remaining().contains(v) ==> 0 <= v
            <= T::spec_range_max()
    }

    /// Yields the least value not yet yielded, or `None` once the
    /// working copy is exhausted.
    pub fn next(&mut self) -> (r: Option<u32>)
        requires
            old(self).wf(),
        ensures
            final(self).wf(),
            (match r {
                Option::Some(v) => {
                    &&& old(self).remaining().contains(v as int)
                    &&& forall|k: int| #[trigger] old(self).remaining().contains(k)
                        ==> v as int <= k
                    &&& final(self).remaining() == old(self).remaining().remove(v as int)
                },
                Option::None => {
                    &&& old(self).remaining() == Set::<int>::empty()
                    &&& final(self).remaining() == old(self).remaining()
                },
            }),
    {
        proof {
            self.value.lemma_members_in_domain();
            assert forall|k: int| #[trigger] old(self).remaining().contains(k) implies k
                >= self.count as int by {
                assert(self.value.members().contains(k - self.count as int));
            };
        }
        while !self.value.is_set_empty()
            invariant
                self.wf(),
                self.remaining() == old(self).remaining(),
                forall|k: int| #[trigger] old(self).remaining().contains(k) ==> k
                    >= self.count as int,
            decreases T::spec_range_max() + 1 - self.count as int,
        {
            proof {
                self.value.lemma_members_in_domain();
                T::lemma_range_max_fits();
                crate::model::lemma_nonempty_has_member(self.value.members());
                let w = choose|w: int| self.value.members().contains(w);
                assert(self.value.members().contains(w));
                assert(self.remaining().contains(w + self.count as int));
            }
            let has_min = self.value.contains(T::set_range_min());
            let value = self.count;
            let ghost m = self.value.members();
            self.value = self.value.shift_set(-1);
            self.count = self.count + 1;
            proof {
                let c = value as int;
                if has_min {
                    assert(old(self).remaining().contains(c));
                    assert forall|v: int| self.remaining().contains(v) implies old(
                        self,
                    ).remaining().remove(c).contains(v) by {
                        assert(m.contains(v - c));
                    };
                    assert forall|v: int| old(self).remaining().remove(c).contains(
                        v,
                    ) implies self.remaining().contains(v) by {
                        assert(m.contains(v - c));
                        assert(v - c >= 0 && v - c != 0);
                        assert(v <= T::spec_range_max());
                    };
                    assert(self.remaining() =~= old(self).remaining().remove(c));
                } else {
                    assert forall|v: int| self.remaining().contains(v) implies old(
                        self,
                    ).remaining().contains(v) by {
                        assert(m.contains(v - c));
                    };
                    assert forall|v: int| old(self).remaining().contains(v) implies self
                        .remaining().contains(v) by {
                        assert(m.contains(v - c));
                        assert(v - c != 0);
                        assert(v <= T::spec_range_max());
                    };
                    assert(self.remaining() =~= old(self).remaining());
                }
            }
            if has_min {
                return Option::Some(value);
            }
        }
        proof {
            assert(self.remaining() =~= Set::<int>::empty());
        }
        Option::None
    }

    /// Yields everything that is left, as a strictly ascending vector.
    pub fn collect_remaining(&mut self) -> (r: Vec<u32>)
        requires
            old(self).wf(),
        ensures
            final(self).wf(),
            final(self).remaining() == Set::<int>::empty(),
            values_in(r@) == old(self).remaining(),
            r@.len() == old(self).remaining().len(),
            ascending(r@),
    {
        proof {
            T::lemma_range_max_fits();
            lemma_bounded_set_finite(old(self).remaining(), T::spec_range_max() + 1);
        }
        let mut out: Vec<u32> = Vec::new();
        while !self.value.is_set_empty()
            invariant
                self.wf(),
                self.remaining().finite(),
                out@.len() + self.remaining().len() == old(self).remaining().len(),
                values_in(out@).union(self.remaining()) == old(self).remaining(),
                ascending(out@),
                all_below(out@, self.remaining()),
            decreases self.remaining().len(),
        {
            proof {
                crate::model::lemma_nonempty_has_member(self.value.members());
                let w = choose|w: int| self.value.members().contains(w);
                assert(self.value.members().contains(w));
                assert(self.remaining().contains(w + self.count as int));
            }
            let ghost pre = *self;
            let ghost sofar = out@;
            match self.next() {
                Option::Some(v) => {
                    out.push(v);
                    proof {
                        crate::model::lemma_values_in_push(sofar, v);
                        assert(values_in(out@).union(self.remaining()) =~= values_in(
                            sofar,
                        ).union(pre.remaining()));
                    }
                },
                Option::None => {
                    proof {
                        assert(false);
                    }
                },
            }
        }
        proof {
            assert(self.remaining() =~= Set::<int>::empty());
            assert(values_in(out@).union(self.remaining()) =~= values_in(out@));
        }
        out
    }
}

} // verus!
