//! The multi-word set: a fixed 256-slot set composed of four 64-bit
//! lanes, ordered low to high. Value `v` lives in lane `v >> 6` at bit
//! `v & 63`. The cross-lane shifts move whole lanes first and then merge
//! the bits carried between neighbouring lanes, exactly as a shift of a
//! 256-bit integer held in four machine words.

use vstd::prelude::*;
use vstd::set_lib::set_int_range;
use vstd::set_lib::lemma_int_range;

use crate::ImmutableSet;
use crate::ImmutableSetIterator;
use crate::bits::bit64;
use crate::bits::lemma_bit_and;
use crate::bits::lemma_bit_ext;
use crate::bits::lemma_bit_not;
use crate::bits::lemma_bit_or;
use crate::bits::lemma_bit_shl;
use crate::bits::lemma_bit_shr;
use crate::bits::lemma_bit_single;
use crate::bits::lemma_bit_zero;
use crate::model::lemma_nonempty_has_member;
use crate::model::lemma_shifted_compose;
use crate::model::lemma_values_in_push;
use crate::model::members_below;
use crate::model::shifted_members;
use crate::model::values_in;
use crate::word_set::word_members;
use crate::word_set::word_overlaps;
use crate::word_set::word_subset;

verus! {

/// A 256-slot set held in four 64-bit lanes.
#[derive(Clone, Copy, PartialEq, Eq, Debug)]
pub struct VectorSet {
    pub lane0: u64,
    pub lane1: u64,
    pub lane2: u64,
    pub lane3: u64,
}

/// The members a four-lane value holds.
pub open spec fn vec_members(s: VectorSet) -> Set<int> {
    Set::new(
        |v: int|
            (0 <= v < 64 && bit64(s.lane0, v as u64)) || (64 <= v < 128 && bit64(
                s.lane1,
                (v - 64) as u64,
            )) || (128 <= v < 192 && bit64(s.lane2, (v - 128) as u64)) || (192 <= v < 256
                && bit64(s.lane3, (v - 192) as u64)),
    )
}

/// Equal members force equal lanes.
proof fn lemma_vec_determine(a: VectorSet, b: VectorSet)
    requires
        vec_members(a) == vec_members(b),
    ensures
        a == b,
{
    assert forall|i: u64| i < 64 implies bit64(a.lane0, i) == bit64(b.lane0, i) by {
        assert((i as int) as u64 == i);
        assert(vec_members(a).contains(i as int) == bit64(a.lane0, i));
        assert(vec_members(b).contains(i as int) == bit64(b.lane0, i));
        assert(vec_members(a).contains(i as int) == vec_members(b).contains(i as int));
    };
    lemma_bit_ext(a.lane0, b.lane0);
    assert forall|i: u64| i < 64 implies bit64(a.lane1, i) == bit64(b.lane1, i) by {
        assert(((64 + i as int) - 64) as u64 == i);
        assert(vec_members(a).contains(64 + i as int) == bit64(a.lane1, i));
        assert(vec_members(b).contains(64 + i as int) == bit64(b.lane1, i));
        assert(vec_members(a).contains(64 + i as int) == vec_members(b).contains(
            64 + i as int,
        ));
    };
    lemma_bit_ext(a.lane1, b.lane1);
    assert forall|i: u64| i < 64 implies bit64(a.lane2, i) == bit64(b.lane2, i) by {
        assert(((128 + i as int) - 128) as u64 == i);
        assert(vec_members(a).contains(128 + i as int) == bit64(a.lane2, i));
        assert(vec_members(b).contains(128 + i as int) == bit64(b.lane2, i));
        assert(vec_members(a).contains(128 + i as int) == vec_members(b).contains(
            128 + i as int,
        ));
    };
    lemma_bit_ext(a.lane2, b.lane2);
    assert forall|i: u64| i < 64 implies bit64(a.lane3, i) == bit64(b.lane3, i) by {
        assert(((192 + i as int) - 192) as u64 == i);
        assert(vec_members(a).contains(192 + i as int) == bit64(a.lane3, i));
        assert(vec_members(b).contains(192 + i as int) == bit64(b.lane3, i));
        assert(vec_members(a).contains(192 + i as int) == vec_members(b).contains(
            192 + i as int,
        ));
    };
    lemma_bit_ext(a.lane3, b.lane3);
}

/// Reads one bit of a word.
fn word_bit(w: u64, i: u32) -> (r: bool)
    requires
        i < 64,
    ensures
        r == bit64(w, i as u64),
{
    (w >> (i as u64)) & 1u64 == 1u64
}

/// Moves whole lanes down by `delta` positions: lane `i` receives the
/// old lane `i + delta`; the vacated top lanes fill with zero. Members
/// move down by `64 * delta`.
fn shift_lanes_left(v: &VectorSet, delta: u32) -> (r: VectorSet)
    ensures
        vec_members(r) == shifted_members(vec_members(*v), -64 * delta as int, 256),
{
    let r = if delta == 0 {
        *v
    } else if delta == 1 {
        VectorSet { lane0: v.lane1, lane1: v.lane2, lane2: v.lane3, lane3: 0u64 }
    } else if delta == 2 {
        VectorSet { lane0: v.lane2, lane1: v.lane3, lane2: 0u64, lane3: 0u64 }
    } else if delta == 3 {
        VectorSet { lane0: v.lane3, lane1: 0u64, lane2: 0u64, lane3: 0u64 }
    } else {
        VectorSet { lane0: 0u64, lane1: 0u64, lane2: 0u64, lane3: 0u64 }
    };
    proof {
        lemma_bit_zero();
        assert(vec_members(r) =~= shifted_members(
            vec_members(*v),
            -64 * delta as int,
            256,
        ));
    }
    r
}

/// Moves whole lanes up by `delta` positions: lane `i` receives the old
/// lane `i - delta`; the vacated bottom lanes fill with zero. Members
/// move up by `64 * delta`.
fn shift_lanes_right(v: &VectorSet, delta: u32) -> (r: VectorSet)
    ensures
        vec_members(r) == shifted_members(vec_members(*v), 64 * delta as int, 256),
{
    let r = if delta == 0 {
        *v
    } else if delta == 1 {
        VectorSet { lane0: 0u64, lane1: v.lane0, lane2: v.lane1, lane3: v.lane2 }
    } else if delta == 2 {
        VectorSet { lane0: 0u64, lane1: 0u64, lane2: v.lane0, lane3: v.lane1 }
    } else if delta == 3 {
        VectorSet { lane0: 0u64, lane1: 0u64, lane2: 0u64, lane3: v.lane0 }
    } else {
        VectorSet { lane0: 0u64, lane1: 0u64, lane2: 0u64, lane3: 0u64 }
    };
    proof {
        lemma_bit_zero();
        assert(vec_members(r) =~= shifted_members(
            vec_members(*v),
            64 * delta as int,
            256,
        ));
    }
    r
}

/// One lane of an upward sub-lane shift: the lane's own bits move up by
/// `sub` and the top bits of the lane below slide in underneath.
fn merge_up(cur: u64, lower: u64, sub: u32) -> (r: u64)
    requires
        0 < sub < 64,
    ensures
        forall|o: u64| o < 64 && o >= sub ==> #[trigger] bit64(r, o) == bit64(
            cur,
            (o - sub) as u64,
        ),
        forall|o: u64| o < sub ==> #[trigger] bit64(r, o) == bit64(
            lower,
            (o + 64 - sub) as u64,
        ),
{
    let s = sub as u64;
    let inv = (64 - sub) as u64;
    let r = (cur << s) | (lower >> inv);
    proof {
        lemma_bit_or(cur << s, lower >> inv);
        assert forall|o: u64| o < 64 && o >= sub implies #[trigger] bit64(r, o) == bit64(
            cur,
            (o - sub) as u64,
        ) by {
            lemma_bit_shl(cur, s, o);
            lemma_bit_shr(lower, inv, o);
            assert((o - s) as u64 == (o - sub) as u64);
        };
        assert forall|o: u64| o < sub implies #[trigger] bit64(r, o) == bit64(
            lower,
            (o + 64 - sub) as u64,
        ) by {
            lemma_bit_shl(cur, s, o);
            lemma_bit_shr(lower, inv, o);
            assert((o + inv) as u64 == (o + 64 - sub) as u64);
        };
    }
    r
}

/// One lane of a downward sub-lane shift: the lane's own bits move down
/// by `sub` and the low bits of the lane above slide in on top.
fn merge_down(cur: u64, upper: u64, sub: u32) -> (r: u64)
    requires
        0 < sub < 64,
    ensures
        forall|o: u64| o + sub < 64 ==> #[trigger] bit64(r, o) == bit64(
            cur,
            (o + sub) as u64,
        ),
        forall|o: u64| o < 64 && o + sub >= 64 ==> #[trigger] bit64(r, o) == bit64(
            upper,
            (o + sub - 64) as u64,
        ),
{
    let s = sub as u64;
    let inv = (64 - sub) as u64;
    let r = (cur >> s) | (upper << inv);
    proof {
        lemma_bit_or(cur >> s, upper << inv);
        assert forall|o: u64| o + sub < 64 implies #[trigger] bit64(r, o) == bit64(
            cur,
            (o + sub) as u64,
        ) by {
            lemma_bit_shr(cur, s, o);
            lemma_bit_shl(upper, inv, o);
            assert((o + s) as u64 == (o + sub) as u64);
        };
        assert forall|o: u64| o < 64 && o + sub >= 64 implies #[trigger] bit64(r, o)
            == bit64(upper, (o + sub - 64) as u64) by {
            lemma_bit_shr(cur, s, o);
            lemma_bit_shl(upper, inv, o);
            assert((o - inv) as u64 == (o + sub - 64) as u64);
        };
    }
    r
}

impl ImmutableSet for VectorSet {
    open spec fn members(&self) -> Set<int> {
        vec_members(*self)
    }

    open spec fn spec_range_max() -> int {
        255
    }

    proof fn lemma_members_in_domain(&self) {
    }

    proof fn lemma_range_max_fits() {
    }

    proof fn lemma_members_determine_value(a: VectorSet, b: VectorSet) {
        lemma_vec_determine(a, b);
    }

    fn set_range_min() -> u32 {
        0
    }

    fn set_range_max() -> u32 {
        255
    }

    fn is_set_empty(&self) -> (r: bool) {
        let r = self.lane0 == 0 && self.lane1 == 0 && self.lane2 == 0 && self.lane3 == 0;
        proof {
            lemma_bit_zero();
            if r {
                assert(vec_members(*self) =~= Set::<int>::empty());
            } else {
                if self.lane0 != 0 {
                    crate::bits::lemma_bit_nonzero(self.lane0);
                    let i = choose|i: u64| i < 64 && bit64(self.lane0, i);
                    assert(vec_members(*self).contains(i as int));
                } else if self.lane1 != 0 {
                    crate::bits::lemma_bit_nonzero(self.lane1);
                    let i = choose|i: u64| i < 64 && bit64(self.lane1, i);
                    assert(vec_members(*self).contains(64 + i as int));
                } else if self.lane2 != 0 {
                    crate::bits::lemma_bit_nonzero(self.lane2);
                    let i = choose|i: u64| i < 64 && bit64(self.lane2, i);
                    assert(vec_members(*self).contains(128 + i as int));
                } else {
                    crate::bits::lemma_bit_nonzero(self.lane3);
                    let i = choose|i: u64| i < 64 && bit64(self.lane3, i);
                    assert(vec_members(*self).contains(192 + i as int));
                }
            }
        }
        r
    }

    fn is_set_full(&self) -> (r: bool) {
        let r = self.lane0 == !0u64 && self.lane1 == !0u64 && self.lane2 == !0u64
            && self.lane3 == !0u64;
        proof {
            lemma_bit_not(0u64);
            lemma_bit_zero();
            if r {
                assert forall|v: int| 0 <= v < 256 implies vec_members(*self).contains(
                    v,
                ) by {
                    if v < 64 {
                        assert(bit64(!0u64, v as u64));
                    } else if v < 128 {
                        assert(bit64(!0u64, (v - 64) as u64));
                    } else if v < 192 {
                        assert(bit64(!0u64, (v - 128) as u64));
                    } else {
                        assert(bit64(!0u64, (v - 192) as u64));
                    }
                };
                assert(vec_members(*self) =~= set_int_range(0, 256));
            } else {
                if self.lane0 != !0u64 {
                    let w0 = self.lane0;
                    assert(!w0 != 0) by (bit_vector)
                        requires
                            w0 != !0u64,
                    ;
                    crate::bits::lemma_bit_nonzero(!self.lane0);
                    lemma_bit_not(self.lane0);
                    let i = choose|i: u64| i < 64 && bit64(!self.lane0, i);
                    assert(!vec_members(*self).contains(i as int));
                    assert(set_int_range(0, 256).contains(i as int));
                } else if self.lane1 != !0u64 {
                    let w1 = self.lane1;
                    assert(!w1 != 0) by (bit_vector)
                        requires
                            w1 != !0u64,
                    ;
                    crate::bits::lemma_bit_nonzero(!self.lane1);
                    lemma_bit_not(self.lane1);
                    let i = choose|i: u64| i < 64 && bit64(!self.lane1, i);
                    assert(!vec_members(*self).contains(64 + i as int));
                    assert(set_int_range(0, 256).contains(64 + i as int));
                } else if self.lane2 != !0u64 {
                    let w2 = self.lane2;
                    assert(!w2 != 0) by (bit_vector)
                        requires
                            w2 != !0u64,
                    ;
                    crate::bits::lemma_bit_nonzero(!self.lane2);
                    lemma_bit_not(self.lane2);
                    let i = choose|i: u64| i < 64 && bit64(!self.lane2, i);
                    assert(!vec_members(*self).contains(128 + i as int));
                    assert(set_int_range(0, 256).contains(128 + i as int));
                } else {
                    let w3 = self.lane3;
                    assert(!w3 != 0) by (bit_vector)
                        requires
                            w3 != !0u64,
                    ;
                    crate::bits::lemma_bit_nonzero(!self.lane3);
                    lemma_bit_not(self.lane3);
                    let i = choose|i: u64| i < 64 && bit64(!self.lane3, i);
                    assert(!vec_members(*self).contains(192 + i as int));
                    assert(set_int_range(0, 256).contains(192 + i as int));
                }
            }
        }
        r
    }

    fn new_empty_set() -> (r: VectorSet) {
        let r = VectorSet { lane0: 0u64, lane1: 0u64, lane2: 0u64, lane3: 0u64 };
        proof {
            lemma_bit_zero();
            assert(vec_members(r) =~= Set::<int>::empty());
        }
        r
    }

    fn new_full_set() -> (r: VectorSet) {
        let r = VectorSet { lane0: !0u64, lane1: !0u64, lane2: !0u64, lane3: !0u64 };
        proof {
            lemma_bit_not(0u64);
            lemma_bit_zero();
            assert forall|v: int| 0 <= v < 256 implies vec_members(r).contains(v) by {
                if v < 64 {
                    assert(bit64(!0u64, v as u64));
                } else if v < 128 {
                    assert(bit64(!0u64, (v - 64) as u64));
                } else if v < 192 {
                    assert(bit64(!0u64, (v - 128) as u64));
                } else {
                    assert(bit64(!0u64, (v - 192) as u64));
                }
            };
            assert(vec_members(r) =~= set_int_range(0, 256));
            lemma_int_range(0, 256);
        }
        r
    }

    fn new(values: Vec<u32>) -> (r: VectorSet) {
        let mut set = VectorSet { lane0: 0u64, lane1: 0u64, lane2: 0u64, lane3: 0u64 };
        let mut idx: usize = 0;
        proof {
            lemma_bit_zero();
            assert(vec_members(set) =~= Set::<int>::empty());
            assert(values_in(values@.take(0)) =~= Set::<int>::empty());
        }
        while idx < values.len()
            invariant
                idx <= values@.len(),
                forall|j: int| 0 <= j < values@.len() ==> (#[trigger] values@[j]) as int
                    <= 255,
                vec_members(set) == values_in(values@.take(idx as int)),
            decreases values@.len() - idx,
        {
            let ghost prefix = values@.take(idx as int);
            let v = values[idx];
            set = ImmutableSet::add(&set, v);
            proof {
                assert(values@.take(idx as int + 1) =~= prefix.push(v));
                lemma_values_in_push(prefix, v);
            }
            idx = idx + 1;
        }
        proof {
            assert(values@.take(values@.len() as int) =~= values@);
        }
        set
    }

    fn count(&self) -> (r: u32) {
        let mut c: u32 = 0;
        let mut i: u32 = 0;
        proof {
            assert(members_below(vec_members(*self), 0) =~= Set::<int>::empty());
        }
        while i < 256
            invariant
                i <= 256,
                c <= i,
                c as int == members_below(vec_members(*self), i as int).len(),
                members_below(vec_members(*self), i as int).finite(),
            decreases 256 - i,
        {
            let is_member = ImmutableSet::contains(self, i);
            proof {
                let m = vec_members(*self);
                let mb = members_below(m, i as int);
                if is_member {
                    assert(!mb.contains(i as int));
                    assert(members_below(m, i as int + 1) =~= mb.insert(i as int));
                } else {
                    assert(members_below(m, i as int + 1) =~= mb);
                }
            }
            if is_member {
                c = c + 1;
            }
            i = i + 1;
        }
        proof {
            assert(members_below(vec_members(*self), 256) =~= vec_members(*self));
        }
        c
    }

    fn shift_set(&self, delta: i32) -> (r: VectorSet) {
        if delta == 0 {
            proof {
                assert(shifted_members(vec_members(*self), 0, 256) =~= vec_members(
                    *self,
                ));
            }
            return *self;
        }
        if delta >= 256 || delta <= -256 {
            let r = VectorSet { lane0: 0u64, lane1: 0u64, lane2: 0u64, lane3: 0u64 };
            proof {
                lemma_bit_zero();
                assert(vec_members(r) =~= shifted_members(
                    vec_members(*self),
                    delta as int,
                    256,
                ));
            }
            return r;
        }
        if delta > 0 {
            let d: u32 = delta as u32;
            let ld: u32 = d / 64;
            let sub: u32 = d % 64;
            let moved = shift_lanes_right(self, ld);
            if sub == 0 {
                proof {
                    assert(64 * ld as int == delta as int);
                }
                return moved;
            }
            let r = VectorSet {
                lane0: merge_up(moved.lane0, 0u64, sub),
                lane1: merge_up(moved.lane1, moved.lane0, sub),
                lane2: merge_up(moved.lane2, moved.lane1, sub),
                lane3: merge_up(moved.lane3, moved.lane2, sub),
            };
            proof {
                lemma_bit_zero();
                assert(vec_members(r) =~= shifted_members(
                    vec_members(moved),
                    sub as int,
                    256,
                ));
                lemma_shifted_compose(vec_members(*self), 64 * ld as int, sub as int, 256);
                assert(64 * ld as int + sub as int == delta as int);
            }
            r
        } else {
            let d: u32 = (-delta) as u32;
            let ld: u32 = d / 64;
            let sub: u32 = d % 64;
            let moved = shift_lanes_left(self, ld);
            if sub == 0 {
                proof {
                    assert(-64 * ld as int == delta as int);
                }
                return moved;
            }
            let r = VectorSet {
                lane0: merge_down(moved.lane0, moved.lane1, sub),
                lane1: merge_down(moved.lane1, moved.lane2, sub),
                lane2: merge_down(moved.lane2, moved.lane3, sub),
                lane3: merge_down(moved.lane3, 0u64, sub),
            };
            proof {
                lemma_bit_zero();
                assert(vec_members(r) =~= shifted_members(
                    vec_members(moved),
                    -(sub as int),
                    256,
                ));
                lemma_shifted_compose(
                    vec_members(*self),
                    -64 * ld as int,
                    -(sub as int),
                    256,
                );
                assert(-64 * ld as int - sub as int == delta as int);
            }
            r
        }
    }

    fn shift_adjacent(&self, delta: i32, adjacent: VectorSet) -> (r: VectorSet) {
        if delta == 0 {
            return *self;
        }
        let shifted = ImmutableSet::shift_set(self, delta);
        let moved_in = if delta < 0 {
            ImmutableSet::shift_set(&adjacent, delta + 256)
        } else {
            ImmutableSet::shift_set(&adjacent, delta - 256)
        };
        ImmutableSet::union(&shifted, moved_in)
    }

    fn union(&self, other: VectorSet) -> (r: VectorSet) {
        let r = VectorSet {
            lane0: self.lane0 | other.lane0,
            lane1: self.lane1 | other.lane1,
            lane2: self.lane2 | other.lane2,
            lane3: self.lane3 | other.lane3,
        };
        proof {
            lemma_bit_or(self.lane0, other.lane0);
            lemma_bit_or(self.lane1, other.lane1);
            lemma_bit_or(self.lane2, other.lane2);
            lemma_bit_or(self.lane3, other.lane3);
            assert(vec_members(r) =~= vec_members(*self).union(vec_members(other)));
        }
        r
    }

    fn intersection(&self, other: VectorSet) -> (r: VectorSet) {
        let r = VectorSet {
            lane0: self.lane0 & other.lane0,
            lane1: self.lane1 & other.lane1,
            lane2: self.lane2 & other.lane2,
            lane3: self.lane3 & other.lane3,
        };
        proof {
            lemma_bit_and(self.lane0, other.lane0);
            lemma_bit_and(self.lane1, other.lane1);
            lemma_bit_and(self.lane2, other.lane2);
            lemma_bit_and(self.lane3, other.lane3);
            assert(vec_members(r) =~= vec_members(*self).intersect(vec_members(other)));
        }
        r
    }

    fn compliment(&self) -> (r: VectorSet) {
        let r = VectorSet {
            lane0: !self.lane0,
            lane1: !self.lane1,
            lane2: !self.lane2,
            lane3: !self.lane3,
        };
        proof {
            lemma_bit_not(self.lane0);
            lemma_bit_not(self.lane1);
            lemma_bit_not(self.lane2);
            lemma_bit_not(self.lane3);
            assert(vec_members(r) =~= set_int_range(0, 256).difference(
                vec_members(*self),
            ));
        }
        r
    }

    fn add(&self, value: u32) -> (r: VectorSet) {
        let r = if value <= 63 {
            let mask = 1u64 << (value as u64);
            proof {
                lemma_bit_single(value as u64);
                lemma_bit_or(self.lane0, mask);
            }
            VectorSet { lane0: self.lane0 | mask, ..*self }
        } else if value <= 127 {
            let mask = 1u64 << ((value - 64) as u64);
            proof {
                lemma_bit_single((value - 64) as u64);
                lemma_bit_or(self.lane1, mask);
            }
            VectorSet { lane1: self.lane1 | mask, ..*self }
        } else if value <= 191 {
            let mask = 1u64 << ((value - 128) as u64);
            proof {
                lemma_bit_single((value - 128) as u64);
                lemma_bit_or(self.lane2, mask);
            }
            VectorSet { lane2: self.lane2 | mask, ..*self }
        } else {
            let mask = 1u64 << ((value - 192) as u64);
            proof {
                lemma_bit_single((value - 192) as u64);
                lemma_bit_or(self.lane3, mask);
            }
            VectorSet { lane3: self.lane3 | mask, ..*self }
        };
        proof {
            assert(vec_members(r) =~= vec_members(*self).insert(value as int));
        }
        r
    }

    fn add_vec(&self, values: Vec<u32>) -> (r: VectorSet) {
        let mut set = *self;
        let mut idx: usize = 0;
        proof {
            assert(values_in(values@.take(0)) =~= Set::<int>::empty());
            assert(vec_members(set) =~= vec_members(*self).union(
                values_in(values@.take(0)),
            ));
        }
        while idx < values.len()
            invariant
                idx <= values@.len(),
                forall|j: int| 0 <= j < values@.len() ==> (#[trigger] values@[j]) as int
                    <= 255,
                vec_members(set) == vec_members(*self).union(
                    values_in(values@.take(idx as int)),
                ),
            decreases values@.len() - idx,
        {
            let ghost prefix = values@.take(idx as int);
            let v = values[idx];
            set = ImmutableSet::add(&set, v);
            proof {
                assert(values@.take(idx as int + 1) =~= prefix.push(v));
                lemma_values_in_push(prefix, v);
                assert(vec_members(set) =~= vec_members(*self).union(
                    values_in(values@.take(idx as int + 1)),
                ));
            }
            idx = idx + 1;
        }
        proof {
            assert(values@.take(values@.len() as int) =~= values@);
        }
        set
    }

    fn clear(&self) -> (r: VectorSet) {
        let r = VectorSet { lane0: 0u64, lane1: 0u64, lane2: 0u64, lane3: 0u64 };
        proof {
            lemma_bit_zero();
            assert(vec_members(r) =~= Set::<int>::empty());
        }
        r
    }

    fn contains(&self, value: u32) -> (r: bool) {
        if value > 255 {
            return false;
        }
        if value <= 63 {
            word_bit(self.lane0, value)
        } else if value <= 127 {
            word_bit(self.lane1, value - 64)
        } else if value <= 191 {
            word_bit(self.lane2, value - 128)
        } else {
            word_bit(self.lane3, value - 192)
        }
    }

    fn except(&self, other: VectorSet) -> (r: VectorSet) {
        let r = VectorSet {
            lane0: self.lane0 & !other.lane0,
            lane1: self.lane1 & !other.lane1,
            lane2: self.lane2 & !other.lane2,
            lane3: self.lane3 & !other.lane3,
        };
        proof {
            lemma_bit_not(other.lane0);
            lemma_bit_not(other.lane1);
            lemma_bit_not(other.lane2);
            lemma_bit_not(other.lane3);
            lemma_bit_and(self.lane0, !other.lane0);
            lemma_bit_and(self.lane1, !other.lane1);
            lemma_bit_and(self.lane2, !other.lane2);
            lemma_bit_and(self.lane3, !other.lane3);
            assert(vec_members(r) =~= vec_members(*self).difference(vec_members(other)));
        }
        r
    }

    fn is_proper_subset_of(&self, other: VectorSet) -> (r: bool) {
        let sub = ImmutableSet::is_subset_of(self, other);
        let neq = self.lane0 != other.lane0 || self.lane1 != other.lane1 || self.lane2
            != other.lane2 || self.lane3 != other.lane3;
        proof {
            if sub && !neq {
                assert(*self == other);
            }
            if sub && neq {
                if vec_members(*self) == vec_members(other) {
                    lemma_vec_determine(*self, other);
                }
            }
        }
        sub && neq
    }

    fn is_subset_of(&self, other: VectorSet) -> (r: bool) {
        let s0 = word_subset(self.lane0, other.lane0);
        let s1 = word_subset(self.lane1, other.lane1);
        let s2 = word_subset(self.lane2, other.lane2);
        let s3 = word_subset(self.lane3, other.lane3);
        let r = s0 && s1 && s2 && s3;
        proof {
            if r {
                assert forall|v: int| vec_members(*self).contains(v) implies vec_members(
                    other,
                ).contains(v) by {
                    if v < 64 {
                        assert(word_members(self.lane0).contains(v));
                    } else if v < 128 {
                        assert(word_members(self.lane1).contains(v - 64));
                    } else if v < 192 {
                        assert(word_members(self.lane2).contains(v - 128));
                    } else {
                        assert(word_members(self.lane3).contains(v - 192));
                    }
                };
            } else {
                if !s0 {
                    let x = choose|x: int|
                        word_members(self.lane0).contains(x) && !word_members(
                            other.lane0,
                        ).contains(x);
                    assert(vec_members(*self).contains(x) && !vec_members(
                        other,
                    ).contains(x));
                } else if !s1 {
                    let x = choose|x: int|
                        word_members(self.lane1).contains(x) && !word_members(
                            other.lane1,
                        ).contains(x);
                    assert(vec_members(*self).contains(x + 64) && !vec_members(
                        other,
                    ).contains(x + 64));
                } else if !s2 {
                    let x = choose|x: int|
                        word_members(self.lane2).contains(x) && !word_members(
                            other.lane2,
                        ).contains(x);
                    assert(vec_members(*self).contains(x + 128) && !vec_members(
                        other,
                    ).contains(x + 128));
                } else {
                    let x = choose|x: int|
                        word_members(self.lane3).contains(x) && !word_members(
                            other.lane3,
                        ).contains(x);
                    assert(vec_members(*self).contains(x + 192) && !vec_members(
                        other,
                    ).contains(x + 192));
                }
            }
        }
        r
    }

    fn is_proper_superset_of(&self, other: VectorSet) -> (r: bool) {
        let sup = ImmutableSet::is_superset_of(self, other);
        let neq = self.lane0 != other.lane0 || self.lane1 != other.lane1 || self.lane2
            != other.lane2 || self.lane3 != other.lane3;
        proof {
            if sup && !neq {
                assert(*self == other);
            }
            if sup && neq {
                if vec_members(*self) == vec_members(other) {
                    lemma_vec_determine(*self, other);
                }
            }
        }
        sup && neq
    }

    fn is_superset_of(&self, other: VectorSet) -> (r: bool) {
        ImmutableSet::is_subset_of(&other, *self)
    }

    fn overlaps(&self, other: VectorSet) -> (r: bool) {
        let o0 = word_overlaps(self.lane0, other.lane0);
        let o1 = word_overlaps(self.lane1, other.lane1);
        let o2 = word_overlaps(self.lane2, other.lane2);
        let o3 = word_overlaps(self.lane3, other.lane3);
        let r = o0 || o1 || o2 || o3;
        proof {
            if o0 {
                lemma_nonempty_has_member(
                    word_members(self.lane0).intersect(word_members(other.lane0)),
                );
                let x = choose|x: int|
                    word_members(self.lane0).intersect(
                        word_members(other.lane0),
                    ).contains(x);
                assert(vec_members(*self).intersect(vec_members(other)).contains(x));
            } else if o1 {
                lemma_nonempty_has_member(
                    word_members(self.lane1).intersect(word_members(other.lane1)),
                );
                let x = choose|x: int|
                    word_members(self.lane1).intersect(
                        word_members(other.lane1),
                    ).contains(x);
                assert(vec_members(*self).intersect(vec_members(other)).contains(x + 64));
            } else if o2 {
                lemma_nonempty_has_member(
                    word_members(self.lane2).intersect(word_members(other.lane2)),
                );
                let x = choose|x: int|
                    word_members(self.lane2).intersect(
                        word_members(other.lane2),
                    ).contains(x);
                assert(vec_members(*self).intersect(vec_members(other)).contains(
                    x + 128,
                ));
            } else if o3 {
                lemma_nonempty_has_member(
                    word_members(self.lane3).intersect(word_members(other.lane3)),
                );
                let x = choose|x: int|
                    word_members(self.lane3).intersect(
                        word_members(other.lane3),
                    ).contains(x);
                assert(vec_members(*self).intersect(vec_members(other)).contains(
                    x + 192,
                ));
            } else {
                assert forall|v: int| !vec_members(*self).intersect(
                    vec_members(other),
                ).contains(v) by {
                    if 0 <= v < 64 {
                        assert(!word_members(self.lane0).intersect(
                            word_members(other.lane0),
                        ).contains(v));
                    } else if 64 <= v < 128 {
                        assert(!word_members(self.lane1).intersect(
                            word_members(other.lane1),
                        ).contains(v - 64));
                    } else if 128 <= v < 192 {
                        assert(!word_members(self.lane2).intersect(
                            word_members(other.lane2),
                        ).contains(v - 128));
                    } else if 192 <= v < 256 {
                        assert(!word_members(self.lane3).intersect(
                            word_members(other.lane3),
                        ).contains(v - 192));
                    }
                };
                assert(vec_members(*self).intersect(vec_members(other))
                    =~= Set::<int>::empty());
            }
        }
        r
    }

    fn remove(&self, value: u32) -> (r: VectorSet) {
        let r = if value <= 63 {
            let mask = 1u64 << (value as u64);
            proof {
                lemma_bit_single(value as u64);
                lemma_bit_not(mask);
                lemma_bit_and(self.lane0, !mask);
            }
            VectorSet { lane0: self.lane0 & !mask, ..*self }
        } else if value <= 127 {
            let mask = 1u64 << ((value - 64) as u64);
            proof {
                lemma_bit_single((value - 64) as u64);
                lemma_bit_not(mask);
                lemma_bit_and(self.lane1, !mask);
            }
            VectorSet { lane1: self.lane1 & !mask, ..*self }
        } else if value <= 191 {
            let mask = 1u64 << ((value - 128) as u64);
            proof {
                lemma_bit_single((value - 128) as u64);
                lemma_bit_not(mask);
                lemma_bit_and(self.lane2, !mask);
            }
            VectorSet { lane2: self.lane2 & !mask, ..*self }
        } else {
            let mask = 1u64 << ((value - 192) as u64);
            proof {
                lemma_bit_single((value - 192) as u64);
                lemma_bit_not(mask);
                lemma_bit_and(self.lane3, !mask);
            }
            VectorSet { lane3: self.lane3 & !mask, ..*self }
        };
        proof {
            assert(vec_members(r) =~= vec_members(*self).remove(value as int));
        }
        r
    }

    fn symmetric_except(&self, other: VectorSet) -> (r: VectorSet) {
        let r = VectorSet {
            lane0: self.lane0 ^ other.lane0,
            lane1: self.lane1 ^ other.lane1,
            lane2: self.lane2 ^ other.lane2,
            lane3: self.lane3 ^ other.lane3,
        };
        proof {
            crate::bits::lemma_bit_xor(self.lane0, other.lane0);
            crate::bits::lemma_bit_xor(self.lane1, other.lane1);
            crate::bits::lemma_bit_xor(self.lane2, other.lane2);
            crate::bits::lemma_bit_xor(self.lane3, other.lane3);
            assert(vec_members(r) =~= vec_members(*self).union(
                vec_members(other),
            ).difference(vec_members(*self).intersect(vec_members(other))));
        }
        r
    }

    fn values(&self) -> (r: ImmutableSetIterator<VectorSet>) {
        ImmutableSetIterator::from_set(*self)
    }
}

} // verus!
