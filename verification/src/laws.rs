//! The algebraic laws of the set operations, stated over the members
//! model that every operation's contract speaks of. Each law takes the
//! operation results as parameters constrained exactly by the
//! operations' own postconditions.

use vstd::prelude::*;
use vstd::set_lib::set_int_range;

use crate::ImmutableSet;
use crate::ascending;
use crate::model::shifted_members;
use crate::model::values_in;

verus! {

/// An ascending sequence repeats no value: it has exactly as many
/// entries as distinct values.
pub proof fn lemma_ascending_values_len(q: Seq<u32>)
    requires
        ascending(q),
    ensures
        values_in(q).finite(),
        values_in(q).len() == q.len(),
    decreases q.len(),
{
    if q.len() == 0 {
        assert(values_in(q) =~= Set::<int>::empty());
    } else {
        let tail = q.subrange(1, q.len() as int);
        lemma_head_tail(q);
        lemma_ascending_values_len(tail);
    }
}

/// Splitting an ascending sequence at its head: the head is its least
/// value and does not recur in the tail.
proof fn lemma_head_tail(q: Seq<u32>)
    requires
        ascending(q),
        q.len() > 0,
    ensures
        ascending(q.subrange(1, q.len() as int)),
        !values_in(q.subrange(1, q.len() as int)).contains(q[0] as int),
        values_in(q) == values_in(q.subrange(1, q.len() as int)).insert(q[0] as int),
{
    let tail = q.subrange(1, q.len() as int);
    assert forall|v: int| values_in(q).contains(v) implies values_in(tail).insert(
        q[0] as int,
    ).contains(v) by {
        let j = choose|j: int| 0 <= j < q.len() && (#[trigger] q[j]) as int == v;
        if j > 0 {
            assert(tail[j - 1] as int == v);
        }
    };
    assert forall|v: int| values_in(tail).insert(q[0] as int).contains(v) implies values_in(
        q,
    ).contains(v) by {
        if v == q[0] as int {
            assert(q[0] as int == v);
        } else {
            let j = choose|j: int| 0 <= j < tail.len() && (#[trigger] tail[j]) as int == v;
            assert(q[j + 1] as int == v);
        }
    };
    assert(values_in(q) =~= values_in(tail).insert(q[0] as int));
    if values_in(tail).contains(q[0] as int) {
        let j = choose|j: int| 0 <= j < tail.len() && (#[trigger] tail[j]) as int == q[0] as int;
        assert(q[0] < q[j + 1]);
        assert(false);
    }
}

/// There is exactly one ascending sequence with a given set of values,
/// so the enumerator's output is determined by the members alone.
pub proof fn lemma_ascending_values_unique(a: Seq<u32>, b: Seq<u32>)
    requires
        ascending(a),
        ascending(b),
        values_in(a) == values_in(b),
    ensures
        a == b,
    decreases a.len(),
{
    if a.len() == 0 {
        if b.len() > 0 {
            assert(values_in(b).contains(b[0] as int));
            let j = choose|j: int| 0 <= j < a.len() && (#[trigger] a[j]) as int == b[0] as int;
            assert(false);
        }
        assert(a =~= b);
    } else if b.len() == 0 {
        assert(values_in(a).contains(a[0] as int));
        let j = choose|j: int| 0 <= j < b.len() && (#[trigger] b[j]) as int == a[0] as int;
        assert(false);
    } else {
        assert(values_in(b).contains(b[0] as int));
        let ja = choose|j: int| 0 <= j < a.len() && (#[trigger] a[j]) as int == b[0] as int;
        if ja > 0 {
            assert(a[0] < a[ja]);
        }
        assert(values_in(a).contains(a[0] as int));
        let jb = choose|j: int| 0 <= j < b.len() && (#[trigger] b[j]) as int == a[0] as int;
        if jb > 0 {
            assert(b[0] < b[jb]);
        }
        assert(a[0] == b[0]);
        lemma_head_tail(a);
        lemma_head_tail(b);
        let ta = a.subrange(1, a.len() as int);
        let tb = b.subrange(1, b.len() as int);
        assert forall|v: int| values_in(ta).contains(v) == values_in(tb).contains(v) by {
            if values_in(ta).contains(v) {
                assert(values_in(ta).insert(a[0] as int).contains(v));
                assert(values_in(b).contains(v));
                assert(v != b[0] as int);
                assert(values_in(tb).insert(b[0] as int).contains(v));
            }
            if values_in(tb).contains(v) {
                assert(values_in(tb).insert(b[0] as int).contains(v));
                assert(values_in(a).contains(v));
                assert(v != a[0] as int);
                assert(values_in(ta).insert(a[0] as int).contains(v));
            }
        };
        assert(values_in(ta) =~= values_in(tb));
        lemma_ascending_values_unique(ta, tb);
        assert forall|i: int| 0 <= i < a.len() implies a[i] == b[i] by {
            if i > 0 {
                assert(ta[i - 1] == a[i]);
                assert(tb[i - 1] == b[i]);
            }
        };
        assert(a.len() == b.len());
        assert(a =~= b);
    }
}

/// Round trip: a set built from a sequence of values enumerates, in
/// ascending order, exactly the distinct values of that sequence.
pub proof fn lemma_round_trip<T: ImmutableSet>(vals: Seq<u32>, s: T, yielded: Seq<u32>)
    requires
        s.members() == values_in(vals),
        values_in(yielded) == s.members(),
        ascending(yielded),
    ensures
        forall|v: u32| yielded.contains(v) == vals.contains(v),
{
    assert forall|v: u32| yielded.contains(v) == vals.contains(v) by {
        if yielded.contains(v) {
            let i = choose|i: int| 0 <= i < yielded.len() && yielded[i] == v;
            assert(yielded[i] as int == v as int);
            assert(values_in(vals).contains(v as int));
            let j = choose|j: int| 0 <= j < vals.len() && (#[trigger] vals[j]) as int
                == v as int;
            assert(vals[j] == v);
        }
        if vals.contains(v) {
            let i = choose|i: int| 0 <= i < vals.len() && vals[i] == v;
            assert(vals[i] as int == v as int);
            assert(values_in(yielded).contains(v as int));
            let j = choose|j: int| 0 <= j < yielded.len() && (#[trigger] yielded[j]) as int
                == v as int;
            assert(yielded[j] == v);
        }
    };
}

/// Count consistency: the reported count equals the number of distinct
/// values the enumerator yields.
pub proof fn lemma_count_matches_enumeration<T: ImmutableSet>(s: T, n: u32, yielded: Seq<u32>)
    requires
        n as int == s.members().len(),
        values_in(yielded) == s.members(),
        ascending(yielded),
    ensures
        n as int == yielded.len(),
{
    lemma_ascending_values_len(yielded);
}

/// Union is commutative.
pub proof fn lemma_union_commutative<T: ImmutableSet>(a: T, b: T, ab: T, ba: T)
    requires
        ab.members() == a.members().union(b.members()),
        ba.members() == b.members().union(a.members()),
    ensures
        ab == ba,
{
    assert(a.members().union(b.members()) =~= b.members().union(a.members()));
    T::lemma_members_determine_value(ab, ba);
}

/// Union is associative.
pub proof fn lemma_union_associative<T: ImmutableSet>(
    a: T,
    b: T,
    c: T,
    ab: T,
    ab_c: T,
    bc: T,
    a_bc: T,
)
    requires
        ab.members() == a.members().union(b.members()),
        ab_c.members() == ab.members().union(c.members()),
        bc.members() == b.members().union(c.members()),
        a_bc.members() == a.members().union(bc.members()),
    ensures
        ab_c == a_bc,
{
    assert(ab_c.members() =~= a_bc.members());
    T::lemma_members_determine_value(ab_c, a_bc);
}

/// The empty set is the identity of union.
pub proof fn lemma_union_empty_identity<T: ImmutableSet>(a: T, e: T, r: T)
    requires
        e.members() == Set::<int>::empty(),
        r.members() == a.members().union(e.members()),
    ensures
        r == a,
{
    assert(r.members() =~= a.members());
    T::lemma_members_determine_value(r, a);
}

/// The full set absorbs union.
pub proof fn lemma_union_full_absorbs<T: ImmutableSet>(a: T, f: T, r: T)
    requires
        f.members() == set_int_range(0, T::spec_range_max() + 1),
        r.members() == a.members().union(f.members()),
    ensures
        r == f,
{
    a.lemma_members_in_domain();
    assert(r.members() =~= f.members());
    T::lemma_members_determine_value(r, f);
}

/// Taking the complement twice gives the original set back.
pub proof fn lemma_compliment_involution<T: ImmutableSet>(a: T, c: T, cc: T)
    requires
        c.members() == set_int_range(0, T::spec_range_max() + 1).difference(a.members()),
        cc.members() == set_int_range(0, T::spec_range_max() + 1).difference(c.members()),
    ensures
        cc == a,
{
    a.lemma_members_in_domain();
    assert(cc.members() =~= a.members());
    T::lemma_members_determine_value(cc, a);
}

/// A set united with its complement is the full set.
pub proof fn lemma_union_with_compliment_is_full<T: ImmutableSet>(a: T, c: T, u: T, f: T)
    requires
        c.members() == set_int_range(0, T::spec_range_max() + 1).difference(a.members()),
        u.members() == a.members().union(c.members()),
        f.members() == set_int_range(0, T::spec_range_max() + 1),
    ensures
        u == f,
{
    a.lemma_members_in_domain();
    assert(u.members() =~= f.members());
    T::lemma_members_determine_value(u, f);
}

/// A set intersected with its complement is the empty set.
pub proof fn lemma_intersection_with_compliment_is_empty<T: ImmutableSet>(
    a: T,
    c: T,
    i: T,
    e: T,
)
    requires
        c.members() == set_int_range(0, T::spec_range_max() + 1).difference(a.members()),
        i.members() == a.members().intersect(c.members()),
        e.members() == Set::<int>::empty(),
    ensures
        i == e,
{
    assert(i.members() =~= e.members());
    T::lemma_members_determine_value(i, e);
}

/// The empty set is a subset of every set.
pub proof fn lemma_empty_is_subset<T: ImmutableSet>(e: T, a: T)
    requires
        e.members() == Set::<int>::empty(),
    ensures
        e.members().subset_of(a.members()),
{
}

/// The empty set is a proper subset of exactly the non-empty sets.
pub proof fn lemma_empty_proper_subset<T: ImmutableSet>(e: T, a: T)
    requires
        e.members() == Set::<int>::empty(),
    ensures
        (e.members().subset_of(a.members()) && e.members() != a.members()) <==> a.members()
            != Set::<int>::empty(),
{
}

/// The subset relation is reflexive.
pub proof fn lemma_subset_reflexive<T: ImmutableSet>(a: T)
    ensures
        a.members().subset_of(a.members()),
{
}

/// The subset relation is antisymmetric: two sets each contained in the
/// other are the same value.
pub proof fn lemma_subset_antisymmetric<T: ImmutableSet>(a: T, b: T)
    requires
        a.members().subset_of(b.members()),
        b.members().subset_of(a.members()),
    ensures
        a == b,
{
    assert(a.members() =~= b.members());
    T::lemma_members_determine_value(a, b);
}

/// Shifting up by one and back down recovers the original set when its
/// top slot is free, and never more than a subset of it otherwise.
pub proof fn lemma_shift_inverse<T: ImmutableSet>(a: T, up: T, back: T)
    requires
        up.members() == shifted_members(a.members(), 1, T::spec_range_max() + 1),
        back.members() == shifted_members(up.members(), -1, T::spec_range_max() + 1),
    ensures
        back.members().subset_of(a.members()),
        !a.members().contains(T::spec_range_max()) ==> back == a,
{
    a.lemma_members_in_domain();
    if !a.members().contains(T::spec_range_max()) {
        assert forall|v: int| a.members().contains(v) implies back.members().contains(
            v,
        ) by {
            assert(v != T::spec_range_max());
            assert(up.members().contains(v + 1));
        };
        assert(back.members() =~= a.members());
        T::lemma_members_determine_value(back, a);
    }
}

} // verus!

