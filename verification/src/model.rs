//! The mathematical model shared by every set representation: sets of
//! integers, and the operations the contracts are stated over.

use vstd::prelude::*;
use vstd::set_lib::set_int_range;
use vstd::set_lib::lemma_int_range;
use vstd::set_lib::lemma_len_subset;

verus! {

/// The members of a set after every member is moved up by `delta`
/// (down for a negative `delta`); members pushed outside `[0, width)`
/// are dropped.
pub open spec fn shifted_members(m: Set<int>, delta: int, width: int) -> Set<int> {
    Set::new(|v: int| 0 <= v < width && m.contains(v - delta))
}

/// The set of values that occur in a sequence.
pub open spec fn values_in(vals: Seq<u32>) -> Set<int> {
    Set::new(|v: int| exists|j: int| 0 <= j < vals.len() && (#[trigger] vals[j]) as int == v)
}

/// The members of `m` that lie below `k`.
pub open spec fn members_below(m: Set<int>, k: int) -> Set<int> {
    Set::new(|v: int| 0 <= v < k && m.contains(v))
}

pub proof fn lemma_members_below_finite(m: Set<int>, k: int)
    requires
        k >= 0,
    ensures
        members_below(m, k).finite(),
        members_below(m, k).len() <= k,
{
    lemma_int_range(0, k);
    assert(members_below(m, k).subset_of(set_int_range(0, k)));
    lemma_len_subset(members_below(m, k), set_int_range(0, k));
}

/// Appending a value to a sequence inserts it into the set of values
/// that occur in it.
pub proof fn lemma_values_in_push(vals: Seq<u32>, x: u32)
    ensures
        values_in(vals.push(x)) == values_in(vals).insert(x as int),
{
    let l = vals.push(x);
    assert forall|v: int| values_in(l).contains(v) implies values_in(vals).insert(
        x as int,
    ).contains(v) by {
        let j = choose|j: int| 0 <= j < l.len() && (#[trigger] l[j]) as int == v;
        if j < vals.len() {
            assert(vals[j] as int == v);
        } else {
            assert(l[j] == x);
        }
    };
    assert forall|v: int| values_in(vals).insert(x as int).contains(v) implies values_in(
        l,
    ).contains(v) by {
        if v == x as int {
            assert(l[vals.len() as int] as int == v);
        } else {
            let j = choose|j: int| 0 <= j < vals.len() && (#[trigger] vals[j]) as int == v;
            assert(l[j] as int == v);
        }
    };
    assert(values_in(l) =~= values_in(vals).insert(x as int));
}

/// Two shifts in the same direction compose into one, as long as the
/// set lies within the domain.
pub proof fn lemma_shifted_compose(m: Set<int>, a: int, b: int, width: int)
    requires
        (a >= 0 && b >= 0) || (a <= 0 && b <= 0),
        forall|v: int| #[trigger] m.contains(v) ==> 0 <= v < width,
    ensures
        shifted_members(shifted_members(m, a, width), b, width) == shifted_members(
            m,
            a + b,
            width,
        ),
{
    assert(shifted_members(shifted_members(m, a, width), b, width) =~= shifted_members(
        m,
        a + b,
        width,
    ));
}

/// A set other than the empty set has a member.
pub proof fn lemma_nonempty_has_member(m: Set<int>)
    requires
        m != Set::<int>::empty(),
    ensures
        exists|v: int| m.contains(v),
{
    if !(exists|v: int| m.contains(v)) {
        assert(m =~= Set::<int>::empty());
    }
}

/// A set whose members all lie in `[0, width)` is finite.
pub proof fn lemma_bounded_set_finite(m: Set<int>, width: int)
    requires
        width >= 0,
        forall|v: int| #[trigger] m.contains(v) ==> 0 <= v < width,
    ensures
        m.finite(),
        m.len() <= width,
{
    lemma_int_range(0, width);
    assert(m.subset_of(set_int_range(0, width)));
    lemma_len_subset(m, set_int_range(0, width));
}

} // verus!
