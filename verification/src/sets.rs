//! Set values and the operations of the set algebra.
//!
//! A set value is a `BTreeSet<i32>`; its view is the mathematical set of its
//! members, and it hands its members out in ascending order.

use std::collections::BTreeSet;
use vstd::prelude::*;
use vstd::std_specs::btree::increasing_seq;
use vstd::std_specs::cmp::OrdSpec;

verus! {

/// A finite set of 32-bit integers.
pub type SetValue = BTreeSet<i32>;

/// The integers that lie between `a` and `b`, both included, whichever of the
/// two is the smaller.
pub open spec fn interval(a: i32, b: i32) -> Set<i32> {
    Set::new(|x: i32| (a <= x <= b) || (b <= x <= a))
}

/// The members of exactly one of `a` and `b`.
pub open spec fn sym_diff(a: Set<i32>, b: Set<i32>) -> Set<i32> {
    a.difference(b).union(b.difference(a))
}

/// Each element is smaller than every later one.
pub open spec fn is_ascending(v: Seq<i32>) -> bool {
    forall|i: int, j: int| 0 <= i < j < v.len() ==> v[i] < v[j]
}

/// `v` lists the members of `s` from the smallest to the largest.
pub open spec fn lists(v: Seq<i32>, s: Set<i32>) -> bool {
    is_ascending(v) && v.to_set() == s
}

/// The members of `s` from the smallest to the largest. Meaningful for a
/// finite set, for which [`lemma_listing_unique`] shows that there is only one
/// such sequence.
pub open spec fn ascending(s: Set<i32>) -> Seq<i32> {
    choose|v: Seq<i32>| lists(v, s)
}

/// A set has at most one ascending listing.
pub proof fn lemma_listing_unique(v: Seq<i32>, w: Seq<i32>, s: Set<i32>)
    requires
        lists(v, s),
        lists(w, s),
    ensures
        v == w,
    decreases v.len(),
{
    if v.len() == 0 {
        if w.len() > 0 {
            assert(w.to_set().contains(w[0]));
            assert(v.contains(w[0]));
        }
        assert(v =~= w);
    } else {
        let m = v.last();
        assert(v.to_set().contains(m));
        assert(w.contains(m));
        let k = choose|k: int| 0 <= k < w.len() && w[k] == m;
        if k < w.len() - 1 {
            let bigger = w.last();
            assert(w.to_set().contains(bigger));
            assert(v.contains(bigger));
        }
        let v0 = v.drop_last();
        let w0 = w.drop_last();
        let s0 = s.remove(m);
        assert forall|x: i32| v0.to_set().contains(x) <==> s0.contains(x) by {
            if v0.to_set().contains(x) {
                let i = choose|i: int| 0 <= i < v0.len() && v0[i] == x;
                assert(v[i] == x);
                assert(v.contains(x));
            }
            if s0.contains(x) {
                assert(v.contains(x));
                let i = choose|i: int| 0 <= i < v.len() && v[i] == x;
                assert(v0[i] == x);
                assert(v0.contains(x));
            }
        }
        assert forall|x: i32| w0.to_set().contains(x) <==> s0.contains(x) by {
            if w0.to_set().contains(x) {
                let i = choose|i: int| 0 <= i < w0.len() && w0[i] == x;
                assert(w[i] == x);
                assert(w.contains(x));
            }
            if s0.contains(x) {
                assert(w.contains(x));
                let i = choose|i: int| 0 <= i < w.len() && w[i] == x;
                assert(w0[i] == x);
                assert(w0.contains(x));
            }
        }
        assert(v0.to_set() =~= s0);
        assert(w0.to_set() =~= s0);
        lemma_listing_unique(v0, w0, s0);
        assert(v =~= v0.push(m));
        assert(w =~= w0.push(m));
    }
}

/// Whatever lists `s` in ascending order is `ascending(s)`.
pub proof fn lemma_listing_is_ascending(v: Seq<i32>, s: Set<i32>)
    requires
        lists(v, s),
    ensures
        v == ascending(s),
{
    lemma_listing_unique(v, ascending(s), s);
}

/// The order in which a `BTreeSet<i32>` is walked is ascending.
broadcast proof fn lemma_walk_ascends(refs: Seq<&i32>)
    requires
        #[trigger] increasing_seq(refs),
    ensures
        is_ascending(refs.unref()),
{
    broadcast use vstd::laws_cmp::group_laws_cmp;

    assert(vstd::laws_cmp::obeys_cmp::<i32>());
    assert(vstd::laws_cmp::obeys_cmp::<&i32>());
    vstd::std_specs::btree::axiom_increasing_seq_meaning::<&i32>(refs);
    assert forall|i: int, j: int| 0 <= i < j < refs.unref().len() implies refs.unref()[i]
        < refs.unref()[j] by {
        assert((&refs[i]).cmp_spec(&refs[j]) is Less);
    }
}

/// The members of `s`, smallest first.
pub fn elements(s: &SetValue) -> (v: Vec<i32>)
    ensures
        v@ == ascending(s@),
        lists(v@, s@),
        s@.finite(),
{
    broadcast use lemma_walk_ascends;

    let mut v: Vec<i32> = Vec::new();
    for x in it: s.iter()
        invariant
            it.seq().unref().to_set() == s@,
            is_ascending(it.seq().unref()),
            v@ == it.seq().unref().take(it.index()),
        ensures
            v@ == it.seq().unref(),
    {
        v.push(*x);
    }
    proof {
        lemma_listing_is_ascending(v@, s@);
    }
    v
}

/// What a walk over a set hands out is exactly what the set holds.
broadcast proof fn lemma_walk_members(refs: Seq<&i32>, k: i32)
    ensures
        #[trigger] refs.unref().to_set().contains(k) <==> exists|j: int|
            0 <= j < refs.len() && *refs[j] == k,
{
    if refs.unref().to_set().contains(k) {
        assert(refs.unref().contains(k));
        let j = choose|j: int| 0 <= j < refs.unref().len() && refs.unref()[j] == k;
        assert(*refs[j] == k);
    }
    if exists|j: int| 0 <= j < refs.len() && *refs[j] == k {
        let j = choose|j: int| 0 <= j < refs.len() && *refs[j] == k;
        assert(refs.unref()[j] == k);
        assert(refs.unref().contains(k));
    }
}

/// The set of the values in `values`; a value listed twice is held once.
pub fn from_values(values: &Vec<i32>) -> (r: SetValue)
    ensures
        r@ == values@.to_set(),
{
    let mut r: SetValue = BTreeSet::new();
    let mut i: usize = 0;
    while i < values.len()
        invariant
            i <= values.len(),
            forall|k: i32|
                r@.contains(k) <==> exists|j: int| 0 <= j < i && values@[j] == k,
        decreases values.len() - i,
    {
        r.insert(values[i]);
        i = i + 1;
    }
    proof {
        assert forall|k: i32| r@.contains(k) <==> values@.to_set().contains(k) by {
            if values@.to_set().contains(k) {
                assert(values@.contains(k));
            }
            if r@.contains(k) {
                let j = choose|j: int| 0 <= j < i && values@[j] == k;
                assert(values@.contains(k));
            }
        }
        assert(r@ =~= values@.to_set());
    }
    r
}

/// Every integer between `a` and `b`, both included. The bounds may come in
/// either order.
pub fn range_set(a: i32, b: i32) -> (r: SetValue)
    ensures
        r@ == interval(a, b),
{
    let lo: i32 = if a <= b { a } else { b };
    let hi: i32 = if a <= b { b } else { a };
    let mut r: SetValue = BTreeSet::new();
    let mut x: i32 = lo;
    while x < hi
        invariant
            lo <= x <= hi,
            forall|k: i32| r@.contains(k) <==> lo <= k < x,
        decreases hi - x,
    {
        r.insert(x);
        x = x + 1;
    }
    r.insert(hi);
    assert(r@ =~= interval(a, b));
    r
}

/// The members of `a` or of `b`.
pub fn set_union(a: &SetValue, b: &SetValue) -> (r: SetValue)
    ensures
        r@ == a@.union(b@),
{
    broadcast use lemma_walk_members;

    let mut r: SetValue = a.clone();
    for x in it: b.iter()
        invariant
            it.seq().unref().to_set() == b@,
            forall|k: i32|
                r@.contains(k) <==> a@.contains(k) || exists|j: int|
                    0 <= j < it.index() && *it.seq()[j] == k,
    {
        r.insert(*x);
    }
    assert(r@ =~= a@.union(b@));
    r
}

/// The members of both `a` and `b`.
pub fn set_intersection(a: &SetValue, b: &SetValue) -> (r: SetValue)
    ensures
        r@ == a@.intersect(b@),
{
    broadcast use lemma_walk_members;

    let mut r: SetValue = BTreeSet::new();
    for x in it: a.iter()
        invariant
            it.seq().unref().to_set() == a@,
            forall|k: i32|
                r@.contains(k) <==> b@.contains(k) && exists|j: int|
                    0 <= j < it.index() && *it.seq()[j] == k,
    {
        if b.contains(x) {
            r.insert(*x);
        }
    }
    assert(r@ =~= a@.intersect(b@));
    r
}

/// The members of `a` that `b` does not hold.
pub fn set_difference(a: &SetValue, b: &SetValue) -> (r: SetValue)
    ensures
        r@ == a@.difference(b@),
{
    broadcast use lemma_walk_members;

    let mut r: SetValue = BTreeSet::new();
    for x in it: a.iter()
        invariant
            it.seq().unref().to_set() == a@,
            forall|k: i32|
                r@.contains(k) <==> !b@.contains(k) && exists|j: int|
                    0 <= j < it.index() && *it.seq()[j] == k,
    {
        if !b.contains(x) {
            r.insert(*x);
        }
    }
    assert(r@ =~= a@.difference(b@));
    r
}

/// The members of exactly one of `a` and `b`.
pub fn set_symmetric_difference(a: &SetValue, b: &SetValue) -> (r: SetValue)
    ensures
        r@ == sym_diff(a@, b@),
{
    broadcast use lemma_walk_members;

    let mut r: SetValue = set_difference(a, b);
    for x in it: b.iter()
        invariant
            it.seq().unref().to_set() == b@,
            forall|k: i32|
                r@.contains(k) <==> a@.difference(b@).contains(k) || (!a@.contains(k)
                    && exists|j: int| 0 <= j < it.index() && *it.seq()[j] == k),
    {
        if !a.contains(x) {
            r.insert(*x);
        }
    }
    assert(r@ =~= sym_diff(a@, b@));
    r
}

} // verus!
