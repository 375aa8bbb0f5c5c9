//! The order that the tree keeps, stated over vstd's model of `Ord`.
use core::cmp::Ordering;
use vstd::laws_cmp::{obeys_cmp, obeys_cmp_ord, obeys_cmp_partial_ord, obeys_partial_cmp_spec_properties};
use vstd::laws_eq::obeys_eq_spec_properties;
use vstd::prelude::*;
use vstd::std_specs::cmp::{OrdSpec, PartialOrdSpec};

verus! {

/// `a` sorts strictly before `b`.
pub open spec fn lt<T: Ord>(a: T, b: T) -> bool {
    a.cmp_spec(&b) == Ordering::Less
}

/// `a` and `b` compare equal.
pub open spec fn equiv<T: Ord>(a: T, b: T) -> bool {
    a.cmp_spec(&b) == Ordering::Equal
}

/// Some element of `s` compares equal to `v`.
pub open spec fn present<T: Ord>(s: Seq<T>, v: T) -> bool {
    exists|i: int| 0 <= i < s.len() && #[trigger] equiv(s[i], v)
}

/// `s` is strictly ascending.
pub open spec fn ascending<T: Ord>(s: Seq<T>) -> bool {
    forall|i: int, j: int| 0 <= i < j < s.len() ==> #[trigger] lt(s[i], s[j])
}

/// Under a total order, `partial_cmp` agrees with `cmp` on `a` and `b`
/// both ways round.
proof fn lemma_cmp_agrees<T: Ord>(a: T, b: T)
    requires
        obeys_cmp::<T>(),
    ensures
        a.partial_cmp_spec(&b) == Some(a.cmp_spec(&b)),
        b.partial_cmp_spec(&a) == Some(b.cmp_spec(&a)),
{
    reveal(obeys_cmp_ord);
}

/// What a total order gives, in the terms above.
pub proof fn lemma_total_order<T: Ord>()
    requires
        obeys_cmp::<T>(),
    ensures
        T::obeys_cmp_spec(),
        forall|a: T, b: T| #[trigger] lt(a, b) <==> b.cmp_spec(&a) == Ordering::Greater,
        forall|a: T, b: T| #[trigger] equiv(a, b) <==> equiv(b, a),
        forall|a: T, b: T, c: T| #[trigger] lt(a, b) && #[trigger] lt(b, c) ==> lt(a, c),
        forall|a: T, b: T, c: T| #[trigger] equiv(a, b) && #[trigger] equiv(b, c) ==> equiv(a, c),
        forall|a: T, b: T, c: T| #[trigger] equiv(a, b) && #[trigger] lt(b, c) ==> lt(a, c),
        forall|a: T, b: T, c: T| #[trigger] lt(a, b) && #[trigger] equiv(b, c) ==> lt(a, c),
{
    reveal(obeys_cmp_partial_ord);
    reveal(obeys_cmp_ord);
    reveal(obeys_partial_cmp_spec_properties);
    reveal(obeys_eq_spec_properties);
    assert forall|a: T, b: T| #[trigger] lt(a, b) <==> b.cmp_spec(&a) == Ordering::Greater by {
        lemma_cmp_agrees(a, b);
    }
    assert forall|a: T, b: T| #[trigger] equiv(a, b) <==> equiv(b, a) by {
        lemma_cmp_agrees(a, b);
    }
    assert forall|a: T, b: T, c: T| #[trigger] lt(a, b) && #[trigger] lt(b, c) implies lt(a, c) by {
        lemma_cmp_agrees(a, b);
        lemma_cmp_agrees(b, c);
        lemma_cmp_agrees(a, c);
    }
    assert forall|a: T, b: T, c: T| #[trigger] equiv(a, b) && #[trigger] equiv(b, c) implies equiv(a, c) by {
        lemma_cmp_agrees(a, b);
        lemma_cmp_agrees(b, c);
        lemma_cmp_agrees(a, c);
    }
    assert forall|a: T, b: T, c: T| #[trigger] equiv(a, b) && #[trigger] lt(b, c) implies lt(a, c) by {
        lemma_cmp_agrees(a, b);
        lemma_cmp_agrees(b, c);
        lemma_cmp_agrees(a, c);
    }
    assert forall|a: T, b: T, c: T| #[trigger] lt(a, b) && #[trigger] equiv(b, c) implies lt(a, c) by {
        lemma_cmp_agrees(a, b);
        lemma_cmp_agrees(b, c);
        lemma_cmp_agrees(a, c);
    }
}

/// `after` is what deleting `v` from `before` leaves: the element that
/// compares equal to `v` is gone, or nothing changed if there was none.
pub open spec fn removed<T: Ord>(before: Seq<T>, v: T, after: Seq<T>) -> bool {
    if present(before, v) {
        exists|i: int| 0 <= i < before.len() && #[trigger] equiv(before[i], v) && after == before.remove(i)
    } else {
        after == before
    }
}

/// `after` is what inserting `v` into `before` gives: `v` stands at some
/// position, or nothing changed if an equal element was there already.
pub open spec fn inserted<T: Ord>(before: Seq<T>, v: T, after: Seq<T>) -> bool {
    if present(before, v) {
        after == before
    } else {
        exists|i: int| 0 <= i <= before.len() && after == #[trigger] before.insert(i, v)
    }
}

/// Every element of `s` sorts before `x`.
pub open spec fn all_below<T: Ord>(s: Seq<T>, x: T) -> bool {
    forall|i: int| 0 <= i < s.len() ==> #[trigger] lt(s[i], x)
}

/// Every element of `s` sorts after `x`.
pub open spec fn all_above<T: Ord>(s: Seq<T>, x: T) -> bool {
    forall|i: int| 0 <= i < s.len() ==> #[trigger] lt(x, s[i])
}

/// A delete keeps a bound that held of every element.
pub proof fn lemma_removed_bounds<T: Ord>(before: Seq<T>, v: T, after: Seq<T>, x: T)
    requires
        removed(before, v, after),
    ensures
        all_below(before, x) ==> all_below(after, x),
        all_above(before, x) ==> all_above(after, x),
{
    if present(before, v) {
        let i = choose|i: int| 0 <= i < before.len() && #[trigger] equiv(before[i], v) && after == before.remove(i);
        before.remove_ensures(i);
        assert forall|k: int| 0 <= k < after.len() implies after[k] == before[k] || after[k] == before[k + 1] by {}
    }
}

/// An insert keeps a bound that held of every element and of the new one.
pub proof fn lemma_inserted_bounds<T: Ord>(before: Seq<T>, v: T, after: Seq<T>, x: T)
    requires
        inserted(before, v, after),
    ensures
        all_below(before, x) && lt(v, x) ==> all_below(after, x),
        all_above(before, x) && lt(x, v) ==> all_above(after, x),
{
    if !present(before, v) {
        let i = choose|i: int| 0 <= i <= before.len() && after == #[trigger] before.insert(i, v);
        before.insert_ensures(i, v);
        assert forall|k: int| 0 <= k < after.len() implies after[k] == v || (k < before.len() && after[k] == before[k]) || (k > 0 && after[k] == before[k - 1]) by {
            if k < i {
            } else if k == i {
            } else {
                assert(after[(k - 1) + 1] == before[k - 1]);
            }
        }
    }
}

/// Deleting or inserting `v` below a node whose element sorts after `v`
/// acts on the left part alone.
pub proof fn lemma_left_part<T: Ord>(l: Seq<T>, x: T, r: Seq<T>, v: T, l2: Seq<T>)
    requires
        obeys_cmp::<T>(),
        lt(v, x),
        all_above(r, x),
    ensures
        present(l + seq![x] + r, v) == present(l, v),
        removed(l, v, l2) ==> removed(l + seq![x] + r, v, l2 + seq![x] + r),
        inserted(l, v, l2) ==> inserted(l + seq![x] + r, v, l2 + seq![x] + r),
{
    lemma_total_order::<T>();
    let s = l + seq![x] + r;
    if present(s, v) {
        let k = choose|k: int| 0 <= k < s.len() && #[trigger] equiv(s[k], v);
        if k >= l.len() + 1 {
            assert(lt(x, r[k - l.len() - 1]));
        }
        assert(equiv(l[k], v));
    }
    if present(l, v) {
        let k = choose|k: int| 0 <= k < l.len() && #[trigger] equiv(l[k], v);
        assert(s[k] == l[k]);
    }
    if removed(l, v, l2) && present(l, v) {
        let i = choose|i: int| 0 <= i < l.len() && #[trigger] equiv(l[i], v) && l2 == l.remove(i);
        assert(s[i] == l[i]);
        assert(l2 + seq![x] + r =~= s.remove(i));
    }
    if inserted(l, v, l2) && !present(l, v) {
        let i = choose|i: int| 0 <= i <= l.len() && l2 == #[trigger] l.insert(i, v);
        assert(l2 + seq![x] + r =~= s.insert(i, v));
    }
}

/// Deleting or inserting `v` below a node whose element sorts before `v`
/// acts on the right part alone.
pub proof fn lemma_right_part<T: Ord>(l: Seq<T>, x: T, r: Seq<T>, v: T, r2: Seq<T>)
    requires
        obeys_cmp::<T>(),
        lt(x, v),
        all_below(l, x),
    ensures
        present(l + seq![x] + r, v) == present(r, v),
        removed(r, v, r2) ==> removed(l + seq![x] + r, v, l + seq![x] + r2),
        inserted(r, v, r2) ==> inserted(l + seq![x] + r, v, l + seq![x] + r2),
{
    lemma_total_order::<T>();
    let s = l + seq![x] + r;
    let n = l.len() + 1;
    if present(s, v) {
        let k = choose|k: int| 0 <= k < s.len() && #[trigger] equiv(s[k], v);
        if k < l.len() {
            assert(lt(l[k], x));
        }
        assert(equiv(r[k - n], v));
    }
    if present(r, v) {
        let k = choose|k: int| 0 <= k < r.len() && #[trigger] equiv(r[k], v);
        assert(s[k + n] == r[k]);
    }
    if removed(r, v, r2) && present(r, v) {
        let i = choose|i: int| 0 <= i < r.len() && #[trigger] equiv(r[i], v) && r2 == r.remove(i);
        assert(s[i + n] == r[i]);
        assert(l + seq![x] + r2 =~= s.remove(i + n));
    }
    if inserted(r, v, r2) && !present(r, v) {
        let i = choose|i: int| 0 <= i <= r.len() && r2 == #[trigger] r.insert(i, v);
        assert(l + seq![x] + r2 =~= s.insert(i + n, v));
    }
}

/// `after` is what inserting each of `vals` in turn into `before` gives.
pub open spec fn inserted_each<T: Ord>(before: Seq<T>, vals: Seq<T>, after: Seq<T>) -> bool
    decreases vals.len(),
{
    if vals.len() == 0 {
        after == before
    } else {
        exists|mid: Seq<T>|
            inserted_each(before, vals.drop_last(), mid) && #[trigger] inserted(mid, vals.last(), after)
    }
}

} // verus!
