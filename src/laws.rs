//! Laws that tie several operations together.
use crate::order::{
    ascending, equiv, lt, inserted, inserted_each, lemma_total_order, present, removed,
};
use crate::tree::BinaryTree;
use vstd::laws_cmp::obeys_cmp;
use vstd::prelude::*;

verus! {

/// No two elements of `s` compare equal.
pub open spec fn distinct<T: Ord>(s: Seq<T>) -> bool {
    forall|i: int, j: int| 0 <= i < s.len() && 0 <= j < s.len() && i != j ==> !equiv(#[trigger] s[i], #[trigger] s[j])
}

/// Whatever inserts and deletes have run, a well-formed tree lists its
/// elements in strictly ascending order when walked in order.
pub proof fn lemma_inorder_ascending<T: Ord>(t: BinaryTree<T>)
    requires
        t.wf(),
    ensures
        ascending(t.elems()),
{
    t.lemma_wf_len();
}

/// One insert adds to what is present exactly the inserted value.
pub proof fn lemma_inserted_present<T: Ord>(before: Seq<T>, v: T, after: Seq<T>, x: T)
    requires
        obeys_cmp::<T>(),
        inserted(before, v, after),
    ensures
        present(after, x) <==> present(before, x) || equiv(v, x),
{
    lemma_total_order::<T>();
    if present(before, v) {
        if equiv(v, x) {
            let i = choose|i: int| 0 <= i < before.len() && #[trigger] equiv(before[i], v);
            assert(equiv(before[i], x));
        }
    } else {
        let i = choose|i: int| 0 <= i <= before.len() && after == #[trigger] before.insert(i, v);
        before.insert_ensures(i, v);
        if present(after, x) {
            let k = choose|k: int| 0 <= k < after.len() && #[trigger] equiv(after[k], x);
            if k < i {
                assert(equiv(before[k], x));
            } else if k > i {
                assert(after[(k - 1) + 1] == before[k - 1]);
                assert(equiv(before[k - 1], x));
            }
        }
        if present(before, x) {
            let k = choose|k: int| 0 <= k < before.len() && #[trigger] equiv(before[k], x);
            if k < i {
                assert(equiv(after[k], x));
            } else {
                assert(equiv(after[k + 1], x));
            }
        }
        if equiv(v, x) {
            assert(equiv(after[i], x));
        }
    }
}

/// Round trip: after inserting the values `vals` one by one, in any order,
/// a value is present exactly when it was present before or compares equal
/// to one of `vals`. Starting from the empty tree, `contains` then answers
/// true for each inserted value and false for every other.
pub proof fn lemma_inserts_present<T: Ord>(before: Seq<T>, vals: Seq<T>, after: Seq<T>, x: T)
    requires
        obeys_cmp::<T>(),
        inserted_each(before, vals, after),
    ensures
        present(after, x) <==> present(before, x) || present(vals, x),
    decreases vals.len(),
{
    if vals.len() == 0 {
        assert(!present(vals, x));
    } else {
        let mid = choose|mid: Seq<T>|
            inserted_each(before, vals.drop_last(), mid) && #[trigger] inserted(mid, vals.last(), after);
        lemma_inserts_present(before, vals.drop_last(), mid, x);
        lemma_inserted_present(mid, vals.last(), after, x);
        let n = vals.len() - 1;
        if present(vals, x) {
            let k = choose|k: int| 0 <= k < vals.len() && #[trigger] equiv(vals[k], x);
            if k < n {
                assert(equiv(vals.drop_last()[k], x));
            }
        }
        if present(vals.drop_last(), x) {
            let k = choose|k: int| 0 <= k < n && #[trigger] equiv(vals.drop_last()[k], x);
            assert(equiv(vals[k], x));
        }
        if equiv(vals.last(), x) {
            assert(equiv(vals[n], x));
        }
    }
}

/// Inserting values of which no two compare equal into an empty tree gives
/// a tree of as many elements.
pub proof fn lemma_distinct_inserts_count<T: Ord>(vals: Seq<T>, after: Seq<T>)
    requires
        obeys_cmp::<T>(),
        distinct(vals),
        inserted_each(Seq::empty(), vals, after),
    ensures
        after.len() == vals.len(),
    decreases vals.len(),
{
    if vals.len() > 0 {
        let n = vals.len() - 1;
        let rest = vals.drop_last();
        let mid = choose|mid: Seq<T>|
            inserted_each(Seq::empty(), rest, mid) && #[trigger] inserted(mid, vals.last(), after);
        assert forall|i: int, j: int| 0 <= i < rest.len() && 0 <= j < rest.len() && i != j implies !equiv(#[trigger] rest[i], #[trigger] rest[j]) by {
            assert(rest[i] == vals[i] && rest[j] == vals[j]);
        }
        lemma_distinct_inserts_count(rest, mid);
        lemma_inserts_present(Seq::empty(), rest, mid, vals.last());
        if present(rest, vals.last()) {
            let k = choose|k: int| 0 <= k < rest.len() && #[trigger] equiv(rest[k], vals.last());
            assert(equiv(vals[k], vals[n]));
        }
        assert(!present(Seq::<T>::empty(), vals.last()));
        let i = choose|i: int| 0 <= i <= mid.len() && after == #[trigger] mid.insert(i, vals.last());
    }
}

/// A delete that finds its value takes one element away, and leaves present
/// every value that does not compare equal to the deleted one.
pub proof fn lemma_removed_present<T: Ord>(before: Seq<T>, v: T, after: Seq<T>, x: T)
    requires
        obeys_cmp::<T>(),
        removed(before, v, after),
        present(before, v),
    ensures
        after.len() == before.len() - 1,
        present(before, x) && !equiv(x, v) ==> present(after, x),
{
    lemma_total_order::<T>();
    let i = choose|i: int| 0 <= i < before.len() && #[trigger] equiv(before[i], v) && after == before.remove(i);
    before.remove_ensures(i);
    if present(before, x) && !equiv(x, v) {
        let k = choose|k: int| 0 <= k < before.len() && #[trigger] equiv(before[k], x);
        if k == i {
            assert(equiv(x, before[k]));
            assert(equiv(x, v));
        } else if k < i {
            assert(equiv(after[k], x));
        } else {
            assert(after[k - 1] == before[k]);
            assert(equiv(after[k - 1], x));
        }
    }
}

/// Count law: inserting `n` values of which no two compare equal into an
/// empty tree gives `n` elements, and then deleting `k` of them, no two
/// comparing equal, one after another, leaves `n - k`.
pub proof fn lemma_count_law<T: Ord>(vals: Seq<T>, full: Seq<T>, dels: Seq<T>, states: Seq<Seq<T>>)
    requires
        obeys_cmp::<T>(),
        distinct(vals),
        inserted_each(Seq::empty(), vals, full),
        distinct(dels),
        forall|j: int| 0 <= j < dels.len() ==> present(vals, #[trigger] dels[j]),
        states.len() == dels.len() + 1,
        states[0] == full,
        forall|k: int| 0 <= k < dels.len() ==> removed(#[trigger] states[k], dels[k], states[k + 1]),
    ensures
        full.len() == vals.len(),
        states.last().len() == vals.len() - dels.len(),
{
    lemma_distinct_inserts_count(vals, full);
    assert forall|j: int| 0 <= j < dels.len() implies present(full, #[trigger] dels[j]) by {
        lemma_inserts_present(Seq::empty(), vals, full, dels[j]);
    }
    lemma_deletes_count(dels, states, 0);
}

/// Each successful delete in a run of deletes of values that no two compare
/// equal takes one element away.
proof fn lemma_deletes_count<T: Ord>(dels: Seq<T>, states: Seq<Seq<T>>, k: int)
    requires
        obeys_cmp::<T>(),
        distinct(dels),
        states.len() == dels.len() + 1,
        0 <= k <= dels.len(),
        forall|i: int| 0 <= i < dels.len() ==> removed(#[trigger] states[i], dels[i], states[i + 1]),
        forall|j: int| k <= j < dels.len() ==> present(states[k], #[trigger] dels[j]),
    ensures
        states.last().len() == states[k].len() - (dels.len() - k),
    decreases dels.len() - k,
{
    if k < dels.len() {
        lemma_removed_present(states[k], dels[k], states[k + 1], dels[k]);
        assert forall|j: int| k + 1 <= j < dels.len() implies present(states[k + 1], #[trigger] dels[j]) by {
            assert(!equiv(dels[j], dels[k]));
            lemma_removed_present(states[k], dels[k], states[k + 1], dels[j]);
        }
        lemma_deletes_count(dels, states, k + 1);
    }
}

/// The values an in-order iterator has handed out, followed by those still
/// to come, are the tree's elements in order (its `new` and `next` keep this
/// so); then every value handed out sorts before each later one and before
/// every value still to come.
pub proof fn lemma_handed_out_ascending<T: Ord>(t: BinaryTree<T>, handed: Seq<T>, rest: Seq<T>)
    requires
        t.wf(),
        handed + rest == t.elems(),
    ensures
        ascending(handed),
        forall|i: int, j: int| 0 <= i < handed.len() && 0 <= j < rest.len() ==> #[trigger] lt(handed[i], rest[j]),
{
    t.lemma_wf_len();
    let s = t.elems();
    assert forall|i: int, j: int| 0 <= i < j < handed.len() implies #[trigger] lt(handed[i], handed[j]) by {
        assert(handed[i] == s[i] && handed[j] == s[j]);
    }
    assert forall|i: int, j: int| 0 <= i < handed.len() && 0 <= j < rest.len() implies #[trigger] lt(handed[i], rest[j]) by {
        assert(handed[i] == s[i] && rest[j] == s[handed.len() + j]);
    }
}

/// Clearing a tree that is already empty changes nothing: an empty
/// well-formed tree is the one state that `clear` leaves.
pub proof fn lemma_clear_idempotent<T: Ord>(t: BinaryTree<T>, cleared: BinaryTree<T>)
    requires
        t.wf(),
        t.elems().len() == 0,
        cleared.is_bare(),
    ensures
        cleared == t,
{
    t.lemma_wf_len();
}

} // verus!
