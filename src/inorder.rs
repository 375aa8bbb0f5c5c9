//! In-order iteration without recursion: a stack of the nodes whose element
//! and right subtree are still to come.
use crate::order::{ascending, lt};
use crate::tree::BinaryTree;
use vstd::prelude::*;

verus! {

/// Hands out the elements of a tree in ascending order, one per call of
/// `next`. It borrows the tree, so the tree cannot change meanwhile.
pub struct InOrderIter<'a, T: Ord> {
    stack: Vec<&'a BinaryTree<T>>,
}

/// What a stack of nodes still has to hand out: for each node from the top
/// down, its element and then its right subtree.
pub open spec fn pending<T: Ord>(stack: Seq<&BinaryTree<T>>) -> Seq<T>
    decreases stack.len(),
{
    if stack.len() == 0 {
        Seq::empty()
    } else {
        let top = stack.last();
        seq![top.value()] + BinaryTree::<T>::opt_elems(top.right) + pending(stack.drop_last())
    }
}

/// The node and its left children below it, from the node down to the
/// leftmost one: the order in which they are pushed, so the last is the top.
pub open spec fn left_spine<'a, T: Ord>(node: &'a BinaryTree<T>) -> Seq<&'a BinaryTree<T>>
    decreases *node,
{
    match &node.left {
        Some(l) => seq![node] + left_spine(&**l),
        None => seq![node],
    }
}

impl<'a, T: Ord> InOrderIter<'a, T> {
    /// Every node on the stack is a search tree.
    pub closed spec fn wf(self) -> bool {
        forall|i: int| 0 <= i < self.stack@.len() ==> (#[trigger] self.stack@[i]).is_node()
    }

    /// The elements still to come, in the order they will come.
    pub closed spec fn remaining(self) -> Seq<T> {
        pending(self.stack@)
    }

    /// An iterator over the elements of `tree`, smallest first.
    pub fn new(tree: &'a BinaryTree<T>) -> (it: Self)
        requires
            tree.wf(),
        ensures
            it.wf(),
            it.remaining() == tree.elems(),
            ascending(it.remaining()),
    {
        let mut iter = InOrderIter { stack: Vec::new() };
        proof {
            tree.lemma_wf_len();
        }
        if tree.elem.is_some() {
            iter.push_left(tree);
        }
        assert(iter.remaining() =~= tree.elems());
        iter
    }

    /// Pushes `node` and then its left children, down to the leftmost one.
    fn push_left(&mut self, node: &'a BinaryTree<T>)
        requires
            old(self).wf(),
            node.is_node(),
        ensures
            final(self).wf(),
            final(self).remaining() == node.elems() + old(self).remaining(),
            final(self).stack@ == old(self).stack@ + left_spine(node),
    {
        let ghost before = pending(self.stack@);
        let ghost start = self.stack@;
        let mut current = node;
        loop
            invariant
                self.wf(),
                current.is_node(),
                node.elems() + before == current.elems() + pending(self.stack@),
                self.stack@ + left_spine(current) == start + left_spine(node),
            ensures
                self.wf(),
                current.is_node(),
                current.left is None,
                node.elems() + before == current.elems() + pending(self.stack@),
                self.stack@ + left_spine(current) == start + left_spine(node),
            decreases current.spec_height(),
        {
            match &current.left {
                Some(l) => {
                    let ghost s = self.stack@;
                    self.stack.push(current);
                    proof {
                        assert(self.stack@.drop_last() == s);
                        assert(BinaryTree::<T>::opt_elems(current.left) == l.elems());
                        assert(current.elems() == l.elems() + seq![current.value()]
                            + BinaryTree::<T>::opt_elems(current.right));
                        assert(l.elems() + pending(self.stack@) =~= current.elems() + pending(s));
                        assert(BinaryTree::<T>::opt_height(current.left) == l.spec_height());
                        assert(left_spine(current) == seq![current] + left_spine(&**l));
                        assert(self.stack@ + left_spine(&**l) =~= s + left_spine(current));
                    }
                    current = &**l;
                },
                None => {
                    break ;
                },
            }
        }
        let ghost s = self.stack@;
        self.stack.push(current);
        proof {
            assert(self.stack@.drop_last() == s);
            assert(current.elems() =~= seq![current.value()] + BinaryTree::<T>::opt_elems(current.right));
            assert(pending(self.stack@) =~= current.elems() + pending(s));
            assert(node.elems() + before =~= pending(self.stack@));
            assert(left_spine(current) == seq![current]);
            assert(self.stack@ =~= s + left_spine(current));
        }
    }

    /// The next element in ascending order, or `None` once all have come.
    pub fn next(&mut self) -> (r: Option<&'a T>)
        requires
            old(self).wf(),
        ensures
            final(self).wf(),
            old(self).remaining().len() == 0 ==> r is None && final(self).remaining().len() == 0,
            old(self).remaining().len() > 0 ==> r is Some && *r.unwrap() == old(self).remaining()[0]
                && final(self).remaining() == old(self).remaining().drop_first(),
            ascending(old(self).remaining()) ==> ascending(final(self).remaining()),
            ascending(old(self).remaining()) && r is Some ==> forall|k: int|
                0 <= k < final(self).remaining().len() ==> #[trigger] lt(*r.unwrap(), final(self).remaining()[k]),
    {
        let ghost s = self.stack@;
        match self.stack.pop() {
            None => {
                assert(s.len() == 0);
                None
            },
            Some(top) => {
                proof {
                    assert(self.stack@ == s.drop_last());
                    assert(top == s.last());
                    assert(top.is_node());
                    assert(self.wf());
                }
                let ghost rest = pending(self.stack@);
                let ghost right = BinaryTree::<T>::opt_elems(top.right);
                if let Some(r) = &top.right {
                    proof {
                        assert(right == r.elems());
                    }
                    self.push_left(&**r);
                }
                assert(pending(self.stack@) =~= right + rest);
                assert(pending(s) =~= seq![top.value()] + right + rest);
                assert(pending(self.stack@) =~= pending(s).drop_first());
                assert(forall|k: int| 0 <= k < pending(self.stack@).len() ==> pending(self.stack@)[k] == pending(s)[k + 1]);
                match &top.elem {
                    Some(e) => Some(&**e),
                    None => None,
                }
            },
        }
    }
}

impl<T: Ord> BinaryTree<T> {
    /// An iterator over the elements, smallest first.
    pub fn into_iter(&self) -> (it: InOrderIter<'_, T>)
        requires
            self.wf(),
        ensures
            it.wf(),
            it.remaining() == self.elems(),
            ascending(it.remaining()),
    {
        InOrderIter::new(self)
    }
}

} // verus!
