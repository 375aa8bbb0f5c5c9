//! The tree: each node owns an optional element and its two optional subtrees.
use crate::order::{
    all_above, all_below, ascending, equiv, lemma_left_part, lemma_inserted_bounds, lemma_removed_bounds,
    lemma_right_part,
    lemma_total_order, inserted, inserted_each, lt, present, removed,
};
use core::cmp::Ordering;
use vstd::laws_cmp::obeys_cmp;
use vstd::prelude::*;
use vstd::std_specs::cmp::OrdSpec;

verus! {

/// Why an insert or a delete did nothing.
#[derive(Debug, Clone, Copy, PartialEq, Eq, Structural)]
pub enum TreeError {
    /// The value to delete compares equal to no element of the tree.
    ElementNotFound,
    /// The value to insert compares equal to an element already in the tree.
    DuplicateElement,
}

/// An unbalanced binary search tree.
///
/// A tree whose root holds no element and has no children is the empty tree;
/// every other node holds an element, and every element in its left subtree
/// sorts before it and every element in its right subtree after it.
pub struct BinaryTree<T: Ord> {
    /// The element at this node, absent only in the empty tree.
    pub elem: Option<Box<T>>,
    /// The subtree of larger elements.
    pub right: Option<Box<BinaryTree<T>>>,
    /// The subtree of smaller elements.
    pub left: Option<Box<BinaryTree<T>>>,
}

impl<T: Ord> BinaryTree<T> {
    /// The elements of an optional subtree, in order.
    pub open spec fn opt_elems(t: Option<Box<BinaryTree<T>>>) -> Seq<T>
        decreases t,
    {
        match t {
            Some(n) => n.elems(),
            None => Seq::empty(),
        }
    }

    /// The element at this node, as a sequence of zero or one elements.
    pub open spec fn at_node(self) -> Seq<T> {
        match self.elem {
            Some(e) => seq![*e],
            None => Seq::empty(),
        }
    }

    /// The elements of the tree in order: left subtree, this node, right subtree.
    pub open spec fn elems(self) -> Seq<T>
        decreases self,
    {
        let here = self.at_node();
        Self::opt_elems(self.left) + here + Self::opt_elems(self.right)
    }

    /// The elements in pre-order: this node, left subtree, right subtree.
    pub open spec fn pre_elems(self) -> Seq<T>
        decreases self,
    {
        let here = self.at_node();
        let l = match self.left {
            Some(n) => n.pre_elems(),
            None => Seq::empty(),
        };
        let r = match self.right {
            Some(n) => n.pre_elems(),
            None => Seq::empty(),
        };
        here + l + r
    }

    /// The elements in post-order: left subtree, right subtree, this node.
    pub open spec fn post_elems(self) -> Seq<T>
        decreases self,
    {
        let here = self.at_node();
        let l = match self.left {
            Some(n) => n.post_elems(),
            None => Seq::empty(),
        };
        let r = match self.right {
            Some(n) => n.post_elems(),
            None => Seq::empty(),
        };
        l + r + here
    }

    /// The height of an optional subtree; an absent one has height 0.
    pub open spec fn opt_height(t: Option<Box<BinaryTree<T>>>) -> nat
        decreases t,
    {
        match t {
            Some(n) => n.spec_height(),
            None => 0,
        }
    }

    /// The number of nodes on the longest path from the root down; 0 for the empty tree.
    pub open spec fn spec_height(self) -> nat
        decreases self,
    {
        if self.is_bare() {
            0
        } else {
            let l = Self::opt_height(self.left);
            let r = Self::opt_height(self.right);
            1 + if l >= r { l } else { r }
        }
    }

    /// The node holds no element and has no children.
    pub open spec fn is_bare(self) -> bool {
        self.elem is None && self.left is None && self.right is None
    }

    /// The element at a node that holds one.
    pub open spec fn value(self) -> T {
        *self.elem.unwrap()
    }

    /// A non-empty search tree: every node holds an element, smaller elements
    /// lie to its left and larger ones to its right.
    pub open spec fn is_node(self) -> bool
        decreases self,
    {
        &&& self.elem is Some
        &&& match self.left {
            Some(l) => l.is_node() && all_below(l.elems(), self.value()),
            None => true,
        }
        &&& match self.right {
            Some(r) => r.is_node() && all_above(r.elems(), self.value()),
            None => true,
        }
    }

    /// The element type is totally ordered and the tree is either empty or a
    /// search tree.
    pub open spec fn wf(self) -> bool {
        &&& obeys_cmp::<T>()
        &&& (self.is_bare() || self.is_node())
    }

    /// A tree of one node that holds `v`.
    pub open spec fn leaf(v: T) -> Self {
        BinaryTree { elem: Some(Box::new(v)), right: None, left: None }
    }

    /// The tree that inserting `v` gives: the empty tree takes `v` at its
    /// root; otherwise `v` goes down, left where it sorts before a node's
    /// element and right where it sorts after, and becomes a new leaf where
    /// the child it needs is absent. A tree holding an equal element is
    /// left as it is.
    pub open spec fn spec_insert(self, v: T) -> Self
        decreases self,
    {
        match self.elem {
            None => BinaryTree { elem: Some(Box::new(v)), right: self.right, left: self.left },
            Some(e) => match v.cmp_spec(&*e) {
                Ordering::Less => BinaryTree {
                    elem: self.elem,
                    right: self.right,
                    left: Some(
                        Box::new(
                            match self.left {
                                Some(l) => l.spec_insert(v),
                                None => Self::leaf(v),
                            },
                        ),
                    ),
                },
                Ordering::Greater => BinaryTree {
                    elem: self.elem,
                    right: Some(
                        Box::new(
                            match self.right {
                                Some(r) => r.spec_insert(v),
                                None => Self::leaf(v),
                            },
                        ),
                    ),
                    left: self.left,
                },
                Ordering::Equal => self,
            },
        }
    }

    /// The tree that inserting each of `vals` in turn gives.
    pub open spec fn spec_insert_all(self, vals: Seq<T>) -> Self
        decreases vals.len(),
    {
        if vals.len() == 0 {
            self
        } else {
            self.spec_insert_all(vals.drop_last()).spec_insert(vals.last())
        }
    }

    /// The subtree at `link` without its leftmost node: that node gives way
    /// to its right subtree.
    pub open spec fn spec_without_min(link: Option<Box<BinaryTree<T>>>) -> Option<Box<BinaryTree<T>>>
        decreases link,
    {
        match link {
            None => None,
            Some(n) => match n.left {
                None => n.right,
                Some(_) => Some(
                    Box::new(
                        BinaryTree {
                            elem: n.elem,
                            right: n.right,
                            left: Self::spec_without_min(n.left),
                        },
                    ),
                ),
            },
        }
    }

    /// The subtree that removing the element at the root of `n` leaves: with
    /// no left child the right subtree, with no right child the left one,
    /// and with both the root takes the smallest element of the right
    /// subtree, which leaves that subtree.
    pub open spec fn spec_remove_root(n: BinaryTree<T>) -> Option<Box<BinaryTree<T>>> {
        match (n.left, n.right) {
            (None, r) => r,
            (l, None) => l,
            (Some(_), Some(_)) => Some(
                Box::new(
                    BinaryTree {
                        elem: Some(Box::new(Self::opt_elems(n.right)[0])),
                        right: Self::spec_without_min(n.right),
                        left: n.left,
                    },
                ),
            ),
        }
    }

    /// The subtree that deleting `v` from the subtree at `link` leaves: the
    /// search goes left or right as `v` sorts before or after a node's
    /// element, and the node whose element compares equal is removed.
    pub open spec fn spec_delete_link(link: Option<Box<BinaryTree<T>>>, v: T) -> Option<Box<BinaryTree<T>>>
        decreases link,
    {
        match link {
            None => None,
            Some(n) => match v.cmp_spec(&n.value()) {
                Ordering::Less => Some(
                    Box::new(
                        BinaryTree {
                            elem: n.elem,
                            right: n.right,
                            left: Self::spec_delete_link(n.left, v),
                        },
                    ),
                ),
                Ordering::Greater => Some(
                    Box::new(
                        BinaryTree {
                            elem: n.elem,
                            right: Self::spec_delete_link(n.right, v),
                            left: n.left,
                        },
                    ),
                ),
                Ordering::Equal => Self::spec_remove_root(*n),
            },
        }
    }

    /// The tree that deleting `v` gives; where the whole tree goes, the
    /// empty tree is left.
    pub open spec fn spec_delete(self, v: T) -> Self {
        if self.elem is None {
            self
        } else {
            match Self::spec_delete_link(Some(Box::new(self)), v) {
                Some(n) => *n,
                None => BinaryTree { elem: None, right: None, left: None },
            }
        }
    }

    /// The elements of a search tree are strictly ascending, and no deeper
    /// than they are many.
    pub proof fn lemma_node_ascending(self)
        requires
            obeys_cmp::<T>(),
            self.is_node(),
        ensures
            ascending(self.elems()),
            self.spec_height() <= self.elems().len(),
            self.elems().len() > 0,
        decreases self,
    {
        lemma_total_order::<T>();
        let l = Self::opt_elems(self.left);
        let r = Self::opt_elems(self.right);
        let v = self.value();
        if let Some(ln) = self.left {
            ln.lemma_node_ascending();
        }
        if let Some(rn) = self.right {
            rn.lemma_node_ascending();
        }
        let s = self.elems();
        assert(s =~= l + seq![v] + r);
        assert forall|i: int, j: int| 0 <= i < j < s.len() implies #[trigger] lt(s[i], s[j]) by {
            if i < l.len() && j > l.len() {
                assert(lt(l[i], v));
                assert(lt(v, r[j - l.len() - 1]));
            }
        }
    }

    /// A well-formed tree is empty exactly when it holds no element.
    pub proof fn lemma_wf_len(self)
        requires
            self.wf(),
        ensures
            self.is_bare() <==> self.elems().len() == 0,
            self.elems().len() > 0 ==> self.is_node(),
            ascending(self.elems()),
            self.spec_height() <= self.elems().len(),
    {
        if self.is_node() {
            self.lemma_node_ascending();
        } else {
            assert(self.elems() =~= Seq::<T>::empty());
        }
    }

    /// Makes a tree that holds `elem` alone.
    pub fn new(elem: T) -> (t: Self)
        requires
            obeys_cmp::<T>(),
        ensures
            t.wf(),
            t == Self::leaf(elem),
            t.elems() == seq![elem],
    {
        let t = BinaryTree { elem: Some(Box::new(elem)), right: None, left: None };
        assert(t.elems() =~= seq![elem]);
        t
    }

    /// Whether the tree holds no element.
    pub fn is_empty(&self) -> (r: bool)
        requires
            self.wf(),
        ensures
            r == (self.elems().len() == 0),
    {
        proof {
            self.lemma_wf_len();
        }
        self.elem.is_none() && self.right.is_none() && self.left.is_none()
    }

    /// Removes the smallest element of the subtree at `link` and returns it.
    fn take_min(link: &mut Option<Box<BinaryTree<T>>>) -> (m: T)
        requires
            obeys_cmp::<T>(),
            old(link).is_some(),
            old(link).unwrap().is_node(),
        ensures
            final(link).is_some() ==> final(link).unwrap().is_node(),
            m == Self::opt_elems(*old(link))[0],
            Self::opt_elems(*final(link)) == Self::opt_elems(*old(link)).drop_first(),
            *final(link) == Self::spec_without_min(*old(link)),
            Self::opt_height(*final(link)) <= Self::opt_height(*old(link)),
        decreases *old(link),
    {
        let ghost before = Self::opt_elems(*link);
        let node = link.take().unwrap();
        let ghost nd: BinaryTree<T> = *node;
        assert(before == nd.elems());
        assert(nd.is_node());
        let BinaryTree { elem, left, right } = *node;
        assert(nd.left == left && nd.right == right && nd.elem == elem);
        match left {
            None => {
                assert(match nd.right { Some(r) => r.is_node(), None => true });
                assert(right.is_some() ==> right.unwrap().is_node());
                *link = right;
                proof {
                    assert(before =~= seq![*elem.unwrap()] + Self::opt_elems(right));
                    assert(Self::opt_elems(right) =~= before.drop_first());
                }
                *elem.unwrap()
            },
            Some(l) => {
                let mut left = Some(l);
                let ghost old_left = Self::opt_elems(left);
                proof {
                    l.lemma_node_ascending();
                }
                let m = Self::take_min(&mut left);
                let ghost v = *elem.unwrap();
                let ghost new_left = Self::opt_elems(left);
                assert(v == nd.value());
                assert(forall|i: int| 0 <= i < old_left.len() ==> #[trigger] lt(old_left[i], v));
                assert forall|i: int| 0 <= i < new_left.len() implies #[trigger] lt(new_left[i], v) by {
                    assert(new_left[i] == old_left[i + 1]);
                }
                let rebuilt = BinaryTree { elem, left, right };
                proof {
                    assert(before =~= old_left + seq![v] + Self::opt_elems(right));
                    assert(rebuilt.elems() =~= new_left + seq![v] + Self::opt_elems(right));
                    assert(rebuilt.elems() =~= before.drop_first());
                }
                *link = Some(Box::new(rebuilt));
                m
            },
        }
    }

    /// Removes the element at the root of a search tree: a node with one
    /// child gives way to that child, a node with two takes the smallest
    /// element of its right subtree.
    fn remove_root(node: Box<BinaryTree<T>>) -> (r: Option<Box<BinaryTree<T>>>)
        requires
            obeys_cmp::<T>(),
            node.is_node(),
        ensures
            r is Some ==> r.unwrap().is_node(),
            Self::opt_elems(r) == node.elems().remove(Self::opt_elems(node.left).len() as int),
            r == Self::spec_remove_root(*node),
            Self::opt_height(r) <= node.spec_height(),
    {
        let ghost before = node.elems();
        let ghost v = node.value();
        let ghost nd: BinaryTree<T> = *node;
        assert(nd.is_node());
        let BinaryTree { elem, left, right } = *node;
        assert(nd.left == left && nd.right == right && nd.elem == elem);
        let ghost l_elems = Self::opt_elems(left);
        let ghost r_elems = Self::opt_elems(right);
        proof {
            lemma_total_order::<T>();
            assert(before =~= l_elems + seq![v] + r_elems);
            assert(before.remove(l_elems.len() as int) =~= l_elems + r_elems);
            assert(v == nd.value());
            if let Some(x) = nd.left {
                assert(l_elems == x.elems());
            }
            if let Some(x) = nd.right {
                assert(r_elems == x.elems());
            }
            assert(forall|i: int| 0 <= i < l_elems.len() ==> #[trigger] lt(l_elems[i], v));
            assert(forall|i: int| 0 <= i < r_elems.len() ==> #[trigger] lt(v, r_elems[i]));
        }
        match (left, right) {
            (None, right) => {
                assert(l_elems + r_elems =~= r_elems);
                right
            },
            (left, None) => {
                assert(l_elems + r_elems =~= l_elems);
                left
            },
            (Some(l), Some(rn)) => {
                proof {
                    rn.lemma_node_ascending();
                }
                let mut right = Some(rn);
                let m = Self::take_min(&mut right);
                let ghost new_right = Self::opt_elems(right);
                assert(lt(v, m));
                assert forall|i: int| 0 <= i < l_elems.len() implies #[trigger] lt(l_elems[i], m) by {
                    assert(lt(l_elems[i], v));
                }
                assert forall|i: int| 0 <= i < new_right.len() implies #[trigger] lt(m, new_right[i]) by {
                    assert(new_right[i] == r_elems[i + 1]);
                }
                let t = BinaryTree { elem: Some(Box::new(m)), left: Some(l), right };
                assert(t.elems() =~= l_elems + seq![m] + new_right);
                assert(r_elems =~= seq![m] + new_right);
                Some(Box::new(t))
            },
        }
    }

    /// Deletes the element that compares equal to `v` from the subtree at `link`.
    fn delete_link(link: &mut Option<Box<BinaryTree<T>>>, v: T) -> (r: Result<(), TreeError>)
        requires
            obeys_cmp::<T>(),
            old(link).is_some() ==> old(link).unwrap().is_node(),
        ensures
            final(link).is_some() ==> final(link).unwrap().is_node(),
            r == (if present(Self::opt_elems(*old(link)), v) {
                Ok(())
            } else {
                Err(TreeError::ElementNotFound)
            }),
            removed(Self::opt_elems(*old(link)), v, Self::opt_elems(*final(link))),
            r is Err ==> *final(link) == *old(link),
            *final(link) == Self::spec_delete_link(*old(link), v),
            Self::opt_height(*final(link)) <= Self::opt_height(*old(link)),
        decreases *old(link),
    {
        match link.take() {
            None => Err(TreeError::ElementNotFound),
            Some(node) => {
                let ghost nd: BinaryTree<T> = *node;
                assert(nd.is_node());
                let BinaryTree { elem, left, right } = *node;
                assert(nd.left == left && nd.right == right && nd.elem == elem);
                let ghost x = nd.value();
                let ghost l_elems = Self::opt_elems(left);
                let ghost r_elems = Self::opt_elems(right);
                proof {
                    lemma_total_order::<T>();
                    if let Some(n) = nd.left {
                        assert(l_elems == n.elems());
                    }
                    if let Some(n) = nd.right {
                        assert(r_elems == n.elems());
                    }
                    assert(nd.elems() == l_elems + seq![x] + r_elems);
                }
                let ord = match &elem {
                    Some(e) => v.cmp(&**e),
                    None => Ordering::Equal,
                };
                match ord {
                    Ordering::Less => {
                        let mut left = left;
                        let r = Self::delete_link(&mut left, v);
                        proof {
                            lemma_left_part(l_elems, x, r_elems, v, Self::opt_elems(left));
                            lemma_removed_bounds(l_elems, v, Self::opt_elems(left), x);
                        }
                        let t = BinaryTree { elem, left, right };
                        assert(t.elems() == Self::opt_elems(left) + seq![x] + r_elems);
                        *link = Some(Box::new(t));
                        r
                    },
                    Ordering::Greater => {
                        let mut right = right;
                        let r = Self::delete_link(&mut right, v);
                        proof {
                            assert(lt(x, v));
                            lemma_right_part(l_elems, x, r_elems, v, Self::opt_elems(right));
                            lemma_removed_bounds(r_elems, v, Self::opt_elems(right), x);
                        }
                        let t = BinaryTree { elem, left, right };
                        assert(t.elems() == l_elems + seq![x] + Self::opt_elems(right));
                        *link = Some(Box::new(t));
                        r
                    },
                    Ordering::Equal => {
                        let t = BinaryTree { elem, left, right };
                        assert(t == nd);
                        *link = Self::remove_root(Box::new(t));
                        proof {
                            let s = nd.elems();
                            let i = l_elems.len() as int;
                            assert(s[i] == x);
                            assert(equiv(s[i], v));
                            assert(present(s, v));
                        }
                        Ok(())
                    },
                }
            },
        }
    }

    /// Deletes the element that compares equal to `del_elem`.
    ///
    /// A node with no children goes, a node with one child gives way to it,
    /// and a node with two takes the smallest element of its right subtree.
    /// Where no element compares equal, the tree is left as it was.
    pub fn delete(&mut self, del_elem: T) -> (r: Result<(), TreeError>)
        requires
            old(self).wf(),
        ensures
            final(self).wf(),
            r == (if present(old(self).elems(), del_elem) {
                Ok(())
            } else {
                Err(TreeError::ElementNotFound)
            }),
            removed(old(self).elems(), del_elem, final(self).elems()),
            r is Err ==> *final(self) == *old(self),
            *final(self) == old(self).spec_delete(del_elem),
            final(self).spec_height() <= old(self).spec_height(),
    {
        if self.elem.is_none() {
            proof {
                self.lemma_wf_len();
            }
            return Err(TreeError::ElementNotFound);
        }
        let ghost before = *self;
        let mut link = Some(
            Box::new(BinaryTree { elem: self.elem.take(), left: self.left.take(), right: self.right.take() }),
        );
        assert(link.unwrap() == before);
        let r = Self::delete_link(&mut link, del_elem);
        match link {
            Some(node) => {
                *self = *node;
            },
            None => {
                assert(self.elems() =~= Seq::<T>::empty());
            },
        }
        r
    }

    /// Inserts `new_elem` where the order puts it, as a new leaf, or at the
    /// root of the empty tree. Where an element compares equal to it already,
    /// the tree is left as it was and the duplicate is reported.
    pub fn insert(&mut self, new_elem: T) -> (r: Result<(), TreeError>)
        requires
            old(self).wf(),
        ensures
            final(self).wf(),
            r == (if present(old(self).elems(), new_elem) {
                Err(TreeError::DuplicateElement)
            } else {
                Ok(())
            }),
            inserted(old(self).elems(), new_elem, final(self).elems()),
            r is Err ==> *final(self) == *old(self),
            *final(self) == old(self).spec_insert(new_elem),
            old(self).spec_height() <= final(self).spec_height() <= old(self).spec_height() + 1,
        decreases *old(self),
    {
        let ghost before = *self;
        proof {
            lemma_total_order::<T>();
            before.lemma_wf_len();
        }
        let ord = match &self.elem {
            Some(e) => new_elem.cmp(&**e),
            None => {
                self.elem = Some(Box::new(new_elem));
                assert(self.elems() =~= before.elems().insert(0, new_elem));
                return Ok(());
            },
        };
        let ghost x = before.value();
        let ghost l_elems = Self::opt_elems(before.left);
        let ghost r_elems = Self::opt_elems(before.right);
        proof {
            assert(!before.is_bare());
            if let Some(n) = before.left {
                assert(l_elems == n.elems());
            }
            if let Some(n) = before.right {
                assert(r_elems == n.elems());
            }
            assert(before.elems() == l_elems + seq![x] + r_elems);
        }
        match ord {
            Ordering::Less => {
                let r = match self.left.take() {
                    None => {
                        self.left = Some(Box::new(BinaryTree::new(new_elem)));
                        assert(seq![new_elem] =~= l_elems.insert(0, new_elem));
                        assert(Self::leaf(new_elem).spec_height() == 1);
                        Ok(())
                    },
                    Some(mut l) => {
                        let r = (&mut *l).insert(new_elem);
                        proof {
                            l.lemma_wf_len();
                        }
                        self.left = Some(l);
                        r
                    },
                };
                let ghost new_left = Self::opt_elems(self.left);
                proof {
                    assert(new_left.len() > 0);
                    lemma_left_part(l_elems, x, r_elems, new_elem, new_left);
                    lemma_inserted_bounds(l_elems, new_elem, new_left, x);
                    assert(self.elems() == new_left + seq![x] + r_elems);
                }
                r
            },
            Ordering::Greater => {
                let r = match self.right.take() {
                    None => {
                        self.right = Some(Box::new(BinaryTree::new(new_elem)));
                        assert(seq![new_elem] =~= r_elems.insert(0, new_elem));
                        assert(Self::leaf(new_elem).spec_height() == 1);
                        Ok(())
                    },
                    Some(mut n) => {
                        let r = (&mut *n).insert(new_elem);
                        proof {
                            n.lemma_wf_len();
                        }
                        self.right = Some(n);
                        r
                    },
                };
                let ghost new_right = Self::opt_elems(self.right);
                proof {
                    assert(lt(x, new_elem));
                    assert(new_right.len() > 0);
                    lemma_right_part(l_elems, x, r_elems, new_elem, new_right);
                    lemma_inserted_bounds(r_elems, new_elem, new_right, x);
                    assert(self.elems() == l_elems + seq![x] + new_right);
                }
                r
            },
            Ordering::Equal => {
                proof {
                    let i = l_elems.len() as int;
                    assert(before.elems()[i] == x);
                    assert(equiv(before.elems()[i], new_elem));
                }
                Err(TreeError::DuplicateElement)
            },
        }
    }

    /// Whether some element compares equal to `search_elem`.
    pub fn contains(&self, search_elem: T) -> (r: bool)
        requires
            self.wf(),
        ensures
            r == present(self.elems(), search_elem),
        decreases self,
    {
        proof {
            lemma_total_order::<T>();
            self.lemma_wf_len();
        }
        let ord = match &self.elem {
            Some(e) => search_elem.cmp(&**e),
            None => {
                return false;
            },
        };
        let ghost x = self.value();
        let ghost l_elems = Self::opt_elems(self.left);
        let ghost r_elems = Self::opt_elems(self.right);
        proof {
            if let Some(n) = &self.left {
                assert(l_elems == n.elems());
            }
            if let Some(n) = &self.right {
                assert(r_elems == n.elems());
            }
            assert(self.elems() == l_elems + seq![x] + r_elems);
        }
        match ord {
            Ordering::Equal => {
                assert(self.elems()[l_elems.len() as int] == x);
                assert(equiv(search_elem, x));
                assert(equiv(x, search_elem));
                true
            },
            Ordering::Less => {
                proof {
                    lemma_left_part(l_elems, x, r_elems, search_elem, l_elems);
                }
                match &self.left {
                    Some(l) => l.contains(search_elem),
                    None => false,
                }
            },
            Ordering::Greater => {
                proof {
                    assert(lt(x, search_elem));
                    lemma_right_part(l_elems, x, r_elems, search_elem, r_elems);
                }
                match &self.right {
                    Some(n) => n.contains(search_elem),
                    None => false,
                }
            },
        }
    }

    /// Empties the tree, dropping every node.
    pub fn clear(&mut self)
        requires
            old(self).wf(),
        ensures
            final(self).wf(),
            final(self).is_bare(),
            final(self).elems().len() == 0,
    {
        self.elem = None;
        self.left = None;
        self.right = None;
        assert(self.elems() =~= Seq::<T>::empty());
    }

    /// The largest element: the one at the rightmost node.
    pub fn max(&self) -> (r: Option<&T>)
        requires
            self.wf(),
        ensures
            r is None <==> self.elems().len() == 0,
            r is Some ==> *r.unwrap() == self.elems().last(),
            r is Some ==> forall|i: int|
                0 <= i < self.elems().len() - 1 ==> #[trigger] lt(self.elems()[i], *r.unwrap()),
        decreases self,
    {
        proof {
            self.lemma_wf_len();
            if let Some(n) = &self.right {
                assert(Self::opt_elems(self.right) == n.elems());
            }
        }
        let ghost s = self.elems();
        match &self.right {
            Some(n) => {
                proof {
                    n.lemma_wf_len();
                }
                let r = n.max();
                assert(s.last() == n.elems().last());
                r
            },
            None => match &self.elem {
                Some(e) => {
                    assert(s =~= Self::opt_elems(self.left) + seq![self.value()]);
                    Some(&**e)
                },
                None => None,
            },
        }
    }

    /// The smallest element: the one at the leftmost node.
    pub fn min(&self) -> (r: Option<&T>)
        requires
            self.wf(),
        ensures
            r is None <==> self.elems().len() == 0,
            r is Some ==> *r.unwrap() == self.elems()[0],
            r is Some ==> forall|i: int| 0 < i < self.elems().len() ==> #[trigger] lt(*r.unwrap(), self.elems()[i]),
        decreases self,
    {
        proof {
            self.lemma_wf_len();
            if let Some(n) = &self.left {
                assert(Self::opt_elems(self.left) == n.elems());
            }
        }
        let ghost s = self.elems();
        match &self.left {
            Some(n) => {
                proof {
                    n.lemma_wf_len();
                }
                let r = n.min();
                assert(s[0] == n.elems()[0]);
                r
            },
            None => match &self.elem {
                Some(e) => {
                    assert(s =~= seq![self.value()] + Self::opt_elems(self.right));
                    Some(&**e)
                },
                None => None,
            },
        }
    }

    /// The number of nodes on the longest path from the root down: 1 for a
    /// single element, 0 for the empty tree.
    pub fn height(&self) -> (r: usize)
        requires
            self.wf(),
            self.elems().len() <= usize::MAX,
        ensures
            r == self.spec_height(),
        decreases self,
    {
        proof {
            self.lemma_wf_len();
        }
        if self.elem.is_none() {
            return 0;
        }
        let lh: usize = match &self.left {
            Some(n) => {
                proof {
                    assert(Self::opt_elems(self.left) == n.elems());
                    assert(Self::opt_height(self.left) == n.spec_height());
                }
                n.height()
            },
            None => 0,
        };
        let rh: usize = match &self.right {
            Some(n) => {
                proof {
                    assert(Self::opt_elems(self.right) == n.elems());
                    assert(Self::opt_height(self.right) == n.spec_height());
                }
                n.height()
            },
            None => 0,
        };
        if lh >= rh {
            1 + lh
        } else {
            1 + rh
        }
    }

    /// The number of elements.
    pub fn count(&self) -> (r: usize)
        requires
            self.wf(),
            self.elems().len() <= usize::MAX,
        ensures
            r == self.elems().len(),
        decreases self,
    {
        proof {
            self.lemma_wf_len();
            if let Some(n) = &self.left {
                assert(Self::opt_elems(self.left) == n.elems());
            }
            if let Some(n) = &self.right {
                assert(Self::opt_elems(self.right) == n.elems());
            }
        }
        let left_count: usize = match &self.left {
            Some(n) => n.count(),
            None => 0,
        };
        let right_count: usize = match &self.right {
            Some(n) => n.count(),
            None => 0,
        };
        let current_count: usize = if self.elem.is_some() {
            1
        } else {
            0
        };
        left_count + right_count + current_count
    }

    /// Inserts each of `elems` in turn, passing over those that compare
    /// equal to an element already there.
    pub fn vec_insert(&mut self, elems: Vec<T>)
        requires
            old(self).wf(),
        ensures
            final(self).wf(),
            inserted_each(old(self).elems(), elems@, final(self).elems()),
            *final(self) == old(self).spec_insert_all(elems@),
    {
        let ghost start = self.elems();
        let ghost start_tree = *self;
        let ghost vals = elems@;
        for v in it: elems
            invariant
                self.wf(),
                it.seq() == vals,
                inserted_each(start, vals.take(it.index() as int), self.elems()),
                *self == start_tree.spec_insert_all(vals.take(it.index() as int)),
        {
            let ghost mid = self.elems();
            let ghost k = it.index() as int;
            let _ = self.insert(v);
            proof {
                let done = vals.take(k + 1);
                assert(done.drop_last() =~= vals.take(k));
                assert(done.last() == v);
                assert(inserted(mid, done.last(), self.elems()));
            }
        }
        assert(vals.take(vals.len() as int) =~= vals);
    }

    /// Appends references to the elements, left subtree first, then this
    /// node, then the right subtree.
    fn push_inorder<'a>(&'a self, out: &mut Vec<&'a T>)
        ensures
            final(out)@.map_values(|x: &T| *x) == old(out)@.map_values(|x: &T| *x) + self.elems(),
        decreases self,
    {
        let ghost start = out@.map_values(|x: &T| *x);
        let ghost l = Self::opt_elems(self.left);
        let ghost r = Self::opt_elems(self.right);
        if let Some(n) = &self.left {
            assert(l == n.elems());
            n.push_inorder(out);
        }
        assert(out@.map_values(|x: &T| *x) =~= start + l);
        let ghost mid = out@.map_values(|x: &T| *x);
        let ghost here = self.at_node();
        if let Some(e) = &self.elem {
            out.push(&**e);
        }
        assert(out@.map_values(|x: &T| *x) =~= mid + here);
        let ghost mid2 = out@.map_values(|x: &T| *x);
        if let Some(n) = &self.right {
            assert(r == n.elems());
            n.push_inorder(out);
        }
        assert(out@.map_values(|x: &T| *x) =~= mid2 + r);
        assert(self.elems() =~= l + here + r);
    }

    /// References to the elements in order: left subtree, node, right subtree.
    pub fn inorder(&self) -> (r: Vec<&T>)
        ensures
            r@.map_values(|x: &T| *x) == self.elems(),
    {
        let mut out: Vec<&T> = Vec::new();
        assert(out@.map_values(|x: &T| *x) =~= Seq::<T>::empty());
        self.push_inorder(&mut out);
        assert(out@.map_values(|x: &T| *x) =~= self.elems());
        out
    }

    /// Appends references to the elements, this node first, then the left
    /// subtree, then the right subtree.
    fn push_preorder<'a>(&'a self, out: &mut Vec<&'a T>)
        ensures
            final(out)@.map_values(|x: &T| *x) == old(out)@.map_values(|x: &T| *x) + self.pre_elems(),
        decreases self,
    {
        let ghost start = out@.map_values(|x: &T| *x);
        let ghost here = self.at_node();
        if let Some(e) = &self.elem {
            out.push(&**e);
        }
        assert(out@.map_values(|x: &T| *x) =~= start + here);
        let ghost mid = out@.map_values(|x: &T| *x);
        let ghost l: Seq<T> = Seq::empty();
        if let Some(n) = &self.left {
            n.push_preorder(out);
            proof {
                l = n.pre_elems();
            }
        }
        assert(out@.map_values(|x: &T| *x) =~= mid + l);
        let ghost mid2 = out@.map_values(|x: &T| *x);
        let ghost r: Seq<T> = Seq::empty();
        if let Some(n) = &self.right {
            n.push_preorder(out);
            proof {
                r = n.pre_elems();
            }
        }
        assert(out@.map_values(|x: &T| *x) =~= mid2 + r);
        assert(self.pre_elems() =~= here + l + r);
    }

    /// References to the elements in pre-order: node, left subtree, right subtree.
    pub fn preorder(&self) -> (r: Vec<&T>)
        ensures
            r@.map_values(|x: &T| *x) == self.pre_elems(),
    {
        let mut out: Vec<&T> = Vec::new();
        assert(out@.map_values(|x: &T| *x) =~= Seq::<T>::empty());
        self.push_preorder(&mut out);
        assert(out@.map_values(|x: &T| *x) =~= self.pre_elems());
        out
    }

    /// Appends references to the elements, left subtree first, then the
    /// right subtree, then this node.
    fn push_postorder<'a>(&'a self, out: &mut Vec<&'a T>)
        ensures
            final(out)@.map_values(|x: &T| *x) == old(out)@.map_values(|x: &T| *x) + self.post_elems(),
        decreases self,
    {
        let ghost start = out@.map_values(|x: &T| *x);
        let ghost l: Seq<T> = Seq::empty();
        if let Some(n) = &self.left {
            n.push_postorder(out);
            proof {
                l = n.post_elems();
            }
        }
        assert(out@.map_values(|x: &T| *x) =~= start + l);
        let ghost mid = out@.map_values(|x: &T| *x);
        let ghost r: Seq<T> = Seq::empty();
        if let Some(n) = &self.right {
            n.push_postorder(out);
            proof {
                r = n.post_elems();
            }
        }
        assert(out@.map_values(|x: &T| *x) =~= mid + r);
        let ghost mid2 = out@.map_values(|x: &T| *x);
        let ghost here = self.at_node();
        if let Some(e) = &self.elem {
            out.push(&**e);
        }
        assert(out@.map_values(|x: &T| *x) =~= mid2 + here);
        assert(self.post_elems() =~= l + r + here);
    }

    /// References to the elements in post-order: left subtree, right subtree, node.
    pub fn postorder(&self) -> (r: Vec<&T>)
        ensures
            r@.map_values(|x: &T| *x) == self.post_elems(),
    {
        let mut out: Vec<&T> = Vec::new();
        assert(out@.map_values(|x: &T| *x) =~= Seq::<T>::empty());
        self.push_postorder(&mut out);
        assert(out@.map_values(|x: &T| *x) =~= self.post_elems());
        out
    }
}

} // verus!
