use vstd::multiset::Multiset;
use vstd::prelude::*;

verus! {

broadcast use vstd::multiset::group_multiset_axioms;

/// An unbalanced binary search tree of `i64` values. A node whose `value`
/// is `None` stands for the empty tree; every other node owns an optional
/// left and right subtree. Values strictly smaller than a node's value live
/// to its left, values greater than or equal to it (duplicates included)
/// to its right.
#[derive(Debug, PartialEq)]
pub struct BinarySearchTree {
    pub value: Option<i64>,
    pub left: Option<Box<BinarySearchTree>>,
    pub right: Option<Box<BinarySearchTree>>,
}

impl BinarySearchTree {
    /// The multiset of values held under an optional subtree.
    pub open spec fn opt_multiset(node: Option<Box<BinarySearchTree>>) -> Multiset<i64>
        decreases node,
    {
        match node {
            None => Multiset::empty(),
            Some(t) => t.to_multiset(),
        }
    }

    /// The multiset of values held in the tree, duplicates counted.
    pub open spec fn to_multiset(self) -> Multiset<i64>
        decreases self,
    {
        match self.value {
            None => Multiset::empty(),
            Some(v) => Self::opt_multiset(self.left).insert(v).add(
                Self::opt_multiset(self.right),
            ),
        }
    }

    /// Whether the value `x` is held somewhere in the tree.
    pub open spec fn contains(self, x: i64) -> bool {
        self.to_multiset().count(x) > 0
    }

    /// The search-tree ordering invariant: only the root may be an empty
    /// placeholder node, every value in a left subtree is strictly less
    /// than its parent's value, and every value in a right subtree is
    /// greater than or equal to it.
    pub open spec fn wf(self) -> bool
        decreases self,
    {
        match self.value {
            None => self.left is None && self.right is None,
            Some(v) => {
                &&& (match self.left {
                    Some(l) => l.wf() && l.value is Some && (forall|x: i64|
                        #[trigger] l.contains(x) ==> x < v),
                    None => true,
                })
                &&& (match self.right {
                    Some(r) => r.wf() && r.value is Some && (forall|x: i64|
                        #[trigger] r.contains(x) ==> x >= v),
                    None => true,
                })
            },
        }
    }

    /// Reports whether `value` is held in the tree, walking left past
    /// greater nodes and right past smaller ones.
    pub fn search(&self, value: i64) -> (r: bool)
        requires
            self.wf(),
        ensures
            r == self.contains(value),
        decreases self,
    {
        match self.value {
            Some(v) => {
                if v > value {
                    proof {
                        if let Some(r) = &self.right {
                            assert(!r.contains(value));
                        }
                    }
                    match &self.left {
                        Some(node) => node.search(value),
                        None => false,
                    }
                } else if v < value {
                    proof {
                        if let Some(l) = &self.left {
                            assert(!l.contains(value));
                        }
                    }
                    match &self.right {
                        Some(node) => node.search(value),
                        None => false,
                    }
                } else {
                    true
                }
            },
            None => false,
        }
    }
}

impl BinarySearchTree {
    /// The tree is a chain of right children only: no node has a left child.
    pub open spec fn is_right_chain(self) -> bool
        decreases self,
    {
        self.left is None && (match self.right {
            Some(r) => r.is_right_chain(),
            None => true,
        })
    }

    /// The tree is a chain of left children only: no node has a right child.
    pub open spec fn is_left_chain(self) -> bool
        decreases self,
    {
        self.right is None && (match self.left {
            Some(l) => l.is_left_chain(),
            None => true,
        })
    }

    /// Inserts `value`: an empty tree becomes a singleton; otherwise values
    /// strictly smaller than the node's value descend left and
    /// greater-or-equal values (duplicates included) descend right. The two
    /// last clauses state the degenerate shapes: inserting a value no
    /// smaller than everything present keeps a right-only chain a
    /// right-only chain, and inserting a value smaller than everything
    /// present keeps a left-only chain a left-only chain.
    pub fn insert(&mut self, value: i64)
        requires
            old(self).wf(),
        ensures
            final(self).wf(),
            final(self).value is Some,
            final(self).to_multiset() == old(self).to_multiset().insert(value),
            old(self).is_right_chain() && (forall|x: i64|
                #[trigger] old(self).contains(x) ==> x <= value) ==> final(self).is_right_chain(),
            old(self).is_left_chain() && (forall|x: i64|
                #[trigger] old(self).contains(x) ==> x > value) ==> final(self).is_left_chain(),
        decreases *old(self),
    {
        match self.value {
            Some(v) => {
                if value < v {
                    Self::insert_into_optional(&mut self.left, value);
                    proof {
                        assert(old(self).contains(v));
                        assert(self.to_multiset() =~= old(self).to_multiset().insert(value));
                        if let Some(l) = &self.left {
                            assert forall|x: i64| #[trigger] l.contains(x) implies x < v by {
                                assert(Self::opt_multiset(old(self).left).insert(value).count(x)
                                    > 0);
                                if x != value {
                                    match old(self).left {
                                        Some(lo) => {
                                            assert(lo.contains(x));
                                        },
                                        None => {},
                                    }
                                }
                            }
                        }
                        assert(self.wf());
                        if old(self).is_left_chain() && (forall|x: i64|
                            #[trigger] old(self).contains(x) ==> x > value) {
                            if let Some(l) = &old(self).left {
                                assert forall|x: i64| #[trigger] l.contains(x) implies x > value by {
                                    assert(old(self).contains(x));
                                }
                            }
                            assert(self.is_left_chain());
                        }
                    }
                } else {
                    Self::insert_into_optional(&mut self.right, value);
                    proof {
                        assert(old(self).contains(v));
                        assert(self.to_multiset() =~= old(self).to_multiset().insert(value));
                        if let Some(r) = &self.right {
                            assert forall|x: i64| #[trigger] r.contains(x) implies x >= v by {
                                assert(Self::opt_multiset(old(self).right).insert(value).count(x)
                                    > 0);
                                if x != value {
                                    match old(self).right {
                                        Some(ro) => {
                                            assert(ro.contains(x));
                                        },
                                        None => {},
                                    }
                                }
                            }
                        }
                        assert(self.wf());
                        if old(self).is_right_chain() && (forall|x: i64|
                            #[trigger] old(self).contains(x) ==> x <= value) {
                            if let Some(r) = &old(self).right {
                                assert forall|x: i64| #[trigger] r.contains(x) implies x <= value by {
                                    assert(old(self).contains(x));
                                }
                            }
                            assert(self.is_right_chain());
                        }
                    }
                }
            },
            None => {
                self.value = Some(value);
                proof {
                    assert(self.to_multiset() =~= old(self).to_multiset().insert(value));
                }
            },
        }
    }

    /// Inserts `value` into an optional subtree, creating a singleton node
    /// where the subtree is absent.
    fn insert_into_optional(node: &mut Option<Box<BinarySearchTree>>, value: i64)
        requires
            (*old(node) matches Some(t) ==> t.wf() && t.value is Some),
        ensures
            (*final(node) matches Some(t) && t.wf() && t.value is Some),
            Self::opt_multiset(*final(node)) == Self::opt_multiset(*old(node)).insert(value),
            (match *old(node) {
                None => true,
                Some(t) => t.is_right_chain() && (forall|x: i64|
                    #[trigger] t.contains(x) ==> x <= value),
            }) ==> (*final(node) matches Some(t2) && t2.is_right_chain()),
            (match *old(node) {
                None => true,
                Some(t) => t.is_left_chain() && (forall|x: i64|
                    #[trigger] t.contains(x) ==> x > value),
            }) ==> (*final(node) matches Some(t2) && t2.is_left_chain()),
        decreases *old(node),
    {
        match node.take() {
            None => {
                *node = Some(
                    Box::new(BinarySearchTree { value: Some(value), left: None, right: None }),
                );
                proof {
                    assert(Self::opt_multiset(*node) =~= Self::opt_multiset(
                        *old(node),
                    ).insert(value));
                }
            },
            Some(mut boxed) => {
                (&mut *boxed).insert(value);
                *node = Some(boxed);
            },
        }
    }
}

impl BinarySearchTree {
    /// Returns a reference to the least value, found at the end of the
    /// left chain, or `None` on an empty tree.
    pub fn min(&self) -> (r: Option<&i64>)
        requires
            self.wf(),
        ensures
            self.value is None ==> r is None,
            self.value is Some ==> (r matches Some(m) && self.contains(*m) && (forall|x: i64|
                #[trigger] self.contains(x) ==> *m <= x)),
        decreases self,
    {
        match &self.value {
            Some(value) => match &self.left {
                Some(node) => {
                    let res = node.min();
                    proof {
                        let v = self.value->0;
                        let m = *res->0;
                        assert(node.contains(m));
                        assert(self.contains(m));
                        assert forall|x: i64| #[trigger] self.contains(x) implies m <= x by {
                            if node.to_multiset().count(x) > 0 {
                                assert(node.contains(x));
                            } else if x != v {
                                match self.right {
                                    Some(rt) => {
                                        assert(rt.contains(x));
                                    },
                                    None => {},
                                }
                            }
                        }
                    }
                    res
                },
                None => {
                    proof {
                        let v = self.value->0;
                        assert(self.contains(v));
                        assert forall|x: i64| #[trigger] self.contains(x) implies v <= x by {
                            if x != v {
                                match self.right {
                                    Some(rt) => {
                                        assert(rt.contains(x));
                                    },
                                    None => {},
                                }
                            }
                        }
                    }
                    Some(value)
                },
            },
            None => None,
        }
    }

    /// Returns a reference to the greatest value, found at the end of the
    /// right chain, or `None` on an empty tree.
    pub fn max(&self) -> (r: Option<&i64>)
        requires
            self.wf(),
        ensures
            self.value is None ==> r is None,
            self.value is Some ==> (r matches Some(m) && self.contains(*m) && (forall|x: i64|
                #[trigger] self.contains(x) ==> x <= *m)),
        decreases self,
    {
        match &self.value {
            Some(value) => match &self.right {
                Some(node) => {
                    let res = node.max();
                    proof {
                        let v = self.value->0;
                        let m = *res->0;
                        assert(node.contains(m));
                        assert(self.contains(m));
                        assert forall|x: i64| #[trigger] self.contains(x) implies x <= m by {
                            if node.to_multiset().count(x) > 0 {
                                assert(node.contains(x));
                            } else if x != v {
                                match self.left {
                                    Some(lt) => {
                                        assert(lt.contains(x));
                                    },
                                    None => {},
                                }
                            }
                        }
                    }
                    res
                },
                None => {
                    proof {
                        let v = self.value->0;
                        assert(self.contains(v));
                        assert forall|x: i64| #[trigger] self.contains(x) implies x <= v by {
                            if x != v {
                                match self.left {
                                    Some(lt) => {
                                        assert(lt.contains(x));
                                    },
                                    None => {},
                                }
                            }
                        }
                    }
                    Some(value)
                },
            },
            None => None,
        }
    }
}

/// Law: a value is found in a tree exactly when it was inserted. A tree
/// built by inserting the values of `inserted`, in any order, into an
/// empty tree holds exactly the multiset of `inserted` (by `insert`'s
/// postcondition, starting from `default`'s empty multiset); `search` then
/// reports found for every inserted value, duplicates included, and
/// not-found for every value never inserted.
pub proof fn lemma_search_finds_inserted(t: BinarySearchTree, inserted: Seq<i64>, x: i64)
    requires
        t.to_multiset() == inserted.to_multiset(),
    ensures
        t.contains(x) <==> inserted.contains(x),
{
    broadcast use vstd::seq_lib::group_to_multiset_ensures;

    assert(inserted.contains(x) <==> inserted.to_multiset().count(x) > 0);
}

impl Default for BinarySearchTree {
    fn default() -> (r: Self)
        ensures
            r.wf(),
            r.to_multiset() == Multiset::<i64>::empty(),
            r == (BinarySearchTree { value: None, left: None, right: None }),
    {
        BinarySearchTree { value: None, left: None, right: None }
    }
}

} // verus!
