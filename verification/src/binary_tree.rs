//! An unbalanced binary search tree over integer values.

use vstd::prelude::*;

verus! {

/// The sequence is strictly ascending: later elements are strictly greater.
pub open spec fn strictly_ascending(s: Seq<i64>) -> bool {
    forall|i: int, j: int| 0 <= i < j < s.len() ==> s[i] < s[j]
}

/// The view of a tree after `insert` of each of `vs` in turn, starting from
/// an empty tree: each call adds its value to the view, as
/// `BinaryTree::insert` ensures.
pub open spec fn after_inserts(vs: Seq<i64>) -> Set<i64>
    decreases vs.len(),
{
    if vs.len() == 0 {
        Set::empty()
    } else {
        after_inserts(vs.drop_last()).insert(vs.last())
    }
}

/// Inserting the values v1..vn into an empty tree stores exactly those
/// values, duplicates collapsed; with the contract of `search`, membership
/// then answers true for every inserted value and false for any other.
pub proof fn lemma_inserts_store_values(vs: Seq<i64>)
    ensures
        after_inserts(vs) == vs.to_set(),
    decreases vs.len(),
{
    if vs.len() == 0 {
        assert(after_inserts(vs) =~= vs.to_set());
    } else {
        lemma_inserts_store_values(vs.drop_last());
        assert(after_inserts(vs) =~= vs.to_set()) by {
            assert forall|v: i64| vs.to_set().contains(v) implies after_inserts(vs).contains(
                v,
            ) by {
                let i = choose|i: int| 0 <= i < vs.len() && vs[i] == v;
                if i < vs.len() - 1 {
                    assert(vs.drop_last()[i] == v);
                    assert(vs.drop_last().to_set().contains(v));
                }
            }
            assert forall|v: i64| after_inserts(vs).contains(v) implies vs.to_set().contains(
                v,
            ) by {
                if v != vs.last() {
                    assert(vs.drop_last().to_set().contains(v));
                    let i = choose|i: int| 0 <= i < vs.drop_last().len() && vs.drop_last()[i] == v;
                    assert(vs[i] == v);
                }
            }
        }
    }
}

/// A node in the binary tree.
struct Node {
    value: i64,
    left: Option<Box<Node>>,
    right: Option<Box<Node>>,
}

/// A binary search tree: every value in a node's left subtree is strictly
/// less than the node's value, every value in its right subtree strictly
/// greater. Duplicate inserts are silently ignored, so the tree holds a set.
pub struct BinaryTree {
    root: Option<Box<Node>>,
}

impl Node {
    /// The set of values stored in an optional subtree.
    spec fn optional_value_set(node_opt: Option<Box<Node>>) -> Set<i64>
        decreases node_opt,
    {
        match node_opt {
            None => Set::empty(),
            Some(node) => node.value_set(),
        }
    }

    /// The set of values stored in the subtree rooted at this node.
    spec fn value_set(self) -> Set<i64>
        decreases self,
    {
        Node::optional_value_set(self.left).union(Node::optional_value_set(self.right)).insert(
            self.value,
        )
    }

    /// The values of an optional subtree, left subtree first, then the node,
    /// then the right subtree.
    spec fn optional_in_order(node_opt: Option<Box<Node>>) -> Seq<i64>
        decreases node_opt,
    {
        match node_opt {
            None => Seq::empty(),
            Some(node) => node.in_order(),
        }
    }

    /// The values of the subtree rooted at this node, in symmetric order.
    spec fn in_order(self) -> Seq<i64>
        decreases self,
    {
        Node::optional_in_order(self.left) + seq![self.value] + Node::optional_in_order(self.right)
    }

    /// The binary-search-tree ordering property.
    spec fn well_formed(self) -> bool
        decreases self,
    {
        &&& (forall|v: i64| Node::optional_value_set(self.left).contains(v) ==> v < self.value)
        &&& (forall|v: i64| Node::optional_value_set(self.right).contains(v) ==> v > self.value)
        &&& (match self.left {
            Some(left_node) => left_node.well_formed(),
            None => true,
        })
        &&& (match self.right {
            Some(right_node) => right_node.well_formed(),
            None => true,
        })
    }
}

impl BinaryTree {
    /// The ordering invariant of the whole tree.
    pub closed spec fn well_formed(self) -> bool {
        match self.root {
            Some(node) => node.well_formed(),
            None => true,
        }
    }

    /// The values stored in the tree, in symmetric order.
    pub closed spec fn in_order(self) -> Seq<i64> {
        Node::optional_in_order(self.root)
    }
}

impl View for BinaryTree {
    type V = Set<i64>;

    /// A tree is viewed as the set of values it stores.
    closed spec fn view(&self) -> Set<i64> {
        Node::optional_value_set(self.root)
    }
}

impl BinaryTree {
    /// Create a new empty binary tree.
    pub fn new() -> (tree: Self)
        ensures
            tree.well_formed(),
            tree@ == Set::<i64>::empty(),
            tree.in_order() == Seq::<i64>::empty(),
    {
        BinaryTree { root: None }
    }

    /// Insert a value into the binary tree; inserting a value already present
    /// leaves the tree unchanged.
    pub fn insert(&mut self, value: i64)
        requires
            old(self).well_formed(),
        ensures
            final(self).well_formed(),
            final(self)@ == old(self)@.insert(value),
    {
        Self::insert_recursive(&mut self.root, value);
        proof {
            assert(self@ =~= old(self)@.insert(value));
        }
    }

    /// Recursively insert a value into the subtree rooted at `current`.
    fn insert_recursive(current: &mut Option<Box<Node>>, value: i64)
        requires
            (match *old(current) {
                Some(node) => node.well_formed(),
                None => true,
            }),
        ensures
            (match *final(current) {
                Some(node) => node.well_formed(),
                None => true,
            }),
            Node::optional_value_set(*final(current)) =~= Node::optional_value_set(
                *old(current),
            ).insert(value),
        decreases *old(current),
    {
        match current.take() {
            None => {
                *current = Some(
                    Box::new(Node { value, left: None, right: None }),
                );
            },
            Some(mut node) => {
                if value < node.value {
                    Self::insert_recursive(&mut node.left, value);
                } else if value > node.value {
                    Self::insert_recursive(&mut node.right, value);
                }
                *current = Some(node);
            },
        }
    }

    /// Search for a value in the binary tree.
    pub fn search(&self, value: &i64) -> (present: bool)
        requires
            self.well_formed(),
        ensures
            present == self@.contains(*value),
    {
        Self::search_recursive(&self.root, value)
    }

    /// Recursively search for a value in the subtree rooted at `current`.
    fn search_recursive(current: &Option<Box<Node>>, value: &i64) -> (present: bool)
        requires
            (match *current {
                Some(node) => node.well_formed(),
                None => true,
            }),
        ensures
            present == Node::optional_value_set(*current).contains(*value),
        decreases current,
    {
        match current {
            None => false,
            Some(node) => {
                if *value == node.value {
                    true
                } else if *value < node.value {
                    proof {
                        assert(!Node::optional_value_set(node.right).contains(*value));
                    }
                    Self::search_recursive(&node.left, value)
                } else {
                    proof {
                        assert(!Node::optional_value_set(node.left).contains(*value));
                    }
                    Self::search_recursive(&node.right, value)
                }
            },
        }
    }

    /// Collect the values of the tree in symmetric order: for a well-formed
    /// tree this is the ascending order of its values.
    pub fn in_order_traversal(&self) -> (result: Vec<i64>)
        ensures
            result@ == self.in_order(),
            self.well_formed() ==> strictly_ascending(result@) && result@.to_set() == self@,
    {
        let mut result: Vec<i64> = Vec::new();
        Self::in_order_traversal_recursive(&self.root, &mut result);
        proof {
            assert(result@ =~= self.in_order());
            if self.well_formed() {
                self.lemma_in_order_sorted();
            }
        }
        result
    }

    /// Recursively append the subtree's values to `result` in symmetric order.
    fn in_order_traversal_recursive(current: &Option<Box<Node>>, result: &mut Vec<i64>)
        ensures
            final(result)@ == old(result)@ + Node::optional_in_order(*current),
        decreases current,
    {
        match current {
            None => {
                proof {
                    assert(result@ =~= result@ + Node::optional_in_order(*current));
                }
            },
            Some(node) => {
                Self::in_order_traversal_recursive(&node.left, result);
                result.push(node.value);
                Self::in_order_traversal_recursive(&node.right, result);
                proof {
                    assert(result@ =~= old(result)@ + Node::optional_in_order(*current));
                }
            },
        }
    }
}

impl Default for BinaryTree {
    /// An empty tree.
    fn default() -> (tree: Self)
        ensures
            tree.well_formed(),
            tree@ == Set::<i64>::empty(),
    {
        Self::new()
    }
}

impl BinaryTree {
    /// In a well-formed tree the symmetric-order listing is strictly
    /// ascending and holds exactly the stored values: whatever values are
    /// inserted, the traversal yields the distinct values in sorted order.
    pub proof fn lemma_in_order_sorted(self)
        requires
            self.well_formed(),
        ensures
            strictly_ascending(self.in_order()),
            self.in_order().to_set() == self@,
    {
        Self::lemma_optional_in_order(self.root);
    }

    /// Structural induction for `lemma_in_order_sorted` over optional subtrees.
    proof fn lemma_optional_in_order(node_opt: Option<Box<Node>>)
        requires
            (match node_opt {
                Some(node) => node.well_formed(),
                None => true,
            }),
        ensures
            strictly_ascending(Node::optional_in_order(node_opt)),
            Node::optional_in_order(node_opt).to_set() == Node::optional_value_set(node_opt),
        decreases node_opt,
    {
        match node_opt {
            None => {
                assert(Node::optional_in_order(node_opt).to_set() =~= Node::optional_value_set(
                    node_opt,
                ));
            },
            Some(node) => {
                Self::lemma_optional_in_order(node.left);
                Self::lemma_optional_in_order(node.right);
                let l = Node::optional_in_order(node.left);
                let r = Node::optional_in_order(node.right);
                let s = node.in_order();
                assert(s.to_set() =~= Node::optional_value_set(node_opt)) by {
                    assert forall|v: i64| s.to_set().contains(v) implies node.value_set().contains(
                        v,
                    ) by {
                        let i = choose|i: int| 0 <= i < s.len() && s[i] == v;
                        if i < l.len() {
                            assert(l[i] == v);
                            assert(l.to_set().contains(v));
                        } else if i > l.len() {
                            assert(r[i - l.len() - 1] == v);
                            assert(r.to_set().contains(v));
                        }
                    }
                    assert forall|v: i64| node.value_set().contains(v) implies s.to_set().contains(
                        v,
                    ) by {
                        if v == node.value {
                            assert(s[l.len() as int] == v);
                        } else if Node::optional_value_set(node.left).contains(v) {
                            let i = choose|i: int| 0 <= i < l.len() && l[i] == v;
                            assert(s[i] == v);
                        } else {
                            let i = choose|i: int| 0 <= i < r.len() && r[i] == v;
                            assert(s[l.len() + 1 + i] == v);
                        }
                    }
                }
                assert forall|i: int, j: int| 0 <= i < j < s.len() implies s[i] < s[j] by {
                    if i < l.len() {
                        assert(s[i] == l[i]);
                        assert(l.to_set().contains(l[i]));
                    }
                    if j < l.len() {
                        assert(s[j] == l[j]);
                    }
                    if i > l.len() {
                        assert(s[i] == r[i - l.len() - 1]);
                        assert(r.to_set().contains(s[i]));
                    }
                    if j > l.len() {
                        assert(s[j] == r[j - l.len() - 1]);
                        assert(r.to_set().contains(s[j]));
                    }
                }
            },
        }
    }
}

} // verus!
