//! Singly linked list implementation.
//!
//! Nodes live in an arena `Vec` owned by the list, and a node handle is the
//! node's arena index, so callers may hold handles to interior nodes (for
//! `insert_after`) without shared ownership of the nodes themselves. A cell
//! popped off the front stays in the arena until the list is dropped; it is
//! no longer reachable from the head.

use vstd::prelude::*;

verus! {

/// The contents of a list after `push_front` of each of `vs` in turn,
/// starting from an empty list: each call prepends its value, as
/// `LinkedList::push_front` ensures.
pub open spec fn after_push_fronts<T>(vs: Seq<T>) -> Seq<T>
    decreases vs.len(),
{
    if vs.len() == 0 {
        Seq::empty()
    } else {
        seq![vs.last()] + after_push_fronts(vs.drop_last())
    }
}

/// The contents of a list after `push_back` of each of `vs` in turn,
/// starting from an empty list: each call appends its value, as
/// `LinkedList::push_back` ensures.
pub open spec fn after_push_backs<T>(vs: Seq<T>) -> Seq<T>
    decreases vs.len(),
{
    if vs.len() == 0 {
        Seq::empty()
    } else {
        after_push_backs(vs.drop_last()).push(vs.last())
    }
}

/// Pushing the values v1..vn on the front of an empty list leaves the list
/// reading vn, ..., v1 from front to back.
pub proof fn lemma_push_fronts_reverse<T>(vs: Seq<T>)
    ensures
        after_push_fronts(vs) == vs.reverse(),
    decreases vs.len(),
{
    if vs.len() == 0 {
        assert(after_push_fronts(vs) =~= vs.reverse());
    } else {
        lemma_push_fronts_reverse(vs.drop_last());
        assert(after_push_fronts(vs) =~= vs.reverse());
    }
}

/// Pushing the values v1..vn on the back of an empty list leaves the list
/// reading v1, ..., vn from front to back.
pub proof fn lemma_push_backs_identity<T>(vs: Seq<T>)
    ensures
        after_push_backs(vs) == vs,
    decreases vs.len(),
{
    if vs.len() == 0 {
        assert(after_push_backs(vs) =~= vs);
    } else {
        lemma_push_backs_identity(vs.drop_last());
        assert(after_push_backs(vs) =~= vs);
    }
}

/// One cell of the arena: a stored value and the handle of its successor.
pub struct Node<T> {
    value: T,
    next: Option<usize>,
}

/// A singly linked list. The ghost field `order` lists the arena indices of
/// the live nodes, from the head to the tail.
pub struct LinkedList<T> {
    nodes: Vec<Node<T>>,
    head: Option<usize>,
    order: Ghost<Seq<usize>>,
}

impl<T> LinkedList<T> {
    /// The links from the head visit exactly the nodes listed in `order`,
    /// every listed index names a distinct arena cell, and the last listed
    /// node has no successor.
    pub closed spec fn wf(self) -> bool {
        let ord = self.order@;
        &&& (forall|k: int| 0 <= k < ord.len() ==> (#[trigger] ord[k] as int) < self.nodes@.len())
        &&& (forall|k1: int, k2: int|
            0 <= k1 < k2 < ord.len() ==> #[trigger] ord[k1] != #[trigger] ord[k2])
        &&& (self.head == (if ord.len() == 0 {
            None::<usize>
        } else {
            Some(ord[0])
        }))
        &&& (forall|k: int|
            0 <= k < ord.len() - 1 ==> #[trigger] self.nodes@[ord[k] as int].next == Some(
                ord[k + 1],
            ))
        &&& (ord.len() > 0 ==> self.nodes@[ord[ord.len() - 1] as int].next is None)
    }

    /// The handle `h` names a node currently linked into the list.
    pub closed spec fn has_handle(self, h: usize) -> bool {
        self.order@.contains(h)
    }

    /// The position, from the front, of the node that `h` names.
    pub closed spec fn position(self, h: usize) -> int {
        self.order@.index_of(h)
    }
}

impl<T> View for LinkedList<T> {
    type V = Seq<T>;

    /// A list is viewed as the sequence of its values, front to back.
    closed spec fn view(&self) -> Seq<T> {
        Seq::new(self.order@.len(), |k: int| self.nodes@[self.order@[k] as int].value)
    }
}

impl<T> LinkedList<T> {
    /// A listed index is a live handle, and `index_of` finds its position.
    proof fn lemma_position_of_index(self, k: int)
        requires
            self.wf(),
            0 <= k < self.order@.len(),
        ensures
            self.has_handle(self.order@[k]),
            self.position(self.order@[k]) == k,
    {
        let ord = self.order@;
        assert(ord.contains(ord[k]));
        let k2 = ord.index_of(ord[k]);
        assert(0 <= k2 < ord.len() && ord[k2] == ord[k]);
        if k2 != k {
            assert(ord[k2] != ord[k]);
        }
    }

    /// Create a new empty list.
    pub fn new() -> (list: Self)
        ensures
            list.wf(),
            list@ == Seq::<T>::empty(),
    {
        let list = LinkedList { nodes: Vec::new(), head: None, order: Ghost(Seq::empty()) };
        proof {
            assert(list@ =~= Seq::<T>::empty());
        }
        list
    }

    /// Insert at front (O(1)).
    pub fn push_front(&mut self, value: T)
        requires
            old(self).wf(),
        ensures
            final(self).wf(),
            final(self)@ == seq![value] + old(self)@,
    {
        let fresh: usize = self.nodes.len();
        let old_head = self.head;
        self.nodes.push(Node { value, next: old_head });
        self.head = Some(fresh);
        proof {
            self.order@ = seq![fresh] + self.order@;
        }
        proof {
            let ord = self.order@;
            let old_ord = old(self).order@;
            assert forall|k: int| 0 <= k < ord.len() - 1 implies #[trigger] self.nodes@[ord[k] as int].next
                == Some(ord[k + 1]) by {
                if k > 0 {
                    assert(old(self).nodes@[old_ord[k - 1] as int].next == Some(old_ord[k]));
                }
            }
            assert(self@ =~= seq![value] + old(self)@) by {
                assert forall|k: int| 0 <= k < self@.len() implies self@[k] == (seq![value] + old(
                    self,
                )@)[k] by {
                    if k > 0 {
                        assert(ord[k] == old_ord[k - 1]);
                    }
                }
            }
        }
    }

    /// Insert after an existing node (O(1)).
    pub fn insert_after(&mut self, prev_node: usize, value: T)
        requires
            old(self).wf(),
            old(self).has_handle(prev_node),
        ensures
            final(self).wf(),
            final(self)@ == old(self)@.insert(old(self).position(prev_node) + 1, value),
    {
        proof {
            let p = self.position(prev_node);
            assert(self.order@[p] == prev_node);
        }
        let fresh: usize = self.nodes.len();
        let old_next = self.nodes[prev_node].next;
        self.nodes.push(Node { value, next: old_next });
        self.nodes[prev_node].next = Some(fresh);
        proof {
            let p = old(self).position(prev_node);
            self.order@ = old(self).order@.insert(p + 1, fresh);
        }
        proof {
            let p = old(self).position(prev_node);
            let ord = self.order@;
            let old_ord = old(self).order@;
            assert(0 <= p < old_ord.len() && old_ord[p] == prev_node);
            assert forall|k: int| 0 <= k < ord.len() implies (#[trigger] ord[k] as int)
                < self.nodes@.len() by {
                if k <= p {
                    assert(ord[k] == old_ord[k]);
                } else if k > p + 1 {
                    assert(ord[k] == old_ord[k - 1]);
                }
            }
            assert forall|k: int| 0 <= k < ord.len() - 1 implies #[trigger] self.nodes@[ord[k] as int].next
                == Some(ord[k + 1]) by {
                if k < p {
                    assert(ord[k] == old_ord[k] && ord[k + 1] == old_ord[k + 1]);
                    assert(old_ord[k] != prev_node);
                    assert(old(self).nodes@[old_ord[k] as int].next == Some(old_ord[k + 1]));
                } else if k == p {
                    assert(ord[k] == old_ord[p] && ord[k + 1] == fresh);
                } else if k == p + 1 {
                    assert(ord[k] == fresh && ord[k + 1] == old_ord[p + 1]);
                    assert(old(self).nodes@[old_ord[p] as int].next == Some(old_ord[p + 1]));
                } else {
                    assert(ord[k] == old_ord[k - 1] && ord[k + 1] == old_ord[k]);
                    assert(old_ord[k - 1] != prev_node);
                    assert(old(self).nodes@[old_ord[k - 1] as int].next == Some(old_ord[k]));
                }
            }
            if ord.len() > 0 {
                if p + 1 == ord.len() - 1 {
                    assert(old(self).nodes@[old_ord[p] as int].next is None);
                } else {
                    assert(ord[ord.len() - 1] == old_ord[old_ord.len() - 1]);
                    assert(old_ord[old_ord.len() - 1] != prev_node);
                }
            }
            assert(self@ =~= old(self)@.insert(p + 1, value)) by {
                assert forall|k: int| 0 <= k < self@.len() implies self@[k] == old(self)@.insert(
                    p + 1,
                    value,
                )[k] by {
                    if k <= p {
                        assert(ord[k] == old_ord[k]);
                        if k < p {
                            assert(old_ord[k] != prev_node);
                        }
                        assert(self.nodes@[ord[k] as int].value == old(self).nodes@[ord[k] as int].value);
                    } else if k > p + 1 {
                        assert(ord[k] == old_ord[k - 1]);
                        if k - 1 > p {
                            assert(old_ord[k - 1] != prev_node);
                        }
                        assert(self.nodes@[ord[k] as int].value == old(self).nodes@[ord[k] as int].value);
                    }
                }
            }
        }
    }

    /// Append to end (O(n)).
    pub fn push_back(&mut self, value: T)
        requires
            old(self).wf(),
        ensures
            final(self).wf(),
            final(self)@ == old(self)@.push(value),
    {
        let fresh: usize = self.nodes.len();
        match self.tail() {
            Some(tail_node) => {
                proof {
                    let old_ord = self.order@;
                    assert(old_ord[old_ord.len() - 1] == tail_node);
                }
                self.nodes.push(Node { value, next: None });
                self.nodes[tail_node].next = Some(fresh);
                proof {
                    self.order@ = old(self).order@.push(fresh);
                }
                proof {
                    let ord = self.order@;
                    let old_ord = old(self).order@;
                    let last = old_ord.len() - 1;
                    assert forall|k: int| 0 <= k < ord.len() - 1 implies #[trigger] self.nodes@[ord[k] as int].next
                        == Some(ord[k + 1]) by {
                        if k < last {
                            assert(ord[k] == old_ord[k] && ord[k + 1] == old_ord[k + 1]);
                            assert(old_ord[k] != old_ord[last]);
                            assert(old(self).nodes@[old_ord[k] as int].next == Some(
                                old_ord[k + 1],
                            ));
                        } else {
                            assert(ord[k] == old_ord[last] && ord[k + 1] == fresh);
                        }
                    }
                    assert(self@ =~= old(self)@.push(value)) by {
                        assert forall|k: int| 0 <= k < self@.len() implies self@[k] == old(
                            self,
                        )@.push(value)[k] by {
                            if k < ord.len() - 1 {
                                assert(ord[k] == old_ord[k]);
                                assert(self.nodes@[ord[k] as int].value == old(
                                    self,
                                ).nodes@[ord[k] as int].value);
                            }
                        }
                    }
                }
            },
            None => {
                self.nodes.push(Node { value, next: None });
                self.head = Some(fresh);
                proof {
                    self.order@ = seq![fresh];
                }
                proof {
                    assert(self@ =~= old(self)@.push(value));
                }
            },
        }
    }

    /// Delete the first node (O(1)); on an empty list this does nothing.
    pub fn pop_front(&mut self)
        requires
            old(self).wf(),
        ensures
            final(self).wf(),
            old(self)@.len() == 0 ==> final(self)@ == old(self)@,
            old(self)@.len() > 0 ==> final(self)@ == old(self)@.drop_first(),
    {
        match self.head {
            None => {},
            Some(first) => {
                self.head = self.nodes[first].next;
                proof {
                    self.order@ = self.order@.drop_first();
                }
                proof {
                    let ord = self.order@;
                    let old_ord = old(self).order@;
                    assert forall|k: int| 0 <= k < ord.len() - 1 implies #[trigger] self.nodes@[ord[k] as int].next
                        == Some(ord[k + 1]) by {
                        assert(ord[k] == old_ord[k + 1] && ord[k + 1] == old_ord[k + 2]);
                    }
                    if ord.len() > 0 {
                        assert(self.nodes@[old_ord[0] as int].next == Some(old_ord[1]));
                    }
                    assert(self@ =~= old(self)@.drop_first()) by {
                        assert forall|k: int| 0 <= k < self@.len() implies self@[k] == old(
                            self,
                        )@.drop_first()[k] by {
                            assert(ord[k] == old_ord[k + 1]);
                        }
                    }
                }
            },
        }
    }

    /// The handle of the first node, or `None` if the list is empty.
    pub fn head_handle(&self) -> (h: Option<usize>)
        requires
            self.wf(),
        ensures
            match h {
                None => self@.len() == 0,
                Some(handle) => self@.len() > 0 && self.has_handle(handle) && self.position(
                    handle,
                ) == 0,
            },
    {
        proof {
            if self.order@.len() > 0 {
                self.lemma_position_of_index(0);
            }
        }
        self.head
    }

    /// Read the value of the node that `h` names.
    pub fn value_at(&self, h: usize) -> (value: &T)
        requires
            self.wf(),
            self.has_handle(h),
        ensures
            *value == self@[self.position(h)],
    {
        proof {
            assert(self.order@.contains(h));
            let p = self.position(h);
            assert(0 <= p < self.order@.len() && self.order@[p] == h);
        }
        &self.nodes[h].value
    }

    /// The handle of the successor of the node that `h` names, if any.
    pub fn next_of(&self, h: usize) -> (next: Option<usize>)
        requires
            self.wf(),
            self.has_handle(h),
        ensures
            match next {
                None => self.position(h) == self@.len() - 1,
                Some(succ) => self.position(h) < self@.len() - 1 && self.has_handle(succ)
                    && self.position(succ) == self.position(h) + 1,
            },
    {
        proof {
            assert(self.order@.contains(h));
            let p = self.position(h);
            assert(0 <= p < self.order@.len() && self.order@[p] == h);
            if p < self.order@.len() - 1 {
                assert(self.nodes@[self.order@[p] as int].next == Some(self.order@[p + 1]));
                self.lemma_position_of_index(p + 1);
            } else {
                assert(self.nodes@[self.order@[p] as int].next is None);
            }
        }
        self.nodes[h].next
    }

    /// Find the handle of the last node, or `None` if the list is empty.
    fn tail(&self) -> (tail_node: Option<usize>)
        requires
            self.wf(),
        ensures
            tail_node == (if self.order@.len() == 0 {
                None::<usize>
            } else {
                Some(self.order@[self.order@.len() - 1])
            }),
    {
        match self.head {
            None => None,
            Some(first) => {
                let mut current: usize = first;
                let ghost mut k: int = 0;
                loop
                    invariant
                        self.wf(),
                        0 <= k < self.order@.len(),
                        self.order@[k] == current,
                    decreases self.order@.len() - k,
                {
                    match self.nodes[current].next {
                        Some(next_node) => {
                            proof {
                                let ord = self.order@;
                                assert(self.nodes@[ord[ord.len() - 1] as int].next is None);
                                assert(k < ord.len() - 1);
                                assert(self.nodes@[ord[k] as int].next == Some(ord[k + 1]));
                            }
                            current = next_node;
                            proof {
                                k = k + 1;
                            }
                        },
                        None => {
                            proof {
                                let ord = self.order@;
                                if k < ord.len() - 1 {
                                    assert(self.nodes@[ord[k] as int].next == Some(ord[k + 1]));
                                }
                            }
                            return Some(current);
                        },
                    }
                }
            },
        }
    }
}

impl<T> Default for LinkedList<T> {
    /// An empty list.
    fn default() -> (list: Self)
        ensures
            list.wf(),
            list@ == Seq::<T>::empty(),
    {
        Self::new()
    }
}

} // verus!
