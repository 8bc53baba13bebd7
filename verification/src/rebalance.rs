//! Refilling a thin child before a deletion goes down into it.

use vstd::prelude::*;
use crate::order::{lt, total_order};
use crate::node::{Node, parts_at};

verus! {

impl<K: Ord, V> Node<K, V> {
    /// Child `j` can give up an item and still hold `minkeys`.
    pub open spec fn child_enough(self, j: int) -> bool {
        self.children[j].items.len() >= self.rules.degree
    }

    /// The neighbour that child `position` turns to for help: the one on
    /// its right, or for the last child the one on its left.
    pub open spec fn sibling_of(self, position: int) -> int {
        if position == self.children.len() - 1 {
            position - 1
        } else {
            position + 1
        }
    }

    /// The index at which child `position` stands once it has been
    /// refilled: its own, unless it had to merge into its left neighbour.
    pub open spec fn refilled_at(self, position: int) -> int {
        if !self.child_enough(position) && self.sibling_of(position) < position && !self.child_enough(
            self.sibling_of(position),
        ) {
            position - 1
        } else {
            position
        }
    }

    /// Makes sure that child `position` has an item to spare, so that a
    /// deletion may go down into it. A child without one borrows an item
    /// from its neighbour, through this node, where the neighbour has one
    /// to spare; otherwise the two merge around the item between them, which
    /// takes one item from this node. Returns the index at which the child
    /// then stands.
    pub fn make_enough(&mut self, position: usize) -> (r: usize)
        requires
            total_order::<K>(),
            old(self).well_formed(),
            position < old(self).children.len(),
            old(self).items.len() >= 1,
        ensures
            final(self).well_formed(),
            final(self).rules == old(self).rules,
            final(self).height() == old(self).height(),
            forall|k: K, v: V| #[trigger] final(self).has(k, v) <==> old(self).has(k, v),
            r == old(self).refilled_at(position as int),
            r < final(self).children.len(),
            final(self).child_enough(r as int),
            old(self).child_enough(position as int) ==> *final(self) == *old(self),
            final(self).model() == old(self).model().refilled(position as int, old(self).rules),
            r == old(self).model().refilled_at(position as int, old(self).rules),
            !old(self).child_enough(position as int) ==> if old(self).child_enough(
                old(self).sibling_of(position as int),
            ) {
                final(self).swapped_from(
                    *old(self),
                    position as int,
                    old(self).sibling_of(position as int),
                )
            } else {
                final(self).merged_from(
                    *old(self),
                    if old(self).sibling_of(position as int) < position {
                        position - 1
                    } else {
                        position as int
                    },
                )
            },
            final(self).items.len() == if !old(self).child_enough(position as int) && !old(
                self,
            ).child_enough(old(self).sibling_of(position as int)) {
                old(self).items.len() - 1
            } else {
                old(self).items.len() as int
            },
            forall|k: K| #[trigger]
                parts_at(old(self).items@, k, position as int) ==> parts_at(
                    final(self).items@,
                    k,
                    r as int,
                ),
            !old(self).child_enough(position as int) ==> forall|k: K| #[trigger]
                parts_at(old(self).items@, k, position as int) ==> !(r < final(self).items.len()
                    && final(self).items[r as int].key == k),
    {
        let mut position = position;
        let ghost before = *old(self);
        let ghost p = position as int;
        proof {
            assert(before.children[p].well_formed());
            before.lemma_model_children();
        }
        if !self.children[position].enough() {
            let sibling: usize;
            if position == self.children.len() - 1 {
                sibling = position - 1;
            } else {
                sibling = position + 1;
            }
            proof {
                assert(before.children[sibling as int].well_formed());
                before.lemma_child_between(p);
                before.lemma_child_between(sibling as int);
            }
            if self.children[sibling].enough() {
                position = self.swap(position, sibling);
                proof {
                    let s = sibling as int;
                    assert forall|k: K| #[trigger] parts_at(before.items@, k, p) implies parts_at(
                        self.items@,
                        k,
                        p,
                    ) && !(p < self.items.len() && self.items[p].key == k) by {
                        if s > p {
                            let up = before.children[s].items[0];
                            assert(before.children[s].has(up.key, up.value));
                            assert(lt(before.items[p].key, up.key));
                            assert(self.items[p] == up);
                            assert forall|i: int| 0 <= i < p implies lt(
                                #[trigger] self.items[i].key,
                                k,
                            ) by {
                                assert(self.items[i] == before.items[i]);
                            }
                            assert forall|i: int| p <= i < self.items.len() implies !lt(
                                #[trigger] self.items[i].key,
                                k,
                            ) by {
                                if i > p {
                                    assert(self.items[i] == before.items[i]);
                                } else {
                                    assert(!lt(before.items[p].key, k));
                                }
                            }
                            assert(self.items[p].key != k);
                        } else {
                            let up = before.children[s].items@.last();
                            assert(before.children[s].has(up.key, up.value));
                            assert(lt(up.key, before.items[s].key));
                            assert(self.items[s] == up);
                            assert forall|i: int| 0 <= i < p implies lt(
                                #[trigger] self.items[i].key,
                                k,
                            ) by {
                                if i != s {
                                    assert(self.items[i] == before.items[i]);
                                } else {
                                    assert(lt(before.items[s].key, k));
                                }
                            }
                        }
                    }
                }
            } else {
                self.merge(position, sibling);
                if sibling < position {
                    position = sibling;
                }
                proof {
                    let s = sibling as int;
                    let r = position as int;
                    assert forall|k: K| #[trigger] parts_at(before.items@, k, p) implies parts_at(
                        self.items@,
                        k,
                        r,
                    ) && !(r < self.items.len() && self.items[r].key == k) by {
                        if s > p {
                            assert forall|i: int| 0 <= i < p implies lt(
                                #[trigger] self.items[i].key,
                                k,
                            ) by {
                                assert(self.items[i] == before.items[i]);
                            }
                            assert forall|i: int| p <= i < self.items.len() implies !lt(
                                #[trigger] self.items[i].key,
                                k,
                            ) && self.items[i].key != k by {
                                assert(self.items[i] == before.items[i + 1]);
                                assert(lt(before.items[p].key, before.items[i + 1].key));
                                assert(!lt(before.items[p].key, k));
                            }
                        } else {
                            assert forall|i: int| 0 <= i < r implies lt(
                                #[trigger] self.items[i].key,
                                k,
                            ) by {
                                assert(self.items[i] == before.items[i]);
                            }
                        }
                    }
                }
            }
        }
        position
    }
}

} // verus!
