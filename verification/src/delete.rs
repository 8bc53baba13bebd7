//! Deletion in one pass down the tree, refilling thin nodes before entering them.

use vstd::prelude::*;
use crate::order::{lt, total_order};
use crate::model::Tree;
use crate::node::{Item, Node, items_hold, parts_at, rank};

verus! {

impl<K: Ord, V> Node<K, V> {
    /// A leaf stays well formed when the item at `p` leaves it, and holds
    /// what it held under the other keys.
    pub proof fn lemma_leaf_lost(self, before: Self, p: int)
        requires
            total_order::<K>(),
            before.well_formed(),
            before.children.len() == 0,
            0 <= p < before.items.len(),
            self.items@ == before.items@.remove(p),
            self.children == before.children,
            self.counted(),
            self.rules == before.rules,
        ensures
            self.well_formed(),
            self.height() == before.height(),
            before.has(before.items[p].key, before.items[p].value),
            forall|k: K, v: V|
                #![trigger self.has(k, v)]
                #![trigger before.has(k, v)]
                self.has(k, v) <==> (k != before.items[p].key && before.has(k, v)),
    {
        let gone = before.items[p];
        assert forall|i: int| 0 <= i < self.items.len() implies #[trigger] self.items[i] == (if i < p {
            before.items[i]
        } else {
            before.items[i + 1]
        }) by {}
        assert forall|i: int, j: int| 0 <= i < j < self.items.len() implies lt(
            #[trigger] self.items[i].key,
            #[trigger] self.items[j].key,
        ) by {
            let a = if i < p { i } else { i + 1 };
            let b = if j < p { j } else { j + 1 };
            assert(lt(before.items[a].key, before.items[b].key));
        }
        assert(self.well_formed());
        before.lemma_key_is_here(gone.key, p);
        assert forall|k: K, v: V|
            #![trigger self.has(k, v)]
            #![trigger before.has(k, v)]
            self.has(k, v) <==> (k != gone.key && before.has(k, v)) by {
            if self.has(k, v) {
                let i = choose|i: int|
                    0 <= i < self.items.len() && (#[trigger] self.items[i]).key == k
                        && self.items[i].value == v;
                let a = if i < p { i } else { i + 1 };
                assert(before.items[a] == self.items[i]);
                if a < p {
                    assert(lt(before.items[a].key, before.items[p].key));
                } else {
                    assert(lt(before.items[p].key, before.items[a].key));
                }
            }
            if k != gone.key && before.has(k, v) {
                let i = choose|i: int|
                    0 <= i < before.items.len() && (#[trigger] before.items[i]).key == k
                        && before.items[i].value == v;
                if i < p {
                    assert(self.items[i] == before.items[i]);
                } else {
                    assert(self.items[i - 1] == before.items[i]);
                }
            }
        }
    }

    /// Where the greatest item below child `p` moves up into the place of
    /// item `p`, the node stays well formed, and holds what it held under
    /// every key but that of the item that was replaced.
    pub proof fn lemma_lifted(self, before: Self, p: int)
        requires
            total_order::<K>(),
            before.well_formed(),
            0 <= p < before.items.len(),
            before.children.len() > 0,
            self.items@ == before.items@.update(p, self.items[p]),
            self.children@ == before.children@.update(p, self.children[p]),
            self.counted(),
            self.rules == before.rules,
            self.children[p].well_formed_inner(),
            self.children[p].rules == before.rules,
            self.children[p].height() == before.children[p].height(),
            before.children[p].has(self.items[p].key, self.items[p].value),
            forall|k: K, v: V|
                #![trigger self.children[p].has(k, v)]
                #![trigger before.children[p].has(k, v)]
                self.children[p].has(k, v) <==> (k != self.items[p].key && before.children[p].has(
                    k,
                    v,
                )),
            forall|k: K, v: V| #[trigger]
                before.children[p].has(k, v) ==> k == self.items[p].key || lt(k, self.items[p].key),
        ensures
            self.well_formed(),
            self.height() == before.height(),
            forall|k: K, v: V|
                #![trigger self.has(k, v)]
                #![trigger before.has(k, v)]
                self.has(k, v) <==> (k != before.items[p].key && before.has(k, v)),
    {
        let up = self.items[p];
        let gone = before.items[p];
        let child = self.children[p];
        assert(before.key_fits(p, up.key));
        assert forall|i: int, j: int| 0 <= i < j < self.items.len() implies lt(
            #[trigger] self.items[i].key,
            #[trigger] self.items[j].key,
        ) by {
            if i != p {
                assert(self.items[i] == before.items[i]);
            }
            if j != p {
                assert(self.items[j] == before.items[j]);
            }
            if i == p {
                assert(lt(before.items[p].key, before.items[j].key));
            } else if j == p {
                if i < p - 1 {
                    assert(lt(before.items[i].key, before.items[p - 1].key));
                }
            }
        }
        assert forall|j: int| 0 <= j < self.children.len() implies {
            &&& (#[trigger] self.children[j]).well_formed()
            &&& self.children[j].rules == self.rules
            &&& self.children[j].items.len() >= self.rules.minkeys
            &&& self.children[j].height() == before.children[p].height()
        } by {
            if j != p {
                assert(self.children[j] == before.children[j]);
            }
        }
        assert(before.children[0].height() == before.children[p].height());
        assert forall|j: int, k: K, v: V|
            0 <= j < self.children.len() && #[trigger] self.children[j].has(k, v) implies self.key_fits(
            j,
            k,
        ) by {
            if j == p {
                assert(child.has(k, v));
                assert(before.children[p].has(k, v));
                assert(before.key_fits(p, k));
                if p > 0 {
                    assert(self.items[p - 1] == before.items[p - 1]);
                }
            } else {
                assert(self.children[j] == before.children[j]);
                assert(before.children[j].has(k, v));
                assert(before.key_fits(j, k));
                if j < self.items.len() && j != p {
                    assert(self.items[j] == before.items[j]);
                }
                if j > 0 && j - 1 != p {
                    assert(self.items[j - 1] == before.items[j - 1]);
                }
                if j == p + 1 {
                    assert(lt(up.key, gone.key));
                }
                if j < p {
                    assert(self.items[j] == before.items[j]);
                }
            }
        }
        assert(self.well_formed());
        before.lemma_key_is_here(gone.key, p);
        assert forall|k: K, v: V|
            #![trigger self.has(k, v)]
            #![trigger before.has(k, v)]
            self.has(k, v) <==> (k != gone.key && before.has(k, v)) by {
            if self.has(k, v) {
                if items_hold(self.items@, k, v) {
                    let i = choose|i: int|
                        0 <= i < self.items.len() && (#[trigger] self.items[i]).key == k
                            && self.items[i].value == v;
                    if i != p {
                        assert(self.items[i] == before.items[i]);
                        if i < p {
                            assert(lt(before.items[i].key, gone.key));
                        } else {
                            assert(lt(gone.key, before.items[i].key));
                        }
                    } else {
                        assert(before.children[p].has(k, v));
                        assert(before.has(k, v));
                    }
                } else {
                    let j = choose|j: int|
                        0 <= j < self.children.len() && (#[trigger] self.children[j]).has(k, v);
                    if j != p {
                        assert(self.children[j] == before.children[j]);
                        assert(before.children[j].has(k, v));
                    } else {
                        assert(child.has(k, v));
                        assert(before.children[p].has(k, v));
                    }
                    assert(before.has(k, v));
                }
            }
            if k != gone.key && before.has(k, v) {
                if items_hold(before.items@, k, v) {
                    let i = choose|i: int|
                        0 <= i < before.items.len() && (#[trigger] before.items[i]).key == k
                            && before.items[i].value == v;
                    if i != p {
                        assert(self.items[i] == before.items[i]);
                    } else {
                        assert(false);
                    }
                } else {
                    let j = choose|j: int|
                        0 <= j < before.children.len() && (#[trigger] before.children[j]).has(k, v);
                    if j != p {
                        assert(self.children[j] == before.children[j]);
                        assert(self.children[j].has(k, v));
                    } else if k == up.key {
                        before.children[p].lemma_one_value(k, v, up.value);
                        assert(self.items[p].key == k && self.items[p].value == v);
                    } else {
                        assert(child.has(k, v));
                        assert(self.children[p].has(k, v));
                    }
                }
            }
        }
    }

    /// A deletion of `k` takes an item from this node: from a leaf that
    /// has one, or from an internal node whose child at the rank of `k` has
    /// to merge with its neighbour.
    pub open spec fn loses_item(self, k: K) -> bool {
        if self.children.len() == 0 {
            self.items.len() > 0
        } else {
            !self.child_enough(rank(self.items@, k)) && !self.child_enough(
                self.sibling_of(rank(self.items@, k)),
            )
        }
    }

    /// Removes the key of `item` from the subtree, in one pass down. A child
    /// on the way that has no item to spare is refilled before the pass
    /// enters it. Where an internal node holds the key and the child before
    /// it has an item to spare, the greatest item below that child takes the
    /// place of the key.
    ///
    /// Returns `None` where the key was found and removed, and for a node
    /// without items. Where the subtree does not hold the key, the pass ends
    /// in the leaf in which the key belongs, takes the last item out of that
    /// leaf and returns it: an item that no key of the subtree below the
    /// given key lies above.
    pub fn delete(&mut self, item: Item<K, V>) -> (r: Option<Item<K, V>>)
        requires
            total_order::<K>(),
            old(self).well_formed(),
            old(self).children.len() == 0 || old(self).items.len() >= 1,
        ensures
            final(self).well_formed(),
            final(self).rules == old(self).rules,
            final(self).height() == old(self).height(),
            final(self).items.len() == if old(self).loses_item(item.key) {
                old(self).items.len() - 1
            } else {
                old(self).items.len() as int
            },
            r is None <==> (old(self).has_key(item.key) || old(self).items.len() == 0),
            r is None ==> forall|k: K, v: V|
                #![trigger final(self).has(k, v)]
                #![trigger old(self).has(k, v)]
                final(self).has(k, v) <==> (k != item.key && old(self).has(k, v)),
            final(self).model() == old(self).model().without(
                item.key,
                old(self).rules,
                old(self).height(),
            ).0,
            r == old(self).model().without(item.key, old(self).rules, old(self).height()).1,
            r matches Some(up) ==> {
                &&& old(self).has(up.key, up.value)
                &&& forall|k: K, v: V|
                    #![trigger final(self).has(k, v)]
                    #![trigger old(self).has(k, v)]
                    final(self).has(k, v) <==> (k != up.key && old(self).has(k, v))
                &&& forall|k: K, v: V| #[trigger]
                    old(self).has(k, v) && lt(k, item.key) ==> k == up.key || lt(k, up.key)
            },
        decreases old(self).height(),
    {
        let (mut position, found) = self.binary_search(&item);
        let ghost first = position as int;
        let ghost tree = old(self).model();
        proof {
            old(self).lemma_model_children();
        }
        if self.leaf() {
            if found {
                let _gone = self.items.remove(position);
                self.num_items -= 1;
                proof {
                    self.lemma_leaf_lost(*old(self), position as int);
                    self.lemma_model_same_children(*old(self));
                    assert(self.model() == (Tree { items: tree.items.remove(first), children: tree.children }));
                }
                return None;
            }
            proof {
                old(self).lemma_key_goes_down(item.key, position as int);
            }
            let last = self.items.pop();
            proof {
                self.lemma_model_same_children(*old(self));
                if last.is_some() {
                    assert(self.items@ =~= tree.items.drop_last());
                    assert(self.model() == (Tree { items: tree.items.drop_last(), children: tree.children }));
                } else {
                    assert(self.model() == tree);
                }
            }
            if last.is_some() {
                self.num_items -= 1;
                proof {
                    let before = *old(self);
                    let n = before.items.len() as int;
                    self.lemma_model_same_children(before);
                    assert(self.items@ =~= before.items@.remove(n - 1));
                    self.lemma_leaf_lost(before, n - 1);
                    assert forall|k: K, v: V| #[trigger] before.has(k, v) implies k == last.unwrap().key
                        || lt(k, last.unwrap().key) by {
                        let i = choose|i: int|
                            0 <= i < before.items.len() && (#[trigger] before.items[i]).key == k
                                && before.items[i].value == v;
                        if i < n - 1 {
                            assert(lt(before.items[i].key, before.items[n - 1].key));
                        }
                    }
                }
            }
            return last;
        }
        let mut here = found;
        let ghost thin = false;
        proof {
            assert(old(self).children[position as int].well_formed());
        }
        if !self.children[position].enough() {
            position = self.make_enough(position);
            here = false;
            proof {
                thin = true;
            }
        }
        let ghost parent = *self;
        let ghost p = position as int;
        proof {
            assert(thin == !tree.child_enough(first, old(self).rules));
            assert(parent.model() == if thin {
                tree.refilled(first, old(self).rules)
            } else {
                tree
            });
            assert(p == if thin {
                tree.refilled_at(first, old(self).rules)
            } else {
                first
            });
            parent.lemma_model_children();
            assert(parent.children[p].well_formed());
            if here {
                parent.lemma_key_is_here(item.key, p);
                parent.lemma_child_between(p);
            } else {
                parent.lemma_key_goes_down(item.key, p);
            }
        }
        let up = self.children[position].delete(item);
        let ghost mid = *self;
        proof {
            assert(self.children@ =~= parent.children@.update(p, self.children[p]));
            mid.lemma_model_child_replaced(parent, p);
            assert(parent.children[p].height() + 1 == old(self).height());
            assert(here == (found && !thin));
        }
        match up {
            Some(up) => {
                if here {
                    self.items[position] = up;
                    proof {
                        assert(self.children@ =~= parent.children@.update(p, self.children[p]));
                        self.lemma_model_same_children(mid);
                        assert(self.model() == mid.model().with_item_at(p, up));
                        self.lemma_lifted(parent, p);
                        assert(old(self).has(item.key, old(self).items[p].value));
                    }
                    None
                } else {
                    proof {
                        self.lemma_taken_below(parent, p, item.key, up);
                        assert(old(self).has(up.key, up.value));
                        assert forall|k: K, v: V|
                            #![trigger self.has(k, v)]
                            #![trigger old(self).has(k, v)]
                            self.has(k, v) <==> (k != up.key && old(self).has(k, v)) by {
                            assert(parent.has(k, v) <==> old(self).has(k, v));
                        }
                        assert forall|k: K, v: V| #[trigger]
                            old(self).has(k, v) && lt(k, item.key) implies k == up.key || lt(
                            k,
                            up.key,
                        ) by {
                            assert(parent.has(k, v));
                        }
                        assert(!old(self).has_key(item.key)) by {
                            if old(self).has_key(item.key) {
                                let v = choose|v: V| old(self).has(item.key, v);
                                assert(parent.has(item.key, v));
                                assert(parent.children[p].has(item.key, v));
                            }
                        }
                    }
                    Some(up)
                }
            },
            None => {
                proof {
                    assert(parent.children[p].has_key(item.key));
                    let w = choose|w: V| parent.children[p].has(item.key, w);
                    assert(parent.has(item.key, w));
                    assert(old(self).has(item.key, w));
                    assert forall|k: K, v: V| #[trigger] self.children[p].has(k, v) implies parent.key_fits(
                        p,
                        k,
                    ) by {
                        assert(parent.children[p].has(k, v));
                    }
                    self.lemma_child_replaced(parent, p);
                    assert forall|k: K, v: V|
                        #![trigger self.has(k, v)]
                        #![trigger old(self).has(k, v)]
                        self.has(k, v) <==> (k != item.key && old(self).has(k, v)) by {
                        assert(parent.has(k, v) <==> old(self).has(k, v));
                        if parent.children[p].has(k, v) {
                            assert(parent.has(k, v));
                        }
                        if k == item.key && parent.has(k, v) {
                            assert(parent.children[p].has(k, v));
                        }
                    }
                }
                None
            },
        }
    }

    /// Where an item leaves the subtree below child `p`, taken from the
    /// leaf in which an absent key `key` belongs, the node stays well
    /// formed and holds what it held under the other keys; and no key of the
    /// node below `key` lies above the item.
    pub proof fn lemma_taken_below(self, before: Self, p: int, key: K, up: Item<K, V>)
        requires
            total_order::<K>(),
            before.well_formed(),
            0 <= p < before.children.len(),
            parts_at(before.items@, key, p),
            !(p < before.items.len() && before.items[p].key == key),
            self.items == before.items,
            self.children@ == before.children@.update(p, self.children[p]),
            self.num_items == before.num_items,
            self.num_children == before.num_children,
            self.rules == before.rules,
            self.children[p].well_formed_inner(),
            self.children[p].rules == before.rules,
            self.children[p].height() == before.children[p].height(),
            before.children[p].has(up.key, up.value),
            forall|k: K, v: V|
                #![trigger self.children[p].has(k, v)]
                #![trigger before.children[p].has(k, v)]
                self.children[p].has(k, v) <==> (k != up.key && before.children[p].has(k, v)),
            forall|k: K, v: V| #[trigger]
                before.children[p].has(k, v) && lt(k, key) ==> k == up.key || lt(k, up.key),
        ensures
            self.well_formed(),
            self.height() == before.height(),
            before.has(up.key, up.value),
            forall|k: K, v: V|
                #![trigger self.has(k, v)]
                #![trigger before.has(k, v)]
                self.has(k, v) <==> (k != up.key && before.has(k, v)),
            forall|k: K, v: V| #[trigger]
                before.has(k, v) && lt(k, key) ==> k == up.key || lt(k, up.key),
    {
        assert forall|k: K, v: V| #[trigger] self.children[p].has(k, v) implies before.key_fits(p, k) by {
            assert(before.children[p].has(k, v));
        }
        self.lemma_child_replaced(before, p);
        assert(before.key_fits(p, up.key));
        assert forall|k: K, v: V|
            #![trigger self.has(k, v)]
            #![trigger before.has(k, v)]
            self.has(k, v) <==> (k != up.key && before.has(k, v)) by {
            if before.children[p].has(k, v) {
                assert(before.has(k, v));
            }
            if before.has(k, v) && !before.children[p].has(k, v) {
                if items_hold(before.items@, k, v) {
                    before.lemma_not_below(p, k, v);
                } else {
                    let j = choose|j: int|
                        0 <= j < before.children.len() && (#[trigger] before.children[j]).has(k, v);
                    assert(j != p);
                    before.lemma_not_below(p, k, v);
                }
                assert(!before.children[p].has(k, up.value));
            }
        }
        assert forall|k: K, v: V| #[trigger] before.has(k, v) && lt(k, key) implies k == up.key || lt(
            k,
            up.key,
        ) by {
            if before.children[p].has(k, v) {
            } else if items_hold(before.items@, k, v) {
                let i = choose|i: int|
                    0 <= i < before.items.len() && (#[trigger] before.items[i]).key == k
                        && before.items[i].value == v;
                if i >= p {
                    assert(!lt(before.items[i].key, key));
                } else if i < p - 1 {
                    assert(lt(before.items[i].key, before.items[p - 1].key));
                }
            } else {
                let j = choose|j: int|
                    0 <= j < before.children.len() && (#[trigger] before.children[j]).has(k, v);
                assert(before.children[j].has(k, v));
                assert(before.key_fits(j, k));
                if j > p {
                    assert(!lt(before.items[j - 1].key, key));
                } else if j < p - 1 {
                    assert(lt(before.items[j].key, before.items[p - 1].key));
                }
            }
        }
    }
}

} // verus!
