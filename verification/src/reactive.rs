//! Insertion that splits a node after the fact: an item goes into its leaf
//! first, and a node that this fills up is split at once, the median going
//! up to the parent, which may fill up in turn. No node is left full, so
//! there is always room for the next item.

use vstd::prelude::*;
use crate::order::total_order;
use crate::model::{models, Tree};
use crate::node::{Item, Node, rank};
use crate::tree::BTree;

verus! {

impl<K: Ord, V> Node<K, V> {
    /// No node of the subtree is full.
    pub open spec fn roomy(self) -> bool
        decreases self,
    {
        &&& self.items.len() < self.rules.maxkeys
        &&& forall|j: int| 0 <= j < self.children.len() ==> (#[trigger] self.children[j]).roomy()
    }

    /// An insertion of `k` fills this node up: the subtree does not hold
    /// `k`, and every node on the way down to the leaf in which `k` belongs,
    /// this node among them, is one item short of full.
    pub open spec fn overflows(self, k: K) -> bool
        decreases self,
    {
        let p = rank(self.items@, k);
        &&& !(0 <= p < self.items.len() && self.items[p].key == k)
        &&& self.items.len() + 1 == self.rules.maxkeys
        &&& 0 <= p < self.children.len() ==> self.children[p].overflows(k)
    }

    /// An item of this node has the key `k`.
    pub open spec fn search_hit(self, k: K) -> bool {
        0 <= rank(self.items@, k) < self.items.len() && self.items[rank(self.items@, k)].key == k
    }

    /// Stores `item` in a subtree without full nodes, and leaves it
    /// without full nodes. Where a node on the way holds the key, the item
    /// replaces the one that is there. Otherwise the item enters the leaf in
    /// which its key belongs; a node that becomes full is split, and its
    /// median and new right half go to its parent. Returns the median and
    /// the right half that this node hands up, if it had to be split.
    pub fn insert_reactive(&mut self, item: Item<K, V>) -> (r: Option<(Item<K, V>, Node<K, V>)>)
        requires
            total_order::<K>(),
            old(self).well_formed(),
            old(self).roomy(),
        ensures
            final(self).well_formed(),
            final(self).roomy(),
            final(self).rules == old(self).rules,
            final(self).height() == old(self).height(),
            r is Some <==> old(self).overflows(item.key),
            final(self).model() == old(self).model().with_item_reactive(
                item,
                old(self).rules,
                old(self).height(),
            ).0,
            match r {
                None => old(self).model().with_item_reactive(
                    item,
                    old(self).rules,
                    old(self).height(),
                ).1 is None,
                Some(up) => old(self).model().with_item_reactive(
                    item,
                    old(self).rules,
                    old(self).height(),
                ).1 == Some((up.0, up.1.model())),
            },
            old(self).has_key(item.key) ==> final(self).same_shape(*old(self)),
            old(self).search_hit(item.key) ==> {
                &&& final(self).items@ == old(self).items@.update(
                    rank(old(self).items@, item.key),
                    item,
                )
                &&& final(self).children@ == old(self).children@
            },
            r is None ==> {
                &&& final(self).items.len() >= old(self).items.len()
                &&& forall|k: K, v: V|
                    #![trigger final(self).has(k, v)]
                    #![trigger old(self).has(k, v)]
                    final(self).has(k, v) <==> (if k == item.key {
                        v == item.value
                    } else {
                        old(self).has(k, v)
                    })
            },
            r matches Some(up) ==> {
                &&& !old(self).has_key(item.key)
                &&& old(self).items.len() + 1 == old(self).rules.maxkeys
                &&& final(self).items.len() == old(self).rules.minkeys
                &&& up.1.well_formed_inner()
                &&& up.1.roomy()
                &&& up.1.rules == old(self).rules
                &&& up.1.height() == old(self).height()
                &&& final(self).all_below(up.0.key)
                &&& up.1.all_above(up.0.key)
                &&& forall|k: K, v: V|
                    #![trigger final(self).has(k, v)]
                    #![trigger up.1.has(k, v)]
                    #![trigger old(self).has(k, v)]
                    (final(self).has(k, v) || (k == up.0.key && v == up.0.value) || up.1.has(k, v))
                        <==> (if k == item.key {
                        v == item.value
                    } else {
                        old(self).has(k, v)
                    })
            },
        decreases old(self).height(),
    {
        let (position, found) = self.binary_search(&item);
        let ghost tree = old(self).model();
        proof {
            old(self).lemma_model_children();
        }
        if found {
            self.items[position] = item;
            proof {
                self.lemma_overwritten(*old(self), position as int);
                self.lemma_model_same_children(*old(self));
                assert(self.model() == tree.with_item_at(position as int, item));
                assert(old(self).has(item.key, old(self).items[position as int].value));
            }
            return None;
        }
        let ghost p = position as int;
        proof {
            old(self).lemma_key_goes_down(item.key, p);
        }
        if self.leaf() {
            self.items.insert(position, item);
            self.num_items += 1;
            proof {
                self.lemma_leaf_gained(*old(self), p);
                self.lemma_model_same_children(*old(self));
                assert(self.model() == (Tree { items: tree.items.insert(p, item), children: tree.children }));
            }
        } else {
            proof {
                assert(old(self).children[p].well_formed());
            }
            let handed_up = self.children[position].insert_reactive(item);
            let ghost below = *self;
            proof {
                assert(self.children@ =~= old(self).children@.update(p, self.children[p]));
                assert(old(self).children[p].height() + 1 == old(self).height());
                below.lemma_model_child_replaced(*old(self), p);
                assert forall|j: int| 0 <= j < self.children.len() implies
                    (#[trigger] self.children[j]).roomy() by {
                    if j != p {
                        assert(self.children[j] == old(self).children[j]);
                    }
                }
            }
            match handed_up {
                None => {
                    proof {
                        assert forall|k: K, v: V| #[trigger] self.children[p].has(k, v) implies old(
                            self,
                        ).key_fits(p, k) by {
                            if k != item.key {
                                assert(old(self).children[p].has(k, v));
                            }
                        }
                        self.lemma_child_replaced(*old(self), p);
                        assert forall|k: K, v: V|
                            #![trigger self.has(k, v)]
                            #![trigger old(self).has(k, v)]
                            self.has(k, v) <==> (if k == item.key {
                                v == item.value
                            } else {
                                old(self).has(k, v)
                            }) by {
                            if old(self).children[p].has(k, v) {
                                assert(old(self).has(k, v));
                            }
                        }
                        if old(self).has_key(item.key) {
                            let w = choose|w: V| old(self).has(item.key, w);
                            assert(old(self).children[p].has(item.key, w));
                            assert forall|j: int| 0 <= j < self.children.len() implies
                                (#[trigger] self.children[j]).same_shape(*old(self).children[j]) by {
                                if j != p {
                                    assert(self.children[j] == old(self).children[j]);
                                    old(self).children[j].lemma_same_shape_reflexive();
                                }
                            }
                        }
                    }
                    return None;
                },
                Some((median, new_node)) => {
                    self.items.insert(position, median);
                    self.num_items += 1;
                    self.children.insert(position + 1, Box::new(new_node));
                    self.num_children += 1;
                    proof {
                        let before = *old(self);
                        let child = before.children[p];
                        let left = below.children[p];
                        assert(self.children@ =~= before.children@.update(p, self.children[p]).insert(
                            p + 1,
                            self.children[p + 1],
                        ));
                        assert(self.children[p] == left);
                        assert(*self.children[p + 1] == new_node);
                        assert forall|k: K, v: V|
                            #![trigger self.children[p].has(k, v)]
                            #![trigger self.children[p + 1].has(k, v)]
                            self.children[p].has(k, v) || self.children[p + 1].has(k, v) implies before.key_fits(
                            p,
                            k,
                        ) by {
                            assert(left.has(k, v) || new_node.has(k, v));
                            if k != item.key {
                                assert(child.has(k, v));
                                assert(before.children[p].has(k, v));
                            }
                        }
                        assert(before.key_fits(p, median.key)) by {
                            if median.key != item.key {
                                assert(child.has(median.key, median.value));
                                assert(before.children[p].has(median.key, median.value));
                            }
                        }
                        self.lemma_child_parted(before, p);
                        assert forall|j: int| 0 <= j < self.children.len() implies
                            (#[trigger] self.children[j]).roomy() by {
                            if j < p {
                                assert(self.children[j] == before.children[j]);
                            } else if j > p + 1 {
                                assert(self.children[j] == before.children[j - 1]);
                            }
                        }
                        assert forall|k: K, v: V|
                            #![trigger self.has(k, v)]
                            #![trigger before.has(k, v)]
                            self.has(k, v) <==> (if k == item.key {
                                v == item.value
                            } else {
                                before.has(k, v)
                            }) by {
                            if child.has(k, v) {
                                assert(before.children[p].has(k, v));
                                assert(before.has(k, v));
                            }
                            if k != item.key && (left.has(k, v) || (k == median.key && v
                                == median.value) || new_node.has(k, v)) {
                                assert(child.has(k, v));
                            }
                        }
                        assert(!before.has_key(item.key)) by {
                            if before.has_key(item.key) {
                                let v = choose|v: V| before.has(item.key, v);
                                assert(before.children[p].has(item.key, v));
                            }
                        }
                        self.lemma_model_children();
                        self.children[p].lemma_model_children();
                        assert(models(self.children@) =~= models(before.children@).update(
                            p,
                            left.model(),
                        ).insert(p + 1, new_node.model()));
                    }
                },
            }
        }
        let ghost grown = *self;
        proof {
            assert(!old(self).has_key(item.key)) by {
                if old(self).has_key(item.key) {
                    let v = choose|v: V| old(self).has(item.key, v);
                    if old(self).children.len() > 0 {
                        assert(old(self).children[p].has(item.key, v));
                    }
                }
            }
        }
        proof {
            grown.lemma_model_children();
        }
        if !self.insertable() {
            let (median, new_node) = self.split();
            proof {
                assert forall|j: int| 0 <= j < self.children.len() implies
                    (#[trigger] self.children[j]).roomy() by {
                    assert(self.children[j] == grown.children[j]);
                }
                assert forall|j: int| 0 <= j < new_node.children.len() implies
                    (#[trigger] new_node.children[j]).roomy() by {
                    assert(new_node.children[j] == grown.children[j + grown.children_median()]);
                }
                assert forall|k: K, v: V|
                    #![trigger self.has(k, v)]
                    #![trigger new_node.has(k, v)]
                    #![trigger old(self).has(k, v)]
                    (self.has(k, v) || (k == median.key && v == median.value) || new_node.has(k, v))
                        <==> (if k == item.key {
                        v == item.value
                    } else {
                        old(self).has(k, v)
                    }) by {
                    assert(grown.has(k, v) <==> (self.has(k, v) || (k == median.key && v
                        == median.value) || new_node.has(k, v)));
                    assert(grown.has(k, v) <==> (if k == item.key {
                        v == item.value
                    } else {
                        old(self).has(k, v)
                    }));
                }
            }
            return Some((median, new_node));
        }
        None
    }
}

impl<K: Ord, V> BTree<K, V> {
    /// Stores `item` in a tree without full nodes, splitting after the
    /// fact: see `Node::insert_reactive`. Where the root had to be split,
    /// the tree gets a new root above the two halves.
    pub fn insert_reactive(&mut self, item: Item<K, V>)
        requires
            total_order::<K>(),
            old(self).well_formed(),
            old(self).root.roomy(),
        ensures
            final(self).well_formed(),
            final(self).root.roomy(),
            final(self)@ == old(self)@.insert(item.key, item.value),
            final(self).root.rules == old(self).root.rules,
            final(self).height() == if old(self).root.overflows(item.key) {
                old(self).height() + 1
            } else {
                old(self).height()
            },
            final(self).root.model() == old(self).root.model().grown_with_reactive(
                item,
                old(self).root.rules,
                old(self).height(),
            ),
            old(self)@.dom().contains(item.key) ==> final(self).root.same_shape(*old(self).root),
    {
        let handed_up = self.root.insert_reactive(item);
        match handed_up {
            None => {},
            Some((median, right)) => {
                let ghost left = *self.root;
                self.grow(median, right);
                proof {
                    assert forall|j: int| 0 <= j < self.root.children.len() implies
                        (#[trigger] self.root.children[j]).roomy() by {
                        if j == 0 {
                            assert(*self.root.children[0] == left);
                        } else {
                            assert(*self.root.children[1] == right);
                        }
                    }
                }
            },
        }
        proof {
            self.root.lemma_entries_inserted(*old(self).root, item.key, item.value);
        }
    }
}

} // verus!
