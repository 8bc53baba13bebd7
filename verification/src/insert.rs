//! Insertion in one pass down the tree, splitting full nodes before entering them.

use vstd::prelude::*;
use crate::order::{lt, total_order, compare_keys, KeyOrder};
use crate::model::Tree;
use crate::node::{Item, Node, items_hold, keys_ascending, parts_at};

verus! {

/// An index `q` of an ascending sequence, with `k` below the key at `q`
/// and above the key before `q`, parts the sequence around `k`.
pub proof fn lemma_parts_between<K: Ord, V>(items: Seq<Item<K, V>>, k: K, q: int)
    requires
        total_order::<K>(),
        keys_ascending(items),
        0 <= q <= items.len(),
        q < items.len() ==> lt(k, items[q].key),
        q > 0 ==> lt(items[q - 1].key, k),
    ensures
        parts_at(items, k, q),
{
    assert forall|i: int| 0 <= i < q implies lt(#[trigger] items[i].key, k) by {
        if i < q - 1 {
            assert(lt(items[i].key, items[q - 1].key));
        }
    }
    assert forall|i: int| q <= i < items.len() implies !lt(#[trigger] items[i].key, k) by {
        if i > q {
            assert(lt(items[q].key, items[i].key));
        }
    }
}

impl<K: Ord, V> Node<K, V> {
    /// Splits the full child `position` of a node that has room: the median
    /// of the child moves up into this node at `position`, and the new right
    /// half becomes child `position + 1`.
    pub fn split_child(&mut self, position: usize)
        requires
            total_order::<K>(),
            old(self).well_formed(),
            position < old(self).children.len(),
            old(self).children[position as int].full(),
            old(self).items.len() < old(self).rules.maxkeys,
        ensures
            final(self).well_formed(),
            final(self).rules == old(self).rules,
            final(self).height() == old(self).height(),
            final(self).items@ == old(self).items@.insert(
                position as int,
                old(self).children[position as int].items[old(self).children[position as int].median()],
            ),
            final(self).model() == old(self).model().with_child_split(position as int),
            final(self).children.len() == old(self).children.len() + 1,
            final(self).children@ == old(self).children@.update(
                position as int,
                final(self).children[position as int],
            ).insert(position as int + 1, final(self).children[position as int + 1]),
            final(self).children[position as int].items@ == old(self).children[position as int].items@.subrange(
                0,
                old(self).children[position as int].median(),
            ),
            final(self).children[position as int + 1].items@ == old(
                self,
            ).children[position as int].items@.subrange(
                old(self).children[position as int].median() + 1,
                old(self).children[position as int].items.len() as int,
            ),
            final(self).children[position as int].children@ == old(
                self,
            ).children[position as int].children@.subrange(
                0,
                old(self).children[position as int].children_median(),
            ),
            final(self).children[position as int + 1].children@ == old(
                self,
            ).children[position as int].children@.subrange(
                old(self).children[position as int].children_median(),
                old(self).children[position as int].children.len() as int,
            ),
            final(self).children[position as int].items.len() == old(self).rules.minkeys,
            final(self).children[position as int + 1].items.len() == old(self).rules.minkeys,
            forall|k: K, v: V| #[trigger] final(self).has(k, v) <==> old(self).has(k, v),
    {
        let (median, new_node) = self.children[position].split();
        self.children.insert(position + 1, Box::new(new_node));
        self.num_children += 1;
        self.items.insert(position, median);
        self.num_items += 1;
        proof {
            let before = *old(self);
            let p = position as int;
            let full_child = before.children[p];
            let median_item = self.items[p];
            assert(full_child.has(median_item.key, median_item.value));
            assert(self.children@ =~= before.children@.update(p, self.children[p]).insert(
                p + 1,
                self.children[p + 1],
            ));
            assert forall|k: K, v: V|
                #![trigger self.children[p].has(k, v)]
                #![trigger self.children[p + 1].has(k, v)]
                self.children[p].has(k, v) || self.children[p + 1].has(k, v) implies before.key_fits(
                p,
                k,
            ) by {
                assert(full_child.has(k, v));
            }
            self.lemma_child_parted(before, p);
            assert forall|k: K, v: V| #[trigger] self.has(k, v) <==> before.has(k, v) by {
                if full_child.has(k, v) {
                    assert(before.children[p].has(k, v));
                    assert(before.has(k, v));
                }
            }
            before.lemma_model_children();
            full_child.lemma_model_children();
            let goal = before.model().with_child_split(p);
            assert forall|j: int| 0 <= j < self.children.len() implies (#[trigger] self.children[j]).model()
                == goal.children[j] by {
                if j < p {
                    assert(self.children[j] == before.children[j]);
                } else if j > p + 1 {
                    assert(self.children[j] == before.children[j - 1]);
                }
            }
            self.lemma_model_is(goal);
        }
    }

    /// Where child `p` of a well-formed node with room gives way to two
    /// well-formed subtrees of its height, and an item comes to stand
    /// between the two in the node, with the keys of the one below it and
    /// the keys of the other above it, and all of them between the items
    /// that enclosed the child, the node stays well formed. It then holds
    /// what it held outside the old child, the item, and what the two hold.
    pub proof fn lemma_child_parted(self, before: Self, p: int)
        requires
            total_order::<K>(),
            before.well_formed(),
            0 <= p < before.children.len(),
            before.items.len() < before.rules.maxkeys,
            self.items@ == before.items@.insert(p, self.items[p]),
            self.children@ == before.children@.update(p, self.children[p]).insert(
                p + 1,
                self.children[p + 1],
            ),
            self.counted(),
            self.rules == before.rules,
            self.children[p].well_formed_inner(),
            self.children[p + 1].well_formed_inner(),
            self.children[p].rules == before.rules,
            self.children[p + 1].rules == before.rules,
            self.children[p].height() == before.children[p].height(),
            self.children[p + 1].height() == before.children[p].height(),
            self.children[p].all_below(self.items[p].key),
            self.children[p + 1].all_above(self.items[p].key),
            before.key_fits(p, self.items[p].key),
            forall|k: K, v: V|
                #![trigger self.children[p].has(k, v)]
                #![trigger self.children[p + 1].has(k, v)]
                self.children[p].has(k, v) || self.children[p + 1].has(k, v) ==> before.key_fits(p, k),
        ensures
            self.well_formed(),
            self.height() == before.height(),
            forall|k: K, v: V|
                #![trigger self.has(k, v)]
                #![trigger before.has(k, v)]
                self.has(k, v) <==> ((before.has(k, v) && !before.children[p].has(k, v))
                    || self.children[p].has(k, v) || (k == self.items[p].key && v
                    == self.items[p].value) || self.children[p + 1].has(k, v)),
    {
        let left = self.children[p];
        let right = self.children[p + 1];
        let mid = self.items[p];
        assert forall|i: int| 0 <= i < self.items.len() && i != p implies #[trigger] self.items[i] == (
        if i < p {
            before.items[i]
        } else {
            before.items[i - 1]
        }) by {}
        assert forall|j: int| 0 <= j < self.children.len() && j != p && j != p + 1 implies
            (#[trigger] self.children[j]) == (if j < p {
            before.children[j]
        } else {
            before.children[j - 1]
        }) by {}
        assert forall|i: int, j: int| 0 <= i < j < self.items.len() implies lt(
            #[trigger] self.items[i].key,
            #[trigger] self.items[j].key,
        ) by {
            if i < p && j > p {
                if j - 1 > p {
                    assert(lt(before.items[p].key, before.items[j - 1].key));
                }
                if i < p - 1 {
                    assert(lt(before.items[i].key, before.items[p - 1].key));
                }
            } else if i == p {
                if j - 1 > p {
                    assert(lt(before.items[p].key, before.items[j - 1].key));
                }
            } else if j == p {
                if i < p - 1 {
                    assert(lt(before.items[i].key, before.items[p - 1].key));
                }
            } else if j < p {
                assert(lt(before.items[i].key, before.items[j].key));
            } else {
                assert(lt(before.items[i - 1].key, before.items[j - 1].key));
            }
        }
        assert forall|j: int| 0 <= j < self.children.len() implies {
            &&& (#[trigger] self.children[j]).well_formed()
            &&& self.children[j].rules == self.rules
            &&& self.children[j].items.len() >= self.rules.minkeys
            &&& self.children[j].height() == before.children[p].height()
        } by {
            if j < p {
                assert(self.children[j] == before.children[j]);
            } else if j > p + 1 {
                assert(self.children[j] == before.children[j - 1]);
            }
        }
        assert(before.children[0].height() == before.children[p].height());
        assert forall|j: int, k: K, v: V|
            0 <= j < self.children.len() && #[trigger] self.children[j].has(k, v) implies self.key_fits(
            j,
            k,
        ) by {
            if j < p {
                assert(self.children[j] == before.children[j]);
                assert(before.children[j].has(k, v));
                assert(before.key_fits(j, k));
            } else if j == p {
                assert(left.has(k, v));
                assert(before.key_fits(p, k));
            } else if j == p + 1 {
                assert(right.has(k, v));
                assert(before.key_fits(p, k));
            } else {
                assert(self.children[j] == before.children[j - 1]);
                assert(before.children[j - 1].has(k, v));
                assert(before.key_fits(j - 1, k));
            }
        }
        assert(self.well_formed());
        assert forall|k: K, v: V|
            #![trigger self.has(k, v)]
            #![trigger before.has(k, v)]
            self.has(k, v) <==> ((before.has(k, v) && !before.children[p].has(k, v)) || left.has(k, v)
                || (k == mid.key && v == mid.value) || right.has(k, v)) by {
            if self.has(k, v) && !left.has(k, v) && !right.has(k, v) && !(k == mid.key && v
                == mid.value) {
                if items_hold(self.items@, k, v) {
                    let i = choose|i: int|
                        0 <= i < self.items.len() && (#[trigger] self.items[i]).key == k
                            && self.items[i].value == v;
                    let a = if i < p { i } else { i - 1 };
                    assert(before.items[a] == self.items[i]);
                } else {
                    let j = choose|j: int|
                        0 <= j < self.children.len() && (#[trigger] self.children[j]).has(k, v);
                    let a = if j < p { j } else { j - 1 };
                    assert(self.children[j] == before.children[a]);
                    assert(before.children[a].has(k, v));
                }
                before.lemma_not_below(p, k, v);
            }
            if before.has(k, v) && !before.children[p].has(k, v) {
                if items_hold(before.items@, k, v) {
                    let i = choose|i: int|
                        0 <= i < before.items.len() && (#[trigger] before.items[i]).key == k
                            && before.items[i].value == v;
                    let a = if i < p { i } else { i + 1 };
                    assert(before.items[i] == self.items[a]);
                } else {
                    let j = choose|j: int|
                        0 <= j < before.children.len() && (#[trigger] before.children[j]).has(k, v);
                    let a = if j < p { j } else { j + 1 };
                    assert(self.children[a] == before.children[j]);
                    assert(self.children[a].has(k, v));
                }
            }
            if left.has(k, v) {
                assert(self.children[p].has(k, v));
            }
            if right.has(k, v) {
                assert(self.children[p + 1].has(k, v));
            }
            if k == mid.key && v == mid.value {
                assert(self.items[p] == mid);
            }
        }
    }

    /// Stores `item` in the subtree, in one pass down: where a node on the
    /// way holds the key, the item replaces the one that is there; otherwise
    /// the item enters the leaf in which its key belongs. A full child is
    /// split before the pass enters it. Returns whether the key is new.
    pub fn insert(&mut self, item: Item<K, V>) -> (inserted: bool)
        requires
            total_order::<K>(),
            old(self).well_formed(),
            old(self).items.len() < old(self).rules.maxkeys,
        ensures
            final(self).well_formed(),
            final(self).rules == old(self).rules,
            final(self).height() == old(self).height(),
            old(self).items.len() <= final(self).items.len() <= old(self).items.len() + 1,
            inserted == !old(self).has_key(item.key),
            forall|k: K, v: V|
                #![trigger final(self).has(k, v)]
                #![trigger old(self).has(k, v)]
                final(self).has(k, v) <==> (if k == item.key {
                    v == item.value
                } else {
                    old(self).has(k, v)
                }),
            old(self).has_key(item.key) && !old(self).splits_on_way(item.key)
                ==> final(self).same_shape(*old(self)),
            final(self).model() == old(self).model().with_item(
                item,
                old(self).rules,
                old(self).height(),
            ),
        decreases old(self).height(),
    {
        let (mut position, found) = self.binary_search(&item);
        let ghost first = position as int;
        let ghost tree = old(self).model();
        proof {
            old(self).lemma_model_children();
        }
        if found {
            self.items[position] = item;
            proof {
                self.lemma_overwritten(*old(self), position as int);
                assert(old(self).has(item.key, old(self).items[position as int].value));
                self.lemma_model_same_children(*old(self));
                assert(self.model() == tree.with_item_at(first, item));
            }
            return false;
        }
        if self.insertable() && self.leaf() {
            self.items.insert(position, item);
            self.num_items += 1;
            proof {
                self.lemma_leaf_gained(*old(self), position as int);
                self.lemma_model_same_children(*old(self));
                assert(self.model() == (Tree { items: tree.items.insert(first, item), children: tree.children }));
            }
            return true;
        }
        assert(self.children[position as int].well_formed());
        let ghost split_first = false;
        if self.splittable_child(position) {
            proof {
                split_first = true;
                assert(old(self).splits_on_way(item.key));
            }
            self.split_child(position);
            match compare_keys(&item.key, &self.items[position].key) {
                KeyOrder::Same => {
                    let ghost split = *self;
                    self.items[position] = item;
                    proof {
                        self.lemma_overwritten(split, position as int);
                        assert(split.has(item.key, split.items[position as int].value));
                        self.lemma_model_same_children(split);
                        assert(self.model() == tree.with_child_split(first).with_item_at(first, item));
                    }
                    return false;
                },
                KeyOrder::Above => {
                    position += 1;
                },
                KeyOrder::Below => {},
            }
        }
        let ghost parent = *self;
        proof {
            let p = position as int;
            if parent.items.len() != old(self).items.len() {
                lemma_parts_between(parent.items@, item.key, p);
            }
            assert(parent.children[p].well_formed());
        }
        let inserted = self.children[position].insert(item);
        proof {
            let p = position as int;
            let child = self.children[p];
            assert forall|k: K, v: V| #[trigger] child.has(k, v) implies parent.key_fits(p, k) by {
                if k != item.key {
                    assert(parent.children[p].has(k, v));
                }
            }
            self.lemma_child_replaced(parent, p);
            parent.lemma_key_goes_down(item.key, p);
            assert(parent.has_key(item.key) <==> parent.children[p].has_key(item.key)) by {
                if parent.has_key(item.key) {
                    let v = choose|v: V| parent.has(item.key, v);
                    assert(parent.children[p].has(item.key, v));
                }
                if parent.children[p].has_key(item.key) {
                    let v = choose|v: V| parent.children[p].has(item.key, v);
                    assert(parent.has(item.key, v));
                }
            }
            assert(parent.has_key(item.key) <==> old(self).has_key(item.key)) by {
                if parent.has_key(item.key) {
                    let v = choose|v: V| parent.has(item.key, v);
                    assert(old(self).has(item.key, v));
                }
                if old(self).has_key(item.key) {
                    let v = choose|v: V| old(self).has(item.key, v);
                    assert(parent.has(item.key, v));
                }
            }
            assert forall|k: K, v: V|
                #![trigger self.has(k, v)]
                #![trigger old(self).has(k, v)]
                self.has(k, v) <==> (if k == item.key {
                    v == item.value
                } else {
                    old(self).has(k, v)
                }) by {
                assert(parent.has(k, v) <==> old(self).has(k, v));
                assert(self.has(k, v) <==> (parent.has(k, v) && !parent.children[p].has(k, v))
                    || child.has(k, v));
                if parent.children[p].has(k, v) {
                    assert(parent.has(k, v));
                }
            }
            self.lemma_model_child_replaced(parent, p);
            parent.lemma_model_children();
            assert(parent.model() == if split_first {
                tree.with_child_split(first)
            } else {
                tree
            });
            assert(parent.children[p].height() + 1 == old(self).height());
            if old(self).has_key(item.key) && !old(self).splits_on_way(item.key) {
                assert(!split_first);
                assert(parent == *old(self));
                assert forall|j: int| 0 <= j < self.children.len() implies
                    (#[trigger] self.children[j]).same_shape(*parent.children[j]) by {
                    if j != p {
                        assert(self.children[j] == parent.children[j]);
                        parent.children[j].lemma_same_shape_reflexive();
                    }
                }
            }
        }
        inserted
    }

    /// Putting an item with a new key into a leaf at the rank of its key
    /// leaves the leaf well formed and adds the item to what it holds.
    pub proof fn lemma_leaf_gained(self, before: Self, p: int)
        requires
            total_order::<K>(),
            before.well_formed(),
            before.children.len() == 0,
            before.items.len() < before.rules.maxkeys,
            0 <= p <= before.items.len(),
            parts_at(before.items@, self.items[p].key, p),
            !(p < before.items.len() && before.items[p].key == self.items[p].key),
            self.items@ == before.items@.insert(p, self.items[p]),
            self.children == before.children,
            self.num_items == before.num_items + 1,
            self.num_children == before.num_children,
            self.rules == before.rules,
        ensures
            self.well_formed(),
            self.height() == before.height(),
            !before.has_key(self.items[p].key),
            forall|k: K, v: V|
                #![trigger self.has(k, v)]
                #![trigger before.has(k, v)]
                self.has(k, v) <==> (if k == self.items[p].key {
                    v == self.items[p].value
                } else {
                    before.has(k, v)
                }),
    {
        let item = self.items[p];
        before.lemma_key_goes_down(item.key, p);
        assert forall|i: int, j: int| 0 <= i < j < self.items.len() implies lt(
            #[trigger] self.items[i].key,
            #[trigger] self.items[j].key,
        ) by {
            if i < p {
                assert(self.items[i] == before.items[i]);
            } else if i > p {
                assert(self.items[i] == before.items[i - 1]);
            }
            if j < p {
                assert(self.items[j] == before.items[j]);
            } else if j > p {
                assert(self.items[j] == before.items[j - 1]);
            }
        }
        assert(self.well_formed());
        self.lemma_key_is_here(item.key, p);
        assert forall|k: K, v: V| k != item.key implies (#[trigger] self.has(k, v) <==> before.has(
            k,
            v,
        )) by {
            if self.has(k, v) {
                let i = choose|i: int|
                    0 <= i < self.items.len() && (#[trigger] self.items[i]).key == k
                        && self.items[i].value == v;
                if i < p {
                    assert(self.items[i] == before.items[i]);
                } else if i > p {
                    assert(self.items[i] == before.items[i - 1]);
                }
            }
            if before.has(k, v) {
                let i = choose|i: int|
                    0 <= i < before.items.len() && (#[trigger] before.items[i]).key == k
                        && before.items[i].value == v;
                if i < p {
                    assert(self.items[i] == before.items[i]);
                } else {
                    assert(self.items[i + 1] == before.items[i]);
                }
            }
        }
    }

    /// Replacing child `p` of a well-formed node by a well-formed subtree of
    /// the same height, whose keys fit between the items that enclose the
    /// child, leaves the node well formed. It then holds what it held
    /// outside the old child, and what the new child holds.
    pub proof fn lemma_child_replaced(self, before: Self, p: int)
        requires
            total_order::<K>(),
            before.well_formed(),
            0 <= p < before.children.len(),
            self.items == before.items,
            self.children@ == before.children@.update(p, self.children[p]),
            self.num_items == before.num_items,
            self.num_children == before.num_children,
            self.rules == before.rules,
            self.children[p].well_formed_inner(),
            self.children[p].rules == before.rules,
            self.children[p].height() == before.children[p].height(),
            forall|k: K, v: V| #[trigger] self.children[p].has(k, v) ==> before.key_fits(p, k),
        ensures
            self.well_formed(),
            self.height() == before.height(),
            forall|k: K, v: V|
                #![trigger self.has(k, v)]
                #![trigger before.has(k, v)]
                self.has(k, v) <==> ((before.has(k, v) && !before.children[p].has(k, v))
                    || self.children[p].has(k, v)),
    {
        let child = self.children[p];
        assert forall|j: int| 0 <= j < self.children.len() implies {
            &&& (#[trigger] self.children[j]).well_formed()
            &&& self.children[j].rules == self.rules
            &&& self.children[j].items.len() >= self.rules.minkeys
            &&& self.children[j].height() == before.children[p].height()
        } by {
            if j != p {
                assert(self.children[j] == before.children[j]);
            }
        }
        assert(before.children[0].height() == before.children[p].height());
        assert forall|j: int, k: K, v: V|
            0 <= j < self.children.len() && #[trigger] self.children[j].has(k, v) implies self.key_fits(
            j,
            k,
        ) by {
            if j != p {
                assert(self.children[j] == before.children[j]);
                assert(before.children[j].has(k, v));
                assert(before.key_fits(j, k));
            } else {
                assert(child.has(k, v));
                assert(before.key_fits(p, k));
            }
        }
        assert forall|k: K, v: V|
            #![trigger self.has(k, v)]
            #![trigger before.has(k, v)]
            self.has(k, v) <==> ((before.has(k, v) && !before.children[p].has(k, v)) || child.has(
                k,
                v,
            )) by {
            if self.has(k, v) && !child.has(k, v) {
                if !items_hold(self.items@, k, v) {
                    let j = choose|j: int|
                        0 <= j < self.children.len() && (#[trigger] self.children[j]).has(k, v);
                    assert(self.children[j] == before.children[j]);
                    assert(before.children[j].has(k, v));
                }
                before.lemma_not_below(p, k, v);
            }
            if before.has(k, v) && !before.children[p].has(k, v) {
                if !items_hold(before.items@, k, v) {
                    let j = choose|j: int|
                        0 <= j < before.children.len() && (#[trigger] before.children[j]).has(k, v);
                    assert(self.children[j] == before.children[j]);
                    assert(self.children[j].has(k, v));
                }
            }
            if child.has(k, v) {
                assert(self.children[p].has(k, v));
            }
        }
    }

    /// A pair that a well-formed node holds in an item, or below a child
    /// other than `p`, is not below child `p`.
    pub proof fn lemma_not_below(self, p: int, k: K, v: V)
        requires
            total_order::<K>(),
            self.well_formed(),
            0 <= p < self.children.len(),
            items_hold(self.items@, k, v) || exists|j: int|
                0 <= j < self.children.len() && j != p && (#[trigger] self.children[j]).has(k, v),
        ensures
            forall|w: V| !self.children[p].has(k, w),
    {
        assert forall|w: V| !self.children[p].has(k, w) by {
            if self.children[p].has(k, w) {
                assert(self.key_fits(p, k));
                if items_hold(self.items@, k, v) {
                    let i = choose|i: int|
                        0 <= i < self.items.len() && (#[trigger] self.items[i]).key == k
                            && self.items[i].value == v;
                    if i < p - 1 {
                        assert(lt(self.items[i].key, self.items[p - 1].key));
                    } else if i > p {
                        assert(lt(self.items[p].key, self.items[i].key));
                    }
                } else {
                    let j = choose|j: int|
                        0 <= j < self.children.len() && j != p && (#[trigger] self.children[j]).has(
                            k,
                            v,
                        );
                    assert(self.children[j].has(k, v));
                    assert(self.key_fits(j, k));
                    if j < p - 1 {
                        assert(lt(self.items[j].key, self.items[p - 1].key));
                    } else if j > p + 1 {
                        assert(lt(self.items[p].key, self.items[j - 1].key));
                    }
                }
                assert(false);
            }
        }
    }

    /// Replacing the item at `p` by one with the same key leaves a
    /// well-formed node well formed, and changes only the value stored
    /// under that key.
    pub proof fn lemma_overwritten(self, before: Self, p: int)
        requires
            total_order::<K>(),
            before.well_formed(),
            0 <= p < before.items.len(),
            self.items@ == before.items@.update(p, self.items[p]),
            self.items[p].key == before.items[p].key,
            self.children == before.children,
            self.num_items == before.num_items,
            self.num_children == before.num_children,
            self.rules == before.rules,
        ensures
            self.well_formed(),
            self.height() == before.height(),
            self.same_shape(before),
            forall|k: K, v: V|
                #![trigger self.has(k, v)]
                #![trigger before.has(k, v)]
                self.has(k, v) <==> (if k == self.items[p].key {
                    v == self.items[p].value
                } else {
                    before.has(k, v)
                }),
    {
        assert forall|i: int| 0 <= i < self.items.len() implies (#[trigger] self.items[i]).key
            == before.items[i].key by {}
        assert forall|j: int| 0 <= j < self.children.len() implies (#[trigger] self.children[j]).same_shape(
            *before.children[j],
        ) by {
            before.children[j].lemma_same_shape_reflexive();
        }
        assert forall|j: int, k: K, v: V|
            0 <= j < self.children.len() && #[trigger] self.children[j].has(k, v) implies self.key_fits(
            j,
            k,
        ) by {
            assert(before.children[j].has(k, v));
            assert(before.key_fits(j, k));
        }
        assert(self.well_formed());
        self.lemma_key_is_here(self.items[p].key, p);
        assert forall|k: K, v: V| k != self.items[p].key implies (#[trigger] self.has(k, v)
            <==> before.has(k, v)) by {
            if items_hold(self.items@, k, v) {
                let i = choose|i: int|
                    0 <= i < self.items.len() && (#[trigger] self.items[i]).key == k
                        && self.items[i].value == v;
                assert(before.items[i] == self.items[i]);
            }
            if items_hold(before.items@, k, v) {
                let i = choose|i: int|
                    0 <= i < before.items.len() && (#[trigger] before.items[i]).key == k
                        && before.items[i].value == v;
                assert(before.items[i] == self.items[i]);
            }
        }
    }
}

} // verus!
