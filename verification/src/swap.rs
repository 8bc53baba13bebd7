//! Moving one item from a child with items to spare, through the parent,
//! into the neighbouring child.

use vstd::prelude::*;
use crate::order::{lt, total_order};
use crate::model::models;
use crate::node::{Item, Node, items_hold};

verus! {

impl<K: Ord, V> Node<K, V> {
    /// A node that has room stays well formed when an item above all its
    /// keys is added behind its items, and with it, below an internal node,
    /// a subtree of the level of its children whose keys lie above the item.
    pub proof fn lemma_gained_last(self, before: Self, sep: Item<K, V>)
        requires
            total_order::<K>(),
            before.well_formed_inner(),
            before.items.len() < before.rules.maxkeys,
            before.all_below(sep.key),
            self.items@ == before.items@.push(sep),
            before.children.len() == 0 ==> self.children@ == before.children@,
            before.children.len() > 0 ==> {
                &&& self.children.len() > 0
                &&& self.children@ == before.children@.push(self.children@.last())
                &&& self.children@.last().well_formed_inner()
                &&& self.children@.last().rules == before.rules
                &&& self.children@.last().height() + 1 == before.height()
                &&& self.children@.last().all_above(sep.key)
            },
            self.counted(),
            self.rules == before.rules,
        ensures
            self.well_formed_inner(),
            self.height() == before.height(),
            forall|k: K, v: V|
                #![trigger self.has(k, v)]
                #![trigger before.has(k, v)]
                self.has(k, v) <==> (before.has(k, v) || (k == sep.key && v == sep.value) || (
                before.children.len() > 0 && self.children@.last().has(k, v))),
    {
        let n = before.items.len() as int;
        let c = before.children.len() as int;
        assert forall|i: int| 0 <= i < n implies lt((#[trigger] before.items[i]).key, sep.key) by {
            assert(before.has(before.items[i].key, before.items[i].value));
        }
        assert forall|i: int, j: int| 0 <= i < j < self.items.len() implies lt(
            #[trigger] self.items[i].key,
            #[trigger] self.items[j].key,
        ) by {
            assert(self.items[i] == before.items[i]);
            if j < n {
                assert(self.items[j] == before.items[j]);
            }
        }
        assert forall|j: int| 0 <= j < self.children.len() implies {
            &&& (#[trigger] self.children[j]).well_formed()
            &&& self.children[j].rules == self.rules
            &&& self.children[j].items.len() >= self.rules.minkeys
            &&& self.children[j].height() + 1 == before.height()
        } by {
            if j < c {
                assert(self.children[j] == before.children[j]);
            }
        }
        if c > 0 {
            assert(self.children[0] == before.children[0]);
        }
        assert forall|j: int, k: K, v: V|
            0 <= j < self.children.len() && #[trigger] self.children[j].has(k, v) implies self.key_fits(
            j,
            k,
        ) by {
            if j < c {
                assert(self.children[j] == before.children[j]);
                assert(before.children[j].has(k, v));
                assert(before.has(k, v));
                assert(before.key_fits(j, k));
                if j < n {
                    assert(self.items[j] == before.items[j]);
                }
                if j > 0 {
                    assert(self.items[j - 1] == before.items[j - 1]);
                }
            } else {
                assert(self.children@.last().has(k, v));
                assert(self.items[j - 1] == sep);
            }
        }
        assert forall|k: K, v: V|
            #![trigger self.has(k, v)]
            #![trigger before.has(k, v)]
            self.has(k, v) <==> (before.has(k, v) || (k == sep.key && v == sep.value) || (c > 0
                && self.children@.last().has(k, v))) by {
            if self.has(k, v) {
                if items_hold(self.items@, k, v) {
                    let i = choose|i: int|
                        0 <= i < self.items.len() && (#[trigger] self.items[i]).key == k
                            && self.items[i].value == v;
                    if i < n {
                        assert(self.items[i] == before.items[i]);
                    }
                } else {
                    let j = choose|j: int|
                        0 <= j < self.children.len() && (#[trigger] self.children[j]).has(k, v);
                    if j < c {
                        assert(self.children[j] == before.children[j]);
                        assert(before.children[j].has(k, v));
                    }
                }
            }
            if before.has(k, v) {
                if items_hold(before.items@, k, v) {
                    let i = choose|i: int|
                        0 <= i < before.items.len() && (#[trigger] before.items[i]).key == k
                            && before.items[i].value == v;
                    assert(self.items[i] == before.items[i]);
                } else {
                    let j = choose|j: int|
                        0 <= j < before.children.len() && (#[trigger] before.children[j]).has(k, v);
                    assert(self.children[j] == before.children[j]);
                    assert(self.children[j].has(k, v));
                }
            }
            if k == sep.key && v == sep.value {
                assert(self.items[n] == sep);
            }
            if c > 0 && self.children@.last().has(k, v) {
                assert(self.children[c].has(k, v));
            }
        }
    }

    /// The mirror image of `lemma_gained_last`: the item and the subtree
    /// are added in front.
    pub proof fn lemma_gained_first(self, before: Self, sep: Item<K, V>)
        requires
            total_order::<K>(),
            before.well_formed_inner(),
            before.items.len() < before.rules.maxkeys,
            before.all_above(sep.key),
            self.items@ == before.items@.insert(0, sep),
            before.children.len() == 0 ==> self.children@ == before.children@,
            before.children.len() > 0 ==> {
                &&& self.children.len() > 0
                &&& self.children@ == before.children@.insert(0, self.children[0])
                &&& self.children[0].well_formed_inner()
                &&& self.children[0].rules == before.rules
                &&& self.children[0].height() + 1 == before.height()
                &&& self.children[0].all_below(sep.key)
            },
            self.counted(),
            self.rules == before.rules,
        ensures
            self.well_formed_inner(),
            self.height() == before.height(),
            forall|k: K, v: V|
                #![trigger self.has(k, v)]
                #![trigger before.has(k, v)]
                self.has(k, v) <==> (before.has(k, v) || (k == sep.key && v == sep.value) || (
                before.children.len() > 0 && self.children[0].has(k, v))),
    {
        let n = before.items.len() as int;
        let c = before.children.len() as int;
        assert forall|i: int| 0 <= i < n implies lt(sep.key, (#[trigger] before.items[i]).key) by {
            assert(before.has(before.items[i].key, before.items[i].value));
        }
        assert forall|i: int, j: int| 0 <= i < j < self.items.len() implies lt(
            #[trigger] self.items[i].key,
            #[trigger] self.items[j].key,
        ) by {
            assert(self.items[j] == before.items[j - 1]);
            if i > 0 {
                assert(self.items[i] == before.items[i - 1]);
            }
        }
        assert forall|j: int| 0 <= j < self.children.len() implies {
            &&& (#[trigger] self.children[j]).well_formed()
            &&& self.children[j].rules == self.rules
            &&& self.children[j].items.len() >= self.rules.minkeys
            &&& self.children[j].height() + 1 == before.height()
        } by {
            if j > 0 {
                assert(self.children[j] == before.children[j - 1]);
            }
        }
        assert forall|j: int, k: K, v: V|
            0 <= j < self.children.len() && #[trigger] self.children[j].has(k, v) implies self.key_fits(
            j,
            k,
        ) by {
            if j > 0 {
                assert(self.children[j] == before.children[j - 1]);
                assert(before.children[j - 1].has(k, v));
                assert(before.has(k, v));
                assert(before.key_fits(j - 1, k));
                if j - 1 < n {
                    assert(self.items[j] == before.items[j - 1]);
                }
                if j > 1 {
                    assert(self.items[j - 1] == before.items[j - 2]);
                }
            } else {
                assert(self.children[0].has(k, v));
                assert(self.items[0] == sep);
            }
        }
        assert forall|k: K, v: V|
            #![trigger self.has(k, v)]
            #![trigger before.has(k, v)]
            self.has(k, v) <==> (before.has(k, v) || (k == sep.key && v == sep.value) || (c > 0
                && self.children[0].has(k, v))) by {
            if self.has(k, v) {
                if items_hold(self.items@, k, v) {
                    let i = choose|i: int|
                        0 <= i < self.items.len() && (#[trigger] self.items[i]).key == k
                            && self.items[i].value == v;
                    if i > 0 {
                        assert(self.items[i] == before.items[i - 1]);
                    }
                } else {
                    let j = choose|j: int|
                        0 <= j < self.children.len() && (#[trigger] self.children[j]).has(k, v);
                    if j > 0 {
                        assert(self.children[j] == before.children[j - 1]);
                        assert(before.children[j - 1].has(k, v));
                    }
                }
            }
            if before.has(k, v) {
                if items_hold(before.items@, k, v) {
                    let i = choose|i: int|
                        0 <= i < before.items.len() && (#[trigger] before.items[i]).key == k
                            && before.items[i].value == v;
                    assert(self.items[i + 1] == before.items[i]);
                } else {
                    let j = choose|j: int|
                        0 <= j < before.children.len() && (#[trigger] before.children[j]).has(k, v);
                    assert(self.children[j + 1] == before.children[j]);
                    assert(self.children[j + 1].has(k, v));
                }
            }
            if k == sep.key && v == sep.value {
                assert(self.items[0] == sep);
            }
        }
    }

    /// A node with an item to spare stays well formed when its first item
    /// leaves it, and with it, below an internal node, its first child.
    /// What stays lies above the item, what leaves with the child below it.
    pub proof fn lemma_lost_first(self, before: Self)
        requires
            total_order::<K>(),
            before.well_formed(),
            before.items.len() > before.rules.minkeys,
            self.items@ == before.items@.remove(0),
            before.children.len() == 0 ==> self.children@ == before.children@,
            before.children.len() > 0 ==> self.children@ == before.children@.remove(0),
            self.counted(),
            self.rules == before.rules,
        ensures
            self.well_formed_inner(),
            self.height() == before.height(),
            self.all_above(before.items[0].key),
            before.children.len() > 0 ==> before.children[0].all_below(before.items[0].key),
            forall|k: K, v: V|
                #![trigger self.has(k, v)]
                #![trigger before.has(k, v)]
                before.has(k, v) <==> (self.has(k, v) || (k == before.items[0].key && v
                    == before.items[0].value) || (before.children.len() > 0 && before.children[0].has(
                    k,
                    v,
                ))),
    {
        let c = before.children.len() as int;
        let first = before.items[0];
        assert forall|i: int, j: int| 0 <= i < j < self.items.len() implies lt(
            #[trigger] self.items[i].key,
            #[trigger] self.items[j].key,
        ) by {
            assert(self.items[i] == before.items[i + 1]);
            assert(self.items[j] == before.items[j + 1]);
        }
        assert forall|j: int| 0 <= j < self.children.len() implies {
            &&& (#[trigger] self.children[j]).well_formed()
            &&& self.children[j].rules == self.rules
            &&& self.children[j].items.len() >= self.rules.minkeys
            &&& self.children[j].height() + 1 == before.height()
        } by {
            assert(self.children[j] == before.children[j + 1]);
        }
        if c > 0 {
            assert(self.children[0] == before.children[1]);
            before.lemma_child_between(0);
        }
        assert forall|j: int, k: K, v: V|
            0 <= j < self.children.len() && #[trigger] self.children[j].has(k, v) implies self.key_fits(
            j,
            k,
        ) && lt(first.key, k) by {
            assert(self.children[j] == before.children[j + 1]);
            assert(before.children[j + 1].has(k, v));
            assert(before.key_fits(j + 1, k));
            if j < self.items.len() {
                assert(self.items[j] == before.items[j + 1]);
            }
            if j > 0 {
                assert(self.items[j - 1] == before.items[j]);
                assert(lt(first.key, before.items[j].key));
            }
        }
        assert forall|k: K, v: V| #[trigger] self.has(k, v) implies lt(first.key, k) && before.has(
            k,
            v,
        ) by {
            if items_hold(self.items@, k, v) {
                let i = choose|i: int|
                    0 <= i < self.items.len() && (#[trigger] self.items[i]).key == k
                        && self.items[i].value == v;
                assert(self.items[i] == before.items[i + 1]);
                assert(lt(before.items[0].key, before.items[i + 1].key));
            } else {
                let j = choose|j: int|
                    0 <= j < self.children.len() && (#[trigger] self.children[j]).has(k, v);
                assert(self.children[j].has(k, v));
                assert(self.children[j] == before.children[j + 1]);
                assert(before.children[j + 1].has(k, v));
            }
        }
        assert forall|k: K, v: V| #[trigger] before.has(k, v) implies (self.has(k, v) || (k
            == first.key && v == first.value) || (c > 0 && before.children[0].has(k, v))) by {
            if items_hold(before.items@, k, v) {
                let i = choose|i: int|
                    0 <= i < before.items.len() && (#[trigger] before.items[i]).key == k
                        && before.items[i].value == v;
                if i > 0 {
                    assert(self.items[i - 1] == before.items[i]);
                }
            } else {
                let j = choose|j: int|
                    0 <= j < before.children.len() && (#[trigger] before.children[j]).has(k, v);
                if j > 0 {
                    assert(self.children[j - 1] == before.children[j]);
                    assert(self.children[j - 1].has(k, v));
                }
            }
        }
        assert(before.has(first.key, first.value));
        if c > 0 {
            assert forall|k: K, v: V| before.children[0].has(k, v) implies #[trigger] before.has(k, v) by {}
        }
    }

    /// The mirror image of `lemma_lost_first`: the last item leaves, and
    /// with it the last child.
    pub proof fn lemma_lost_last(self, before: Self)
        requires
            total_order::<K>(),
            before.well_formed(),
            before.items.len() > before.rules.minkeys,
            self.items@ == before.items@.drop_last(),
            before.children.len() == 0 ==> self.children@ == before.children@,
            before.children.len() > 0 ==> self.children@ == before.children@.drop_last(),
            self.counted(),
            self.rules == before.rules,
        ensures
            self.well_formed_inner(),
            self.height() == before.height(),
            self.all_below(before.items@.last().key),
            before.children.len() > 0 ==> before.children@.last().all_above(before.items@.last().key),
            forall|k: K, v: V|
                #![trigger self.has(k, v)]
                #![trigger before.has(k, v)]
                before.has(k, v) <==> (self.has(k, v) || (k == before.items@.last().key && v
                    == before.items@.last().value) || (before.children.len() > 0
                    && before.children@.last().has(k, v))),
    {
        let c = before.children.len() as int;
        let n = before.items.len() as int;
        let last = before.items[n - 1];
        assert forall|i: int, j: int| 0 <= i < j < self.items.len() implies lt(
            #[trigger] self.items[i].key,
            #[trigger] self.items[j].key,
        ) by {
            assert(self.items[i] == before.items[i]);
            assert(self.items[j] == before.items[j]);
        }
        assert forall|j: int| 0 <= j < self.children.len() implies {
            &&& (#[trigger] self.children[j]).well_formed()
            &&& self.children[j].rules == self.rules
            &&& self.children[j].items.len() >= self.rules.minkeys
            &&& self.children[j].height() + 1 == before.height()
        } by {
            assert(self.children[j] == before.children[j]);
        }
        if c > 0 {
            assert(self.children[0] == before.children[0]);
            before.lemma_child_between(c - 1);
        }
        assert forall|j: int, k: K, v: V|
            0 <= j < self.children.len() && #[trigger] self.children[j].has(k, v) implies self.key_fits(
            j,
            k,
        ) && lt(k, last.key) by {
            assert(self.children[j] == before.children[j]);
            assert(before.children[j].has(k, v));
            assert(before.key_fits(j, k));
            if j < self.items.len() {
                assert(self.items[j] == before.items[j]);
                assert(lt(before.items[j].key, last.key));
            }
            if j > 0 {
                assert(self.items[j - 1] == before.items[j - 1]);
            }
        }
        assert forall|k: K, v: V| #[trigger] self.has(k, v) implies lt(k, last.key) && before.has(
            k,
            v,
        ) by {
            if items_hold(self.items@, k, v) {
                let i = choose|i: int|
                    0 <= i < self.items.len() && (#[trigger] self.items[i]).key == k
                        && self.items[i].value == v;
                assert(self.items[i] == before.items[i]);
                assert(lt(before.items[i].key, before.items[n - 1].key));
            } else {
                let j = choose|j: int|
                    0 <= j < self.children.len() && (#[trigger] self.children[j]).has(k, v);
                assert(self.children[j].has(k, v));
                assert(self.children[j] == before.children[j]);
                assert(before.children[j].has(k, v));
            }
        }
        assert forall|k: K, v: V| #[trigger] before.has(k, v) implies (self.has(k, v) || (k
            == last.key && v == last.value) || (c > 0 && before.children@.last().has(k, v))) by {
            if items_hold(before.items@, k, v) {
                let i = choose|i: int|
                    0 <= i < before.items.len() && (#[trigger] before.items[i]).key == k
                        && before.items[i].value == v;
                if i < n - 1 {
                    assert(self.items[i] == before.items[i]);
                }
            } else {
                let j = choose|j: int|
                    0 <= j < before.children.len() && (#[trigger] before.children[j]).has(k, v);
                if j < c - 1 {
                    assert(self.children[j] == before.children[j]);
                    assert(self.children[j].has(k, v));
                }
            }
        }
        assert(before.has(last.key, last.value));
        if c > 0 {
            assert forall|k: K, v: V| before.children[c - 1].has(k, v) implies #[trigger] before.has(
                k,
                v,
            ) by {}
        }
    }

    /// Where children `l` and `l + 1` of a well-formed node and the item
    /// between them give way to two well-formed children with a new item
    /// between their keys, and the three hold together what the old three
    /// held, the node stays well formed and holds what it held.
    pub proof fn lemma_rotated(self, before: Self, l: int)
        requires
            total_order::<K>(),
            before.well_formed(),
            before.children.len() > 0,
            0 <= l < before.items.len(),
            self.items@ == before.items@.update(l, self.items[l]),
            self.children@ == before.children@.update(l, self.children[l]).update(
                l + 1,
                self.children[l + 1],
            ),
            self.counted(),
            self.rules == before.rules,
            self.children[l].well_formed_inner(),
            self.children[l + 1].well_formed_inner(),
            self.children[l].rules == before.rules,
            self.children[l + 1].rules == before.rules,
            self.children[l].height() + 1 == before.height(),
            self.children[l + 1].height() + 1 == before.height(),
            self.children[l].all_below(self.items[l].key),
            self.children[l + 1].all_above(self.items[l].key),
            forall|k: K, v: V|
                #![trigger self.children[l].has(k, v)]
                #![trigger self.children[l + 1].has(k, v)]
                #![trigger before.children[l].has(k, v)]
                #![trigger before.children[l + 1].has(k, v)]
                (self.children[l].has(k, v) || (k == self.items[l].key && v == self.items[l].value)
                    || self.children[l + 1].has(k, v)) <==> (before.children[l].has(k, v) || (k
                    == before.items[l].key && v == before.items[l].value) || before.children[l
                    + 1].has(k, v)),
        ensures
            self.well_formed(),
            self.height() == before.height(),
            forall|k: K, v: V| #[trigger] self.has(k, v) <==> before.has(k, v),
    {
        let x = self.items[l];
        let sep = before.items[l];
        let old_left = before.children[l];
        let old_right = before.children[l + 1];
        let new_left = self.children[l];
        let new_right = self.children[l + 1];
        // a key of the old three lies between the items that enclose the two children
        assert forall|k: K, v: V|
            (old_left.has(k, v) || (k == sep.key && v == sep.value) || old_right.has(
                k,
                v,
            )) implies (l > 0 ==> lt(before.items[l - 1].key, k)) && (l + 1 < before.items.len()
            ==> lt(k, before.items[l + 1].key)) by {
            if old_left.has(k, v) {
                assert(before.children[l].has(k, v));
                assert(before.key_fits(l, k));
                if l + 1 < before.items.len() {
                    assert(lt(sep.key, before.items[l + 1].key));
                }
            } else if old_right.has(k, v) {
                assert(before.children[l + 1].has(k, v));
                assert(before.key_fits(l + 1, k));
                if l > 0 {
                    assert(lt(before.items[l - 1].key, sep.key));
                }
            } else {
                if l > 0 {
                    assert(lt(before.items[l - 1].key, sep.key));
                }
                if l + 1 < before.items.len() {
                    assert(lt(sep.key, before.items[l + 1].key));
                }
            }
        }
        assert(old_left.has(x.key, x.value) || (x.key == sep.key && x.value == sep.value)
            || old_right.has(x.key, x.value));
        assert forall|i: int, j: int| 0 <= i < j < self.items.len() implies lt(
            #[trigger] self.items[i].key,
            #[trigger] self.items[j].key,
        ) by {
            if i != l {
                assert(self.items[i] == before.items[i]);
            }
            if j != l {
                assert(self.items[j] == before.items[j]);
            }
            if i == l {
                if j > l + 1 {
                    assert(lt(before.items[l + 1].key, before.items[j].key));
                }
            } else if j == l {
                if i < l - 1 {
                    assert(lt(before.items[i].key, before.items[l - 1].key));
                }
            }
        }
        assert forall|j: int| 0 <= j < self.children.len() implies {
            &&& (#[trigger] self.children[j]).well_formed()
            &&& self.children[j].rules == self.rules
            &&& self.children[j].items.len() >= self.rules.minkeys
            &&& self.children[j].height() + 1 == before.height()
        } by {
            if j != l && j != l + 1 {
                assert(self.children[j] == before.children[j]);
            }
        }
        assert forall|j: int, k: K, v: V|
            0 <= j < self.children.len() && #[trigger] self.children[j].has(k, v) implies self.key_fits(
            j,
            k,
        ) by {
            if j == l {
                assert(new_left.has(k, v));
                if l > 0 {
                    assert(self.items[l - 1] == before.items[l - 1]);
                }
            } else if j == l + 1 {
                assert(new_right.has(k, v));
                if l + 1 < self.items.len() {
                    assert(self.items[l + 1] == before.items[l + 1]);
                }
            } else {
                assert(self.children[j] == before.children[j]);
                assert(before.children[j].has(k, v));
                assert(before.key_fits(j, k));
                if j < self.items.len() {
                    assert(self.items[j] == before.items[j]);
                }
                if j > 0 {
                    assert(self.items[j - 1] == before.items[j - 1]);
                }
            }
        }
        assert forall|k: K, v: V| #[trigger] self.has(k, v) <==> before.has(k, v) by {
            if self.has(k, v) {
                if items_hold(self.items@, k, v) {
                    let i = choose|i: int|
                        0 <= i < self.items.len() && (#[trigger] self.items[i]).key == k
                            && self.items[i].value == v;
                    if i != l {
                        assert(self.items[i] == before.items[i]);
                    } else {
                        if old_left.has(k, v) {
                            assert(before.children[l].has(k, v));
                        } else if old_right.has(k, v) {
                            assert(before.children[l + 1].has(k, v));
                        } else {
                            assert(before.items[l].key == k && before.items[l].value == v);
                        }
                    }
                } else {
                    let j = choose|j: int|
                        0 <= j < self.children.len() && (#[trigger] self.children[j]).has(k, v);
                    if j == l || j == l + 1 {
                        assert(new_left.has(k, v) || new_right.has(k, v));
                        if old_left.has(k, v) {
                            assert(before.children[l].has(k, v));
                        } else if old_right.has(k, v) {
                            assert(before.children[l + 1].has(k, v));
                        } else {
                            assert(before.items[l].key == k && before.items[l].value == v);
                        }
                    } else {
                        assert(self.children[j] == before.children[j]);
                        assert(before.children[j].has(k, v));
                    }
                }
            }
            if before.has(k, v) {
                let among = old_left.has(k, v) || (k == sep.key && v == sep.value) || old_right.has(
                    k,
                    v,
                );
                if items_hold(before.items@, k, v) {
                    let i = choose|i: int|
                        0 <= i < before.items.len() && (#[trigger] before.items[i]).key == k
                            && before.items[i].value == v;
                    if i != l {
                        assert(self.items[i] == before.items[i]);
                    }
                } else {
                    let j = choose|j: int|
                        0 <= j < before.children.len() && (#[trigger] before.children[j]).has(k, v);
                    if j != l && j != l + 1 {
                        assert(self.children[j] == before.children[j]);
                        assert(self.children[j].has(k, v));
                    }
                }
                if among {
                    if new_left.has(k, v) {
                        assert(self.children[l].has(k, v));
                    } else if new_right.has(k, v) {
                        assert(self.children[l + 1].has(k, v));
                    } else {
                        assert(self.items[l].key == k && self.items[l].value == v);
                    }
                }
            }
        }
    }

    /// This node is `before` after child `position` has borrowed an item
    /// from its neighbour `sibling`: the item of the sibling that was nearest
    /// to `position` stands between the two, the item that stood there is
    /// the nearest item of `position`, and below internal children the
    /// nearest subtree of the sibling has moved across with it.
    pub open spec fn swapped_from(self, before: Self, position: int, sibling: int) -> bool {
        let taker = before.children[position];
        let giver = before.children[sibling];
        &&& self.children@ == before.children@.update(position, self.children[position]).update(
            sibling,
            self.children[sibling],
        )
        &&& if sibling > position {
            &&& self.items@ == before.items@.update(position, giver.items[0])
            &&& self.children[position].items@ == taker.items@.push(before.items[position])
            &&& self.children[sibling].items@ == giver.items@.remove(0)
            &&& self.children[position].children@ == if taker.children.len() == 0 {
                taker.children@
            } else {
                taker.children@.push(giver.children[0])
            }
            &&& self.children[sibling].children@ == if taker.children.len() == 0 {
                giver.children@
            } else {
                giver.children@.remove(0)
            }
        } else {
            &&& self.items@ == before.items@.update(sibling, giver.items@.last())
            &&& self.children[position].items@ == taker.items@.insert(0, before.items[sibling])
            &&& self.children[sibling].items@ == giver.items@.drop_last()
            &&& self.children[position].children@ == if taker.children.len() == 0 {
                taker.children@
            } else {
                taker.children@.insert(0, giver.children@.last())
            }
            &&& self.children[sibling].children@ == if taker.children.len() == 0 {
                giver.children@
            } else {
                giver.children@.drop_last()
            }
        }
    }

    /// Moves one item from child `sibling`, which has one to spare, to its
    /// neighbour `position`: the item of the sibling that is nearest to the
    /// neighbour moves up to stand between the two, the item that stood there
    /// moves down into `position`, and below internal children the subtree
    /// between the two items moves across. Returns `position`.
    pub fn swap(&mut self, position: usize, sibling: usize) -> (r: usize)
        requires
            total_order::<K>(),
            old(self).well_formed(),
            position < old(self).children.len(),
            sibling < old(self).children.len(),
            sibling == position + 1 || position == sibling + 1,
            old(self).children[sibling as int].items.len() > old(self).rules.minkeys,
            old(self).children[position as int].items.len() < old(self).rules.maxkeys,
        ensures
            r == position,
            final(self).well_formed(),
            final(self).rules == old(self).rules,
            final(self).height() == old(self).height(),
            forall|k: K, v: V| #[trigger] final(self).has(k, v) <==> old(self).has(k, v),
            final(self).swapped_from(*old(self), position as int, sibling as int),
            final(self).model() == old(self).model().borrowed(position as int, sibling as int),
    {
        let ghost before = *old(self);
        let ghost l = before.left_of(position, sibling);
        proof {
            assert(before.children[l].well_formed());
            assert(before.children[l + 1].well_formed());
            before.lemma_child_between(l);
            before.lemma_child_between(l + 1);
        }
        if position > sibling {
            let mut carried = self.children[sibling].items.pop().unwrap();
            self.children[sibling].num_items -= 1;
            core::mem::swap(&mut self.items[sibling], &mut carried);
            self.children[position].items.insert(0, carried);
            self.children[position].num_items += 1;
            if !self.children[position].leaf() {
                let child_swap = self.children[sibling].children.pop().unwrap();
                self.children[sibling].num_children -= 1;
                self.children[position].children.insert(0, child_swap);
                self.children[position].num_children += 1;
            }
            proof {
                let giver = *before.children[l];
                let taker = *before.children[l + 1];
                let sep = before.items[l];
                assert(self.children@ =~= before.children@.update(l, self.children[l]).update(
                    l + 1,
                    self.children[l + 1],
                ));
                assert(giver.children.len() == 0 <==> taker.children.len() == 0);
                assert(self.children@ =~= before.children@.update(
                    position as int,
                    self.children[position as int],
                ).update(sibling as int, self.children[sibling as int]));
                self.children[l].lemma_lost_last(giver);
                if giver.children.len() > 0 {
                    assert forall|k: K, v: V| #[trigger] giver.children@.last().has(k, v) implies lt(
                        k,
                        sep.key,
                    ) by {
                        assert(giver.has(k, v));
                    }
                    assert(giver.children@.last().well_formed());
                }
                self.children[l + 1].lemma_gained_first(taker, sep);
                assert(lt(giver.items@.last().key, sep.key)) by {
                    assert(giver.has(giver.items@.last().key, giver.items@.last().value));
                }
                self.lemma_rotated(before, l);
                self.lemma_borrowed_model(before, position as int, sibling as int);
            }
        } else {
            let mut carried = self.children[sibling].items.remove(0);
            self.children[sibling].num_items -= 1;
            core::mem::swap(&mut self.items[position], &mut carried);
            self.children[position].items.push(carried);
            self.children[position].num_items += 1;
            if !self.children[position].leaf() {
                let child_swap = self.children[sibling].children.remove(0);
                self.children[sibling].num_children -= 1;
                self.children[position].children.push(child_swap);
                self.children[position].num_children += 1;
            }
            proof {
                let taker = *before.children[l];
                let giver = *before.children[l + 1];
                let sep = before.items[l];
                assert(self.children@ =~= before.children@.update(l, self.children[l]).update(
                    l + 1,
                    self.children[l + 1],
                ));
                assert(giver.children.len() == 0 <==> taker.children.len() == 0);
                assert(self.children@ =~= before.children@.update(
                    position as int,
                    self.children[position as int],
                ).update(sibling as int, self.children[sibling as int]));
                self.children[l + 1].lemma_lost_first(giver);
                if giver.children.len() > 0 {
                    assert forall|k: K, v: V| #[trigger] giver.children[0].has(k, v) implies lt(
                        sep.key,
                        k,
                    ) by {
                        assert(giver.has(k, v));
                    }
                    assert(giver.children[0].well_formed());
                }
                self.children[l].lemma_gained_last(taker, sep);
                assert(lt(sep.key, giver.items[0].key)) by {
                    assert(giver.has(giver.items[0].key, giver.items[0].value));
                }
                self.lemma_rotated(before, l);
                self.lemma_borrowed_model(before, position as int, sibling as int);
            }
        }
        position
    }

    /// A node that is another after a borrowing stands for the tree of the
    /// other after that borrowing.
    pub proof fn lemma_borrowed_model(self, before: Self, position: int, sibling: int)
        requires
            0 <= position < before.children.len(),
            0 <= sibling < before.children.len(),
            sibling == position + 1 || position == sibling + 1,
            before.children[position].children.len() == 0 <==> before.children[sibling].children.len()
                == 0,
            before.children[sibling].items.len() > 0,
            self.swapped_from(before, position, sibling),
        ensures
            self.model() == before.model().borrowed(position, sibling),
    {
        let taker = before.children[position];
        let giver = before.children[sibling];
        let took = self.children[position];
        let gave = self.children[sibling];
        self.lemma_model_children();
        before.lemma_model_children();
        taker.lemma_model_children();
        giver.lemma_model_children();
        took.lemma_model_children();
        gave.lemma_model_children();
        let goal = before.model().borrowed(position, sibling);
        if sibling > position {
            if taker.children.len() > 0 {
                assert(models(took.children@) =~= models(taker.children@).push(
                    giver.children[0].model(),
                ));
                assert(models(gave.children@) =~= models(giver.children@).remove(0));
            }
        } else {
            if taker.children.len() > 0 {
                assert(models(took.children@) =~= models(taker.children@).insert(
                    0,
                    giver.children@.last().model(),
                ));
                assert(models(gave.children@) =~= models(giver.children@).drop_last());
            }
        }
        assert(took.model() == goal.children[position]);
        assert(gave.model() == goal.children[sibling]);
        assert(models(self.children@) =~= goal.children);
    }
}

} // verus!
