//! Merging two neighbouring children around the item that separates them.

use vstd::prelude::*;
use crate::order::{lt, total_order};
use crate::model::models;
use crate::node::{Item, Node, items_hold};

verus! {

impl<K: Ord, V> Node<K, V> {
    /// Every key of the subtree lies below `bound`.
    pub open spec fn all_below(self, bound: K) -> bool {
        forall|k: K, v: V| #[trigger] self.has(k, v) ==> lt(k, bound)
    }

    /// Every key of the subtree lies above `bound`.
    pub open spec fn all_above(self, bound: K) -> bool {
        forall|k: K, v: V| #[trigger] self.has(k, v) ==> lt(bound, k)
    }

    /// A node made of the items and children of `left`, then `sep`, then the
    /// items and children of `right`, is well formed where the two are
    /// nodes of one level with `sep` between their keys and the items fit
    /// in one node. It holds what the two held, and `sep`.
    pub proof fn lemma_joined(self, left: Self, sep: Item<K, V>, right: Self)
        requires
            total_order::<K>(),
            left.well_formed_inner(),
            right.well_formed_inner(),
            left.rules == right.rules,
            left.height() == right.height(),
            left.items.len() + right.items.len() + 1 <= left.rules.maxkeys,
            left.all_below(sep.key),
            right.all_above(sep.key),
            self.items@ == left.items@.push(sep) + right.items@,
            self.children@ == left.children@ + right.children@,
            self.counted(),
            self.rules == left.rules,
        ensures
            self.well_formed_inner(),
            self.height() == left.height(),
            forall|k: K, v: V|
                #![trigger self.has(k, v)]
                #![trigger left.has(k, v)]
                #![trigger right.has(k, v)]
                self.has(k, v) <==> (left.has(k, v) || (k == sep.key && v == sep.value) || right.has(
                    k,
                    v,
                )),
    {
        let n = left.items.len() as int;
        let lc = left.children.len() as int;
        assert(left.children.len() == 0 <==> right.children.len() == 0);
        assert forall|i: int| 0 <= i < n implies lt((#[trigger] left.items[i]).key, sep.key) by {
            assert(left.has(left.items[i].key, left.items[i].value));
        }
        assert forall|i: int| 0 <= i < right.items.len() implies lt(
            sep.key,
            (#[trigger] right.items[i]).key,
        ) by {
            assert(right.has(right.items[i].key, right.items[i].value));
        }
        assert forall|i: int| 0 <= i < self.items.len() implies #[trigger] self.items[i] == (if i < n {
            left.items[i]
        } else if i == n {
            sep
        } else {
            right.items[i - n - 1]
        }) by {}
        assert forall|i: int, j: int| 0 <= i < j < self.items.len() implies lt(
            #[trigger] self.items[i].key,
            #[trigger] self.items[j].key,
        ) by {
            if j < n {
            } else if j == n {
            } else if i < n {
                assert(lt(left.items[i].key, sep.key));
                assert(lt(sep.key, right.items[j - n - 1].key));
            } else if i == n {
            } else {
            }
        }
        assert forall|j: int| 0 <= j < self.children.len() implies #[trigger] self.children[j] == (if j
            < lc {
            left.children[j]
        } else {
            right.children[j - lc]
        }) by {}
        assert forall|j: int| 0 <= j < self.children.len() implies {
            &&& (#[trigger] self.children[j]).well_formed()
            &&& self.children[j].rules == self.rules
            &&& self.children[j].items.len() >= self.rules.minkeys
            &&& self.children[j].height() + 1 == left.height()
        } by {
            if j < lc {
                assert(self.children[j] == left.children[j]);
            } else {
                assert(self.children[j] == right.children[j - lc]);
            }
        }
        if lc > 0 {
            assert(self.children[0] == left.children[0]);
        }
        assert forall|j: int, k: K, v: V|
            0 <= j < self.children.len() && #[trigger] self.children[j].has(k, v) implies self.key_fits(
            j,
            k,
        ) by {
            if j < lc {
                assert(self.children[j] == left.children[j]);
                assert(left.children[j].has(k, v));
                assert(left.has(k, v));
                assert(left.key_fits(j, k));
            } else {
                assert(self.children[j] == right.children[j - lc]);
                assert(right.children[j - lc].has(k, v));
                assert(right.has(k, v));
                assert(right.key_fits(j - lc, k));
            }
        }
        assert forall|k: K, v: V|
            #![trigger self.has(k, v)]
            #![trigger left.has(k, v)]
            #![trigger right.has(k, v)]
            self.has(k, v) <==> (left.has(k, v) || (k == sep.key && v == sep.value) || right.has(k, v)) by {
            if self.has(k, v) {
                if items_hold(self.items@, k, v) {
                    let i = choose|i: int|
                        0 <= i < self.items.len() && (#[trigger] self.items[i]).key == k
                            && self.items[i].value == v;
                    if i < n {
                        assert(left.items[i] == self.items[i]);
                    } else if i > n {
                        assert(right.items[i - n - 1] == self.items[i]);
                    }
                } else {
                    let j = choose|j: int|
                        0 <= j < self.children.len() && (#[trigger] self.children[j]).has(k, v);
                    if j < lc {
                        assert(self.children[j] == left.children[j]);
                        assert(left.children[j].has(k, v));
                    } else {
                        assert(self.children[j] == right.children[j - lc]);
                        assert(right.children[j - lc].has(k, v));
                    }
                }
            }
            if left.has(k, v) {
                if items_hold(left.items@, k, v) {
                    let i = choose|i: int|
                        0 <= i < left.items.len() && (#[trigger] left.items[i]).key == k
                            && left.items[i].value == v;
                    assert(self.items[i] == left.items[i]);
                } else {
                    let j = choose|j: int|
                        0 <= j < left.children.len() && (#[trigger] left.children[j]).has(k, v);
                    assert(self.children[j] == left.children[j]);
                    assert(self.children[j].has(k, v));
                }
            }
            if right.has(k, v) {
                if items_hold(right.items@, k, v) {
                    let i = choose|i: int|
                        0 <= i < right.items.len() && (#[trigger] right.items[i]).key == k
                            && right.items[i].value == v;
                    assert(self.items[i + n + 1] == right.items[i]);
                } else {
                    let j = choose|j: int|
                        0 <= j < right.children.len() && (#[trigger] right.children[j]).has(k, v);
                    assert(self.children[j + lc] == right.children[j]);
                    assert(self.children[j + lc].has(k, v));
                }
            }
            if k == sep.key && v == sep.value {
                assert(self.items[n] == sep);
            }
        }
    }

    /// Where children `l` and `l + 1` of a well-formed node give way to one
    /// well-formed child that holds what the two held and the item between
    /// them, and that item leaves the node, the node stays well formed and
    /// holds what it held.
    pub proof fn lemma_children_merged(self, before: Self, l: int)
        requires
            total_order::<K>(),
            before.well_formed(),
            before.children.len() > 0,
            0 <= l < before.items.len(),
            self.items@ == before.items@.remove(l),
            self.children@ == before.children@.remove(l + 1).update(l, self.children[l]),
            self.counted(),
            self.rules == before.rules,
            self.children[l].well_formed_inner(),
            self.children[l].rules == before.rules,
            self.children[l].height() == before.children[l].height(),
            forall|k: K, v: V|
                #![trigger self.children[l].has(k, v)]
                self.children[l].has(k, v) <==> (before.children[l].has(k, v) || (k
                    == before.items[l].key && v == before.items[l].value) || before.children[l
                    + 1].has(k, v)),
        ensures
            self.well_formed(),
            self.height() == before.height(),
            forall|k: K, v: V| #[trigger] self.has(k, v) <==> before.has(k, v),
    {
        let merged = self.children[l];
        assert forall|i: int| 0 <= i < self.items.len() implies #[trigger] self.items[i] == (if i < l {
            before.items[i]
        } else {
            before.items[i + 1]
        }) by {}
        assert forall|j: int| 0 <= j < self.children.len() && j != l implies #[trigger] self.children[j]
            == (if j < l {
            before.children[j]
        } else {
            before.children[j + 1]
        }) by {}
        assert forall|i: int, j: int| 0 <= i < j < self.items.len() implies lt(
            #[trigger] self.items[i].key,
            #[trigger] self.items[j].key,
        ) by {
            let a = if i < l { i } else { i + 1 };
            let b = if j < l { j } else { j + 1 };
            assert(lt(before.items[a].key, before.items[b].key));
        }
        assert forall|j: int| 0 <= j < self.children.len() implies {
            &&& (#[trigger] self.children[j]).well_formed()
            &&& self.children[j].rules == self.rules
            &&& self.children[j].items.len() >= self.rules.minkeys
            &&& self.children[j].height() == before.children[l].height()
        } by {
            if j < l {
                assert(self.children[j] == before.children[j]);
            } else if j > l {
                assert(self.children[j] == before.children[j + 1]);
            }
        }
        assert(before.children[0].height() == before.children[l].height());
        assert forall|j: int, k: K, v: V|
            0 <= j < self.children.len() && #[trigger] self.children[j].has(k, v) implies self.key_fits(
            j,
            k,
        ) by {
            if j < l {
                assert(self.children[j] == before.children[j]);
                assert(before.children[j].has(k, v));
                assert(before.key_fits(j, k));
            } else if j > l {
                assert(self.children[j] == before.children[j + 1]);
                assert(before.children[j + 1].has(k, v));
                assert(before.key_fits(j + 1, k));
            } else {
                assert(merged.has(k, v));
                if before.children[l].has(k, v) {
                    assert(before.key_fits(l, k));
                    if l + 1 < before.items.len() {
                        assert(lt(before.items[l].key, before.items[l + 1].key));
                    }
                } else if before.children[l + 1].has(k, v) {
                    assert(before.key_fits(l + 1, k));
                    if l > 0 {
                        assert(lt(before.items[l - 1].key, before.items[l].key));
                    }
                } else {
                    if l > 0 {
                        assert(lt(before.items[l - 1].key, before.items[l].key));
                    }
                    if l + 1 < before.items.len() {
                        assert(lt(before.items[l].key, before.items[l + 1].key));
                    }
                }
            }
        }
        assert forall|k: K, v: V| #[trigger] self.has(k, v) <==> before.has(k, v) by {
            if self.has(k, v) {
                if items_hold(self.items@, k, v) {
                    let i = choose|i: int|
                        0 <= i < self.items.len() && (#[trigger] self.items[i]).key == k
                            && self.items[i].value == v;
                    let a = if i < l { i } else { i + 1 };
                    assert(before.items[a] == self.items[i]);
                } else {
                    let j = choose|j: int|
                        0 <= j < self.children.len() && (#[trigger] self.children[j]).has(k, v);
                    if j < l {
                        assert(self.children[j] == before.children[j]);
                        assert(before.children[j].has(k, v));
                    } else if j > l {
                        assert(self.children[j] == before.children[j + 1]);
                        assert(before.children[j + 1].has(k, v));
                    } else {
                        assert(merged.has(k, v));
                        if before.children[l].has(k, v) {
                        } else if before.children[l + 1].has(k, v) {
                        } else {
                            assert(before.items[l].key == k && before.items[l].value == v);
                        }
                    }
                }
            }
            if before.has(k, v) {
                if items_hold(before.items@, k, v) {
                    let i = choose|i: int|
                        0 <= i < before.items.len() && (#[trigger] before.items[i]).key == k
                            && before.items[i].value == v;
                    if i < l {
                        assert(self.items[i] == before.items[i]);
                    } else if i > l {
                        assert(self.items[i - 1] == before.items[i]);
                    } else {
                        assert(merged.has(k, v));
                        assert(self.children[l].has(k, v));
                    }
                } else {
                    let j = choose|j: int|
                        0 <= j < before.children.len() && (#[trigger] before.children[j]).has(k, v);
                    if j < l {
                        assert(self.children[j] == before.children[j]);
                        assert(self.children[j].has(k, v));
                    } else if j > l + 1 {
                        assert(self.children[j - 1] == before.children[j]);
                        assert(self.children[j - 1].has(k, v));
                    } else {
                        assert(merged.has(k, v));
                        assert(self.children[l].has(k, v));
                    }
                }
            }
        }
    }

    /// The keys below child `j` of a well-formed node lie below the item
    /// behind the child and above the item before it.
    pub proof fn lemma_child_between(self, j: int)
        requires
            total_order::<K>(),
            self.well_formed(),
            0 <= j < self.children.len(),
        ensures
            j < self.items.len() ==> self.children[j].all_below(self.items[j].key),
            0 < j ==> self.children[j].all_above(self.items[j - 1].key),
    {
        assert forall|k: K, v: V| #[trigger] self.children[j].has(k, v) implies self.key_fits(j, k) by {}
    }

    /// Merges child `position` with its neighbour `sibling`: the item that
    /// separates the two moves down between their items, the left of the
    /// two children takes all of it, and the right one leaves the node.
    pub fn merge(&mut self, position: usize, sibling: usize)
        requires
            total_order::<K>(),
            old(self).well_formed(),
            position < old(self).children.len(),
            sibling < old(self).children.len(),
            sibling == position + 1 || position == sibling + 1,
            old(self).children[position as int].items.len() + old(self).children[sibling as int].items.len()
                + 1 <= old(self).rules.maxkeys,
        ensures
            final(self).well_formed(),
            final(self).rules == old(self).rules,
            final(self).height() == old(self).height(),
            forall|k: K, v: V| #[trigger] final(self).has(k, v) <==> old(self).has(k, v),
            final(self).merged_from(*old(self), old(self).left_of(position, sibling)),
            final(self).model() == old(self).model().merged(old(self).left_of(position, sibling)),
    {
        let left = if position < sibling { position } else { sibling };
        proof {
            old(self).lemma_child_between(left as int);
            old(self).lemma_child_between(left as int + 1);
            assert(old(self).children[left as int].well_formed());
            assert(old(self).children[left as int + 1].well_formed());
        }
        let separator = self.items.remove(left);
        self.num_items -= 1;
        let mut right_node = self.children.remove(left + 1);
        self.num_children -= 1;
        self.children[left].items.push(separator);
        self.children[left].items.append(&mut right_node.items);
        self.children[left].children.append(&mut right_node.children);
        self.children[left].num_items = self.children[left].items.len();
        self.children[left].num_children = self.children[left].children.len();
        proof {
            let before = *old(self);
            let l = left as int;
            assert(self.children@ =~= before.children@.remove(l + 1).update(l, self.children[l]));
            assert(self.children[l].items@ =~= before.children[l].items@.push(before.items[l])
                + before.children[l + 1].items@);
            self.children[l].lemma_joined(*before.children[l], before.items[l], *before.children[l + 1]);
            self.lemma_children_merged(before, l);
            let c = self.children[l];
            self.lemma_model_children();
            before.lemma_model_children();
            c.lemma_model_children();
            before.children[l].lemma_model_children();
            before.children[l + 1].lemma_model_children();
            assert(models(c.children@) =~= models(before.children[l].children@) + models(
                before.children[l + 1].children@,
            ));
            assert(models(self.children@) =~= models(before.children@).remove(l + 1).update(
                l,
                c.model(),
            ));
        }
    }

    /// This node is `before` with its children `l` and `l + 1` merged:
    /// item `l` has left the node and stands between the items of the two
    /// in the child that took their place, which has the children of both.
    pub open spec fn merged_from(self, before: Self, l: int) -> bool {
        &&& self.items@ == before.items@.remove(l)
        &&& self.children.len() == before.children.len() - 1
        &&& self.children@ == before.children@.remove(l + 1).update(l, self.children[l])
        &&& self.children[l].items@ == before.children[l].items@.push(before.items[l])
            + before.children[l + 1].items@
        &&& self.children[l].children@ == before.children[l].children@ + before.children[l
            + 1].children@
    }

    /// The smaller of two child indices.
    pub open spec fn left_of(self, position: usize, sibling: usize) -> int {
        if position < sibling {
            position as int
        } else {
            sibling as int
        }
    }
}

} // verus!
