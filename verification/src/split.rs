//! Splitting a full node in two around its median item.

use vstd::prelude::*;
use crate::order::{lt, total_order};
use crate::node::{Item, Node, items_hold, keys_ascending};

verus! {

impl<K: Ord, V> Node<K, V> {
    /// This node holds as many items as the rules allow.
    pub open spec fn full(self) -> bool {
        self.items.len() == self.rules.maxkeys
    }

    /// The index of the median item.
    pub open spec fn median(self) -> int {
        self.items.len() as int / 2
    }

    /// The index of the first child behind the median item.
    pub open spec fn children_median(self) -> int {
        self.children.len() as int / 2
    }

    /// Splits a full node around its median item. The node keeps the items
    /// before the median and the children that enclose them; the median is
    /// returned, to be pushed into the parent, with a new node that holds the
    /// items behind the median and the other children.
    pub fn split(&mut self) -> (r: (Item<K, V>, Node<K, V>))
        requires
            total_order::<K>(),
            old(self).well_formed(),
            old(self).full(),
        ensures
            final(self).items@ == old(self).items@.subrange(0, old(self).median()),
            r.0 == old(self).items[old(self).median()],
            r.1.items@ == old(self).items@.subrange(
                old(self).median() + 1,
                old(self).items.len() as int,
            ),
            final(self).children@ == old(self).children@.subrange(0, old(self).children_median()),
            r.1.children@ == old(self).children@.subrange(
                old(self).children_median(),
                old(self).children.len() as int,
            ),
            final(self).model() == old(self).model().left_half(),
            r.1.model() == old(self).model().right_half(),
            final(self).rules == old(self).rules,
            r.1.rules == old(self).rules,
            final(self).well_formed_inner(),
            r.1.well_formed_inner(),
            final(self).items.len() == old(self).rules.minkeys,
            r.1.items.len() == old(self).rules.minkeys,
            final(self).height() == old(self).height(),
            r.1.height() == old(self).height(),
            forall|k: K, v: V|
                #![trigger old(self).has(k, v)]
                #![trigger final(self).has(k, v)]
                #![trigger r.1.has(k, v)]
                old(self).has(k, v) <==> (final(self).has(k, v) || (k == r.0.key && v == r.0.value)
                    || r.1.has(k, v)),
            forall|k: K, v: V| #[trigger] final(self).has(k, v) ==> lt(k, r.0.key),
            forall|k: K, v: V| #[trigger] r.1.has(k, v) ==> lt(r.0.key, k),
    {
        let median = self.items.len() / 2;
        let right_items = self.items.split_off(median + 1);
        let median_item = self.items.pop().unwrap();
        let children_median = self.children.len() / 2;
        let right_children = self.children.split_off(children_median);
        self.num_items = self.items.len();
        self.num_children = self.children.len();
        let new_node = Node {
            num_items: right_items.len(),
            num_children: right_children.len(),
            items: right_items,
            children: right_children,
            rules: self.rules,
        };
        proof {
            let before = *old(self);
            let m = median as int;
            let c = children_median as int;
            before.lemma_model_children();
            assert(self.items@ =~= before.items@.subrange(0, m));
            assert(new_node.items@ =~= before.items@.subrange(m + 1, before.items.len() as int));
            assert forall|j: int| 0 <= j < self.children.len() implies (#[trigger] self.children[j]).model()
                == before.model().left_half().children[j] by {
                assert(self.children[j] == before.children[j]);
            }
            self.lemma_model_is(before.model().left_half());
            assert forall|j: int| 0 <= j < new_node.children.len() implies (
            #[trigger] new_node.children[j]).model() == before.model().right_half().children[j] by {
                assert(new_node.children[j] == before.children[j + c]);
            }
            new_node.lemma_model_is(before.model().right_half());
            assert(before.children.len() > 0 ==> c == m + 1);
            assert forall|j: int| 0 <= j < self.children.len() implies {
                &&& (#[trigger] self.children[j]).well_formed()
                &&& self.children[j].rules == self.rules
                &&& self.children[j].items.len() >= self.rules.minkeys
                &&& self.children[j].height() + 1 == self.height()
            } by {
                assert(self.children[j] == before.children[j]);
                assert(self.children[0] == before.children[0]);
            }
            assert forall|j: int| 0 <= j < new_node.children.len() implies {
                &&& (#[trigger] new_node.children[j]).well_formed()
                &&& new_node.children[j].rules == new_node.rules
                &&& new_node.children[j].items.len() >= new_node.rules.minkeys
                &&& new_node.children[j].height() + 1 == new_node.height()
            } by {
                assert(new_node.children[j] == before.children[j + c]);
                assert(new_node.children[0] == before.children[c]);
            }
            assert forall|j: int, k: K, v: V|
                0 <= j < self.children.len() && #[trigger] self.children[j].has(k, v) implies self.key_fits(
                j,
                k,
            ) by {
                assert(self.children[j] == before.children[j]);
                assert(before.children[j].has(k, v));
                assert(before.key_fits(j, k));
            }
            assert forall|j: int, k: K, v: V|
                0 <= j < new_node.children.len() && #[trigger] new_node.children[j].has(
                    k,
                    v,
                ) implies new_node.key_fits(j, k) by {
                assert(new_node.children[j] == before.children[j + c]);
                assert(before.children[j + c].has(k, v));
                assert(before.key_fits(j + c, k));
                if j < new_node.items.len() {
                    assert(new_node.items[j] == before.items[j + m + 1]);
                }
                if 0 < j {
                    assert(new_node.items[j - 1] == before.items[j + m]);
                }
            }
            assert forall|k: K, v: V| #[trigger] self.has(k, v) implies before.has(k, v) && lt(
                k,
                median_item.key,
            ) by {
                if items_hold(self.items@, k, v) {
                    let i = choose|i: int|
                        0 <= i < self.items.len() && (#[trigger] self.items[i]).key == k
                            && self.items[i].value == v;
                    assert(before.items[i] == self.items[i]);
                    assert(lt(before.items[i].key, before.items[m].key));
                } else {
                    let j = choose|j: int|
                        0 <= j < self.children.len() && (#[trigger] self.children[j]).has(k, v);
                    assert(before.children[j] == self.children[j]);
                    assert(before.children[j].has(k, v));
                    assert(before.key_fits(j, k));
                    if j < m {
                        assert(lt(before.items[j].key, before.items[m].key));
                    }
                }
            }
            assert forall|k: K, v: V| #[trigger] new_node.has(k, v) implies before.has(k, v) && lt(
                median_item.key,
                k,
            ) by {
                if items_hold(new_node.items@, k, v) {
                    let i = choose|i: int|
                        0 <= i < new_node.items.len() && (#[trigger] new_node.items[i]).key == k
                            && new_node.items[i].value == v;
                    assert(before.items[i + m + 1] == new_node.items[i]);
                    assert(lt(before.items[m].key, before.items[i + m + 1].key));
                } else {
                    let j = choose|j: int|
                        0 <= j < new_node.children.len() && (#[trigger] new_node.children[j]).has(
                            k,
                            v,
                        );
                    assert(before.children[j + c] == new_node.children[j]);
                    assert(before.children[j + c].has(k, v));
                    assert(before.key_fits(j + c, k));
                    if j + c > m + 1 {
                        assert(lt(before.items[m].key, before.items[j + c - 1].key));
                    }
                }
            }
            assert forall|k: K, v: V| #[trigger] before.has(k, v) implies (self.has(k, v) || (k
                == median_item.key && v == median_item.value) || new_node.has(k, v)) by {
                if items_hold(before.items@, k, v) {
                    let i = choose|i: int|
                        0 <= i < before.items.len() && (#[trigger] before.items[i]).key == k
                            && before.items[i].value == v;
                    if i < m {
                        assert(self.items[i] == before.items[i]);
                    } else if i > m {
                        assert(new_node.items[i - m - 1] == before.items[i]);
                    }
                } else {
                    let j = choose|j: int|
                        0 <= j < before.children.len() && (#[trigger] before.children[j]).has(k, v);
                    if j < c {
                        assert(self.children[j] == before.children[j]);
                    } else {
                        assert(new_node.children[j - c] == before.children[j]);
                    }
                }
            }
            assert(before.has(median_item.key, median_item.value)) by {
                assert(before.items[m] == median_item);
            }
            if before.children.len() > 0 {
                assert(self.children[0] == before.children[0]);
                assert(new_node.children[0] == before.children[c]);
            }
        }
        (median_item, new_node)
    }
}

} // verus!
