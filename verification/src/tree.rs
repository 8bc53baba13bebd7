//! The tree: a root node, with search, insertion and deletion from the root.

use vstd::prelude::*;
use crate::order::total_order;
use crate::rules::BTreeRules;
use crate::model::Tree;
use crate::node::{Item, Node, items_hold, lemma_rank_parts, parts_at, rank};

verus! {

/// An ordered map from keys to values, kept as a B-tree.
#[derive(Debug, PartialEq, Eq, PartialOrd, Ord)]
pub struct BTree<K, V> {
    /// The topmost node: the only one that may hold fewer than `minkeys` items.
    pub root: Box<Node<K, V>>,
}

impl<K: Ord, V> Node<K, V> {
    /// What the subtree holds, as a map from each key to its value.
    pub open spec fn entries(self) -> Map<K, V> {
        Map::new(|k: K| self.has_key(k), |k: K| choose|v: V| self.has(k, v))
    }

    /// In a well-formed subtree, `entries` maps a key to a value exactly
    /// when the subtree holds the pair.
    pub proof fn lemma_entries(self, k: K, v: V)
        requires
            total_order::<K>(),
            self.well_formed(),
        ensures
            self.has(k, v) <==> (self.entries().dom().contains(k) && self.entries()[k] == v),
    {
        if self.has(k, v) {
            let w = choose|w: V| self.has(k, w);
            self.lemma_one_value(k, v, w);
        }
    }

    /// Two well-formed subtrees that hold the same pairs have the same entries.
    pub proof fn lemma_entries_same(self, other: Self)
        requires
            total_order::<K>(),
            self.well_formed(),
            other.well_formed(),
            forall|a: K, b: V|
                #![trigger self.has(a, b)]
                #![trigger other.has(a, b)]
                self.has(a, b) <==> other.has(a, b),
        ensures
            self.entries() == other.entries(),
    {
        assert forall|a: K| self.has_key(a) <==> other.has_key(a) by {
            if self.has_key(a) {
                let b = choose|b: V| self.has(a, b);
                assert(other.has(a, b));
            }
            if other.has_key(a) {
                let b = choose|b: V| other.has(a, b);
                assert(self.has(a, b));
            }
        }
        assert forall|a: K| self.entries().dom().contains(a) implies self.entries()[a]
            == other.entries()[a] by {
            let b = self.entries()[a];
            self.lemma_entries(a, b);
            assert(other.has(a, b));
            other.lemma_entries(a, b);
        }
        assert(self.entries() =~= other.entries());
    }

    /// A subtree that holds what another held, but for `v` under `k`, has
    /// the entries of the other with `k` mapped to `v`.
    pub proof fn lemma_entries_inserted(self, before: Self, k: K, v: V)
        requires
            total_order::<K>(),
            self.well_formed(),
            before.well_formed(),
            forall|a: K, b: V|
                #![trigger self.has(a, b)]
                #![trigger before.has(a, b)]
                self.has(a, b) <==> (if a == k {
                    b == v
                } else {
                    before.has(a, b)
                }),
        ensures
            self.entries() == before.entries().insert(k, v),
    {
        let goal = before.entries().insert(k, v);
        assert forall|a: K| self.entries().dom().contains(a) <==> goal.dom().contains(a) by {
            if self.has_key(a) && a != k {
                let b = choose|b: V| self.has(a, b);
                assert(before.has(a, b));
            }
            if before.has_key(a) && a != k {
                let b = choose|b: V| before.has(a, b);
                assert(self.has(a, b));
            }
            if a == k {
                assert(self.has(k, v));
            }
        }
        assert forall|a: K| self.entries().dom().contains(a) implies self.entries()[a] == goal[a] by {
            let b = self.entries()[a];
            self.lemma_entries(a, b);
            if a != k {
                assert(before.has(a, b));
                before.lemma_entries(a, b);
            }
        }
        assert(self.entries() =~= goal);
    }

    /// A subtree that holds what another held under every key but `k`,
    /// and nothing under `k`, has the entries of the other without `k`.
    pub proof fn lemma_entries_removed(self, before: Self, k: K)
        requires
            total_order::<K>(),
            self.well_formed(),
            before.well_formed(),
            forall|a: K, b: V|
                #![trigger self.has(a, b)]
                #![trigger before.has(a, b)]
                self.has(a, b) <==> (a != k && before.has(a, b)),
        ensures
            self.entries() == before.entries().remove(k),
    {
        let goal = before.entries().remove(k);
        assert forall|a: K| self.entries().dom().contains(a) <==> goal.dom().contains(a) by {
            if self.has_key(a) {
                let b = choose|b: V| self.has(a, b);
                assert(before.has(a, b));
            }
            if before.has_key(a) && a != k {
                let b = choose|b: V| before.has(a, b);
                assert(self.has(a, b));
            }
        }
        assert forall|a: K| self.entries().dom().contains(a) implies self.entries()[a] == goal[a] by {
            let b = self.entries()[a];
            self.lemma_entries(a, b);
            assert(before.has(a, b));
            before.lemma_entries(a, b);
        }
        assert(self.entries() =~= goal);
    }
}

impl<K: Ord, V> View for BTree<K, V> {
    type V = Map<K, V>;

    /// The map that the tree stands for.
    open spec fn view(&self) -> Map<K, V> {
        self.root.entries()
    }
}

impl<K: Ord, V> BTree<K, V> {
    /// The tree is a B-tree: its root is well formed, and a root with
    /// children holds at least one item.
    pub open spec fn well_formed(self) -> bool {
        &&& self.root.well_formed()
        &&& (self.root.children.len() == 0 || self.root.items.len() >= 1)
    }

    /// The number of levels below the root.
    pub open spec fn height(self) -> nat {
        self.root.height()
    }

    /// A deletion of `k` makes the tree one level lower: the tree holds
    /// `k`, and the only item of the root has to go down into the merger of
    /// the two children of the root.
    pub open spec fn lowers(self, k: K) -> bool {
        &&& self@.dom().contains(k)
        &&& self.root.children.len() > 0
        &&& self.root.items.len() == 1
        &&& self.root.loses_item(k)
    }

    /// An insertion of `k` has to split a node: the root, or a child on
    /// the way down, before it reaches a node that holds `k`.
    pub open spec fn splits_on_way(self, k: K) -> bool {
        self.root.full() || self.root.splits_on_way(k)
    }

    /// An empty tree of the given branching factor.
    pub fn new(degree: usize) -> (tree: Self)
        requires
            BTreeRules::degree_ok(degree),
        ensures
            tree.well_formed(),
            tree@ == Map::<K, V>::empty(),
            tree.height() == 0,
            tree.root.roomy(),
            tree.root.items@ == Seq::<Item<K, V>>::empty(),
            tree.root.children@ == Seq::<Box<Node<K, V>>>::empty(),
            tree.root.rules == BTreeRules::for_degree(degree),
            tree.root.model() == (Tree { items: Seq::<Item<K, V>>::empty(), children: Seq::empty() }),
    {
        let tree = BTree { root: Box::new(Node::new(degree)) };
        proof {
            assert forall|k: K| !tree.root.has_key(k) by {
                assert forall|v: V| !tree.root.has(k, v) by {}
            }
            assert(tree@ =~= Map::<K, V>::empty());
        }
        tree
    }

    /// Looks for `key`, from the root down, and returns the index and the
    /// flag that the search of the last node on the way gave: with `true`
    /// the index of the item that has the key in the node that holds it,
    /// with `false` the index at which the key belongs in a leaf.
    pub fn locate(&self, key: &K) -> (r: (usize, bool))
        requires
            total_order::<K>(),
            self.well_formed(),
        ensures
            r.0 == self.root.model().place(*key).0,
            r.1 == self.root.model().place(*key).1,
            r.0 == self.root.place(*key).0,
            r.1 == self.root.place(*key).1,
            r.1 == self@.dom().contains(*key),
            r.0 == rank(self.root.last_node(*key).items@, *key),
            r.1 ==> r.0 < self.root.last_node(*key).items.len() && self.root.last_node(
                *key,
            ).items[r.0 as int].key == *key && self.root.last_node(*key).items[r.0 as int].value
                == self@[*key],
            !r.1 ==> self.root.last_node(*key).children.len() == 0,
    {
        proof {
            self.root.lemma_place_finds(*key);
            self.root.lemma_model_place(*key);
            if self.root.place(*key).1 {
                self.root.lemma_entries(
                    *key,
                    self.root.last_node(*key).items[self.root.place(*key).0].value,
                );
            }
        }
        let mut node: &Node<K, V> = &self.root;
        let (mut position, mut found) = node.search(key);
        while !found && node.children.len() > 0
            invariant
                total_order::<K>(),
                node.well_formed(),
                node.place(*key) == self.root.place(*key),
                position == rank(node.items@, *key),
                found == (position < node.items.len() && node.items[position as int].key == *key),
                position <= node.items.len(),
            decreases node.height(),
        {
            proof {
                lemma_rank_parts(node.items@, *key);
                assert(node.children[position as int].well_formed());
            }
            node = &node.children[position];
            let (p, f) = node.search(key);
            position = p;
            found = f;
        }
        (position, found)
    }

    /// Looks for the key of `item`: see `locate`.
    pub fn find(&self, item: Item<K, V>) -> (r: (usize, bool))
        requires
            total_order::<K>(),
            self.well_formed(),
        ensures
            r.0 == self.root.model().place(item.key).0,
            r.1 == self.root.model().place(item.key).1,
            r.0 == self.root.place(item.key).0,
            r.1 == self.root.place(item.key).1,
            r.1 == self@.dom().contains(item.key),
            r.0 == rank(self.root.last_node(item.key).items@, item.key),
            r.1 ==> r.0 < self.root.last_node(item.key).items.len() && self.root.last_node(
                item.key,
            ).items[r.0 as int].key == item.key && self.root.last_node(item.key).items[r.0 as int].value
                == self@[item.key],
            !r.1 ==> self.root.last_node(item.key).children.len() == 0,
    {
        self.locate(&item.key)
    }

    /// The value stored under `key`, if there is one.
    pub fn get(&self, key: &K) -> (r: Option<&V>)
        requires
            total_order::<K>(),
            self.well_formed(),
        ensures
            r == if self@.dom().contains(*key) {
                Some(&self@[*key])
            } else {
                None
            },
    {
        let mut node: &Node<K, V> = &self.root;
        let (mut position, mut found) = node.search(key);
        while !found && node.children.len() > 0
            invariant
                total_order::<K>(),
                node.well_formed(),
                self.root.well_formed(),
                forall|v: V|
                    #![trigger node.has(*key, v)]
                    #![trigger self.root.has(*key, v)]
                    node.has(*key, v) <==> self.root.has(*key, v),
                parts_at(node.items@, *key, position as int),
                found == (position < node.items.len() && node.items[position as int].key == *key),
            decreases node.height(),
        {
            proof {
                node.lemma_key_goes_down(*key, position as int);
                assert(node.children[position as int].well_formed());
            }
            node = &node.children[position];
            let (p, f) = node.search(key);
            position = p;
            found = f;
        }
        if found {
            proof {
                node.lemma_key_is_here(*key, position as int);
                let v = node.items[position as int].value;
                assert(node.has(*key, v));
                assert(self.root.has(*key, v));
                self.root.lemma_entries(*key, v);
            }
            Some(&node.items[position].value)
        } else {
            proof {
                node.lemma_key_goes_down(*key, position as int);
                if self.root.has_key(*key) {
                    let v = choose|v: V| self.root.has(*key, v);
                    assert(node.has(*key, v));
                }
            }
            None
        }
    }

    /// Splits a full root: the tree gets a new root that holds the median
    /// item of the old one, above the two halves of the old one.
    pub fn root_split(&mut self)
        requires
            total_order::<K>(),
            old(self).well_formed(),
            old(self).root.full(),
        ensures
            final(self).well_formed(),
            final(self).root.rules == old(self).root.rules,
            final(self).height() == old(self).height() + 1,
            final(self).root.model() == old(self).root.model().raised(),
            final(self).root.items@ == seq![old(self).root.items[old(self).root.median()]],
            final(self).root.children.len() == 2,
            final(self).root.children[0].items@ == old(self).root.items@.subrange(
                0,
                old(self).root.median(),
            ),
            final(self).root.children[1].items@ == old(self).root.items@.subrange(
                old(self).root.median() + 1,
                old(self).root.items.len() as int,
            ),
            final(self).root.children[0].children@ == old(self).root.children@.subrange(
                0,
                old(self).root.children_median(),
            ),
            final(self).root.children[1].children@ == old(self).root.children@.subrange(
                old(self).root.children_median(),
                old(self).root.children.len() as int,
            ),
            forall|k: K, v: V| #[trigger] final(self).root.has(k, v) <==> old(self).root.has(k, v),
            final(self)@ == old(self)@,
    {
        let (median, right_child) = self.root.split();
        self.grow(median, right_child);
        proof {
            self.root.lemma_entries_same(*old(self).root);
            old(self).root.lemma_model_children();
        }
    }

    /// Puts a new root above the root and `right`: the new root holds
    /// `median` alone, between the old root and `right`.
    pub fn grow(&mut self, median: Item<K, V>, right: Node<K, V>)
        requires
            total_order::<K>(),
            old(self).root.well_formed_inner(),
            right.well_formed_inner(),
            right.rules == old(self).root.rules,
            right.height() == old(self).root.height(),
            old(self).root.all_below(median.key),
            right.all_above(median.key),
        ensures
            final(self).well_formed(),
            final(self).root.rules == old(self).root.rules,
            final(self).height() == old(self).height() + 1,
            final(self).root.items@ == seq![median],
            final(self).root.children@ == seq![old(self).root, Box::new(right)],
            final(self).root.model() == (Tree {
                items: seq![median],
                children: seq![old(self).root.model(), right.model()],
            }),
            forall|k: K, v: V|
                #![trigger final(self).root.has(k, v)]
                #![trigger old(self).root.has(k, v)]
                #![trigger right.has(k, v)]
                final(self).root.has(k, v) <==> (old(self).root.has(k, v) || (k == median.key && v
                    == median.value) || right.has(k, v)),
    {
        let rules = self.root.rules;
        let mut left_child = Box::new(
            Node { items: Vec::new(), children: Vec::new(), num_items: 0, num_children: 0, rules },
        );
        core::mem::swap(&mut self.root, &mut left_child);
        self.root.items.push(median);
        self.root.children.push(left_child);
        self.root.children.push(Box::new(right));
        self.root.num_items = 1;
        self.root.num_children = 2;
        proof {
            let before = *old(self).root;
            let root = *self.root;
            assert(root.items@ =~= seq![median]);
            assert(root.children@ =~= seq![old(self).root, Box::new(right)]);
            root.lemma_model_is(
                Tree { items: seq![median], children: seq![before.model(), right.model()] },
            );
            assert forall|j: int, k: K, v: V|
                0 <= j < root.children.len() && #[trigger] root.children[j].has(k, v) implies root.key_fits(
                j,
                k,
            ) by {
                if j == 0 {
                    assert(before.has(k, v));
                } else {
                    assert(right.has(k, v));
                }
            }
            assert(root.well_formed());
            assert forall|k: K, v: V|
                #![trigger root.has(k, v)]
                #![trigger before.has(k, v)]
                #![trigger right.has(k, v)]
                root.has(k, v) <==> (before.has(k, v) || (k == median.key && v == median.value)
                    || right.has(k, v)) by {
                if root.has(k, v) {
                    if items_hold(root.items@, k, v) {
                        assert(k == median.key && v == median.value);
                    } else {
                        let j = choose|j: int|
                            0 <= j < root.children.len() && (#[trigger] root.children[j]).has(k, v);
                        if j == 0 {
                            assert(before.has(k, v));
                        } else {
                            assert(right.has(k, v));
                        }
                    }
                }
                if before.has(k, v) {
                    assert(root.children[0].has(k, v));
                }
                if right.has(k, v) {
                    assert(root.children[1].has(k, v));
                }
                if k == median.key && v == median.value {
                    assert(root.items[0] == median);
                }
            }
        }
    }

    /// Stores `item` in the tree: under a new key, or in place of the item
    /// that has its key. A full root is split first, which makes the tree
    /// one level higher. Returns whether the key is new.
    pub fn insert(&mut self, item: Item<K, V>) -> (inserted: bool)
        requires
            total_order::<K>(),
            old(self).well_formed(),
        ensures
            final(self).well_formed(),
            final(self)@ == old(self)@.insert(item.key, item.value),
            inserted == !old(self)@.dom().contains(item.key),
            final(self).root.rules == old(self).root.rules,
            final(self).height() == if old(self).root.full() {
                old(self).height() + 1
            } else {
                old(self).height()
            },
            old(self)@.dom().contains(item.key) && !old(self).splits_on_way(item.key)
                ==> final(self).root.same_shape(*old(self).root),
            final(self).root.model() == old(self).root.model().grown_with(
                item,
                old(self).root.rules,
                old(self).height(),
            ),
    {
        proof {
            old(self).root.lemma_model_children();
        }
        if self.root.num_items >= self.root.rules.maxkeys {
            self.root_split();
        }
        let ghost before = *self.root;
        let inserted = self.root.insert(item);
        proof {
            self.root.lemma_entries_inserted(before, item.key, item.value);
        }
        inserted
    }

    /// Removes the key of `item` from the tree; a tree that does not hold
    /// the key stays as it is. A root that is left without items above a
    /// single child gives way to that child, which makes the tree one level
    /// lower.
    pub fn delete(&mut self, item: Item<K, V>)
        requires
            total_order::<K>(),
            old(self).well_formed(),
        ensures
            final(self).well_formed(),
            final(self)@ == old(self)@.remove(item.key),
            final(self).root.rules == old(self).root.rules,
            !old(self)@.dom().contains(item.key) ==> *final(self) == *old(self),
            final(self).root.model() == old(self).root.model().shrunk_without(
                item.key,
                old(self).root.rules,
                old(self).height(),
            ),
            final(self).height() == if old(self).lowers(item.key) {
                old(self).height() - 1
            } else {
                old(self).height() as int
            },
    {
        let (_, found) = self.locate(&item.key);
        if !found {
            proof {
                assert(self@.remove(item.key) =~= self@);
            }
            return ;
        }
        let _gone = self.root.delete(item);
        proof {
            self.root.lemma_entries_removed(*old(self).root, item.key);
        }
        if self.root.num_items == 0 && self.root.num_children == 1 {
            let ghost emptied = *self.root;
            let child = self.root.children.pop().unwrap();
            self.root = child;
            proof {
                let root = *self.root;
                emptied.lemma_model_children();
                assert(root == *emptied.children[0]);
                assert(root.well_formed());
                assert forall|k: K, v: V| #[trigger] root.has(k, v) <==> emptied.has(k, v) by {
                    if root.has(k, v) {
                        assert(emptied.children[0].has(k, v));
                    }
                    if emptied.has(k, v) {
                        let j = choose|j: int|
                            0 <= j < emptied.children.len() && (#[trigger] emptied.children[j]).has(k, v);
                    }
                }
                root.lemma_entries_removed(*old(self).root, item.key);
            }
        }
    }
}

} // verus!
