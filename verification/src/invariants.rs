//! What well-formedness says of every node of a tree, and what insertion
//! and deletion then mean for a later search.

use vstd::prelude::*;
use crate::order::{lt, total_order};
use crate::node::{Node, keys_ascending, rank};
use crate::tree::BTree;

verus! {

impl<K: Ord, V> Node<K, V> {
    /// `n` is a node of the subtree, other than this node.
    pub open spec fn has_node_below(self, n: Self) -> bool
        decreases self,
    {
        exists|j: int|
            0 <= j < self.children.len() && (*(#[trigger] self.children[j]) == n
                || self.children[j].has_node_below(n))
    }

    /// A leaf lies `d` levels below this node.
    pub open spec fn has_leaf_at(self, d: nat) -> bool
        decreases self,
    {
        if self.children.len() == 0 {
            d == 0
        } else {
            d > 0 && exists|j: int|
                0 <= j < self.children.len() && (#[trigger] self.children[j]).has_leaf_at(
                    (d - 1) as nat,
                )
        }
    }

    /// Every node below the root of a well-formed subtree is itself the
    /// root of a well-formed subtree, under the same rules, and holds at
    /// least `minkeys` items.
    pub proof fn lemma_nodes_well_formed(self, n: Self)
        requires
            self.well_formed(),
            self.has_node_below(n),
        ensures
            n.well_formed_inner(),
            n.rules == self.rules,
        decreases self,
    {
        let j = choose|j: int|
            0 <= j < self.children.len() && (*(#[trigger] self.children[j]) == n
                || self.children[j].has_node_below(n));
        assert(self.children[j].well_formed());
        if *self.children[j] != n {
            self.children[j].lemma_nodes_well_formed(n);
        }
    }

    /// In every node of a well-formed subtree the keys ascend strictly.
    pub proof fn lemma_sorted_everywhere(self, n: Self, i: int)
        requires
            self.well_formed(),
            n == self || self.has_node_below(n),
            0 <= i,
            i + 1 < n.items.len(),
        ensures
            lt(n.items[i].key, n.items[i + 1].key),
    {
        if n != self {
            self.lemma_nodes_well_formed(n);
        }
        assert(keys_ascending(n.items@));
    }

    /// All leaves of a well-formed subtree lie at the same depth: the
    /// height of the subtree.
    pub proof fn lemma_leaves_level(self, d: nat)
        requires
            self.well_formed(),
            self.has_leaf_at(d),
        ensures
            d == self.height(),
        decreases self,
    {
        if self.children.len() > 0 {
            let j = choose|j: int|
                0 <= j < self.children.len() && (#[trigger] self.children[j]).has_leaf_at(
                    (d - 1) as nat,
                );
            assert(self.children[j].well_formed());
            self.children[j].lemma_leaves_level((d - 1) as nat);
        }
    }

    /// Every node of a well-formed subtree holds at most `maxkeys` items,
    /// and every node but the topmost at least `minkeys`.
    pub proof fn lemma_occupancy_everywhere(self, n: Self)
        requires
            self.well_formed(),
            n == self || self.has_node_below(n),
        ensures
            n.items.len() <= self.rules.maxkeys,
            self.has_node_below(n) ==> self.rules.minkeys <= n.items.len(),
    {
        if self.has_node_below(n) {
            self.lemma_nodes_well_formed(n);
        }
    }

    /// Every internal node of a well-formed subtree has one child more
    /// than it has items.
    pub proof fn lemma_child_count_everywhere(self, n: Self)
        requires
            self.well_formed(),
            n == self || self.has_node_below(n),
            n.children.len() > 0,
        ensures
            n.children.len() == n.items.len() + 1,
    {
        if n != self {
            self.lemma_nodes_well_formed(n);
        }
    }

    /// In every internal node of a well-formed subtree, the keys below
    /// child `i` lie below item `i`, and the keys below child `i + 1` lie
    /// above it.
    pub proof fn lemma_separators_everywhere(self, n: Self, i: int, k: K, v: V)
        requires
            self.well_formed(),
            n == self || self.has_node_below(n),
            n.children.len() > 0,
            0 <= i < n.items.len(),
        ensures
            n.children[i].has(k, v) ==> lt(k, n.items[i].key),
            n.children[i + 1].has(k, v) ==> lt(n.items[i].key, k),
    {
        if n != self {
            self.lemma_nodes_well_formed(n);
        }
        if n.children[i].has(k, v) {
            assert(n.key_fits(i, k));
        }
        if n.children[i + 1].has(k, v) {
            assert(n.key_fits(i + 1, k));
        }
    }

    /// The last node on the way down to a key is a node of the subtree.
    pub proof fn lemma_last_node_within(self, k: K)
        requires
            self.well_formed(),
        ensures
            self.last_node(k) == self || self.has_node_below(self.last_node(k)),
        decreases self,
    {
        let p = rank(self.items@, k);
        let found = 0 <= p < self.items.len() && self.items[p].key == k;
        if !found && 0 <= p < self.children.len() {
            assert(self.children[p].well_formed());
            self.children[p].lemma_last_node_within(k);
            let n = self.last_node(k);
            assert(*self.children[p] == n || self.children[p].has_node_below(n));
        }
    }
}

impl<K: Ord, V> BTree<K, V> {
    /// A search for a key that has just been inserted finds it: the place
    /// of the key is the index of an item of a node of the tree, and that
    /// item holds the key and the value that were inserted.
    pub proof fn lemma_found_after_insert(before: Self, after: Self, k: K, v: V)
        requires
            total_order::<K>(),
            after.well_formed(),
            after@ == before@.insert(k, v),
        ensures
            after.root.place(k).1,
            0 <= after.root.place(k).0 < after.root.last_node(k).items.len(),
            after.root.last_node(k).items[after.root.place(k).0].key == k,
            after.root.last_node(k).items[after.root.place(k).0].value == v,
            after.root.last_node(k) == *after.root || after.root.has_node_below(
                after.root.last_node(k),
            ),
    {
        after.root.lemma_place_finds(k);
        after.root.lemma_last_node_within(k);
        assert(after@.dom().contains(k));
        after.root.lemma_entries(k, after.root.last_node(k).items[after.root.place(k).0].value);
    }

    /// A search for a key that has just been deleted does not find it.
    pub proof fn lemma_not_found_after_delete(before: Self, after: Self, k: K)
        requires
            total_order::<K>(),
            after.well_formed(),
            after@ == before@.remove(k),
        ensures
            !after.root.place(k).1,
    {
        after.root.lemma_place_finds(k);
        assert(!after@.dom().contains(k));
    }

    /// Storing a value under a key that the tree holds changes neither the
    /// keys of the tree nor the value under another key.
    pub proof fn lemma_overwrite_keeps_keys(before: Self, after: Self, k: K, v: V)
        requires
            before@.dom().contains(k),
            after@ == before@.insert(k, v),
        ensures
            after@.dom() == before@.dom(),
            forall|a: K| a != k && before@.dom().contains(a) ==> after@[a] == before@[a],
    {
        assert(after@.dom() =~= before@.dom());
    }
}

} // verus!
