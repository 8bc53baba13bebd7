//! Copies of nodes and trees.

use vstd::prelude::*;
use crate::node::{Item, Node};
use crate::tree::BTree;

verus! {

impl<K: Clone, V: Clone> Node<K, V> {
    /// This subtree is a copy of `from`: node for node it has the rules and
    /// the counters of `from`, and as many items and children, each key and
    /// value being a clone of the one in its place.
    pub open spec fn copy_of(self, from: Self) -> bool
        decreases self,
    {
        &&& self.rules == from.rules
        &&& self.num_items == from.num_items
        &&& self.num_children == from.num_children
        &&& self.items.len() == from.items.len()
        &&& forall|i: int|
            0 <= i < self.items.len() ==> cloned::<K>(from.items[i].key, (#[trigger] self.items[i]).key)
                && cloned::<V>(from.items[i].value, self.items[i].value)
        &&& self.children.len() == from.children.len()
        &&& forall|j: int|
            0 <= j < self.children.len() ==> (#[trigger] self.children[j]).copy_of(*from.children[j])
    }
}

impl<K: Clone, V: Clone> Clone for Node<K, V> {
    /// A copy of the subtree, made of clones of its keys and values.
    fn clone(&self) -> (r: Self)
        ensures
            r.copy_of(*self),
        decreases self,
    {
        let mut items: Vec<Item<K, V>> = Vec::new();
        let mut i: usize = 0;
        while i < self.items.len()
            invariant
                i <= self.items.len(),
                items.len() == i,
                forall|a: int|
                    0 <= a < i ==> cloned::<K>(self.items[a].key, (#[trigger] items[a]).key)
                        && cloned::<V>(self.items[a].value, items[a].value),
            decreases self.items.len() - i,
        {
            items.push(Item { key: self.items[i].key.clone(), value: self.items[i].value.clone() });
            i += 1;
        }
        let mut children: Vec<Box<Node<K, V>>> = Vec::new();
        let mut j: usize = 0;
        while j < self.children.len()
            invariant
                j <= self.children.len(),
                children.len() == j,
                forall|a: int| 0 <= a < j ==> (#[trigger] children[a]).copy_of(*self.children[a]),
            decreases self.children.len() - j,
        {
            let child: &Node<K, V> = &self.children[j];
            children.push(Box::new(child.clone()));
            j += 1;
        }
        Node {
            items,
            children,
            num_items: self.num_items,
            num_children: self.num_children,
            rules: self.rules,
        }
    }
}

impl<K: Clone, V: Clone> Clone for BTree<K, V> {
    /// A copy of the tree, made of clones of its keys and values.
    fn clone(&self) -> (r: Self)
        ensures
            r.root.copy_of(*self.root),
    {
        let root: &Node<K, V> = &self.root;
        BTree { root: Box::new(root.clone()) }
    }
}

} // verus!
