//! The mathematical tree that a node stands for, and what splitting,
//! insertion, refilling and deletion make of it.

use vstd::prelude::*;
use crate::order::lt;
use crate::node::{Item, Node, rank};
use crate::rules::BTreeRules;

verus! {

/// A tree of items: what a node and the subtree below it hold, and where.
pub struct Tree<K, V> {
    /// The items of the topmost node, in order.
    pub items: Seq<Item<K, V>>,
    /// The subtrees between the items.
    pub children: Seq<Tree<K, V>>,
}

/// The trees that the nodes stand for.
pub open spec fn models<K: Ord, V>(nodes: Seq<Box<Node<K, V>>>) -> Seq<Tree<K, V>> {
    Seq::new(nodes.len(), |j: int| nodes[j].model())
}

impl<K: Ord, V> Node<K, V> {
    /// The tree that this node stands for.
    pub open spec fn model(self) -> Tree<K, V>
        decreases self,
    {
        Tree {
            items: self.items@,
            children: Seq::new(
                self.children.len() as nat,
                |j: int|
                    if 0 <= j < self.children.len() {
                        self.children[j].model()
                    } else {
                        arbitrary()
                    },
            ),
        }
    }

    /// A node stands for a tree that has its items, and for children the
    /// trees that its children stand for.
    pub proof fn lemma_model_is(self, tree: Tree<K, V>)
        requires
            self.items@ == tree.items,
            self.children.len() == tree.children.len(),
            forall|j: int| 0 <= j < self.children.len() ==> (#[trigger] self.children[j]).model() == tree.children[j],
        ensures
            self.model() == tree,
    {
        assert(self.model().children =~= tree.children);
    }

    /// The tree that a node stands for has its items, and for children the
    /// trees that its children stand for.
    pub proof fn lemma_model_children(self)
        ensures
            self.model().items == self.items@,
            self.model().children.len() == self.children.len(),
            forall|j: int|
                0 <= j < self.children.len() ==> self.model().children[j] == (
                #[trigger] self.children[j]).model(),
            self.model().children == models(self.children@),
    {
        assert(self.model().children =~= models(self.children@));
    }

    /// Nodes with the same children stand for trees with the same children.
    pub proof fn lemma_model_same_children(self, other: Self)
        requires
            self.children@ == other.children@,
        ensures
            self.model().children == other.model().children,
    {
        assert(self.model().children =~= other.model().children);
    }

    /// A node that differs from another in child `p` alone stands for the
    /// tree of the other with the tree of that child in place of child `p`.
    pub proof fn lemma_model_child_replaced(self, before: Self, p: int)
        requires
            0 <= p < before.children.len(),
            self.items@ == before.items@,
            self.children@ == before.children@.update(p, self.children[p]),
        ensures
            self.model() == before.model().with_child(p, self.children[p].model()),
    {
        let goal = before.model().with_child(p, self.children[p].model());
        assert forall|j: int| 0 <= j < self.children.len() implies (#[trigger] self.children[j]).model()
            == goal.children[j] by {
            if j != p {
                assert(self.children[j] == before.children[j]);
            }
        }
        self.lemma_model_is(goal);
    }

    /// The place of a key in a node is its place in the tree that the node
    /// stands for.
    pub proof fn lemma_model_place(self, k: K)
        ensures
            self.place(k) == self.model().place(k),
        decreases self,
    {
        let p = rank(self.items@, k);
        let found = 0 <= p < self.items.len() && self.items[p].key == k;
        if !found && 0 <= p < self.children.len() {
            self.children[p].lemma_model_place(k);
        }
    }
}

impl<K: Ord, V> Tree<K, V> {
    /// The index and the flag that a search for `k` ends with: those of the
    /// node that holds `k`, or of the leaf in which `k` belongs.
    pub open spec fn place(self, k: K) -> (int, bool)
        decreases self,
    {
        let p = rank(self.items, k);
        let found = 0 <= p < self.items.len() && self.items[p].key == k;
        if found || !(0 <= p < self.children.len()) {
            (p, found)
        } else {
            self.children[p].place(k)
        }
    }

    /// The index of the median item.
    pub open spec fn median(self) -> int {
        self.items.len() as int / 2
    }

    /// The index of the first child behind the median item.
    pub open spec fn children_median(self) -> int {
        self.children.len() as int / 2
    }

    /// What stays of the topmost node when it is split: the items before
    /// the median, and the children that enclose them.
    pub open spec fn left_half(self) -> Self {
        Tree {
            items: self.items.subrange(0, self.median()),
            children: self.children.subrange(0, self.children_median()),
        }
    }

    /// The new node of a split: the items behind the median, and the
    /// children that enclose them.
    pub open spec fn right_half(self) -> Self {
        Tree {
            items: self.items.subrange(self.median() + 1, self.items.len() as int),
            children: self.children.subrange(self.children_median(), self.children.len() as int),
        }
    }

    /// The tree with a new root above the two halves of the old one.
    pub open spec fn raised(self) -> Self {
        Tree { items: seq![self.items[self.median()]], children: seq![self.left_half(), self.right_half()] }
    }

    /// The tree with child `p` split: its median stands at `p` in the
    /// topmost node, between its two halves.
    pub open spec fn with_child_split(self, p: int) -> Self {
        Tree {
            items: self.items.insert(p, self.children[p].items[self.children[p].median()]),
            children: self.children.update(p, self.children[p].left_half()).insert(
                p + 1,
                self.children[p].right_half(),
            ),
        }
    }

    /// The tree with `item` in place of item `p` of the topmost node.
    pub open spec fn with_item_at(self, p: int, item: Item<K, V>) -> Self {
        Tree { items: self.items.update(p, item), children: self.children }
    }

    /// The tree with `child` in place of child `p`.
    pub open spec fn with_child(self, p: int, child: Self) -> Self {
        Tree { items: self.items, children: self.children.update(p, child) }
    }

    /// The tree of height `h` with `item` put in, in one pass down. Where
    /// the topmost node holds the key, the item takes the place of the one
    /// that is there. A leaf takes the item at the rank of its key.
    /// Otherwise the child at the rank is split first if it is full: the key
    /// is then compared with the median that moved up, which the item
    /// replaces if the keys are equal, and the item goes into the half on
    /// the side of its key.
    pub open spec fn with_item(self, item: Item<K, V>, rules: BTreeRules, h: nat) -> Self
        decreases h,
    {
        let p = rank(self.items, item.key);
        if 0 <= p < self.items.len() && self.items[p].key == item.key {
            self.with_item_at(p, item)
        } else if self.children.len() == 0 {
            Tree { items: self.items.insert(p, item), children: self.children }
        } else if h == 0 {
            self
        } else if self.children[p].items.len() == rules.maxkeys {
            let split = self.with_child_split(p);
            if split.items[p].key == item.key {
                split.with_item_at(p, item)
            } else if lt(split.items[p].key, item.key) {
                split.with_child(p + 1, split.children[p + 1].with_item(item, rules, (h - 1) as nat))
            } else {
                split.with_child(p, split.children[p].with_item(item, rules, (h - 1) as nat))
            }
        } else {
            self.with_child(p, self.children[p].with_item(item, rules, (h - 1) as nat))
        }
    }

    /// The tree of height `h` after an insertion from the root: a full root
    /// is split first, which raises the tree.
    pub open spec fn grown_with(self, item: Item<K, V>, rules: BTreeRules, h: nat) -> Self {
        if self.items.len() >= rules.maxkeys {
            self.raised().with_item(item, rules, h + 1)
        } else {
            self.with_item(item, rules, h)
        }
    }

    /// The tree of height `h` with `item` put in, splitting after the fact,
    /// and the median and right half that the topmost node hands up if it
    /// had to be split. Where the topmost node holds the key, the item takes
    /// the place of the one that is there. Otherwise a leaf takes the item
    /// at the rank of its key, and a node above takes what its child at the
    /// rank hands up; a node that this fills up is split.
    pub open spec fn with_item_reactive(self, item: Item<K, V>, rules: BTreeRules, h: nat) -> (
        Self,
        Option<(Item<K, V>, Self)>,
    )
        decreases h,
    {
        let p = rank(self.items, item.key);
        if 0 <= p < self.items.len() && self.items[p].key == item.key {
            (self.with_item_at(p, item), None)
        } else if self.children.len() == 0 {
            (Tree { items: self.items.insert(p, item), children: self.children }).split_if_full(rules)
        } else if h == 0 {
            (self, None)
        } else {
            let below = self.children[p].with_item_reactive(item, rules, (h - 1) as nat);
            match below.1 {
                None => (self.with_child(p, below.0), None),
                Some(up) => (Tree {
                    items: self.items.insert(p, up.0),
                    children: self.children.update(p, below.0).insert(p + 1, up.1),
                }).split_if_full(rules),
            }
        }
    }

    /// The tree as it is, or, where its topmost node is full, the left
    /// half of that node, with its median and its right half to hand up.
    pub open spec fn split_if_full(self, rules: BTreeRules) -> (Self, Option<(Item<K, V>, Self)>) {
        if self.items.len() >= rules.maxkeys {
            (self.left_half(), Some((self.items[self.median()], self.right_half())))
        } else {
            (self, None)
        }
    }

    /// The tree of height `h` after an insertion from the root that splits
    /// after the fact: where the root was split, a new root stands above its
    /// two halves.
    pub open spec fn grown_with_reactive(self, item: Item<K, V>, rules: BTreeRules, h: nat) -> Self {
        let put = self.with_item_reactive(item, rules, h);
        match put.1 {
            None => put.0,
            Some(up) => Tree { items: seq![up.0], children: seq![put.0, up.1] },
        }
    }

    /// The tree with children `l` and `l + 1` merged around item `l`.
    pub open spec fn merged(self, l: int) -> Self {
        Tree {
            items: self.items.remove(l),
            children: self.children.remove(l + 1).update(
                l,
                Tree {
                    items: self.children[l].items.push(self.items[l]) + self.children[l + 1].items,
                    children: self.children[l].children + self.children[l + 1].children,
                },
            ),
        }
    }

    /// The tree after child `position` has borrowed an item from its
    /// neighbour `sibling`, through the topmost node.
    pub open spec fn borrowed(self, position: int, sibling: int) -> Self {
        let taker = self.children[position];
        let giver = self.children[sibling];
        if sibling > position {
            Tree {
                items: self.items.update(position, giver.items[0]),
                children: self.children.update(
                    position,
                    Tree {
                        items: taker.items.push(self.items[position]),
                        children: if taker.children.len() == 0 {
                            taker.children
                        } else {
                            taker.children.push(giver.children[0])
                        },
                    },
                ).update(
                    sibling,
                    Tree {
                        items: giver.items.remove(0),
                        children: if taker.children.len() == 0 {
                            giver.children
                        } else {
                            giver.children.remove(0)
                        },
                    },
                ),
            }
        } else {
            Tree {
                items: self.items.update(sibling, giver.items.last()),
                children: self.children.update(
                    position,
                    Tree {
                        items: taker.items.insert(0, self.items[sibling]),
                        children: if taker.children.len() == 0 {
                            taker.children
                        } else {
                            taker.children.insert(0, giver.children.last())
                        },
                    },
                ).update(
                    sibling,
                    Tree {
                        items: giver.items.drop_last(),
                        children: if taker.children.len() == 0 {
                            giver.children
                        } else {
                            giver.children.drop_last()
                        },
                    },
                ),
            }
        }
    }

    /// The neighbour that child `position` turns to: the one on its right,
    /// or for the last child the one on its left.
    pub open spec fn sibling_of(self, position: int) -> int {
        if position == self.children.len() - 1 {
            position - 1
        } else {
            position + 1
        }
    }

    /// Child `j` has an item to spare.
    pub open spec fn child_enough(self, j: int, rules: BTreeRules) -> bool {
        self.children[j].items.len() >= rules.degree
    }

    /// The tree with child `position` refilled: as it is where the child
    /// has an item to spare; else after the child has borrowed from its
    /// neighbour, where that one has an item to spare; else with the two
    /// merged.
    pub open spec fn refilled(self, position: int, rules: BTreeRules) -> Self {
        let sibling = self.sibling_of(position);
        if self.child_enough(position, rules) {
            self
        } else if self.child_enough(sibling, rules) {
            self.borrowed(position, sibling)
        } else if sibling < position {
            self.merged(sibling)
        } else {
            self.merged(position)
        }
    }

    /// The index at which child `position` stands once it is refilled.
    pub open spec fn refilled_at(self, position: int, rules: BTreeRules) -> int {
        let sibling = self.sibling_of(position);
        if !self.child_enough(position, rules) && !self.child_enough(sibling, rules) && sibling
            < position {
            position - 1
        } else {
            position
        }
    }

    /// The tree of height `h` with the key `k` taken out in one pass down,
    /// and the item that the pass hands up. A leaf loses the item with the
    /// key; a leaf without the key loses its last item, which is handed up.
    /// Above a leaf, the child at the rank of the key is refilled first if it
    /// has no item to spare, and the pass goes on below it. Where the topmost
    /// node holds the key and the child before it needed no refill, the item
    /// that comes up from below takes the place of the key.
    pub open spec fn without(self, k: K, rules: BTreeRules, h: nat) -> (Self, Option<Item<K, V>>)
        decreases h,
    {
        let p = rank(self.items, k);
        let found = 0 <= p < self.items.len() && self.items[p].key == k;
        if self.children.len() == 0 {
            if found {
                (Tree { items: self.items.remove(p), children: self.children }, None)
            } else if self.items.len() == 0 {
                (self, None)
            } else {
                (
                    Tree { items: self.items.drop_last(), children: self.children },
                    Some(self.items.last()),
                )
            }
        } else if h == 0 {
            (self, None)
        } else {
            let thin = !self.child_enough(p, rules);
            let ready = if thin {
                self.refilled(p, rules)
            } else {
                self
            };
            let q = if thin {
                self.refilled_at(p, rules)
            } else {
                p
            };
            let below = ready.children[q].without(k, rules, (h - 1) as nat);
            let after = ready.with_child(q, below.0);
            match below.1 {
                Some(up) => if found && !thin {
                    (after.with_item_at(q, up), None)
                } else {
                    (after, Some(up))
                },
                None => (after, None),
            }
        }
    }

    /// The tree of height `h` after a deletion from the root: as it is
    /// where it does not hold the key; else with the key taken out, and with
    /// the only child of the root in the place of a root left without items.
    pub open spec fn shrunk_without(self, k: K, rules: BTreeRules, h: nat) -> Self {
        let after = self.without(k, rules, h).0;
        if !self.place(k).1 {
            self
        } else if after.items.len() == 0 && after.children.len() == 1 {
            after.children[0]
        } else {
            after
        }
    }
}

} // verus!
