//! Nodes of the tree: what they hold, and when a subtree is well formed.

use vstd::prelude::*;
use crate::order::{lt, total_order, compare_keys, KeyOrder};
use crate::model::Tree;
use crate::rules::BTreeRules;

verus! {

/// A key with the value stored under it.
#[derive(Debug, Clone, PartialEq, Eq, PartialOrd, Ord)]
pub struct Item<K, V> {
    pub key: K,
    pub value: V,
}

/// A node with the subtree below it.
///
/// A leaf has no children; an internal node has one child more than it has
/// items, and `children[i]` holds the keys between `items[i - 1]` and
/// `items[i]`.
#[derive(Debug, PartialEq, Eq, PartialOrd, Ord)]
pub struct Node<K, V> {
    /// The items of this node, in ascending key order.
    pub items: Vec<Item<K, V>>,
    /// The subtrees between the items.
    pub children: Vec<Box<Node<K, V>>>,
    /// The length of `items`.
    pub num_items: usize,
    /// The length of `children`.
    pub num_children: usize,
    /// The thresholds of the tree that this node belongs to.
    pub rules: BTreeRules,
}

/// The keys of `items` ascend strictly.
pub open spec fn keys_ascending<K: Ord, V>(items: Seq<Item<K, V>>) -> bool {
    forall|i: int, j: int| 0 <= i < j < items.len() ==> lt(#[trigger] items[i].key, #[trigger] items[j].key)
}

/// `items` holds the value `v` under the key `k`.
pub open spec fn items_hold<K, V>(items: Seq<Item<K, V>>, k: K, v: V) -> bool {
    exists|i: int| 0 <= i < items.len() && (#[trigger] items[i]).key == k && items[i].value == v
}

/// The number of leading items of `items` whose key lies below `k`. In an
/// ascending sequence this is the place of `k`: the index of the item that
/// has the key `k`, or where such an item belongs.
pub open spec fn rank<K: Ord, V>(items: Seq<Item<K, V>>, k: K) -> int
    decreases items.len(),
{
    if items.len() == 0 || !lt(items[0].key, k) {
        0
    } else {
        1 + rank(items.skip(1), k)
    }
}

/// `p` parts the ascending `items` around `k`: the keys before `p` lie below
/// `k`, the others do not.
pub open spec fn parts_at<K: Ord, V>(items: Seq<Item<K, V>>, k: K, p: int) -> bool {
    &&& 0 <= p <= items.len()
    &&& forall|i: int| 0 <= i < p ==> lt(#[trigger] items[i].key, k)
    &&& forall|i: int| p <= i < items.len() ==> !lt(#[trigger] items[i].key, k)
}

/// In an ascending sequence the rank of a key parts the sequence around it.
pub proof fn lemma_rank_parts<K: Ord, V>(items: Seq<Item<K, V>>, k: K)
    requires
        total_order::<K>(),
        keys_ascending(items),
    ensures
        parts_at(items, k, rank(items, k)),
    decreases items.len(),
{
    if items.len() == 0 || !lt(items[0].key, k) {
        assert forall|i: int| 0 <= i < items.len() implies !lt(#[trigger] items[i].key, k) by {
            if i > 0 {
                assert(lt(items[0].key, items[i].key));
            }
        }
    } else {
        let rest = items.skip(1);
        assert forall|i: int, j: int| 0 <= i < j < rest.len() implies lt(
            #[trigger] rest[i].key,
            #[trigger] rest[j].key,
        ) by {
            assert(rest[i] == items[i + 1] && rest[j] == items[j + 1]);
        }
        lemma_rank_parts(rest, k);
        let p = rank(rest, k);
        assert forall|i: int| 0 <= i < p + 1 implies lt(#[trigger] items[i].key, k) by {
            if i > 0 {
                assert(items[i] == rest[i - 1]);
            }
        }
        assert forall|i: int| p + 1 <= i < items.len() implies !lt(#[trigger] items[i].key, k) by {
            assert(items[i] == rest[i - 1]);
        }
    }
}

/// Only the rank of a key parts an ascending sequence around it.
pub proof fn lemma_parts_is_rank<K: Ord, V>(items: Seq<Item<K, V>>, k: K, p: int)
    requires
        total_order::<K>(),
        keys_ascending(items),
        parts_at(items, k, p),
    ensures
        p == rank(items, k),
{
    lemma_rank_parts(items, k);
    let r = rank(items, k);
    if p < r {
        assert(lt(items[p].key, k));
    }
    if r < p {
        assert(lt(items[r].key, k));
    }
}

impl<K: Ord, V> Node<K, V> {
    /// The pair `(k, v)` is stored in this subtree.
    pub open spec fn has(self, k: K, v: V) -> bool
        decreases self,
    {
        ||| items_hold(self.items@, k, v)
        ||| exists|j: int| 0 <= j < self.children.len() && (#[trigger] self.children[j]).has(k, v)
    }

    /// Some value is stored under `k` in this subtree.
    pub open spec fn has_key(self, k: K) -> bool {
        exists|v: V| self.has(k, v)
    }

    /// The number of levels below this node.
    pub open spec fn height(self) -> nat
        decreases self,
    {
        if self.children.len() == 0 {
            0
        } else {
            1 + self.children[0].height()
        }
    }

    /// The two counters agree with the vectors they count.
    pub open spec fn counted(self) -> bool {
        &&& self.num_items == self.items.len()
        &&& self.num_children == self.children.len()
    }

    /// The key `k` lies between the items that enclose child `j`.
    pub open spec fn key_fits(self, j: int, k: K) -> bool {
        &&& (0 <= j < self.items.len() ==> lt(k, self.items[j].key))
        &&& (0 < j <= self.items.len() ==> lt(self.items[j - 1].key, k))
    }

    /// Every key below child `j` lies between the items that enclose it.
    pub open spec fn separated(self) -> bool {
        forall|j: int, k: K, v: V|
            0 <= j < self.children.len() && #[trigger] self.children[j].has(k, v) ==> self.key_fits(
                j,
                k,
            )
    }

    /// This node is a leaf, or has one child more than it has items.
    pub open spec fn child_count_ok(self) -> bool {
        self.children.len() == 0 || self.children.len() == self.items.len() + 1
    }

    /// The subtree is a B-tree whose root is this node: in every node the
    /// keys ascend, every node holds at most `maxkeys` items and every node
    /// but this one at least `minkeys`, every internal node has one child
    /// more than items, every key below a child lies between the items that
    /// enclose the child, and all leaves are at the same depth.
    pub open spec fn well_formed(self) -> bool
        decreases self,
    {
        &&& self.rules.valid()
        &&& self.counted()
        &&& keys_ascending(self.items@)
        &&& self.items.len() <= self.rules.maxkeys
        &&& self.child_count_ok()
        &&& self.separated()
        &&& forall|j: int|
            0 <= j < self.children.len() ==> {
                &&& (#[trigger] self.children[j]).well_formed()
                &&& self.children[j].rules == self.rules
                &&& self.children[j].items.len() >= self.rules.minkeys
                &&& self.children[j].height() + 1 == self.height()
            }
    }

    /// The place of `k` in the subtree: the index and the flag of the last
    /// node on the way down from this node, which is the node that holds `k`,
    /// or the leaf in which `k` belongs.
    pub open spec fn place(self, k: K) -> (int, bool)
        decreases self,
    {
        let p = rank(self.items@, k);
        let found = 0 <= p < self.items.len() && self.items[p].key == k;
        if found || !(0 <= p < self.children.len()) {
            (p, found)
        } else {
            self.children[p].place(k)
        }
    }

    /// This node is well formed and holds at least `minkeys` items, as every
    /// node but the root of a tree does.
    pub open spec fn well_formed_inner(self) -> bool {
        &&& self.well_formed()
        &&& self.items.len() >= self.rules.minkeys
    }

    /// Where no item of a well-formed node has the key `k`, the key is found
    /// below the child at the rank of `k`, or nowhere.
    pub proof fn lemma_key_goes_down(self, k: K, p: int)
        requires
            total_order::<K>(),
            self.well_formed(),
            parts_at(self.items@, k, p),
            !(p < self.items.len() && self.items[p].key == k),
        ensures
            forall|v: V|
                #![trigger self.has(k, v)]
                #![trigger self.children[p].has(k, v)]
                self.has(k, v) <==> (p < self.children.len() && self.children[p].has(k, v)),
    {
        assert forall|v: V| #[trigger] self.has(k, v) implies (p < self.children.len()
            && self.children[p].has(k, v)) by {
            if items_hold(self.items@, k, v) {
                let i = choose|i: int|
                    0 <= i < self.items.len() && (#[trigger] self.items[i]).key == k
                        && self.items[i].value == v;
                if i < p {
                    assert(lt(self.items[i].key, k));
                } else if i > p {
                    assert(lt(self.items[p].key, self.items[i].key));
                }
                assert(false);
            } else {
                let j = choose|j: int|
                    0 <= j < self.children.len() && (#[trigger] self.children[j]).has(k, v);
                assert(self.key_fits(j, k));
                if j < p {
                    assert(lt(self.items[j].key, k));
                } else if j > p {
                    assert(!lt(self.items[j - 1].key, k));
                }
            }
        }
    }

    /// Where an item of a well-formed node has the key `k`, its value is the
    /// only one stored under `k` in the subtree.
    pub proof fn lemma_key_is_here(self, k: K, p: int)
        requires
            total_order::<K>(),
            self.well_formed(),
            0 <= p < self.items.len(),
            self.items[p].key == k,
        ensures
            forall|v: V| #[trigger] self.has(k, v) <==> v == self.items[p].value,
    {
        assert forall|v: V| #[trigger] self.has(k, v) implies v == self.items[p].value by {
            if items_hold(self.items@, k, v) {
                let i = choose|i: int|
                    0 <= i < self.items.len() && (#[trigger] self.items[i]).key == k
                        && self.items[i].value == v;
                if i < p {
                    assert(lt(self.items[i].key, self.items[p].key));
                } else if i > p {
                    assert(lt(self.items[p].key, self.items[i].key));
                }
            } else {
                let j = choose|j: int|
                    0 <= j < self.children.len() && (#[trigger] self.children[j]).has(k, v);
                assert(self.key_fits(j, k));
                if j < p {
                    assert(lt(self.items[j].key, self.items[p].key));
                } else if j > p + 1 {
                    assert(lt(self.items[p].key, self.items[j - 1].key));
                }
                assert(false);
            }
        }
        assert(items_hold(self.items@, k, self.items[p].value));
    }

    /// At most one value is stored under a key in a well-formed subtree.
    pub proof fn lemma_one_value(self, k: K, v: V, w: V)
        requires
            total_order::<K>(),
            self.well_formed(),
            self.has(k, v),
            self.has(k, w),
        ensures
            v == w,
        decreases self,
    {
        lemma_rank_parts(self.items@, k);
        let p = rank(self.items@, k);
        if p < self.items.len() && self.items[p].key == k {
            self.lemma_key_is_here(k, p);
        } else {
            self.lemma_key_goes_down(k, p);
            self.children[p].lemma_one_value(k, v, w);
        }
    }

    /// The last node on the way down from this node to `k`: the node that
    /// holds `k`, or the leaf in which `k` belongs.
    pub open spec fn last_node(self, k: K) -> Self
        decreases self,
    {
        let p = rank(self.items@, k);
        let found = 0 <= p < self.items.len() && self.items[p].key == k;
        if found || !(0 <= p < self.children.len()) {
            self
        } else {
            self.children[p].last_node(k)
        }
    }

    /// The flag of the place of `k` tells whether the subtree holds `k`.
    /// With the flag set, the index of the place is that of the item with
    /// the key `k` in the last node on the way to `k`, and the value of that
    /// item is the one stored under `k`; otherwise that node is a leaf, and
    /// the index parts its items around `k`.
    pub proof fn lemma_place_finds(self, k: K)
        requires
            total_order::<K>(),
            self.well_formed(),
        ensures
            self.place(k).1 <==> self.has_key(k),
            0 <= self.place(k).0 <= self.rules.maxkeys,
            self.place(k).1 ==> self.place(k).0 < self.rules.maxkeys,
            self.place(k).0 == rank(self.last_node(k).items@, k),
            self.place(k).1 ==> {
                &&& self.place(k).0 < self.last_node(k).items.len()
                &&& self.last_node(k).items[self.place(k).0].key == k
                &&& self.has(k, self.last_node(k).items[self.place(k).0].value)
            },
            !self.place(k).1 ==> {
                &&& self.last_node(k).children.len() == 0
                &&& parts_at(self.last_node(k).items@, k, self.place(k).0)
            },
        decreases self,
    {
        lemma_rank_parts(self.items@, k);
        let p = rank(self.items@, k);
        if p < self.items.len() && self.items[p].key == k {
            self.lemma_key_is_here(k, p);
            assert(self.has(k, self.items[p].value));
        } else {
            self.lemma_key_goes_down(k, p);
            if p < self.children.len() {
                self.children[p].lemma_place_finds(k);
                if self.children[p].has_key(k) {
                    let v = choose|v: V| self.children[p].has(k, v);
                    assert(self.has(k, v));
                }
            }
        }
    }

    /// The two subtrees have the same nodes with the same keys at the same
    /// places; they may differ in the values.
    pub open spec fn same_shape(self, other: Self) -> bool
        decreases self,
    {
        &&& self.items.len() == other.items.len()
        &&& forall|i: int|
            0 <= i < self.items.len() ==> (#[trigger] self.items[i]).key == other.items[i].key
        &&& self.children.len() == other.children.len()
        &&& forall|j: int|
            0 <= j < self.children.len() ==> (#[trigger] self.children[j]).same_shape(
                *other.children[j],
            )
    }

    /// A subtree has its own shape.
    pub proof fn lemma_same_shape_reflexive(self)
        ensures
            self.same_shape(self),
        decreases self,
    {
        assert forall|j: int| 0 <= j < self.children.len() implies (#[trigger] self.children[j]).same_shape(
            *self.children[j],
        ) by {
            self.children[j].lemma_same_shape_reflexive();
        }
    }

    /// On the way down to `k`, an insertion meets a child that it has to
    /// split before it reaches a node that holds `k`.
    pub open spec fn splits_on_way(self, k: K) -> bool
        decreases self,
    {
        let p = rank(self.items@, k);
        if (0 <= p < self.items.len() && self.items[p].key == k) || !(0 <= p < self.children.len()) {
            false
        } else {
            self.children[p].items.len() == self.rules.maxkeys || self.children[p].splits_on_way(k)
        }
    }

    /// An empty leaf of a tree of the given branching factor.
    pub fn new(degree: usize) -> (node: Self)
        requires
            BTreeRules::degree_ok(degree),
        ensures
            node.well_formed(),
            node.items@ == Seq::<Item<K, V>>::empty(),
            node.children@ == Seq::<Box<Node<K, V>>>::empty(),
            node.num_items == 0,
            node.num_children == 0,
            node.rules == BTreeRules::for_degree(degree),
            node.model() == (Tree { items: Seq::<Item<K, V>>::empty(), children: Seq::empty() }),
    {
        let rules = BTreeRules::new(degree);
        let node = Node {
            items: Vec::with_capacity(rules.maxkeys),
            children: Vec::with_capacity(rules.maxchildren),
            num_items: 0,
            num_children: 0,
            rules,
        };
        proof {
            node.lemma_model_is(Tree { items: Seq::empty(), children: Seq::empty() });
        }
        node
    }

    /// Whether this node has no children.
    pub fn leaf(&self) -> (r: bool)
        ensures
            r == (self.num_children == 0),
    {
        self.num_children == 0
    }

    /// Whether this node has room for one more item.
    pub fn insertable(&self) -> (r: bool)
        ensures
            r == (self.num_items < self.rules.maxkeys),
    {
        self.num_items < self.rules.maxkeys
    }

    /// Whether this node can give up an item and still hold `minkeys`.
    pub fn enough(&self) -> (r: bool)
        ensures
            r == (self.num_items >= self.rules.degree),
    {
        self.num_items >= self.rules.degree
    }

    /// Whether child `position` is full while this node has room for the
    /// child that splitting it would add.
    pub fn splittable_child(&self, position: usize) -> (r: bool)
        requires
            position < self.children.len(),
        ensures
            r == (self.children[position as int].num_items == self.rules.maxkeys
                && self.children.len() < self.rules.maxchildren),
    {
        self.children[position].num_items == self.rules.maxkeys && self.children.len()
            < self.rules.maxchildren
    }

    /// Looks for `key` among the items of this node, by halving. Returns the
    /// index of the item with that key and `true`, or the index at which
    /// such an item belongs, which is also the index of the child to go down
    /// into, and `false`.
    pub fn search(&self, key: &K) -> (r: (usize, bool))
        requires
            total_order::<K>(),
            keys_ascending(self.items@),
        ensures
            r.0 == rank(self.items@, *key),
            r.1 == (r.0 < self.items.len() && self.items[r.0 as int].key == *key),
            r.0 <= self.items.len(),
            parts_at(self.items@, *key, r.0 as int),
            !r.1 ==> forall|i: int| r.0 <= i < self.items.len() ==> lt(*key, #[trigger] self.items[i].key),
    {
        let mut low: usize = 0;
        let mut high: usize = self.items.len();
        while low < high
            invariant
                total_order::<K>(),
                keys_ascending(self.items@),
                0 <= low <= high <= self.items.len(),
                forall|i: int| 0 <= i < low ==> lt(#[trigger] self.items[i].key, *key),
                forall|i: int| high <= i < self.items.len() ==> lt(*key, #[trigger] self.items[i].key),
            decreases high - low,
        {
            let median = low + (high - low) / 2;
            match compare_keys(key, &self.items[median].key) {
                KeyOrder::Below => {
                    high = median;
                },
                KeyOrder::Same => {
                    proof {
                        lemma_parts_is_rank(self.items@, *key, median as int);
                    }
                    return (median, true);
                },
                KeyOrder::Above => {
                    low = median + 1;
                },
            }
        }
        proof {
            lemma_parts_is_rank(self.items@, *key, low as int);
        }
        (low, false)
    }

    /// Looks for the key of `item` among the items of this node: see `search`.
    pub fn binary_search(&self, item: &Item<K, V>) -> (r: (usize, bool))
        requires
            total_order::<K>(),
            keys_ascending(self.items@),
        ensures
            r.0 == rank(self.items@, item.key),
            r.1 == (r.0 < self.items.len() && self.items[r.0 as int].key == item.key),
            r.0 <= self.items.len(),
            parts_at(self.items@, item.key, r.0 as int),
            !r.1 ==> forall|i: int| r.0 <= i < self.items.len() ==> lt(item.key, #[trigger] self.items[i].key),
    {
        self.search(&item.key)
    }
}

} // verus!
