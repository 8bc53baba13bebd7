//! A picture of a tree in text: one line for each level, every node as the
//! list of its keys in square brackets.

use core::fmt::Display;
use vstd::prelude::*;
use vstd::string::*;
use vstd::utf8::encode_utf8;
use crate::node::Node;
use crate::tree::BTree;

verus! {

/// `n` blanks.
pub open spec fn spaces(n: nat) -> Seq<char> {
    Seq::new(n, |i: int| ' ')
}

/// The texts `parts`, one after another, with `sep` between each two.
pub open spec fn joined(parts: Seq<Seq<char>>, sep: Seq<char>) -> Seq<char>
    decreases parts.len(),
{
    if parts.len() == 0 {
        Seq::empty()
    } else if parts.len() == 1 {
        parts[0]
    } else {
        joined(parts.drop_last(), sep) + sep + parts.last()
    }
}

/// What each of the strings holds.
pub open spec fn texts(strings: Seq<String>) -> Seq<Seq<char>> {
    strings.map_values(|s: String| s@)
}

/// A node whose keys read `keys`: the keys between square brackets, with
/// commas between them.
pub open spec fn node_text(keys: Seq<Seq<char>>) -> Seq<char> {
    seq!['['] + joined(keys, seq![',']) + seq![']']
}

/// What stands between two nodes of the level at `depth`, the root being
/// at depth one: three blanks, as many times as `depth` goes into ten.
pub open spec fn gap(depth: nat) -> Seq<char> {
    spaces((3 * (10nat / depth)) as nat)
}

/// The line of a level at `depth` whose nodes have keys that read `nodes`.
pub open spec fn level_line(nodes: Seq<Vec<String>>, depth: nat) -> Seq<char> {
    joined(nodes.map_values(|keys: Vec<String>| node_text(texts(keys@))), gap(depth))
}

/// The number of blanks before the line at `depth`, where the line of the
/// deepest level reads `last`: the length of that line in bytes, divided by
/// one more than the depth.
pub open spec fn indent(last: Seq<char>, depth: nat) -> nat {
    (encode_utf8(last).len() as usize) as nat / (depth + 1) as nat
}

/// A string of `n` blanks.
pub fn blanks(n: usize) -> (r: String)
    ensures
        r@ == spaces(n as nat),
{
    let mut r = String::new();
    let mut i: usize = 0;
    while i < n
        invariant
            i <= n,
            r@ == spaces(i as nat),
        decreases n - i,
    {
        r.append(" ");
        i += 1;
        proof {
            reveal_strlit(" ");
            assert(r@ =~= spaces(i as nat));
        }
    }
    r
}

/// The strings `parts`, one after another, with `sep` between each two.
pub fn join(parts: &Vec<String>, sep: &str) -> (r: String)
    ensures
        r@ == joined(texts(parts@), sep@),
{
    let mut r = String::new();
    let mut i: usize = 0;
    while i < parts.len()
        invariant
            i <= parts.len(),
            r@ == joined(texts(parts@).take(i as int), sep@),
        decreases parts.len() - i,
    {
        if i > 0 {
            r.append(sep);
        }
        r.append(parts[i].as_str());
        i += 1;
        proof {
            let all = texts(parts@);
            assert(all.take(i as int).drop_last() =~= all.take(i - 1));
            assert(all.take(i as int).last() == parts[i - 1]@);
            if i == 1 {
                assert(r@ =~= parts[0]@);
            }
        }
    }
    proof {
        assert(texts(parts@).take(parts.len() as int) =~= texts(parts@));
    }
    r
}

/// The text of a node whose keys read `keys`.
pub fn render_node(keys: &Vec<String>) -> (r: String)
    ensures
        r@ == node_text(texts(keys@)),
{
    let mut r = String::new();
    r.append("[");
    let inner = join(keys, ",");
    r.append(inner.as_str());
    r.append("]");
    proof {
        reveal_strlit("[");
        reveal_strlit(",");
        reveal_strlit("]");
        assert("["@ =~= seq!['[']);
        assert(","@ =~= seq![',']);
        assert("]"@ =~= seq![']']);
    }
    r
}

/// The line of the level at `depth`, the root being at depth one, whose
/// nodes have keys that read `nodes`.
pub fn render_level(nodes: &Vec<Vec<String>>, depth: usize) -> (r: String)
    requires
        depth >= 1,
    ensures
        r@ == level_line(nodes@, depth as nat),
{
    let mut rendered: Vec<String> = Vec::new();
    let mut i: usize = 0;
    while i < nodes.len()
        invariant
            i <= nodes.len(),
            rendered.len() == i,
            forall|j: int| 0 <= j < i ==> (#[trigger] rendered[j])@ == node_text(texts(nodes[j]@)),
        decreases nodes.len() - i,
    {
        rendered.push(render_node(&nodes[i]));
        i += 1;
    }
    let between = blanks(3 * (10 / depth));
    proof {
        assert(texts(rendered@) =~= nodes@.map_values(|keys: Vec<String>| node_text(texts(keys@))));
    }
    join(&rendered, between.as_str())
}

/// `lines` are the lines of the picture of the levels `levels`: one for
/// each level, the line of the level behind the blanks that indent it.
pub open spec fn drawn(lines: Seq<String>, levels: Seq<Vec<Vec<String>>>) -> bool {
    &&& lines.len() == levels.len()
    &&& forall|d: int|
        0 <= d < lines.len() ==> (#[trigger] lines[d])@ == spaces(
            indent(level_line(levels.last()@, levels.len() as nat), (d + 1) as nat),
        ) + level_line(levels[d]@, (d + 1) as nat)
}

/// `keys` are texts of the keys of `node`, in order, as `Display` writes them.
pub open spec fn node_spelled<K: Ord + Display, V>(node: Node<K, V>, keys: Vec<String>) -> bool {
    &&& keys.len() == node.items.len()
    &&& forall|i: int|
        0 <= i < keys.len() ==> to_string_from_display_ensures::<K>(
            &node.items[i].key,
            #[trigger] keys[i],
        )
}

/// `row` holds, for each of the `nodes` in order, texts of its keys.
pub open spec fn level_spelled<K: Ord + Display, V>(
    nodes: Seq<Node<K, V>>,
    row: Vec<Vec<String>>,
) -> bool {
    &&& row.len() == nodes.len()
    &&& forall|n: int| 0 <= n < row.len() ==> node_spelled(nodes[n], #[trigger] row[n])
}

/// `written` holds, for each level of the subtree of height `height` below
/// `root`, and each node of the level from left to right, texts of the
/// node's keys.
pub open spec fn tree_spelled<K: Ord + Display, V>(
    root: Node<K, V>,
    written: Seq<Vec<Vec<String>>>,
) -> bool {
    &&& written.len() == root.height() + 1
    &&& forall|d: int|
        0 <= d < written.len() ==> level_spelled(root.level(d as nat), #[trigger] written[d])
}

/// The lines of a picture: for each level, its line behind the blanks
/// that indent it. `levels` holds, for each level from the root down and
/// each node of the level from left to right, the texts of the node's keys.
pub fn layout(levels: &Vec<Vec<Vec<String>>>) -> (lines: Vec<String>)
    requires
        levels.len() < usize::MAX,
    ensures
        drawn(lines@, levels@),
{
    let mut bare: Vec<String> = Vec::new();
    let mut d: usize = 0;
    while d < levels.len()
        invariant
            d <= levels.len(),
            levels.len() < usize::MAX,
            bare.len() == d,
            forall|j: int| 0 <= j < d ==> (#[trigger] bare[j])@ == level_line(levels[j]@, (j + 1) as nat),
        decreases levels.len() - d,
    {
        bare.push(render_level(&levels[d], d + 1));
        d += 1;
    }
    let mut lines: Vec<String> = Vec::new();
    if bare.len() == 0 {
        return lines;
    }
    let widest = bare[bare.len() - 1].as_str().len();
    let mut d: usize = 0;
    while d < bare.len()
        invariant
            d <= bare.len(),
            bare.len() == levels.len(),
            levels.len() < usize::MAX,
            lines.len() == d,
            widest == encode_utf8(level_line(levels@.last()@, levels.len() as nat)).len() as usize,
            forall|j: int|
                0 <= j < bare.len() ==> (#[trigger] bare[j])@ == level_line(
                    levels[j]@,
                    (j + 1) as nat,
                ),
            forall|j: int|
                0 <= j < d ==> (#[trigger] lines[j])@ == spaces(
                    indent(level_line(levels@.last()@, levels.len() as nat), (j + 1) as nat),
                ) + level_line(levels[j]@, (j + 1) as nat),
        decreases bare.len() - d,
    {
        let mut line = blanks(widest / (d + 2));
        line.append(bare[d].as_str());
        lines.push(line);
        d += 1;
    }
    lines
}

impl<K: Ord, V> Node<K, V> {
    /// The children of the nodes `nodes`, from left to right.
    pub open spec fn children_of(nodes: Seq<Self>) -> Seq<Self>
        decreases nodes.len(),
    {
        if nodes.len() == 0 {
            Seq::empty()
        } else {
            Self::children_of(nodes.drop_last()) + nodes.last().children@.map_values(
                |c: Box<Self>| *c,
            )
        }
    }

    /// The nodes that lie `d` levels below this node, from left to right.
    pub open spec fn level(self, d: nat) -> Seq<Self>
        decreases d,
    {
        if d == 0 {
            seq![self]
        } else {
            Self::children_of(self.level((d - 1) as nat))
        }
    }

    /// The nodes of one level of a well-formed subtree have children that
    /// are well formed and one level lower; there are none only below leaves.
    pub proof fn lemma_children_of(nodes: Seq<Self>, h: nat)
        requires
            forall|i: int| 0 <= i < nodes.len() ==> (#[trigger] nodes[i]).well_formed() && nodes[i].height() == h,
        ensures
            forall|i: int|
                0 <= i < Self::children_of(nodes).len() ==> (#[trigger] Self::children_of(
                    nodes,
                )[i]).well_formed() && Self::children_of(nodes)[i].height() + 1 == h,
            h > 0 && nodes.len() > 0 ==> Self::children_of(nodes).len() > 0,
            h == 0 ==> Self::children_of(nodes).len() == 0,
        decreases nodes.len(),
    {
        if nodes.len() > 0 {
            let front = nodes.drop_last();
            let last = nodes.last();
            assert forall|i: int| 0 <= i < front.len() implies (#[trigger] front[i]).well_formed()
                && front[i].height() == h by {
                assert(front[i] == nodes[i]);
            }
            Self::lemma_children_of(front, h);
            assert(last == nodes[nodes.len() - 1]);
            assert(last.well_formed());
            let below = last.children@.map_values(|c: Box<Self>| *c);
            let all = Self::children_of(nodes);
            assert forall|i: int| 0 <= i < all.len() implies (#[trigger] all[i]).well_formed() && all[i].height()
                + 1 == h by {
                if i >= Self::children_of(front).len() {
                    let j = i - Self::children_of(front).len();
                    assert(all[i] == *last.children[j]);
                    assert(last.children[j].well_formed());
                }
            }
        }
    }
}

impl<K: Ord, V> BTree<K, V> {
    /// The nodes of the tree, level by level from the root down, each
    /// level from left to right.
    pub fn levels(&self) -> (r: Vec<Vec<&Node<K, V>>>)
        requires
            self.root.well_formed(),
        ensures
            r.len() == self.height() + 1,
            forall|d: int|
                0 <= d < r.len() ==> (#[trigger] r[d])@.map_values(|n: &Node<K, V>| *n)
                    == self.root.level(d as nat),
    {
        let mut out: Vec<Vec<&Node<K, V>>> = Vec::new();
        let mut current: Vec<&Node<K, V>> = Vec::new();
        current.push(&*self.root);
        proof {
            assert(current@.map_values(|n: &Node<K, V>| *n) =~= self.root.level(0));
        }
        loop
            invariant_except_break
                out.len() <= self.height(),
                current@.map_values(|n: &Node<K, V>| *n) == self.root.level(out.len() as nat),
                current.len() > 0,
                forall|i: int|
                    0 <= i < current.len() ==> (#[trigger] current[i]).well_formed()
                        && current[i].height() + out.len() == self.height(),
            invariant
                self.root.well_formed(),
                forall|d: int|
                    0 <= d < out.len() ==> (#[trigger] out[d])@.map_values(|n: &Node<K, V>| *n)
                        == self.root.level(d as nat),
            ensures
                out.len() == self.height() + 1,
                forall|d: int|
                    0 <= d < out.len() ==> (#[trigger] out[d])@.map_values(|n: &Node<K, V>| *n)
                        == self.root.level(d as nat),
            decreases self.height() - out.len(),
        {
            let ghost here = current@.map_values(|n: &Node<K, V>| *n);
            let ghost h = (self.height() - out.len()) as nat;
            let mut next: Vec<&Node<K, V>> = Vec::new();
            let mut i: usize = 0;
            while i < current.len()
                invariant
                    i <= current.len(),
                    here == current@.map_values(|n: &Node<K, V>| *n),
                    next@.map_values(|n: &Node<K, V>| *n) == Node::children_of(here.take(i as int)),
                decreases current.len() - i,
            {
                let node = current[i];
                let ghost front = next@.map_values(|n: &Node<K, V>| *n);
                let mut j: usize = 0;
                while j < node.children.len()
                    invariant
                        j <= node.children.len(),
                        next@.map_values(|n: &Node<K, V>| *n) == front + node.children@.map_values(
                            |c: Box<Node<K, V>>| *c,
                        ).take(j as int),
                    decreases node.children.len() - j,
                {
                    let ghost so_far = next@;
                    next.push(&*node.children[j]);
                    j += 1;
                    proof {
                        let below = node.children@.map_values(|c: Box<Node<K, V>>| *c);
                        let now = next@.map_values(|n: &Node<K, V>| *n);
                        let goal = front + below.take(j as int);
                        assert(so_far.map_values(|n: &Node<K, V>| *n) == front + below.take(j - 1));
                        assert(now.len() == goal.len());
                        assert forall|i: int| 0 <= i < now.len() implies now[i] == goal[i] by {
                            if i < so_far.len() {
                                assert(next@[i] == so_far[i]);
                                assert(so_far.map_values(|n: &Node<K, V>| *n)[i] == *so_far[i]);
                                assert((front + below.take(j - 1))[i] == goal[i]);
                            } else {
                                assert(now[i] == *node.children[j - 1]);
                                assert(below[j - 1] == *node.children[j - 1]);
                            }
                        }
                        assert(now =~= goal);
                    }
                }
                i += 1;
                proof {
                    let below = node.children@.map_values(|c: Box<Node<K, V>>| *c);
                    assert(below.take(node.children.len() as int) =~= below);
                    assert(here.take(i as int).drop_last() =~= here.take(i - 1));
                    assert(here.take(i as int).last() == *node);
                }
            }
            proof {
                assert(here.take(current.len() as int) =~= here);
                assert forall|i: int| 0 <= i < here.len() implies (#[trigger] here[i]).well_formed()
                    && here[i].height() == h by {
                    assert(here[i] == *current[i]);
                }
                Node::lemma_children_of(here, h);
                let below = Node::children_of(here);
                assert forall|i: int| 0 <= i < next.len() implies (#[trigger] next[i]).well_formed()
                    && next[i].height() + 1 == h by {
                    assert(*next[i] == below[i]);
                }
            }
            out.push(current);
            if next.len() == 0 {
                break ;
            }
            current = next;
        }
        out
    }

    /// The picture of the tree: one line for each level, from the root
    /// down. Every node stands as the list of its keys, as `Display` writes
    /// them, in square brackets; the nodes of a level stand from left to
    /// right, further apart the nearer the level is to the root; and every
    /// line is indented by a share of the width of the last line.
    pub fn dump(&self) -> (lines: Vec<String>) where K: Display
        requires
            self.root.well_formed(),
            self.height() + 1 < usize::MAX,
        ensures
            lines.len() == self.height() + 1,
            exists|written: Seq<Vec<Vec<String>>>|
                tree_spelled(*self.root, written) && #[trigger] drawn(lines@, written),
    {
        let levels = self.levels();
        let mut written: Vec<Vec<Vec<String>>> = Vec::new();
        let mut d: usize = 0;
        while d < levels.len()
            invariant
                d <= levels.len(),
                written.len() == d,
                levels.len() == self.height() + 1,
                forall|e: int|
                    0 <= e < levels.len() ==> (#[trigger] levels[e])@.map_values(|n: &Node<K, V>| *n)
                        == self.root.level(e as nat),
                forall|e: int|
                    0 <= e < d ==> level_spelled(self.root.level(e as nat), #[trigger] written[e]),
            decreases levels.len() - d,
        {
            let ghost nodes = self.root.level(d as nat);
            proof {
                assert(levels[d as int]@.map_values(|n: &Node<K, V>| *n) == nodes);
            }
            let mut row: Vec<Vec<String>> = Vec::new();
            let mut i: usize = 0;
            while i < levels[d].len()
                invariant
                    d < levels.len(),
                    i <= levels[d as int].len(),
                    row.len() == i,
                    levels[d as int]@.map_values(|n: &Node<K, V>| *n) == nodes,
                    forall|n: int| 0 <= n < i ==> node_spelled(nodes[n], #[trigger] row[n]),
                decreases levels[d as int].len() - i,
            {
                let node = levels[d][i];
                proof {
                    assert(levels[d as int]@.map_values(|n: &Node<K, V>| *n)[i as int] == *node);
                }
                let mut keys: Vec<String> = Vec::new();
                let mut j: usize = 0;
                while j < node.items.len()
                    invariant
                        j <= node.items.len(),
                        keys.len() == j,
                        forall|a: int|
                            0 <= a < j ==> to_string_from_display_ensures::<K>(
                                &node.items[a].key,
                                #[trigger] keys[a],
                            ),
                    decreases node.items.len() - j,
                {
                    keys.push(node.items[j].key.to_string());
                    j += 1;
                }
                row.push(keys);
                i += 1;
            }
            written.push(row);
            d += 1;
        }
        let lines = layout(&written);
        proof {
            assert(tree_spelled(*self.root, written@));
            assert(drawn(lines@, written@));
        }
        lines
    }
}

} // verus!
