use btree::node::{Item, Node};
use btree::order::{compare_keys, KeyOrder};
use btree::rules::{BTreeRules, NODE_DEGREE};
use btree::tree::BTree;
use std::collections::BTreeMap;

/// Checks every structural invariant below `node` and returns the depth of
/// its leaves.
fn check_node(
    node: &Node<u32, u32>,
    rules: &BTreeRules,
    is_root: bool,
    low: Option<u32>,
    high: Option<u32>,
) -> usize {
    assert_eq!(node.num_items, node.items.len());
    assert_eq!(node.num_children, node.children.len());
    assert_eq!(node.rules.degree, rules.degree);
    assert_eq!(node.rules.maxkeys, rules.maxkeys);
    assert!(node.items.len() <= rules.maxkeys);
    if !is_root {
        assert!(node.items.len() >= rules.minkeys);
    }
    for pair in node.items.windows(2) {
        assert!(pair[0].key < pair[1].key);
    }
    for item in &node.items {
        assert!(low.map_or(true, |l| l < item.key));
        assert!(high.map_or(true, |h| item.key < h));
    }
    if node.children.is_empty() {
        return 0;
    }
    assert_eq!(node.children.len(), node.items.len() + 1);
    let mut depths = Vec::new();
    for (i, child) in node.children.iter().enumerate() {
        let l = if i == 0 { low } else { Some(node.items[i - 1].key) };
        let h = if i == node.items.len() { high } else { Some(node.items[i].key) };
        depths.push(check_node(child, rules, false, l, h));
    }
    for d in &depths {
        assert_eq!(*d, depths[0]);
    }
    depths[0] + 1
}

fn check_tree(tree: &BTree<u32, u32>) -> usize {
    let rules = tree.root.rules;
    assert!(tree.root.children.is_empty() || !tree.root.items.is_empty());
    check_node(&tree.root, &rules, true, None, None)
}

fn collect(node: &Node<u32, u32>, out: &mut Vec<(u32, u32)>) {
    for (i, item) in node.items.iter().enumerate() {
        if !node.children.is_empty() {
            collect(&node.children[i], out);
        }
        out.push((item.key, item.value));
    }
    if let Some(last) = node.children.last() {
        collect(last, out);
    }
}

fn pairs(tree: &BTree<u32, u32>) -> Vec<(u32, u32)> {
    let mut out = Vec::new();
    collect(&tree.root, &mut out);
    out
}

fn shape(node: &Node<u32, u32>) -> Vec<Vec<u32>> {
    let mut out = vec![node.items.iter().map(|i| i.key).collect::<Vec<u32>>()];
    for child in &node.children {
        out.push(vec![u32::MAX]);
        out.extend(shape(child));
        out.push(vec![u32::MAX - 1]);
    }
    out
}

fn item(key: u32, value: u32) -> Item<u32, u32> {
    Item { key, value }
}

fn tree_of(degree: usize, keys: &[u32]) -> BTree<u32, u32> {
    let mut tree = BTree::new(degree);
    for k in keys {
        tree.insert(item(*k, *k * 10));
    }
    tree
}

/// A small generator of numbers, the same on every run.
fn next(state: &mut u64) -> u32 {
    *state = state.wrapping_mul(6364136223846793005).wrapping_add(1442695040888963407);
    (*state >> 33) as u32
}

#[test]
fn rules_follow_from_the_degree() {
    let rules = BTreeRules::new(2);
    assert_eq!(
        (rules.maxkeys, rules.maxchildren, rules.minkeys, rules.minchildren, rules.degree),
        (3, 4, 1, 2, 2)
    );
    let rules = BTreeRules::new(5);
    assert_eq!(
        (rules.maxkeys, rules.maxchildren, rules.minkeys, rules.minchildren, rules.degree),
        (9, 10, 4, 5, 5)
    );
    assert_eq!(NODE_DEGREE, 2);
}

#[test]
fn new_node_is_an_empty_leaf() {
    let node: Node<u32, u32> = Node::new(3);
    assert!(node.items.is_empty());
    assert!(node.children.is_empty());
    assert_eq!((node.num_items, node.num_children), (0, 0));
    assert_eq!(node.rules.maxkeys, 5);
    assert!(node.leaf());
    assert!(node.insertable());
    assert!(!node.enough());
}

#[test]
fn new_tree_is_empty() {
    let tree: BTree<u32, u32> = BTree::new(2);
    assert_eq!(check_tree(&tree), 0);
    assert_eq!(tree.find(item(1, 0)), (0, false));
    assert_eq!(tree.get(&1), None);
    assert!(pairs(&tree).is_empty());
}

#[test]
fn compare_keys_tells_the_three_cases_apart() {
    assert!(matches!(compare_keys(&1, &2), KeyOrder::Below));
    assert!(matches!(compare_keys(&2, &2), KeyOrder::Same));
    assert!(matches!(compare_keys(&3, &2), KeyOrder::Above));
    assert!(matches!(compare_keys(&"a", &"b"), KeyOrder::Below));
}

#[test]
fn search_returns_the_index_or_the_place() {
    let mut node: Node<u32, u32> = Node::new(3);
    for k in [10, 20, 30, 40] {
        node.insert(item(k, k));
    }
    assert_eq!(node.search(&10), (0, true));
    assert_eq!(node.search(&40), (3, true));
    assert_eq!(node.search(&5), (0, false));
    assert_eq!(node.search(&25), (2, false));
    assert_eq!(node.search(&45), (4, false));
    assert_eq!(node.binary_search(&item(30, 0)), (2, true));
    assert_eq!(node.binary_search(&item(31, 0)), (3, false));
    let empty: Node<u32, u32> = Node::new(2);
    assert_eq!(empty.search(&1), (0, false));
}

#[test]
fn occupancy_predicates_read_the_counters() {
    let mut node: Node<u32, u32> = Node::new(2);
    node.insert(item(1, 1));
    assert!(node.insertable() && !node.enough() && node.leaf());
    node.insert(item(2, 2));
    assert!(node.insertable() && node.enough());
    node.insert(item(3, 3));
    assert!(!node.insertable() && node.enough());
}

#[test]
fn split_parts_a_full_leaf_around_its_median() {
    let mut node: Node<u32, u32> = Node::new(3);
    for k in [1, 2, 3, 4, 5] {
        node.insert(item(k, k + 100));
    }
    let (median, right) = node.split();
    assert_eq!((median.key, median.value), (3, 103));
    assert_eq!(node.items.iter().map(|i| i.key).collect::<Vec<u32>>(), vec![1, 2]);
    assert_eq!(right.items.iter().map(|i| i.key).collect::<Vec<u32>>(), vec![4, 5]);
    assert_eq!((node.num_items, right.num_items), (2, 2));
    assert!(node.children.is_empty() && right.children.is_empty());
    assert_eq!(right.rules.degree, 3);
}

#[test]
fn split_parts_the_children_of_a_full_internal_node() {
    let mut tree = tree_of(2, &[10, 20, 30, 40, 50, 60, 70, 80, 90, 100]);
    check_tree(&tree);
    // fill the root
    let mut k = 101;
    while tree.root.items.len() < 3 {
        tree.insert(item(k, 0));
        k += 1;
    }
    check_tree(&tree);
    let before = pairs(&tree);
    let children_before = tree.root.children.len();
    assert_eq!(children_before, 4);
    let second_key = tree.root.items[1].key;
    let (median, right) = tree.root.split();
    assert_eq!(median.key, second_key);
    assert_eq!((tree.root.items.len(), right.items.len()), (1, 1));
    assert_eq!((tree.root.children.len(), right.children.len()), (2, 2));
    assert_eq!((tree.root.num_children, right.num_children), (2, 2));
    let mut after = Vec::new();
    collect(&tree.root, &mut after);
    after.push((median.key, median.value));
    collect(&right, &mut after);
    assert_eq!(after, before);
}

#[test]
fn root_split_raises_the_tree() {
    let mut tree = tree_of(2, &[1, 2, 3]);
    assert_eq!(check_tree(&tree), 0);
    tree.root_split();
    assert_eq!(check_tree(&tree), 1);
    assert_eq!(tree.root.items.iter().map(|i| i.key).collect::<Vec<_>>(), vec![2]);
    assert_eq!(tree.root.children.len(), 2);
    assert_eq!(tree.root.children[0].items.iter().map(|i| i.key).collect::<Vec<_>>(), vec![1]);
    assert_eq!(tree.root.children[1].items.iter().map(|i| i.key).collect::<Vec<_>>(), vec![3]);
    assert_eq!((tree.root.num_items, tree.root.num_children), (1, 2));
    assert_eq!(pairs(&tree), vec![(1, 10), (2, 20), (3, 30)]);
}

#[test]
fn insert_reports_new_keys_and_overwrites() {
    let mut tree: BTree<u32, u32> = BTree::new(2);
    assert!(tree.insert(item(5, 50)));
    assert!(tree.insert(item(3, 30)));
    assert!(!tree.insert(item(5, 51)));
    assert_eq!(tree.get(&5), Some(&51));
    assert_eq!(tree.get(&3), Some(&30));
    assert_eq!(pairs(&tree), vec![(3, 30), (5, 51)]);
}

/// Whether a full node lies on the way from the root to `key`, the node
/// that holds `key` not counted unless it is the root.
fn full_node_on_way(tree: &BTree<u32, u32>, key: u32) -> bool {
    let mut node: &Node<u32, u32> = &tree.root;
    if node.items.len() == node.rules.maxkeys {
        return true;
    }
    loop {
        let (position, found) = node.search(&key);
        if found || node.children.is_empty() {
            return false;
        }
        node = &node.children[position];
        if node.items.len() == node.rules.maxkeys {
            return true;
        }
    }
}

#[test]
fn overwrite_keeps_shape_and_count() {
    let keys = [50, 20, 80, 10, 30, 60, 90, 40, 70, 5, 15, 25, 35];
    let mut kept = 0;
    let mut split = 0;
    for key in keys {
        let mut tree = tree_of(3, &keys);
        check_tree(&tree);
        let before = shape(&tree.root);
        let count = pairs(&tree).len();
        let splits = full_node_on_way(&tree, key);
        assert!(!tree.insert(item(key, 7)));
        check_tree(&tree);
        assert_eq!(pairs(&tree).len(), count);
        assert_eq!(tree.get(&key), Some(&7));
        if splits {
            assert!(shape(&tree.root) != before);
            split += 1;
        } else {
            assert_eq!(shape(&tree.root), before);
            kept += 1;
        }
    }
    assert!(kept > 0 && split > 0);
}

#[test]
fn overwrite_below_a_full_root_splits_the_root() {
    let mut tree = tree_of(2, &[1, 2, 3]);
    assert_eq!(tree.root.items.len(), 3);
    assert!(!tree.insert(item(1, 99)));
    assert_eq!(check_tree(&tree), 1);
    assert_eq!(pairs(&tree), vec![(1, 99), (2, 20), (3, 30)]);
}

#[test]
fn key_equal_to_the_promoted_median_is_overwritten_in_the_parent() {
    // root [20] over the leaves [10] and [30, 40, 50]
    let mut tree = tree_of(2, &[10, 20, 30, 40, 50]);
    assert_eq!(shape(&tree.root)[0], vec![20]);
    assert_eq!(tree.root.children[1].items.len(), 3);
    // 40 is the median of the full leaf that the insertion is about to enter
    assert!(!tree.insert(item(40, 1)));
    check_tree(&tree);
    assert_eq!(tree.root.items.iter().map(|i| (i.key, i.value)).collect::<Vec<_>>(), vec![(20, 200), (40, 1)]);
    assert_eq!(pairs(&tree), vec![(10, 100), (20, 200), (30, 300), (40, 1), (50, 500)]);
    assert_eq!(tree.find(item(40, 0)), (1, true));
}

#[test]
fn key_above_the_promoted_median_goes_right() {
    let mut tree = tree_of(2, &[10, 20, 30, 40, 50]);
    assert!(tree.insert(item(45, 1)));
    check_tree(&tree);
    assert_eq!(tree.root.items.iter().map(|i| i.key).collect::<Vec<_>>(), vec![20, 40]);
    assert_eq!(tree.root.children[2].items.iter().map(|i| i.key).collect::<Vec<_>>(), vec![45, 50]);
    let mut tree = tree_of(2, &[10, 20, 30, 40, 50]);
    assert!(tree.insert(item(35, 1)));
    check_tree(&tree);
    assert_eq!(tree.root.children[1].items.iter().map(|i| i.key).collect::<Vec<_>>(), vec![30, 35]);
}

#[test]
fn split_child_moves_the_median_up() {
    let mut tree = tree_of(2, &[10, 20, 30, 40, 50]);
    assert!(tree.root.splittable_child(1));
    assert!(!tree.root.splittable_child(0));
    let before = pairs(&tree);
    tree.root.split_child(1);
    check_tree(&tree);
    assert_eq!(tree.root.items.iter().map(|i| i.key).collect::<Vec<_>>(), vec![20, 40]);
    assert_eq!(tree.root.children.len(), 3);
    assert_eq!(tree.root.num_children, 3);
    assert_eq!(pairs(&tree), before);
}

#[test]
fn delete_of_an_absent_key_changes_nothing() {
    let mut tree = tree_of(2, &[50, 20, 80, 10, 30, 60, 90, 40, 70, 5, 15, 25, 35]);
    let before_shape = shape(&tree.root);
    let before_pairs = pairs(&tree);
    for key in [0, 1, 33, 55, 1000] {
        tree.delete(item(key, 0));
        assert_eq!(shape(&tree.root), before_shape);
        assert_eq!(pairs(&tree), before_pairs);
    }
    let mut empty: BTree<u32, u32> = BTree::new(2);
    empty.delete(item(1, 1));
    assert!(pairs(&empty).is_empty());
}

#[test]
fn insert_then_find_then_delete_then_find() {
    let mut tree = tree_of(2, &[8, 3, 5, 1, 9, 2, 7]);
    assert_eq!(tree.find(item(6, 0)).1, false);
    assert!(tree.insert(item(6, 60)));
    let (index, found) = tree.find(item(6, 0));
    assert!(found);
    assert!(index < 3);
    tree.delete(item(6, 0));
    assert_eq!(tree.find(item(6, 0)).1, false);
    assert_eq!(pairs(&tree).iter().map(|p| p.0).collect::<Vec<_>>(), vec![1, 2, 3, 5, 7, 8, 9]);
}

#[test]
fn delete_last_key_leaves_an_empty_leaf_root() {
    let mut tree = tree_of(2, &[4]);
    tree.delete(item(4, 0));
    assert_eq!(check_tree(&tree), 0);
    assert!(tree.root.items.is_empty());
    assert_eq!(tree.root.num_items, 0);
}

#[test]
fn merge_at_the_root_lowers_the_tree() {
    // root [20] over [10] and [30]
    let mut tree = tree_of(2, &[10, 20, 30, 40]);
    tree.delete(item(40, 0));
    assert_eq!(check_tree(&tree), 1);
    assert_eq!(shape(&tree.root)[0], vec![20]);
    tree.delete(item(10, 0));
    assert_eq!(check_tree(&tree), 0);
    assert_eq!(pairs(&tree), vec![(20, 200), (30, 300)]);
    assert_eq!(tree.root.num_children, 0);
}

#[test]
fn node_delete_of_an_absent_key_takes_the_last_item_of_the_leaf() {
    let mut tree = tree_of(2, &[10, 20, 30, 40, 50]);
    // root [20] over [10] and [30, 40, 50]; 35 belongs in the right leaf
    let taken = tree.root.delete(item(35, 0));
    let taken = taken.expect("an item is handed up");
    assert_eq!((taken.key, taken.value), (50, 500));
    check_tree(&tree);
    assert_eq!(pairs(&tree), vec![(10, 100), (20, 200), (30, 300), (40, 400)]);
    let mut leaf: Node<u32, u32> = Node::new(2);
    assert!(leaf.delete(item(1, 1)).is_none());
    leaf.insert(item(2, 2));
    assert!(leaf.delete(item(2, 0)).is_none());
    assert!(leaf.items.is_empty());
}

#[test]
fn make_enough_leaves_a_child_with_items_to_spare_alone() {
    let mut tree = tree_of(2, &[10, 20, 30, 40, 50]);
    let before = shape(&tree.root);
    assert_eq!(tree.root.make_enough(1), 1);
    assert_eq!(shape(&tree.root), before);
}

#[test]
fn make_enough_borrows_from_the_right_sibling() {
    // root [20] over [10] and [30, 40, 50]
    let mut tree = tree_of(2, &[10, 20, 30, 40, 50]);
    assert_eq!(tree.root.make_enough(0), 0);
    check_tree(&tree);
    assert_eq!(tree.root.items.iter().map(|i| i.key).collect::<Vec<_>>(), vec![30]);
    assert_eq!(tree.root.children[0].items.iter().map(|i| i.key).collect::<Vec<_>>(), vec![10, 20]);
    assert_eq!(tree.root.children[1].items.iter().map(|i| i.key).collect::<Vec<_>>(), vec![40, 50]);
    assert_eq!((tree.root.children[0].num_items, tree.root.children[1].num_items), (2, 2));
}

#[test]
fn make_enough_borrows_from_the_left_sibling_for_the_last_child() {
    // root [30] over [10, 20] and [40]
    let mut tree = tree_of(2, &[30, 40, 50, 20, 10]);
    tree.delete(item(50, 0));
    assert_eq!(shape(&tree.root)[0], vec![30]);
    assert_eq!(tree.root.children[0].items.len(), 2);
    assert_eq!(tree.root.children[1].items.len(), 1);
    assert_eq!(tree.root.make_enough(1), 1);
    check_tree(&tree);
    assert_eq!(tree.root.items.iter().map(|i| i.key).collect::<Vec<_>>(), vec![20]);
    assert_eq!(tree.root.children[0].items.iter().map(|i| i.key).collect::<Vec<_>>(), vec![10]);
    assert_eq!(tree.root.children[1].items.iter().map(|i| i.key).collect::<Vec<_>>(), vec![30, 40]);
}

#[test]
fn make_enough_merges_with_the_left_sibling_and_corrects_the_index() {
    // root [20, 40] over [10], [30], [50]
    let mut tree = tree_of(2, &[10, 20, 30, 40, 50, 60]);
    tree.delete(item(60, 0));
    assert_eq!(shape(&tree.root)[0], vec![20, 40]);
    let before = pairs(&tree);
    assert_eq!(tree.root.make_enough(2), 1);
    check_tree(&tree);
    assert_eq!(tree.root.items.iter().map(|i| i.key).collect::<Vec<_>>(), vec![20]);
    assert_eq!(tree.root.children.len(), 2);
    assert_eq!(tree.root.children[1].items.iter().map(|i| i.key).collect::<Vec<_>>(), vec![30, 40, 50]);
    assert_eq!(pairs(&tree), before);
}

#[test]
fn merge_and_swap_move_items_through_the_parent() {
    let mut tree = tree_of(2, &[10, 20, 30, 40, 50, 60]);
    tree.delete(item(60, 0));
    // root [20, 40] over [10], [30], [50]
    tree.root.merge(0, 1);
    check_tree(&tree);
    assert_eq!(tree.root.items.iter().map(|i| i.key).collect::<Vec<_>>(), vec![40]);
    assert_eq!(tree.root.children[0].items.iter().map(|i| i.key).collect::<Vec<_>>(), vec![10, 20, 30]);
    assert_eq!(tree.root.num_items, 1);
    assert_eq!(tree.root.num_children, 2);
    // root [40] over [10, 20, 30] and [50]
    assert_eq!(tree.root.swap(1, 0), 1);
    check_tree(&tree);
    assert_eq!(tree.root.items.iter().map(|i| i.key).collect::<Vec<_>>(), vec![30]);
    assert_eq!(tree.root.children[1].items.iter().map(|i| i.key).collect::<Vec<_>>(), vec![40, 50]);
    assert_eq!(tree.root.swap(0, 1), 0);
    check_tree(&tree);
    assert_eq!(tree.root.items.iter().map(|i| i.key).collect::<Vec<_>>(), vec![40]);
    assert_eq!(tree.root.children[0].items.iter().map(|i| i.key).collect::<Vec<_>>(), vec![10, 20, 30]);
    assert_eq!(tree.root.children[1].items.iter().map(|i| i.key).collect::<Vec<_>>(), vec![50]);
}

#[test]
fn borrowing_between_internal_nodes_moves_a_subtree_across() {
    let keys: Vec<u32> = (1..=40).collect();
    let mut tree = tree_of(2, &keys);
    assert!(check_tree(&tree) >= 2);
    let before = pairs(&tree);
    let last = tree.root.children.len() - 1;
    let r = tree.root.make_enough(last);
    assert!(tree.root.children[r].items.len() >= 2);
    let rules = tree.root.rules;
    check_node(&tree.root, &rules, true, None, None);
    assert_eq!(pairs(&tree), before);
    let r = tree.root.make_enough(0);
    assert!(tree.root.children[r].items.len() >= 2);
    check_node(&tree.root, &rules, true, None, None);
    assert_eq!(pairs(&tree), before);
}

#[test]
fn many_operations_agree_with_a_map_and_keep_the_invariants() {
    for degree in [2usize, 3, 4, 7] {
        let mut state = 0x5eed_0000_u64 + degree as u64;
        let mut tree: BTree<u32, u32> = BTree::new(degree);
        let mut model: BTreeMap<u32, u32> = BTreeMap::new();
        for step in 0..4000u32 {
            let key = next(&mut state) % 200;
            let grow = step < 1500 || (step >= 3000 && next(&mut state) % 2 == 0);
            if grow {
                let fresh = tree.insert(item(key, step));
                assert_eq!(fresh, model.insert(key, step).is_none());
            } else {
                tree.delete(item(key, 0));
                model.remove(&key);
            }
            if step % 37 == 0 || model.len() < 8 {
                check_tree(&tree);
                assert_eq!(pairs(&tree), model.iter().map(|(k, v)| (*k, *v)).collect::<Vec<_>>());
            }
            assert_eq!(tree.get(&key), model.get(&key));
            assert_eq!(tree.find(item(key, 0)).1, model.contains_key(&key));
        }
        let keys: Vec<u32> = model.keys().cloned().collect();
        for key in keys {
            tree.delete(item(key, 0));
            check_tree(&tree);
        }
        assert!(pairs(&tree).is_empty());
        assert_eq!(check_tree(&tree), 0);
    }
}

#[test]
fn ascending_and_descending_runs_stay_balanced() {
    let up: Vec<u32> = (0..500).collect();
    let down: Vec<u32> = (0..500).rev().collect();
    for keys in [up, down] {
        let mut tree = tree_of(2, &keys);
        let height = check_tree(&tree);
        assert!(height >= 4 && height <= 9);
        assert_eq!(pairs(&tree).len(), 500);
        for k in &keys {
            tree.delete(item(*k, 0));
            check_tree(&tree);
            assert_eq!(tree.get(k), None);
        }
        assert!(tree.root.items.is_empty());
    }
}

#[test]
fn keys_of_other_ordered_types_work() {
    let mut tree: BTree<String, usize> = BTree::new(2);
    for word in ["pear", "apple", "fig", "plum", "kiwi", "date", "lime"] {
        assert!(tree.insert(Item { key: word.to_string(), value: word.len() }));
    }
    assert_eq!(tree.get(&"kiwi".to_string()), Some(&4));
    tree.delete(Item { key: "fig".to_string(), value: 0 });
    assert_eq!(tree.get(&"fig".to_string()), None);
    assert_eq!(tree.get(&"apple".to_string()), Some(&5));
    let mut tuples: BTree<(u8, i64), ()> = BTree::new(3);
    for a in 0..5u8 {
        for b in -3..3i64 {
            tuples.insert(Item { key: (a, b), value: () });
        }
    }
    assert_eq!(tuples.find(Item { key: (4, 2), value: () }).1, true);
    assert_eq!(tuples.find(Item { key: (4, 3), value: () }).1, false);
}

fn roomy(node: &Node<u32, u32>) -> bool {
    node.items.len() < node.rules.maxkeys && node.children.iter().all(|c| roomy(c))
}

#[test]
fn insert_reactive_splits_after_the_fact() {
    let mut leaf: Node<u32, u32> = Node::new(2);
    assert!(leaf.insert_reactive(item(10, 1)).is_none());
    assert!(leaf.insert_reactive(item(30, 3)).is_none());
    assert!(leaf.insert_reactive(item(10, 5)).is_none());
    assert_eq!(leaf.items.iter().map(|i| (i.key, i.value)).collect::<Vec<_>>(), vec![(10, 5), (30, 3)]);
    // the third key fills the leaf, which is split at once
    let (median, right) = leaf.insert_reactive(item(20, 2)).expect("the leaf is split");
    assert_eq!((median.key, median.value), (20, 2));
    assert_eq!(leaf.items.iter().map(|i| i.key).collect::<Vec<_>>(), vec![10]);
    assert_eq!(right.items.iter().map(|i| i.key).collect::<Vec<_>>(), vec![30]);
    assert_eq!((leaf.num_items, right.num_items), (1, 1));
}

#[test]
fn insert_reactive_grows_a_tree_without_full_nodes() {
    for degree in [2usize, 3, 5] {
        let mut state = 77 + degree as u64;
        let mut tree: BTree<u32, u32> = BTree::new(degree);
        let mut model: BTreeMap<u32, u32> = BTreeMap::new();
        for step in 0..1500u32 {
            let key = next(&mut state) % 400;
            tree.insert_reactive(item(key, step));
            model.insert(key, step);
            check_tree(&tree);
            assert!(roomy(&tree.root));
            assert_eq!(tree.get(&key), Some(&step));
        }
        assert_eq!(pairs(&tree), model.iter().map(|(k, v)| (*k, *v)).collect::<Vec<_>>());
    }
}

#[test]
fn insert_reactive_raises_the_root() {
    let mut tree: BTree<u32, u32> = BTree::new(2);
    for k in [1, 2] {
        tree.insert_reactive(item(k, k));
    }
    assert_eq!(check_tree(&tree), 0);
    tree.insert_reactive(item(3, 3));
    assert_eq!(check_tree(&tree), 1);
    assert_eq!(tree.root.items.iter().map(|i| i.key).collect::<Vec<_>>(), vec![2]);
    assert_eq!(tree.root.children[0].items.iter().map(|i| i.key).collect::<Vec<_>>(), vec![1]);
    assert_eq!(tree.root.children[1].items.iter().map(|i| i.key).collect::<Vec<_>>(), vec![3]);
}

#[test]
fn grow_puts_a_root_above_two_nodes() {
    let mut tree = tree_of(2, &[1, 2]);
    let mut right: Node<u32, u32> = Node::new(2);
    right.insert(item(8, 80));
    right.insert(item(9, 90));
    tree.grow(item(5, 50), right);
    assert_eq!(check_tree(&tree), 1);
    assert_eq!(pairs(&tree), vec![(1, 10), (2, 20), (5, 50), (8, 80), (9, 90)]);
    assert_eq!((tree.root.num_items, tree.root.num_children), (1, 2));
}

#[test]
fn locate_gives_the_last_index_and_flag() {
    let tree = tree_of(2, &[10, 20, 30, 40, 50]);
    // root [20] over [10] and [30, 40, 50]
    assert_eq!(tree.locate(&20), (0, true));
    assert_eq!(tree.locate(&10), (0, true));
    assert_eq!(tree.locate(&50), (2, true));
    assert_eq!(tree.locate(&5), (0, false));
    assert_eq!(tree.locate(&15), (1, false));
    assert_eq!(tree.locate(&35), (1, false));
    assert_eq!(tree.locate(&60), (3, false));
}

#[test]
fn clone_copies_the_tree_node_for_node() {
    let tree = tree_of(2, &[50, 20, 80, 10, 30, 60, 90, 40, 70]);
    let copy = tree.clone();
    assert_eq!(copy, tree);
    assert_eq!(shape(&copy.root), shape(&tree.root));
    assert_eq!(pairs(&copy), pairs(&tree));
    check_tree(&copy);
    let mut changed = tree.clone();
    changed.insert(item(20, 1));
    assert!(changed != tree);
    assert_eq!(tree.get(&20), Some(&200));
    let node = (*tree.root).clone();
    assert_eq!(node, *tree.root);
}

#[test]
fn deleting_an_absent_key_leaves_an_equal_tree() {
    let mut tree = tree_of(3, &[5, 1, 9, 3, 7, 2, 8, 4, 6, 10, 11, 12]);
    let before = tree.clone();
    tree.delete(item(100, 0));
    tree.delete(item(0, 0));
    assert_eq!(tree, before);
}

#[test]
fn items_and_rules_compare_by_their_fields() {
    assert_eq!(item(1, 2), item(1, 2));
    assert!(item(1, 2) < item(1, 3));
    assert!(item(1, 9) < item(2, 0));
    assert_eq!(BTreeRules::new(4), BTreeRules::new(4));
    assert!(BTreeRules::new(2) < BTreeRules::new(3));
}
