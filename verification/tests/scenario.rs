use btree::node::{Item, Node};
use btree::rules::NODE_DEGREE;
use btree::tree::BTree;

fn setup_test_tree() -> BTree<i32, &'static str> {
    let items = vec![
        Item { key: 23, value: "Nerevar's Ring" },
        Item { key: 67, value: "Vivec's Tears" },
        Item { key: 89, value: "Dwemer Cogwheel" },
        Item { key: 45, value: "Telvanni Bug Musk" },
        Item { key: 78, value: "Kagrenac's Tools" },
        Item { key: 34, value: "Moon Sugar" },
        Item { key: 91, value: "Almalexia's Grace" },
        Item { key: 56, value: "Cliff Racer Plume" },
        Item { key: 16, value: "Nerevarine's Gauntlet" },
        Item { key: 47, value: "Dunmer Ancestor Silk" },
        Item { key: 81, value: "Red Mountain Ash" },
    ];

    // root
    let mut root = Node::new(NODE_DEGREE);
    root.items = vec![Item { key: 7, value: "Daedric Bow" }];
    root.num_items += 1;

    // btree
    let mut btree = BTree { root: Box::new(root) };

    // insert
    for item in items {
        btree.insert(item);
    }

    // output
    for line in btree.dump() {
        println!("{}", line);
        println!();
    }

    btree
}

fn print(btree: &BTree<i32, &'static str>) {
    for line in btree.dump() {
        println!("{}", line);
        println!();
    }
}

/// The keys of every node, level by level, each level from left to right.
fn levels(tree: &BTree<i32, &'static str>) -> Vec<Vec<Vec<i32>>> {
    let mut out = Vec::new();
    let mut level: Vec<&Node<i32, &'static str>> = vec![&*tree.root];
    while !level.is_empty() {
        out.push(level.iter().map(|n| n.items.iter().map(|i| i.key).collect()).collect());
        level = level.iter().flat_map(|n| n.children.iter().map(|c| &**c)).collect();
    }
    out
}

#[test]
fn find_key_simple() {
    let btree = setup_test_tree();

    let item_to_find = Item { key: 81, value: "Red Mountain Ash" };

    let key = btree.find(item_to_find);
    assert_eq!(key, (1, true));
}

#[test]
fn delete_root() {
    let mut btree = setup_test_tree();
    let item_to_delete = Item { key: 7, value: "zonko's" };
    let output = btree.delete(item_to_delete);
    assert_eq!(output, ());
}

#[test]
fn delete_internal() {
    let mut btree = setup_test_tree();
    let item_to_delete = Item { key: 89, value: "Dwemer Cogwheel" };

    let key = btree.find(item_to_delete.clone());
    assert_eq!(key, (1, true));
    print(&btree);

    btree.delete(item_to_delete.clone());

    print(&btree);

    let key = btree.find(item_to_delete);
    assert_eq!(key, (0, false));
}

#[test]
fn delete_leaf() {
    let mut btree = setup_test_tree();
    let item_to_delete = Item { key: 47, value: "Dunmer Ancestor Silk" };
    let key = btree.find(item_to_delete.clone());
    assert_eq!(key, (0, true));
    print(&btree);

    btree.delete(item_to_delete.clone());

    print(&btree);

    let key = btree.find(item_to_delete);
    assert_eq!(key, (0, false));
}

#[test]
fn delete_leaf_at_minimum() {
    let mut btree = setup_test_tree();
    let item_to_delete = Item { key: 34, value: "Moon Sugar" };
    let key = btree.find(item_to_delete.clone());
    assert_eq!(key, (0, true));
    print(&btree);

    btree.delete(item_to_delete.clone());

    print(&btree);
    assert_eq!(btree.find(item_to_delete), (0, false));
}

#[test]
fn scenario_tree_has_the_expected_levels() {
    let btree = setup_test_tree();
    assert_eq!(
        levels(&btree),
        vec![
            vec![vec![45]],
            vec![vec![23], vec![67, 89]],
            vec![vec![7, 16], vec![34], vec![47, 56], vec![78, 81], vec![91]],
        ]
    );
    assert_eq!(btree.find(Item { key: 999, value: "" }), (1, false));
    assert_eq!(btree.get(&81), Some(&"Red Mountain Ash"));
    assert_eq!(btree.get(&999), None);
}

#[test]
fn deleting_an_internal_key_lifts_the_greatest_key_below_it() {
    let mut btree = setup_test_tree();
    btree.delete(Item { key: 89, value: "" });
    assert_eq!(
        levels(&btree),
        vec![
            vec![vec![45]],
            vec![vec![23], vec![67, 81]],
            vec![vec![7, 16], vec![34], vec![47, 56], vec![78], vec![91]],
        ]
    );
    for key in [7, 16, 23, 34, 45, 47, 56, 67, 78, 81, 91] {
        assert!(btree.get(&key).is_some(), "{} was lost", key);
    }
    assert_eq!(btree.get(&89), None);
}

#[test]
fn deleting_from_a_leaf_with_an_item_to_spare_changes_only_the_leaf() {
    let mut btree = setup_test_tree();
    btree.delete(Item { key: 47, value: "" });
    assert_eq!(
        levels(&btree),
        vec![
            vec![vec![45]],
            vec![vec![23], vec![67, 89]],
            vec![vec![7, 16], vec![34], vec![56], vec![78, 81], vec![91]],
        ]
    );
}

#[test]
fn deleting_from_a_thin_leaf_borrows_on_the_way_down() {
    let mut btree = setup_test_tree();
    btree.delete(Item { key: 34, value: "" });
    assert_eq!(
        levels(&btree),
        vec![
            vec![vec![67]],
            vec![vec![23, 47], vec![89]],
            vec![vec![7, 16], vec![45], vec![56], vec![78, 81], vec![91]],
        ]
    );
}

#[test]
fn deleting_the_preset_root_key_keeps_the_other_keys() {
    let mut btree = setup_test_tree();
    btree.delete(Item { key: 7, value: "zonko's" });
    assert_eq!(
        levels(&btree),
        vec![
            vec![vec![67]],
            vec![vec![23, 45], vec![89]],
            vec![vec![16], vec![34], vec![47, 56], vec![78, 81], vec![91]],
        ]
    );
    assert_eq!(btree.find(Item { key: 7, value: "" }), (0, false));
}
