use btree::dump::{blanks, join, layout, render_level, render_node};
use btree::node::{Item, Node};
use btree::tree::BTree;

fn strings(words: &[&str]) -> Vec<String> {
    words.iter().map(|w| w.to_string()).collect()
}

fn scenario_tree() -> BTree<i32, &'static str> {
    let mut tree = BTree::new(2);
    for key in [7, 23, 67, 89, 45, 78, 34, 91, 56, 16, 47, 81] {
        tree.insert(Item { key, value: "" });
    }
    tree
}

#[test]
fn blanks_gives_that_many_spaces() {
    assert_eq!(blanks(0), "");
    assert_eq!(blanks(1), " ");
    assert_eq!(blanks(5), "     ");
}

#[test]
fn join_puts_the_separator_between_the_parts() {
    assert_eq!(join(&strings(&[]), ","), "");
    assert_eq!(join(&strings(&["a"]), ","), "a");
    assert_eq!(join(&strings(&["a", "b", "c"]), ", "), "a, b, c");
    assert_eq!(join(&strings(&["", ""]), "-"), "-");
}

#[test]
fn render_node_brackets_the_keys() {
    assert_eq!(render_node(&strings(&[])), "[]");
    assert_eq!(render_node(&strings(&["7"])), "[7]");
    assert_eq!(render_node(&strings(&["67", "89"])), "[67,89]");
}

#[test]
fn render_level_spreads_the_nodes_by_depth() {
    let nodes = vec![strings(&["23"]), strings(&["67", "89"])];
    assert_eq!(render_level(&nodes, 1), format!("[23]{}[67,89]", " ".repeat(30)));
    assert_eq!(render_level(&nodes, 2), format!("[23]{}[67,89]", " ".repeat(15)));
    assert_eq!(render_level(&nodes, 3), format!("[23]{}[67,89]", " ".repeat(9)));
    assert_eq!(render_level(&nodes, 10), "[23]   [67,89]");
    assert_eq!(render_level(&nodes, 11), "[23][67,89]");
    assert_eq!(render_level(&vec![], 1), "");
}

#[test]
fn layout_indents_by_a_share_of_the_last_line() {
    assert!(layout(&vec![]).is_empty());
    let levels = vec![
        vec![strings(&["45"])],
        vec![strings(&["23"]), strings(&["67", "89"])],
    ];
    // the last line is 4 + 15 + 7 = 26 bytes wide
    assert_eq!(
        layout(&levels),
        vec![
            format!("{}[45]", " ".repeat(13)),
            format!("{}[23]{}[67,89]", " ".repeat(8), " ".repeat(15)),
        ]
    );
    // the width counts bytes, not characters
    let wide = vec![vec![strings(&["é"])]];
    assert_eq!(layout(&wide), vec!["  [é]".to_string()]);
}

#[test]
fn levels_lists_the_nodes_from_the_root_down() {
    let tree = scenario_tree();
    let levels = tree.levels();
    let keys: Vec<Vec<Vec<i32>>> = levels
        .iter()
        .map(|level| level.iter().map(|n| n.items.iter().map(|i| i.key).collect()).collect())
        .collect();
    assert_eq!(
        keys,
        vec![
            vec![vec![45]],
            vec![vec![23], vec![67, 89]],
            vec![vec![7, 16], vec![34], vec![47, 56], vec![78, 81], vec![91]],
        ]
    );
    let empty: BTree<i32, i32> = BTree { root: Box::new(Node::new(2)) };
    assert_eq!(empty.levels().len(), 1);
    assert!(empty.levels()[0][0].items.is_empty());
}

#[test]
fn dump_draws_the_scenario_tree() {
    let tree = scenario_tree();
    let nine = " ".repeat(9);
    assert_eq!(
        tree.dump(),
        vec![
            format!("{}[45]", " ".repeat(32)),
            format!("{}[23]{}[67,89]", " ".repeat(21), " ".repeat(15)),
            format!("{}[7,16]{n}[34]{n}[47,56]{n}[78,81]{n}[91]", " ".repeat(16), n = nine),
        ]
    );
    let empty: BTree<i32, i32> = BTree::new(2);
    assert_eq!(empty.dump(), vec![" []".to_string()]);
}
