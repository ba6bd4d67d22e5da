use data_structures::tree::{Node, SequenceTree};

#[test]
fn test_tree_build_from_input() {
    let parents = [4, -1, 4, 1, 1];
    let tree = SequenceTree::from_input(&parents);
    println!("{:?}", tree);
    assert_eq!(tree.height(), 3);
}

#[test]
fn test_tree_build_from_input2() {
    let parents = [9, 7, 5, 5, 2, 9, 9, 9, 2, -1];
    let tree = SequenceTree::from_input(&parents);
    println!("{:?}", tree);
    assert_eq!(tree.height(), 4);
}

#[test]
fn single_node_has_height_one() {
    let tree = SequenceTree::from_input(&[-1]);
    assert_eq!(tree.height(), 1);
}

#[test]
fn chain_is_as_high_as_it_is_long() {
    let tree = SequenceTree::from_input(&[-1, 0, 1, 2, 3]);
    assert_eq!(tree.height(), 5);
    let tree = SequenceTree::from_input(&[1, 2, 3, 4, -1]);
    assert_eq!(tree.height(), 5);
}

#[test]
fn star_has_height_two() {
    let tree = SequenceTree::from_input(&[2, 2, -1, 2, 2]);
    assert_eq!(tree.height(), 2);
}

#[test]
fn the_last_root_is_the_root() {
    let tree = SequenceTree::from_input(&[-1, 0, 1, -1]);
    assert_eq!(tree.height(), 1);
    let tree = SequenceTree::from_input(&[-1, -1, 1, 2]);
    assert_eq!(tree.height(), 3);
}

#[test]
fn children_are_kept_in_input_order() {
    let tree = SequenceTree::from_input(&[3, 3, 3, -1]);
    let shown = format!("{:?}", tree);
    assert!(shown.contains("children: [0, 1, 2]"));
    assert!(shown.contains("root: 3"));
}

#[test]
fn tree_from_nodes() {
    let mut root = Node::new("root");
    root.add_child(1);
    root.add_child(2);
    let mut inner = Node::new("inner");
    inner.add_child(3);
    let nodes = vec![root, inner, Node::new("leaf"), Node::new("deep")];
    assert_eq!(nodes[2].height(&nodes), 1);
    assert_eq!(nodes[1].height(&nodes), 2);
    assert_eq!(nodes[0].height(&nodes), 3);
    let tree = SequenceTree::new(nodes, 0);
    assert_eq!(tree.height(), 3);
}
