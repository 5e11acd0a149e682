use immutable_tree::ImmutableTree;

fn strings(v: &[&str]) -> Vec<String> {
    v.iter().map(|s| s.to_string()).collect()
}

fn expand_a(v: &String) -> Option<Vec<String>> {
    if v == "a" {
        Some(strings(&["a1", "a2"]))
    } else {
        None
    }
}

fn label(v: &String) -> Result<String, ()> {
    Ok(v.clone())
}

fn drawn(tree: &ImmutableTree<String>) -> String {
    let mut out = String::new();
    tree.print(&mut out, label).unwrap();
    out
}

#[test]
fn new_counts_roots() {
    let tree = ImmutableTree::new(strings(&["x", "y", "z"]));
    assert_eq!(tree.len(), 3);
    assert_eq!(tree.root_count(), 3);
    assert!(!tree.is_empty());
    for i in 0..3 {
        let node = tree.get(i).unwrap();
        assert_eq!(node.idx(), i);
        assert_eq!(node.layer(), 0);
        assert_eq!(node.parent(), None);
        assert_eq!(node.children_anchors(), None);
    }
    assert_eq!(tree.get(1).unwrap().val(), "y");
}

#[test]
fn scenario_one_layer() {
    let mut tree = ImmutableTree::new(strings(&["a", "b"]));
    tree.add_layer(expand_a);
    assert_eq!(tree.len(), 4);
    assert_eq!(tree.root_count(), 2);
    let a1 = tree.get(2).unwrap();
    assert_eq!(a1.val(), "a1");
    assert_eq!(a1.parent(), Some(0));
    assert_eq!(a1.layer(), 1);
    assert_eq!(tree.get(3).unwrap().val(), "a2");
    assert_eq!(tree.get(0).unwrap().children_anchors(), Some((2, 4)));
    assert_eq!(tree.get(1).unwrap().children_anchors(), None);
}

#[test]
fn scenario_empty_roots() {
    let mut tree: ImmutableTree<String> = ImmutableTree::new(Vec::new());
    assert!(tree.is_empty());
    tree.add_layer(|_v: &String| Some(strings(&["never"])));
    assert!(tree.is_empty());
    assert_eq!(tree.len(), 0);
    assert_eq!(tree.root_count(), 0);
}

#[test]
fn new_nodes_take_the_next_indices() {
    let mut tree = ImmutableTree::new(strings(&["p", "q", "r"]));
    tree.add_layer(|v: &String| match v.as_str() {
        "p" => Some(strings(&["p1"])),
        "r" => Some(strings(&["r1", "r2", "r3"])),
        _ => None,
    });
    assert_eq!(tree.len(), 7);
    for i in 3..7 {
        assert_eq!(tree.get(i).unwrap().idx(), i);
        assert_eq!(tree.get(i).unwrap().layer(), 1);
    }
    assert_eq!(tree.get(3).unwrap().parent(), Some(0));
    assert_eq!(tree.get(4).unwrap().parent(), Some(2));
    assert_eq!(tree.get(0).unwrap().children_anchors(), Some((3, 4)));
    assert_eq!(tree.get(1).unwrap().children_anchors(), None);
    assert_eq!(tree.get(2).unwrap().children_anchors(), Some((4, 7)));
}

#[test]
fn only_the_deepest_layer_is_expanded() {
    let mut tree = ImmutableTree::new(strings(&["a", "b"]));
    tree.add_layer(expand_a);
    tree.add_layer(|v: &String| Some(vec![format!("{}x", v)]));
    assert_eq!(tree.len(), 6);
    assert_eq!(tree.get(4).unwrap().val(), "a1x");
    assert_eq!(tree.get(4).unwrap().parent(), Some(2));
    assert_eq!(tree.get(4).unwrap().layer(), 2);
    assert_eq!(tree.get(5).unwrap().val(), "a2x");
    assert_eq!(tree.get(5).unwrap().parent(), Some(3));
    assert_eq!(tree.get(1).unwrap().children_anchors(), None);
}

#[test]
fn empty_expansion_is_a_leaf() {
    let mut tree = ImmutableTree::new(strings(&["a"]));
    tree.add_layer(|_v: &String| Some(Vec::new()));
    assert_eq!(tree.len(), 1);
    assert_eq!(tree.get(0).unwrap().children_anchors(), None);
}

#[test]
fn structure_holds_after_layers() {
    let mut tree = ImmutableTree::new(strings(&["a", "b", "c"]));
    tree.add_layers_recursively(|v: &String| {
        if v.len() < 3 {
            Some(vec![format!("{}0", v), format!("{}1", v)])
        } else {
            None
        }
    });
    assert_eq!(tree.len(), 3 + 6 + 12);
    for node in tree.iter() {
        match node.parent() {
            Some(p) => {
                let parent = tree.get(p).unwrap();
                assert!(p < node.idx());
                assert_eq!(node.layer(), parent.layer() + 1);
            }
            None => assert_eq!(node.layer(), 0),
        }
        if let Some((s, e)) = node.children_anchors() {
            assert!(s < e);
            for i in s..e {
                let child = tree.get(i).unwrap();
                assert_eq!(child.parent(), Some(node.idx()));
                assert_eq!(child.layer(), node.layer() + 1);
            }
        }
    }
}

#[test]
fn recursive_layers_reach_a_fixpoint() {
    let expand = |v: &String| {
        if v.len() < 3 {
            Some(vec![format!("{}.", v)])
        } else {
            None
        }
    };
    let mut tree = ImmutableTree::new(strings(&["a"]));
    tree.add_layers_recursively(expand);
    assert_eq!(tree.len(), 3);
    assert_eq!(tree.get(2).unwrap().val(), "a..");
    assert_eq!(tree.get(2).unwrap().layer(), 2);
    tree.add_layers_recursively(expand);
    assert_eq!(tree.len(), 3);
}

#[test]
fn recursive_layers_on_empty_tree() {
    let mut tree: ImmutableTree<String> = ImmutableTree::new(Vec::new());
    tree.add_layers_recursively(|_v: &String| Some(strings(&["x"])));
    assert!(tree.is_empty());
}

#[test]
fn get_past_the_end_is_none() {
    let mut tree = ImmutableTree::new(strings(&["a", "b"]));
    tree.add_layer(expand_a);
    for i in 0..4 {
        assert!(tree.get(i).is_some());
    }
    assert!(tree.get(4).is_none());
    assert!(tree.get(usize::MAX).is_none());
    let empty: ImmutableTree<String> = ImmutableTree::new(Vec::new());
    assert!(empty.get(0).is_none());
}

#[test]
fn iter_walks_storage_order() {
    let mut tree = ImmutableTree::new(strings(&["a", "b"]));
    tree.add_layer(expand_a);
    let vals: Vec<&String> = tree.iter().map(|n| n.val()).collect();
    assert_eq!(vals, vec!["a", "b", "a1", "a2"]);
    let again: Vec<usize> = tree.iter().map(|n| n.idx()).collect();
    assert_eq!(again, vec![0, 1, 2, 3]);
}

#[test]
fn iter_mut_covers_every_node() {
    let mut tree = ImmutableTree::new(strings(&["a", "b"]));
    tree.add_layer(expand_a);
    let nodes = tree.iter_mut();
    assert_eq!(nodes.len(), 4);
    assert_eq!(nodes[2].val(), "a1");
}

#[test]
fn scenario_single_root_drawing() {
    let tree = ImmutableTree::new(strings(&["x"]));
    let out = drawn(&tree);
    assert_eq!(out, "root\n┗━x\n");
    assert_eq!(out.lines().count(), 2);
    assert!(!out.contains('┃'));
}

#[test]
fn scenario_two_roots_drawing() {
    let mut tree = ImmutableTree::new(strings(&["r1", "r2"]));
    tree.add_layer(|v: &String| {
        if v == "r1" {
            Some(strings(&["c"]))
        } else {
            None
        }
    });
    assert_eq!(drawn(&tree), "root\n┣━r1\n┃ ┗━c\n┗━r2\n");
}

#[test]
fn deeper_drawing() {
    let mut tree = ImmutableTree::new(strings(&["a", "b"]));
    tree.add_layer(expand_a);
    tree.add_layer(|v: &String| {
        if v == "a1" {
            Some(strings(&["x"]))
        } else {
            None
        }
    });
    assert_eq!(drawn(&tree), "root\n┣━a\n┃ ┣━a1\n┃ ┃ ┗━x\n┃ ┗━a2\n┗━b\n");
}

#[test]
fn last_root_children_are_indented_with_spaces() {
    let mut tree = ImmutableTree::new(strings(&["a"]));
    tree.add_layers_recursively(|v: &String| {
        if v.len() < 3 {
            Some(vec![format!("{}1", v), format!("{}2", v)])
        } else {
            None
        }
    });
    assert_eq!(
        drawn(&tree),
        "root\n┗━a\n  ┣━a1\n  ┃ ┣━a11\n  ┃ ┗━a12\n  ┗━a2\n    ┣━a21\n    ┗━a22\n"
    );
}

#[test]
fn empty_tree_drawing() {
    let tree: ImmutableTree<String> = ImmutableTree::new(Vec::new());
    assert_eq!(drawn(&tree), "━━root\nroot\n");
}

#[test]
fn drawing_appends_to_the_sink() {
    let tree = ImmutableTree::new(strings(&["x"]));
    let mut out = String::from("before\n");
    tree.print(&mut out, label).unwrap();
    assert_eq!(out, "before\nroot\n┗━x\n");
}

#[test]
fn drawing_stops_at_the_first_error() {
    let mut tree = ImmutableTree::new(strings(&["a", "b"]));
    tree.add_layer(expand_a);
    let mut out = String::new();
    let cell = std::cell::RefCell::new(Vec::new());
    let r = tree.print(&mut out, |v: &String| {
        cell.borrow_mut().push(v.clone());
        if v == "a2" {
            Err(7u32)
        } else {
            Ok(v.to_uppercase())
        }
    });
    assert_eq!(r, Err(7));
    assert_eq!(out, "root\n┣━A\n┃ ┣━A1\n┃ ┗━");
    assert_eq!(cell.into_inner(), vec!["a", "a1", "a2"]);
}

#[test]
fn print_item_draws_one_subtree() {
    let mut tree = ImmutableTree::new(strings(&["a", "b"]));
    tree.add_layer(expand_a);
    let mut out = String::new();
    let a = tree.get(0).unwrap().clone();
    tree.print_item(&mut out, &a, label, 1).unwrap();
    assert_eq!(out, "┣━a\n┃ ┣━a1\n┃ ┗━a2\n");
    let mut leaf = String::new();
    let a2 = tree.get(3).unwrap().clone();
    tree.print_item(&mut leaf, &a2, label, 2).unwrap();
    assert_eq!(leaf, "┃ ┗━a2\n");
}

#[test]
fn render_with_labels_uses_labels_by_index() {
    let mut tree = ImmutableTree::new(strings(&["a", "b"]));
    tree.add_layer(expand_a);
    let labels = strings(&["zero", "one", "two", "three"]);
    assert_eq!(
        tree.render_with_labels(&labels),
        "root\n┣━zero\n┃ ┣━two\n┃ ┗━three\n┗━one\n"
    );
    let empty: ImmutableTree<String> = ImmutableTree::new(Vec::new());
    assert_eq!(empty.render_with_labels(&Vec::new()), "━━root\nroot\n");
}

#[test]
fn into_iter_yields_nodes_in_order() {
    let mut tree = ImmutableTree::new(strings(&["a", "b"]));
    tree.add_layer(expand_a);
    let nodes: Vec<(String, usize, Option<usize>)> = tree
        .into_iter()
        .map(|n| (n.val().clone(), n.layer(), n.parent()))
        .collect();
    assert_eq!(
        nodes,
        vec![
            ("a".to_string(), 0, None),
            ("b".to_string(), 0, None),
            ("a1".to_string(), 1, Some(0)),
            ("a2".to_string(), 1, Some(0)),
        ]
    );
}

#[test]
fn clones_compare_equal() {
    let mut tree = ImmutableTree::new(strings(&["a", "b"]));
    tree.add_layer(expand_a);
    let copy = tree.clone();
    assert!(copy == tree);
    assert_eq!(copy.get(2), tree.get(2));
}

#[test]
fn recursive_layers_keep_earlier_anchors() {
    let mut tree = ImmutableTree::new(strings(&["a", "b"]));
    tree.add_layer(expand_a);
    tree.add_layers_recursively(|v: &String| {
        if v.len() < 4 {
            Some(vec![format!("{}-", v)])
        } else {
            None
        }
    });
    assert_eq!(tree.get(0).unwrap().children_anchors(), Some((2, 4)));
    assert_eq!(tree.get(1).unwrap().children_anchors(), None);
    assert_eq!(tree.get(2).unwrap().children_anchors(), Some((4, 5)));
    assert_eq!(tree.get(3).unwrap().children_anchors(), Some((5, 6)));
    assert_eq!(tree.get(6).unwrap().val(), "a1--");
    assert_eq!(tree.get(6).unwrap().layer(), 3);
    assert_eq!(tree.len(), 8);
}
