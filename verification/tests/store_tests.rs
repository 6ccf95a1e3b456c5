use mindmap::mind_map::MindMap;

fn store_with_root() -> (MindMap, usize) {
    let mut m = MindMap::new();
    let root = m.create_root("Root".to_string(), 400, 300);
    (m, root)
}

#[test]
fn root_is_present_and_protected() {
    let (mut m, root) = store_with_root();
    assert!(m.get_node(root).is_some());
    assert_eq!(m.delete_node(root), false);
    assert!(m.get_node(root).is_some());
    assert_eq!(m.root_id, Some(root));
}

#[test]
fn root_is_selected_by_default() {
    let (m, root) = store_with_root();
    assert_eq!(m.selected_nodes, vec![root]);
}

#[test]
fn add_child_scenario_regular_tier() {
    let (mut m, root) = store_with_root();
    let a = m.add_child(root, "A".to_string(), 800).expect("parent exists");
    let node = m.get_node(a).expect("child stored");
    assert_eq!((node.x, node.y), (550, 300));
}

#[test]
fn second_child_stacks_asymmetrically() {
    let (mut m, root) = store_with_root();
    let a = m.add_child(root, "A".to_string(), 800).unwrap();
    let b = m.add_child(root, "B".to_string(), 800).unwrap();
    let na = m.get_node(a).unwrap();
    assert_eq!((na.x, na.y), (550, 300));
    let nb = m.get_node(b).unwrap();
    assert_eq!((nb.x, nb.y), (550, 330));
}

#[test]
fn compact_tier_spacing() {
    let mut m = MindMap::new();
    let root = m.create_root("Root".to_string(), 400, 300);
    let a = m.add_child(root, "A".to_string(), 500).unwrap();
    let b = m.add_child(root, "B".to_string(), 500).unwrap();
    let na = m.get_node(a).unwrap();
    assert_eq!((na.x, na.y), (520, 300));
    let nb = m.get_node(b).unwrap();
    assert_eq!((nb.x, nb.y), (520, 325));
}

#[test]
fn add_child_round_trip() {
    let (mut m, root) = store_with_root();
    let a = m.add_child(root, "A".to_string(), 800).unwrap();
    let parent = m.get_node(root).unwrap();
    let occurrences = parent.children.iter().filter(|&&c| c == a).count();
    assert_eq!(occurrences, 1);
    assert!(m.get_node(a).is_some());
}

#[test]
fn add_child_to_missing_parent_is_refused() {
    let (mut m, _root) = store_with_root();
    assert_eq!(m.add_child(999, "X".to_string(), 800), None);
    assert_eq!(m.nodes.len(), 1);
}

#[test]
fn ids_are_never_reused() {
    let (mut m, root) = store_with_root();
    let a = m.add_child(root, "A".to_string(), 800).unwrap();
    assert!(m.delete_node(a));
    let b = m.add_child(root, "B".to_string(), 800).unwrap();
    assert_ne!(a, b);
    assert!(b > a);
}

#[test]
fn delete_twice_second_is_refused() {
    let (mut m, root) = store_with_root();
    let a = m.add_child(root, "A".to_string(), 800).unwrap();
    assert_eq!(m.delete_node(a), true);
    assert_eq!(m.delete_node(a), false);
    assert!(m.get_node(a).is_none());
}

#[test]
fn delete_missing_id_is_refused() {
    let (mut m, _root) = store_with_root();
    assert_eq!(m.delete_node(424242), false);
}

#[test]
fn delete_removes_whole_subtree() {
    let (mut m, root) = store_with_root();
    let a = m.add_child(root, "A".to_string(), 800).unwrap();
    let b = m.add_child(a, "B".to_string(), 800).unwrap();
    let c = m.add_child(a, "C".to_string(), 800).unwrap();
    assert_eq!(m.delete_node(a), true);
    assert!(m.get_node(a).is_none());
    assert!(m.get_node(b).is_none());
    assert!(m.get_node(c).is_none());
    for node in &m.nodes {
        assert!(!node.children.contains(&a));
        assert!(!node.children.contains(&b));
        assert!(!node.children.contains(&c));
    }
    assert!(m.get_node(root).is_some());
}

#[test]
fn delete_drops_id_from_selection() {
    let (mut m, root) = store_with_root();
    let a = m.add_child(root, "A".to_string(), 800).unwrap();
    m.select_single(a);
    assert_eq!(m.delete_node(a), true);
    assert!(m.selected_nodes.is_empty());
}

#[test]
fn each_id_has_at_most_one_parent() {
    let (mut m, root) = store_with_root();
    let a = m.add_child(root, "A".to_string(), 800).unwrap();
    let b = m.add_child(a, "B".to_string(), 800).unwrap();
    let c = m.add_child(b, "C".to_string(), 800).unwrap();
    m.delete_node(c);
    m.add_child(b, "D".to_string(), 800).unwrap();
    for node in &m.nodes {
        for &child in &node.children {
            let parents = m
                .nodes
                .iter()
                .filter(|n| n.children.contains(&child))
                .count();
            assert_eq!(parents, 1);
        }
    }
}

#[test]
fn update_text_in_place() {
    let (mut m, root) = store_with_root();
    m.update_node_text(root, "Mind".to_string());
    assert_eq!(m.get_node(root).unwrap().text, "Mind");
    m.update_node_text(999, "Ghostly".to_string());
    assert_eq!(m.get_node(root).unwrap().text, "Mind");
}

#[test]
fn empty_text_is_allowed() {
    let (mut m, root) = store_with_root();
    m.update_node_text(root, String::new());
    assert_eq!(m.get_node(root).unwrap().text, "");
}

#[test]
fn hit_test_regular_tier_bounds() {
    let (m, root) = store_with_root();
    // Regular tier: 120x40 box, no padding, centered at (400, 300).
    assert_eq!(m.find_node_at(460, 320, 800), Some(root));
    assert_eq!(m.find_node_at(340, 280, 800), Some(root));
    assert_eq!(m.find_node_at(461, 300, 800), None);
    assert_eq!(m.find_node_at(400, 321, 800), None);
}

#[test]
fn hit_test_compact_tier_has_padding() {
    let (m, root) = store_with_root();
    // Compact tier: 100x35 box grown by 5 on every side.
    assert_eq!(m.find_node_at(455, 300, 500), Some(root));
    assert_eq!(m.find_node_at(456, 300, 500), None);
    assert_eq!(m.find_node_at(400, 322, 500), Some(root));
    assert_eq!(m.find_node_at(400, 323, 500), None);
}

#[test]
fn topmost_hit_prefers_most_recent_node() {
    let (mut m, root) = store_with_root();
    let a = m.add_child(root, "A".to_string(), 800).unwrap();
    let b = m.add_child(root, "B".to_string(), 800).unwrap();
    // A sits at (550, 300), B at (550, 330): their boxes share y in [310, 320].
    assert_eq!(m.find_node_at(550, 315, 800), Some(b));
    // Move B away; the same point now resolves to A alone.
    m.set_position(b, 1000, 1000);
    assert_eq!(m.find_node_at(550, 315, 800), Some(a));
}

#[test]
fn rect_selection_uses_centers_in_storage_order() {
    let (mut m, root) = store_with_root();
    let a = m.add_child(root, "A".to_string(), 800).unwrap();
    let b = m.add_child(root, "B".to_string(), 800).unwrap();
    // Corners given in any order are normalized; both borders count.
    let hits = m.find_nodes_in_rect(560, 340, 540, 290, 800);
    assert_eq!(hits, vec![a, b]);
    // The root's box reaches x = 460 but its center (400) stays outside.
    let hits = m.find_nodes_in_rect(460, 0, 600, 400, 800);
    assert_eq!(hits, vec![a, b]);
}
