use mindmap::engine::{MindMapEngine, Mode};

const VW: u32 = 800;

fn engine() -> MindMapEngine {
    MindMapEngine::new("Root".to_string(), 400, 300)
}

fn root_id(e: &MindMapEngine) -> usize {
    e.mind_map.root_id.expect("engine always has a root")
}

#[test]
fn fresh_engine_state() {
    let e = engine();
    let root = root_id(&e);
    assert_eq!(e.mind_map.selected_nodes, vec![root]);
    assert_eq!(e.viewport_offset_x, 0);
    assert_eq!(e.viewport_offset_y, 0);
    assert!(matches!(e.mode, Mode::Idle));
    assert!(!e.is_space_pressed);
}

#[test]
fn down_on_node_selects_and_starts_drag() {
    let mut e = engine();
    let root = root_id(&e);
    e.handle_pointer_down(420, 310, VW);
    assert_eq!(e.mind_map.selected_nodes, vec![root]);
    assert!(matches!(e.mode, Mode::Dragging));
    assert_eq!(e.mind_map.drag_offsets.len(), 1);
}

#[test]
fn drag_keeps_captured_offset() {
    let mut e = engine();
    let root = root_id(&e);
    e.handle_pointer_down(420, 310, VW);
    e.handle_pointer_move(500, 400);
    let n = e.mind_map.get_node(root).unwrap();
    assert_eq!((n.x, n.y), (480, 390));
    e.handle_pointer_up(VW);
    assert!(matches!(e.mode, Mode::Idle));
    assert!(e.mind_map.drag_offsets.is_empty());
    let n = e.mind_map.get_node(root).unwrap();
    assert_eq!((n.x, n.y), (480, 390));
}

#[test]
fn empty_click_without_force_pan_clears_selection_on_release() {
    let mut e = engine();
    e.handle_pointer_down(50, 50, VW);
    assert!(matches!(e.mode, Mode::AreaSelecting { .. }));
    e.handle_pointer_move(60, 45);
    e.handle_pointer_up(VW);
    assert!(e.mind_map.selected_nodes.is_empty());
    assert!(matches!(e.mode, Mode::Idle));
}

#[test]
fn force_pan_shifts_viewport_exactly() {
    let mut e = engine();
    let root = root_id(&e);
    e.set_space_pressed(true);
    e.handle_pointer_down(100, 100, VW);
    assert!(matches!(e.mode, Mode::Panning { .. }));
    e.handle_pointer_move(110, 95);
    assert_eq!((e.viewport_offset_x, e.viewport_offset_y), (10, -5));
    // The anchor follows the pointer, so the offset accumulates the path.
    e.handle_pointer_move(120, 95);
    assert_eq!((e.viewport_offset_x, e.viewport_offset_y), (20, -5));
    e.handle_pointer_up(VW);
    assert!(matches!(e.mode, Mode::Idle));
    // Panning touched neither the selection nor any node position.
    assert_eq!(e.mind_map.selected_nodes, vec![root]);
    let n = e.mind_map.get_node(root).unwrap();
    assert_eq!((n.x, n.y), (400, 300));
}

#[test]
fn force_pan_wins_over_node_hit() {
    let mut e = engine();
    let root = root_id(&e);
    e.handle_pointer_down(50, 50, VW);
    e.handle_pointer_up(VW);
    assert!(e.mind_map.selected_nodes.is_empty());
    e.set_space_pressed(true);
    e.handle_pointer_down(400, 300, VW);
    assert!(matches!(e.mode, Mode::Panning { .. }));
    assert!(e.mind_map.selected_nodes.is_empty());
    let n = e.mind_map.get_node(root).unwrap();
    assert_eq!((n.x, n.y), (400, 300));
}

#[test]
fn hit_test_translates_through_pan_offset() {
    let mut e = engine();
    let root = root_id(&e);
    e.set_space_pressed(true);
    e.handle_pointer_down(0, 0, VW);
    e.handle_pointer_move(10, -5);
    e.handle_pointer_up(VW);
    e.set_space_pressed(false);
    // The root sits at virtual (400, 300); on screen that is now (410, 295).
    e.handle_pointer_down(410, 295, VW);
    assert_eq!(e.mind_map.selected_nodes, vec![root]);
    assert!(matches!(e.mode, Mode::Dragging));
}

#[test]
fn rubber_band_selects_enclosed_centers_only() {
    let mut e = engine();
    let root = root_id(&e);
    e.add_child_to_selected("A".to_string(), VW);
    let a = e.mind_map.nodes[1].id;
    e.mind_map.select_single(root);
    e.add_child_to_selected("B".to_string(), VW);
    let b = e.mind_map.nodes[2].id;
    // Rect covering the children's centers; it overlaps the root's box
    // (which reaches x = 460) but not the root's center.
    e.handle_pointer_down(460, 200, VW);
    e.handle_pointer_move(600, 400);
    e.handle_pointer_up(VW);
    assert_eq!(e.mind_map.selected_nodes, vec![a, b]);
}

#[test]
fn rubber_band_resolves_in_virtual_space() {
    let mut e = engine();
    e.set_space_pressed(true);
    e.handle_pointer_down(0, 0, VW);
    e.handle_pointer_move(100, 0);
    e.handle_pointer_up(VW);
    e.set_space_pressed(false);
    // Offset is (100, 0): the root's center is on screen at (500, 300).
    e.handle_pointer_down(480, 280, VW);
    e.handle_pointer_move(520, 320);
    e.handle_pointer_up(VW);
    assert_eq!(e.mind_map.selected_nodes.len(), 1);
}

#[test]
fn dragging_a_selected_group_moves_it_rigidly() {
    let mut e = engine();
    let root = root_id(&e);
    e.add_child_to_selected("A".to_string(), VW);
    let a = e.mind_map.nodes[1].id;
    e.mind_map.select_single(root);
    e.add_child_to_selected("B".to_string(), VW);
    let b = e.mind_map.nodes[2].id;
    // Select both children (centers at (550, 300) and (550, 330)).
    e.handle_pointer_down(500, 250, VW);
    e.handle_pointer_move(600, 350);
    e.handle_pointer_up(VW);
    assert_eq!(e.mind_map.selected_nodes, vec![a, b]);
    // Pointer-down on an already selected node keeps the whole selection.
    e.handle_pointer_down(550, 300, VW);
    assert_eq!(e.mind_map.selected_nodes, vec![a, b]);
    e.handle_pointer_move(560, 320);
    let na = e.mind_map.get_node(a).unwrap();
    let nb = e.mind_map.get_node(b).unwrap();
    assert_eq!((na.x, na.y), (560, 320));
    assert_eq!((nb.x, nb.y), (560, 350));
    // The unselected root never moved.
    let nr = e.mind_map.get_node(root).unwrap();
    assert_eq!((nr.x, nr.y), (400, 300));
}

#[test]
fn down_on_unselected_node_replaces_selection() {
    let mut e = engine();
    let root = root_id(&e);
    e.add_child_to_selected("A".to_string(), VW);
    let a = e.mind_map.nodes[1].id;
    assert_eq!(e.mind_map.selected_nodes, vec![root]);
    e.handle_pointer_down(550, 300, VW);
    assert_eq!(e.mind_map.selected_nodes, vec![a]);
}

#[test]
fn double_click_collapses_selection_to_hit_node() {
    let mut e = engine();
    let root = root_id(&e);
    e.add_child_to_selected("A".to_string(), VW);
    let a = e.mind_map.nodes[1].id;
    // Select both via rubber band, then double-click the child.
    e.handle_pointer_down(300, 200, VW);
    e.handle_pointer_move(600, 400);
    e.handle_pointer_up(VW);
    assert_eq!(e.mind_map.selected_nodes, vec![root, a]);
    e.handle_pointer_double_click(550, 300, VW);
    assert_eq!(e.mind_map.selected_nodes, vec![a]);
    // A double-click on empty space changes nothing.
    e.handle_pointer_double_click(50, 50, VW);
    assert_eq!(e.mind_map.selected_nodes, vec![a]);
}

#[test]
fn selected_text_needs_exactly_one_selection() {
    let mut e = engine();
    assert_eq!(e.get_selected_text(), Some("Root".to_string()));
    e.update_selected_text("Home".to_string());
    assert_eq!(e.get_selected_text(), Some("Home".to_string()));
    e.add_child_to_selected("A".to_string(), VW);
    // Select root and child together: text operations become no-ops.
    e.handle_pointer_down(300, 200, VW);
    e.handle_pointer_move(600, 400);
    e.handle_pointer_up(VW);
    assert_eq!(e.mind_map.selected_nodes.len(), 2);
    e.update_selected_text("Ignored".to_string());
    assert_eq!(e.get_selected_text(), None);
    // Empty selection as well.
    e.handle_pointer_down(50, 50, VW);
    e.handle_pointer_up(VW);
    assert_eq!(e.get_selected_text(), None);
    e.update_selected_text("Ignored".to_string());
    assert_eq!(e.mind_map.get_node(0).unwrap().text, "Home");
}

#[test]
fn add_child_needs_exactly_one_selection() {
    let mut e = engine();
    e.add_child_to_selected("A".to_string(), VW);
    assert_eq!(e.mind_map.nodes.len(), 2);
    e.handle_pointer_down(50, 50, VW);
    e.handle_pointer_up(VW);
    e.add_child_to_selected("B".to_string(), VW);
    assert_eq!(e.mind_map.nodes.len(), 2);
}

#[test]
fn delete_key_removes_selected_nodes() {
    let mut e = engine();
    let root = root_id(&e);
    e.add_child_to_selected("A".to_string(), VW);
    let a = e.mind_map.nodes[1].id;
    e.mind_map.select_single(a);
    e.handle_key_down(&"Delete".to_string());
    assert!(e.mind_map.get_node(a).is_none());
    assert!(e.mind_map.get_node(root).is_some());
}

#[test]
fn backspace_also_deletes() {
    let mut e = engine();
    e.add_child_to_selected("A".to_string(), VW);
    let a = e.mind_map.nodes[1].id;
    e.mind_map.select_single(a);
    e.handle_key_down(&"Backspace".to_string());
    assert!(e.mind_map.get_node(a).is_none());
}

#[test]
fn other_keys_do_nothing() {
    let mut e = engine();
    let a = {
        e.add_child_to_selected("A".to_string(), VW);
        e.mind_map.nodes[1].id
    };
    e.mind_map.select_single(a);
    e.handle_key_down(&"Enter".to_string());
    assert!(e.mind_map.get_node(a).is_some());
    assert_eq!(e.mind_map.selected_nodes, vec![a]);
}

#[test]
fn batch_delete_skips_root_without_aborting() {
    let mut e = engine();
    let root = root_id(&e);
    e.add_child_to_selected("A".to_string(), VW);
    let a = e.mind_map.nodes[1].id;
    // Select the root and the child together.
    e.handle_pointer_down(300, 200, VW);
    e.handle_pointer_move(600, 400);
    e.handle_pointer_up(VW);
    assert_eq!(e.mind_map.selected_nodes, vec![root, a]);
    assert_eq!(e.delete_selected_node(), true);
    assert!(e.mind_map.get_node(root).is_some());
    assert!(e.mind_map.get_node(a).is_none());
}

#[test]
fn delete_with_nothing_selected_reports_false() {
    let mut e = engine();
    e.handle_pointer_down(50, 50, VW);
    e.handle_pointer_up(VW);
    assert_eq!(e.delete_selected_node(), false);
}

#[test]
fn delete_selection_of_root_alone_reports_false() {
    let mut e = engine();
    assert_eq!(e.delete_selected_node(), false);
    assert!(e.mind_map.get_node(root_id(&e)).is_some());
}

#[test]
fn idle_moves_change_nothing() {
    let mut e = engine();
    let root = root_id(&e);
    e.handle_pointer_move(640, 480);
    let n = e.mind_map.get_node(root).unwrap();
    assert_eq!((n.x, n.y), (400, 300));
    assert_eq!((e.viewport_offset_x, e.viewport_offset_y), (0, 0));
    assert_eq!(e.mind_map.selected_nodes, vec![root]);
}

#[test]
fn pan_saturates_at_the_coordinate_limit() {
    let mut e = engine();
    e.set_space_pressed(true);
    e.handle_pointer_down(0, 0, VW);
    e.handle_pointer_move(i64::MAX, i64::MIN);
    assert_eq!((e.viewport_offset_x, e.viewport_offset_y), (i64::MAX, i64::MIN));
    // Moving back: the x delta is exact, the y delta clamps at the limit.
    e.handle_pointer_move(0, 0);
    assert_eq!((e.viewport_offset_x, e.viewport_offset_y), (0, -1));
}
