//! The interaction state machine.
//!
//! Exactly one of the four modes is active at a time; the pointer-down
//! decision tree enforces the exclusivity: forced-pan first, then hit-test
//! (select and begin a drag), else begin an area selection.  Pointer
//! coordinates arrive in screen space and are translated into virtual space
//! through the viewport offset before every hit test or position update.

use crate::coord::{sat64, sat_add, sat_sub};
use crate::mind_map::MindMap;
use crate::model::{
    apply_drag, capture_offsets, contains_id, find_at, ids_view, lemma_rect_elements, node_at,
    nodes_in_rect, spec_add_child, spec_delete, spec_delete_seq, store_wf, DragView, MindMapView,
};
use crate::node::NodeView;
use vstd::prelude::*;

verus! {

/// The exclusive interaction mode.  Drag bookkeeping itself lives in the
/// store, where deletions can reach it; the engine invariant ties it to
/// `Dragging`.
#[derive(Clone, Copy)]
pub enum Mode {
    Idle,
    /// Panning: the pan anchor is the last pointer position seen.
    Panning { last_x: i64, last_y: i64 },
    /// Dragging the selected nodes by their captured offsets.
    Dragging,
    /// Rubber-band area selection, in screen space.
    AreaSelecting { start_x: i64, start_y: i64, end_x: i64, end_y: i64 },
}

/// Mathematical image of the whole engine.
#[verifier::ext_equal]
pub ghost struct EngineView {
    pub map: MindMapView,
    pub offset_x: int,
    pub offset_y: int,
    pub mode: Mode,
    pub space: bool,
}

/// The engine: the node store plus viewport, mode and modifier state.
pub struct MindMapEngine {
    pub mind_map: MindMap,
    pub viewport_offset_x: i64,
    pub viewport_offset_y: i64,
    pub mode: Mode,
    pub is_space_pressed: bool,
}

impl View for MindMapEngine {
    type V = EngineView;

    open spec fn view(&self) -> EngineView {
        EngineView {
            map: self.mind_map@,
            offset_x: self.viewport_offset_x as int,
            offset_y: self.viewport_offset_y as int,
            mode: self.mode,
            space: self.is_space_pressed,
        }
    }
}

/// Pointer-down transition: forced pan wins, then a hit selects and starts
/// a drag, else a rubber band starts at the pointer.
pub open spec fn spec_pointer_down(e: EngineView, x: i64, y: i64, vw: u32) -> EngineView {
    if e.space {
        EngineView {
            map: MindMapView { drag_offsets: Seq::empty(), ..e.map },
            mode: Mode::Panning { last_x: x, last_y: y },
            ..e
        }
    } else {
        let vx = sat64(x - e.offset_x);
        let vy = sat64(y - e.offset_y);
        match find_at(e.map.nodes, vx, vy, vw as int) {
            Option::Some(id) => {
                let sel = if e.map.selected.contains(id) {
                    e.map.selected
                } else {
                    seq![id]
                };
                EngineView {
                    map: MindMapView {
                        selected: sel,
                        drag_offsets: capture_offsets(e.map.nodes, sel, vx, vy),
                        ..e.map
                    },
                    mode: Mode::Dragging,
                    ..e
                }
            },
            Option::None => EngineView {
                map: MindMapView { drag_offsets: Seq::empty(), ..e.map },
                mode: Mode::AreaSelecting { start_x: x, start_y: y, end_x: x, end_y: y },
                ..e
            },
        }
    }
}

/// Pointer-move transition: panning accumulates the pointer delta and
/// re-anchors, an area selection stretches its rectangle, a drag moves
/// every captured node rigidly, and idle moves do nothing.
pub open spec fn spec_pointer_move(e: EngineView, x: i64, y: i64) -> EngineView {
    match e.mode {
        Mode::Panning { last_x, last_y } => EngineView {
            offset_x: sat64(e.offset_x + sat64(x - last_x)),
            offset_y: sat64(e.offset_y + sat64(y - last_y)),
            mode: Mode::Panning { last_x: x, last_y: y },
            ..e
        },
        Mode::AreaSelecting { start_x, start_y, .. } => EngineView {
            mode: Mode::AreaSelecting { start_x: start_x, start_y: start_y, end_x: x, end_y: y },
            ..e
        },
        Mode::Dragging => EngineView {
            map: MindMapView {
                nodes: apply_drag(
                    e.map.nodes,
                    e.map.drag_offsets,
                    sat64(x - e.offset_x),
                    sat64(y - e.offset_y),
                ),
                ..e.map
            },
            ..e
        },
        Mode::Idle => e,
    }
}

/// Pointer-up transition: an area selection resolves its rectangle in
/// virtual space and replaces the selection with the enclosed centers;
/// every mode ends and all drag bookkeeping is dropped.
pub open spec fn spec_pointer_up(e: EngineView) -> EngineView {
    match e.mode {
        Mode::AreaSelecting { start_x, start_y, end_x, end_y } => EngineView {
            map: MindMapView {
                selected: nodes_in_rect(
                    e.map.nodes,
                    sat64(start_x - e.offset_x),
                    sat64(start_y - e.offset_y),
                    sat64(end_x - e.offset_x),
                    sat64(end_y - e.offset_y),
                ),
                drag_offsets: Seq::empty(),
                ..e.map
            },
            mode: Mode::Idle,
            ..e
        },
        _ => EngineView {
            map: MindMapView { drag_offsets: Seq::empty(), ..e.map },
            mode: Mode::Idle,
            ..e
        },
    }
}

/// Double-click transition: a hit collapses the selection to that node,
/// leaving pan and drag state alone; a miss changes nothing.
pub open spec fn spec_double_click(e: EngineView, x: i64, y: i64, vw: u32) -> EngineView {
    let vx = sat64(x - e.offset_x);
    let vy = sat64(y - e.offset_y);
    match find_at(e.map.nodes, vx, vy, vw as int) {
        Option::Some(id) => EngineView {
            map: MindMapView { selected: seq![id], ..e.map },
            ..e
        },
        Option::None => e,
    }
}

/// Batch deletion of the whole selection, left to right.
pub open spec fn spec_delete_selected(e: EngineView) -> (EngineView, bool) {
    let (m, any) = spec_delete_seq(e.map, e.map.selected, 0);
    (EngineView { map: m, ..e }, any)
}

impl MindMapEngine {
    /// The engine invariant: the store is well-formed, and outside the
    /// dragging mode no drag bookkeeping lingers.
    pub open spec fn wf(&self) -> bool {
        &&& store_wf(self@.map)
        &&& !(self@.mode is Dragging) ==> self@.map.drag_offsets.len() == 0
    }

    /// A fresh engine: one root node at the given position, selected by
    /// default; viewport at the origin, idle, no modifier held.
    pub fn new(root_text: String, root_x: i64, root_y: i64) -> (e: MindMapEngine)
        ensures
            e.wf(),
            e@.map.nodes == seq![
                NodeView {
                    id: 0,
                    text: root_text@,
                    x: root_x as int,
                    y: root_y as int,
                    children: Seq::empty(),
                },
            ],
            e@.map.next_id == 1,
            e@.map.root_id == Option::Some(0int),
            e@.map.selected == seq![0int],
            e@.map.drag_offsets == Seq::<DragView>::empty(),
            e@.offset_x == 0,
            e@.offset_y == 0,
            e@.mode is Idle,
            e@.space == false,
    {
        let mut mind_map = MindMap::new();
        mind_map.create_root(root_text, root_x, root_y);
        MindMapEngine {
            mind_map,
            viewport_offset_x: 0,
            viewport_offset_y: 0,
            mode: Mode::Idle,
            is_space_pressed: false,
        }
    }

    /// Records whether the force-pan modifier (a held space key) is down.
    pub fn set_space_pressed(&mut self, pressed: bool)
        requires
            old(self).wf(),
        ensures
            final(self).wf(),
            final(self)@ == (EngineView { space: pressed, ..old(self)@ }),
    {
        self.is_space_pressed = pressed;
        proof {
            assert(self@ =~~= (EngineView { space: pressed, ..old(self)@ }));
        }
    }

    /// Pointer-down dispatch.
    pub fn handle_pointer_down(&mut self, x: i64, y: i64, viewport_width: u32)
        requires
            old(self).wf(),
        ensures
            final(self).wf(),
            final(self)@ == spec_pointer_down(old(self)@, x, y, viewport_width),
    {
        if self.is_space_pressed {
            self.mind_map.clear_drag_offsets();
            self.mode = Mode::Panning { last_x: x, last_y: y };
            proof {
                assert(self@ =~~= spec_pointer_down(old(self)@, x, y, viewport_width));
            }
            return;
        }
        let vx = sat_sub(x, self.viewport_offset_x);
        let vy = sat_sub(y, self.viewport_offset_y);
        match self.mind_map.find_node_at(vx, vy, viewport_width) {
            Some(id) => {
                if !self.mind_map.is_selected(id) {
                    self.mind_map.select_single(id);
                }
                self.mind_map.capture_drag_offsets(vx, vy);
                self.mode = Mode::Dragging;
                proof {
                    assert(self@ =~~= spec_pointer_down(old(self)@, x, y, viewport_width));
                }
            },
            None => {
                self.mind_map.clear_drag_offsets();
                self.mode = Mode::AreaSelecting { start_x: x, start_y: y, end_x: x, end_y: y };
                proof {
                    assert(self@ =~~= spec_pointer_down(old(self)@, x, y, viewport_width));
                }
            },
        }
    }

    /// Pointer-move dispatch.
    pub fn handle_pointer_move(&mut self, x: i64, y: i64)
        requires
            old(self).wf(),
        ensures
            final(self).wf(),
            final(self)@ == spec_pointer_move(old(self)@, x, y),
    {
        match self.mode {
            Mode::Panning { last_x, last_y } => {
                let dx = sat_sub(x, last_x);
                let dy = sat_sub(y, last_y);
                self.viewport_offset_x = sat_add(self.viewport_offset_x, dx);
                self.viewport_offset_y = sat_add(self.viewport_offset_y, dy);
                self.mode = Mode::Panning { last_x: x, last_y: y };
                proof {
                    assert(self@ =~~= spec_pointer_move(old(self)@, x, y));
                }
            },
            Mode::AreaSelecting { start_x, start_y, .. } => {
                self.mode = Mode::AreaSelecting {
                    start_x,
                    start_y,
                    end_x: x,
                    end_y: y,
                };
                proof {
                    assert(self@ =~~= spec_pointer_move(old(self)@, x, y));
                }
            },
            Mode::Dragging => {
                let vx = sat_sub(x, self.viewport_offset_x);
                let vy = sat_sub(y, self.viewport_offset_y);
                self.mind_map.move_dragged(vx, vy);
                proof {
                    assert(self@ =~~= spec_pointer_move(old(self)@, x, y));
                }
            },
            Mode::Idle => {
                proof {
                    assert(self@ =~~= spec_pointer_move(old(self)@, x, y));
                }
            },
        }
    }

    /// Pointer-up dispatch.
    pub fn handle_pointer_up(&mut self, viewport_width: u32)
        requires
            old(self).wf(),
        ensures
            final(self).wf(),
            final(self)@ == spec_pointer_up(old(self)@),
    {
        match self.mode {
            Mode::AreaSelecting { start_x, start_y, end_x, end_y } => {
                let v1x = sat_sub(start_x, self.viewport_offset_x);
                let v1y = sat_sub(start_y, self.viewport_offset_y);
                let v2x = sat_sub(end_x, self.viewport_offset_x);
                let v2y = sat_sub(end_y, self.viewport_offset_y);
                let ids = self.mind_map.find_nodes_in_rect(v1x, v1y, v2x, v2y, viewport_width);
                proof {
                    lemma_rect_elements(
                        self@.map.nodes,
                        v1x as int,
                        v1y as int,
                        v2x as int,
                        v2y as int,
                    );
                }
                self.mind_map.set_selection(ids);
                self.mind_map.clear_drag_offsets();
                self.mode = Mode::Idle;
                proof {
                    assert(self@ =~~= spec_pointer_up(old(self)@));
                }
            },
            _ => {
                self.mind_map.clear_drag_offsets();
                self.mode = Mode::Idle;
                proof {
                    assert(self@ =~~= spec_pointer_up(old(self)@));
                }
            },
        }
    }

    /// Double-click dispatch.
    pub fn handle_pointer_double_click(&mut self, x: i64, y: i64, viewport_width: u32)
        requires
            old(self).wf(),
        ensures
            final(self).wf(),
            final(self)@ == spec_double_click(old(self)@, x, y, viewport_width),
    {
        let vx = sat_sub(x, self.viewport_offset_x);
        let vy = sat_sub(y, self.viewport_offset_y);
        match self.mind_map.find_node_at(vx, vy, viewport_width) {
            Some(id) => {
                self.mind_map.select_single(id);
                proof {
                    assert(self@ =~~= spec_double_click(old(self)@, x, y, viewport_width));
                }
            },
            None => {
                proof {
                    assert(self@ =~~= spec_double_click(old(self)@, x, y, viewport_width));
                }
            },
        }
    }
    /// Adds a child under the selected node.  Defined only when exactly one
    /// node is selected; otherwise nothing happens.
    pub fn add_child_to_selected(&mut self, text: String, viewport_width: u32)
        requires
            old(self).wf(),
            old(self).mind_map.next_id < usize::MAX,
        ensures
            final(self).wf(),
            old(self)@.map.selected.len() == 1 ==> final(self)@ == (EngineView {
                map: spec_add_child(
                    old(self)@.map,
                    old(self)@.map.selected[0],
                    text@,
                    viewport_width as int,
                ).0,
                ..old(self)@
            }),
            old(self)@.map.selected.len() != 1 ==> final(self)@ == old(self)@,
    {
        if self.mind_map.selected_nodes.len() == 1 {
            let id = self.mind_map.selected_nodes[0];
            proof {
                assert(self@.map.selected[0] == id as int);
            }
            self.mind_map.add_child(id, text, viewport_width);
            proof {
                assert(self@ =~~= (EngineView {
                    map: spec_add_child(
                        old(self)@.map,
                        old(self)@.map.selected[0],
                        text@,
                        viewport_width as int,
                    ).0,
                    ..old(self)@
                }));
            }
        } else {
            proof {
                assert(self@.map.selected.len() == self.mind_map.selected_nodes@.len());
                assert(self@ =~~= old(self)@);
            }
        }
    }

    /// Replaces the selected node's label.  Defined only when exactly one
    /// node is selected; otherwise nothing happens.
    pub fn update_selected_text(&mut self, text: String)
        requires
            old(self).wf(),
        ensures
            final(self).wf(),
            old(self)@.map.selected.len() == 1 ==> final(self)@ == (EngineView {
                map: MindMapView {
                    nodes: old(self)@.map.nodes.update(
                        crate::model::id_index(old(self)@.map.nodes, old(self)@.map.selected[0]),
                        NodeView {
                            text: text@,
                            ..node_at(old(self)@.map.nodes, old(self)@.map.selected[0])
                        },
                    ),
                    ..old(self)@.map
                },
                ..old(self)@
            }),
            old(self)@.map.selected.len() != 1 ==> final(self)@ == old(self)@,
    {
        if self.mind_map.selected_nodes.len() == 1 {
            let id = self.mind_map.selected_nodes[0];
            proof {
                assert(self@.map.selected[0] == id as int);
                assert(contains_id(self@.map.nodes, id as int));
            }
            self.mind_map.update_node_text(id, text);
            proof {
                assert(self@ =~~= (EngineView {
                    map: MindMapView {
                        nodes: old(self)@.map.nodes.update(
                            crate::model::id_index(
                                old(self)@.map.nodes,
                                old(self)@.map.selected[0],
                            ),
                            NodeView {
                                text: text@,
                                ..node_at(old(self)@.map.nodes, old(self)@.map.selected[0])
                            },
                        ),
                        ..old(self)@.map
                    },
                    ..old(self)@
                }));
            }
        } else {
            proof {
                assert(self@.map.selected.len() == self.mind_map.selected_nodes@.len());
                assert(self@ =~~= old(self)@);
            }
        }
    }

    /// The selected node's label.  Defined only when exactly one node is
    /// selected; otherwise there is no value.
    pub fn get_selected_text(&self) -> (r: Option<String>)
        requires
            self.wf(),
        ensures
            self@.map.selected.len() == 1 ==> {
                &&& r is Some
                &&& r->Some_0@ == node_at(self@.map.nodes, self@.map.selected[0]).text
            },
            self@.map.selected.len() != 1 ==> r is None,
    {
        if self.mind_map.selected_nodes.len() == 1 {
            let id = self.mind_map.selected_nodes[0];
            proof {
                assert(self@.map.selected[0] == id as int);
                assert(contains_id(self@.map.nodes, id as int));
            }
            match self.mind_map.get_node(id) {
                Some(n) => Some(n.text.clone()),
                None => {
                    proof {
                        assert(false);
                    }
                    None
                },
            }
        } else {
            proof {
                assert(self@.map.selected.len() == self.mind_map.selected_nodes@.len());
            }
            None
        }
    }

    /// Deletes every selected node with its subtree.  Root deletions are
    /// refused per node without aborting the batch; the result tells
    /// whether any deletion succeeded.
    pub fn delete_selected_node(&mut self) -> (any_deleted: bool)
        requires
            old(self).wf(),
        ensures
            final(self).wf(),
            final(self)@ == spec_delete_selected(old(self)@).0,
            any_deleted == spec_delete_selected(old(self)@).1,
    {
        let ghost m0 = self@.map;
        let ghost sel0 = self@.map.selected;
        // Snapshot the selection: deletions rewrite it as they go.
        let sn = self.mind_map.selected_nodes.len();
        let mut ids: Vec<usize> = Vec::new();
        let mut k: usize = 0;
        proof {
            assert(ids_view(ids@) =~= sel0.take(0));
        }
        while k < sn
            invariant
                k <= sn,
                sn == self.mind_map.selected_nodes.len(),
                self@.map.selected == sel0,
                ids_view(ids@) == sel0.take(k as int),
            decreases sn - k,
        {
            let ghost acc0 = ids_view(ids@);
            ids.push(self.mind_map.selected_nodes[k]);
            proof {
                assert(ids_view(ids@) =~= acc0.push(sel0[k as int]));
                assert(sel0.take(k as int + 1) =~= sel0.take(k as int).push(sel0[k as int]));
            }
            k = k + 1;
        }
        proof {
            assert(sel0.take(sn as int) =~= sel0);
        }
        let mut any_deleted = false;
        let mut k: usize = 0;
        while k < sn
            invariant
                k <= sn,
                sn == ids.len(),
                ids_view(ids@) == sel0,
                self.mind_map.wf(),
                old(self).wf(),
                self@.offset_x == old(self)@.offset_x,
                self@.offset_y == old(self)@.offset_y,
                self@.mode == old(self)@.mode,
                self@.space == old(self)@.space,
                old(self)@.mode is Dragging || self@.map.drag_offsets.len() == 0,
                spec_delete_seq(m0, sel0, 0).0 == spec_delete_seq(self@.map, sel0, k as int).0,
                spec_delete_seq(m0, sel0, 0).1 == (any_deleted || spec_delete_seq(
                    self@.map,
                    sel0,
                    k as int,
                ).1),
            decreases sn - k,
        {
            let ghost cur = self@.map;
            proof {
                assert(ids_view(ids@)[k as int] == sel0[k as int]);
            }
            let deleted = self.mind_map.delete_node(ids[k]);
            if deleted {
                any_deleted = true;
            }
            proof {
                let step = spec_delete(cur, sel0[k as int]);
                assert(self@.map == step.0);
                if cur.drag_offsets.len() == 0 {
                    assert(cur.drag_offsets =~= Seq::<DragView>::empty());
                    let dd = crate::model::subtree_ids(cur.nodes, sel0[k as int]);
                    assert(crate::model::filter_drags(Seq::<DragView>::empty(), dd)
                        =~= Seq::<DragView>::empty());
                    assert(step.0.drag_offsets.len() == 0);
                }
            }
            k = k + 1;
        }
        proof {
            assert(spec_delete_seq(self@.map, sel0, sn as int).0 == self@.map);
            assert(self@ =~~= spec_delete_selected(old(self)@).0);
        }
        any_deleted
    }

    /// Keyboard dispatch: a delete or backspace keystroke deletes the
    /// selected nodes; every other key does nothing.
    pub fn handle_key_down(&mut self, key: &String)
        requires
            old(self).wf(),
        ensures
            final(self).wf(),
            (key@ == "Delete"@ || key@ == "Backspace"@) ==> final(self)@ == spec_delete_selected(
                old(self)@,
            ).0,
            !(key@ == "Delete"@ || key@ == "Backspace"@) ==> final(self)@ == old(self)@,
    {
        let delete_key: String = "Delete".to_owned();
        let backspace_key: String = "Backspace".to_owned();
        if *key == delete_key || *key == backspace_key {
            self.delete_selected_node();
        } else {
            proof {
                assert(self@ =~~= old(self)@);
            }
        }
    }
}

} // verus!
