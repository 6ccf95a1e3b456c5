//! The node store: nodes in creation order, the id counter, the root id,
//! the selection and the drag bookkeeping.
//!
//! Ids are assigned monotonically and never reused; every mutation keeps the
//! tree invariants of [`crate::model::store_wf`].  Every lookup by a stale
//! id is a silent no-op rather than a fault.

use crate::model::{
    apply_drag, capture_offsets, contains_id, drag_at, drag_ids, filter_drags, filter_ids,
    find_at, has_drag, id_index, id_list_wf, ids_increasing, ids_view, lemma_delete_wf,
    lemma_id_index, lemma_wf_same_structure, mark_children, mark_from, no_dups, node_at,
    nodes_in_rect, remove_marked, spec_add_child, spec_delete, store_wf, strip_node, subtree_ids,
    views_of, DragView, MindMapView,
};
use crate::node::{Node, NodeView};
use vstd::prelude::*;

verus! {

/// Drag bookkeeping entry for one node.
#[derive(Clone, Copy)]
pub struct DragOffset {
    pub id: usize,
    pub dx: i64,
    pub dy: i64,
}

impl View for DragOffset {
    type V = DragView;

    open spec fn view(&self) -> DragView {
        DragView { id: self.id as int, dx: self.dx as int, dy: self.dy as int }
    }
}

pub struct MindMap {
    pub nodes: Vec<Node>,
    pub next_id: usize,
    pub root_id: Option<usize>,
    pub selected_nodes: Vec<usize>,
    pub drag_offsets: Vec<DragOffset>,
}

impl View for MindMap {
    type V = MindMapView;

    open spec fn view(&self) -> MindMapView {
        MindMapView {
            nodes: views_of(self.nodes@),
            next_id: self.next_id as int,
            root_id: match self.root_id {
                Option::Some(r) => Option::Some(r as int),
                Option::None => Option::None,
            },
            selected: ids_view(self.selected_nodes@),
            drag_offsets: self.drag_offsets@.map_values(|o: DragOffset| o@),
        }
    }
}

/// Membership in a plain id list.
fn vec_has(v: &Vec<usize>, x: usize) -> (r: bool)
    ensures
        r == ids_view(v@).to_set().contains(x as int),
{
    let n = v.len();
    let mut i: usize = 0;
    while i < n
        invariant
            i <= n,
            n == v.len(),
            forall|k: int| 0 <= k < i ==> #[trigger] ids_view(v@)[k] != x as int,
        decreases n - i,
    {
        if v[i] == x {
            proof {
                assert(ids_view(v@)[i as int] == x as int);
                assert(ids_view(v@).contains(x as int));
            }
            return true;
        }
        i = i + 1;
    }
    proof {
        if ids_view(v@).contains(x as int) {
            let j = choose|j: int| 0 <= j < ids_view(v@).len() && ids_view(v@)[j] == x as int;
        }
    }
    false
}

impl MindMap {
    pub open spec fn wf(&self) -> bool {
        store_wf(self@)
    }

    /// An empty, rootless store.
    pub fn new() -> (m: MindMap)
        ensures
            m.wf(),
            m@.nodes == Seq::<NodeView>::empty(),
            m@.next_id == 0,
            m@.root_id is None,
            m@.selected == Seq::<int>::empty(),
            m@.drag_offsets == Seq::<DragView>::empty(),
    {
        let m = MindMap {
            nodes: Vec::new(),
            next_id: 0,
            root_id: None,
            selected_nodes: Vec::new(),
            drag_offsets: Vec::new(),
        };
        proof {
            assert(m@.nodes =~= Seq::<NodeView>::empty());
            assert(m@.selected =~= Seq::<int>::empty());
            assert(m@.drag_offsets =~= Seq::<DragView>::empty());
        }
        m
    }

    /// Installs the root node of a fresh store.  The root is selected by
    /// default, is protected from deletion, and is never replaced.
    pub fn create_root(&mut self, text: String, x: i64, y: i64) -> (id: usize)
        requires
            old(self).wf(),
            old(self)@.root_id is None,
            old(self).next_id < usize::MAX,
        ensures
            final(self).wf(),
            id == old(self).next_id,
            final(self)@.nodes == seq![
                NodeView {
                    id: id as int,
                    text: text@,
                    x: x as int,
                    y: y as int,
                    children: Seq::empty(),
                },
            ],
            final(self)@.next_id == old(self)@.next_id + 1,
            final(self)@.root_id == Option::Some(id as int),
            final(self)@.selected == seq![id as int],
            final(self)@.drag_offsets == old(self)@.drag_offsets,
    {
        proof {
            assert(old(self)@.nodes.len() == 0);
            assert(old(self)@.selected.len() == 0) by {
                if old(self)@.selected.len() > 0 {
                    assert(contains_id(old(self)@.nodes, old(self)@.selected[0]));
                }
            }
            assert(old(self).selected_nodes@.len() == 0);
        }
        let id = self.next_id;
        self.next_id = self.next_id + 1;
        let node = Node::new(id, text, x, y);
        self.nodes.push(node);
        self.root_id = Some(id);
        self.selected_nodes.push(id);
        proof {
            let v = self@;
            assert(v.nodes =~= seq![
                NodeView {
                    id: id as int,
                    text: text@,
                    x: x as int,
                    y: y as int,
                    children: Seq::<int>::empty(),
                },
            ]);
            assert(v.selected =~= seq![id as int]);
            assert(contains_id(v.nodes, id as int)) by {
                assert(v.nodes[0].id == id as int);
            }
            assert(self.wf());
        }
        id
    }

    /// Index of the node holding `id`, if any.
    fn find_index(&self, id: usize) -> (r: Option<usize>)
        requires
            self.wf(),
        ensures
            match r {
                Option::Some(j) => {
                    &&& j < self.nodes.len()
                    &&& contains_id(self@.nodes, id as int)
                    &&& j as int == id_index(self@.nodes, id as int)
                    &&& self@.nodes[j as int].id == id as int
                },
                Option::None => !contains_id(self@.nodes, id as int),
            },
    {
        let n = self.nodes.len();
        let mut i: usize = 0;
        while i < n
            invariant
                i <= n,
                n == self.nodes.len(),
                self.wf(),
                forall|k: int| 0 <= k < i ==> #[trigger] self@.nodes[k].id != id as int,
            decreases n - i,
        {
            if self.nodes[i].id == id {
                proof {
                    assert(self@.nodes[i as int].id == id as int);
                    lemma_id_index(self@.nodes, id as int);
                }
                return Some(i);
            }
            i = i + 1;
        }
        proof {
            if contains_id(self@.nodes, id as int) {
                let j = choose|j: int|
                    0 <= j < self@.nodes.len() && self@.nodes[j].id == id as int;
            }
        }
        None
    }

    /// Lookup by id.
    pub fn get_node(&self, id: usize) -> (r: Option<&Node>)
        requires
            self.wf(),
        ensures
            match r {
                Option::Some(n) => {
                    &&& contains_id(self@.nodes, id as int)
                    &&& n@ == node_at(self@.nodes, id as int)
                },
                Option::None => !contains_id(self@.nodes, id as int),
            },
    {
        match self.find_index(id) {
            Some(j) => Some(&self.nodes[j]),
            None => None,
        }
    }

    /// Replaces a node's label in place; a missing id changes nothing.
    pub fn update_node_text(&mut self, id: usize, text: String)
        requires
            old(self).wf(),
        ensures
            final(self).wf(),
            contains_id(old(self)@.nodes, id as int) ==> final(self)@ == (MindMapView {
                nodes: old(self)@.nodes.update(
                    id_index(old(self)@.nodes, id as int),
                    NodeView { text: text@, ..node_at(old(self)@.nodes, id as int) },
                ),
                ..old(self)@
            }),
            !contains_id(old(self)@.nodes, id as int) ==> final(self)@ == old(self)@,
    {
        match self.find_index(id) {
            Some(j) => {
                self.nodes[j].text = text;
                proof {
                    let a = old(self)@;
                    let b = self@;
                    let p = id_index(a.nodes, id as int);
                    assert(b.nodes =~= a.nodes.update(
                        p,
                        NodeView { text: text@, ..node_at(a.nodes, id as int) },
                    ));
                    assert(b =~~= (MindMapView {
                        nodes: a.nodes.update(
                            p,
                            NodeView { text: text@, ..node_at(a.nodes, id as int) },
                        ),
                        ..a
                    }));
                    lemma_wf_same_structure(a, b);
                }
            },
            None => {
                proof {
                    assert(self@ =~~= old(self)@);
                }
            },
        }
    }

    /// Moves a node; a missing id changes nothing.
    pub fn set_position(&mut self, id: usize, x: i64, y: i64)
        requires
            old(self).wf(),
        ensures
            final(self).wf(),
            contains_id(old(self)@.nodes, id as int) ==> final(self)@ == (MindMapView {
                nodes: old(self)@.nodes.update(
                    id_index(old(self)@.nodes, id as int),
                    NodeView {
                        x: x as int,
                        y: y as int,
                        ..node_at(old(self)@.nodes, id as int)
                    },
                ),
                ..old(self)@
            }),
            !contains_id(old(self)@.nodes, id as int) ==> final(self)@ == old(self)@,
    {
        match self.find_index(id) {
            Some(j) => {
                self.nodes[j].x = x;
                self.nodes[j].y = y;
                proof {
                    let a = old(self)@;
                    let b = self@;
                    let p = id_index(a.nodes, id as int);
                    assert(b.nodes =~= a.nodes.update(
                        p,
                        NodeView { x: x as int, y: y as int, ..node_at(a.nodes, id as int) },
                    ));
                    assert(b =~~= (MindMapView {
                        nodes: a.nodes.update(
                            p,
                            NodeView { x: x as int, y: y as int, ..node_at(a.nodes, id as int) },
                        ),
                        ..a
                    }));
                    lemma_wf_same_structure(a, b);
                }
            },
            None => {
                proof {
                    assert(self@ =~~= old(self)@);
                }
            },
        }
    }

    /// Empties the selection.
    pub fn clear_selection(&mut self)
        requires
            old(self).wf(),
        ensures
            final(self).wf(),
            final(self)@ == (MindMapView { selected: Seq::empty(), ..old(self)@ }),
    {
        self.selected_nodes = Vec::new();
        proof {
            assert(self@ =~~= (MindMapView { selected: Seq::<int>::empty(), ..old(self)@ }));
        }
    }

    /// Adds a child under `parent_id`, placing it from the parent's position
    /// and current child count.  Siblings already placed stay where they
    /// are.  A missing parent is refused; nothing else fails.
    pub fn add_child(&mut self, parent_id: usize, text: String, viewport_width: u32) -> (r:
        Option<usize>)
        requires
            old(self).wf(),
            old(self).next_id < usize::MAX,
        ensures
            final(self).wf(),
            final(self)@ == spec_add_child(
                old(self)@,
                parent_id as int,
                text@,
                viewport_width as int,
            ).0,
            crate::model::opt_id_view(r) == spec_add_child(
                old(self)@,
                parent_id as int,
                text@,
                viewport_width as int,
            ).1,
            r is Some <==> contains_id(old(self)@.nodes, parent_id as int),
            r is Some ==> r->Some_0 == old(self).next_id,
    {
        let j = match self.find_index(parent_id) {
            Some(j) => j,
            None => {
                proof {
                    assert(self@ =~~= spec_add_child(
                        old(self)@,
                        parent_id as int,
                        text@,
                        viewport_width as int,
                    ).0);
                }
                return None;
            },
        };
        let px = self.nodes[j].x;
        let py = self.nodes[j].y;
        let count = self.nodes[j].children.len();
        let cx = crate::node::child_x(px, viewport_width);
        let cy = crate::node::child_y(py, count, viewport_width);
        let id = self.next_id;
        self.next_id = self.next_id + 1;
        let node = Node::new(id, text, cx, cy);
        self.nodes.push(node);
        self.nodes[j].children.push(id);
        proof {
            let a = old(self)@;
            let pid = parent_id as int;
            let p = id_index(a.nodes, pid);
            let parent = a.nodes[p];
            let spec = spec_add_child(a, pid, text@, viewport_width as int);
            assert(self@.nodes[p].children =~= parent.children.push(id as int));
            assert(self@.nodes =~= a.nodes.update(
                p,
                NodeView { children: parent.children.push(id as int), ..parent },
            ).push(
                NodeView {
                    id: id as int,
                    text: text@,
                    x: cx as int,
                    y: cy as int,
                    children: Seq::empty(),
                },
            ));
            assert(self@ =~~= spec.0);
            crate::model::lemma_add_child_wf(a, pid, text@, viewport_width as int);
        }
        Some(id)
    }

    /// The topmost node whose hit box contains `(x, y)`: nodes are tested
    /// in reverse creation order, so overlapping nodes created later take
    /// input priority.
    pub fn find_node_at(&self, x: i64, y: i64, viewport_width: u32) -> (r: Option<usize>)
        requires
            self.wf(),
        ensures
            crate::model::opt_id_view(r) == find_at(
                self@.nodes,
                x as int,
                y as int,
                viewport_width as int,
            ),
            r is Some ==> contains_id(self@.nodes, r->Some_0 as int),
    {
        let ghost px = x as int;
        let ghost py = y as int;
        let ghost vw = viewport_width as int;
        let n = self.nodes.len();
        let mut i: usize = n;
        proof {
            assert(self@.nodes.take(n as int) =~= self@.nodes);
        }
        while i > 0
            invariant
                i <= n,
                n == self.nodes.len(),
                self.wf(),
                px == x as int,
                py == y as int,
                vw == viewport_width as int,
                find_at(self@.nodes, px, py, vw) == find_at(self@.nodes.take(i as int), px, py, vw),
            decreases i,
        {
            i = i - 1;
            proof {
                let t = self@.nodes.take(i as int + 1);
                assert(self@.nodes[i as int] == self.nodes@[i as int]@);
                assert(t.last() == self@.nodes[i as int]);
                assert(t.drop_last() =~= self@.nodes.take(i as int));
            }
            if self.nodes[i].contains_point(x, y, viewport_width) {
                proof {
                    assert(find_at(self@.nodes, px, py, vw) == Option::Some(
                        self@.nodes[i as int].id,
                    ));
                }
                return Some(self.nodes[i].id);
            }
        }
        proof {
            assert(self@.nodes.take(0) =~= Seq::<NodeView>::empty());
        }
        None
    }

    /// Ids of all nodes whose center point lies in the closed rectangle
    /// spanned by the two corners, in storage order.  Centers, not boxes:
    /// a node whose box merely overlaps the rectangle is not collected.
    pub fn find_nodes_in_rect(
        &self,
        x1: i64,
        y1: i64,
        x2: i64,
        y2: i64,
        _viewport_width: u32,
    ) -> (r: Vec<usize>)
        requires
            self.wf(),
        ensures
            ids_view(r@) == nodes_in_rect(
                self@.nodes,
                x1 as int,
                y1 as int,
                x2 as int,
                y2 as int,
            ),
    {
        let ghost gx1 = x1 as int;
        let ghost gy1 = y1 as int;
        let ghost gx2 = x2 as int;
        let ghost gy2 = y2 as int;
        let min_x: i64 = if x1 <= x2 {
            x1
        } else {
            x2
        };
        let max_x: i64 = if x1 <= x2 {
            x2
        } else {
            x1
        };
        let min_y: i64 = if y1 <= y2 {
            y1
        } else {
            y2
        };
        let max_y: i64 = if y1 <= y2 {
            y2
        } else {
            y1
        };
        let n = self.nodes.len();
        let mut r: Vec<usize> = Vec::new();
        let mut i: usize = 0;
        proof {
            assert(self@.nodes.skip(0) =~= self@.nodes);
            assert(ids_view(r@) =~= Seq::<int>::empty());
        }
        while i < n
            invariant
                i <= n,
                n == self.nodes.len(),
                self.wf(),
                gx1 == x1 as int,
                gy1 == y1 as int,
                gx2 == x2 as int,
                gy2 == y2 as int,
                min_x == if x1 <= x2 { x1 } else { x2 },
                max_x == if x1 <= x2 { x2 } else { x1 },
                min_y == if y1 <= y2 { y1 } else { y2 },
                max_y == if y1 <= y2 { y2 } else { y1 },
                nodes_in_rect(self@.nodes, gx1, gy1, gx2, gy2) == ids_view(r@) + nodes_in_rect(
                    self@.nodes.skip(i as int),
                    gx1,
                    gy1,
                    gx2,
                    gy2,
                ),
            decreases n - i,
        {
            proof {
                let s = self@.nodes.skip(i as int);
                assert(self@.nodes[i as int] == self.nodes@[i as int]@);
                assert(s[0] == self@.nodes[i as int]);
                assert(s.drop_first() =~= self@.nodes.skip(i as int + 1));
            }
            let ghost r0 = r@;
            let node = &self.nodes[i];
            if node.x >= min_x && node.x <= max_x && node.y >= min_y && node.y <= max_y {
                r.push(node.id);
                proof {
                    assert(ids_view(r@) =~= ids_view(r0).push(self@.nodes[i as int].id));
                    assert(ids_view(r0).push(self@.nodes[i as int].id) + nodes_in_rect(
                        self@.nodes.skip(i as int + 1),
                        gx1,
                        gy1,
                        gx2,
                        gy2,
                    ) =~= ids_view(r0) + (seq![self@.nodes[i as int].id] + nodes_in_rect(
                        self@.nodes.skip(i as int + 1),
                        gx1,
                        gy1,
                        gx2,
                        gy2,
                    )));
                }
            }
            i = i + 1;
        }
        proof {
            assert(self@.nodes.skip(n as int) =~= Seq::<NodeView>::empty());
            assert(ids_view(r@) + nodes_in_rect(
                Seq::<NodeView>::empty(),
                gx1,
                gy1,
                gx2,
                gy2,
            ) =~= ids_view(r@));
        }
        r
    }

    /// Deletes `id` together with its whole subtree: every descendant
    /// leaves the store, every remaining children list, the selection and
    /// the drag bookkeeping.  Deleting the root or an absent id is refused
    /// and changes nothing.
    pub fn delete_node(&mut self, id: usize) -> (deleted: bool)
        requires
            old(self).wf(),
        ensures
            final(self).wf(),
            final(self)@ == spec_delete(old(self)@, id as int).0,
            deleted == spec_delete(old(self)@, id as int).1,
    {
        let ghost gid = id as int;
        if let Some(r) = self.root_id {
            if r == id {
                return false;
            }
        }
        if self.find_index(id).is_none() {
            return false;
        }
        // Mark the subtree in one forward sweep: children are always stored
        // after their parents.
        let ghost nodes0 = self@.nodes;
        let mut doomed: Vec<usize> = Vec::new();
        doomed.push(id);
        proof {
            assert(ids_view(doomed@) =~= seq![gid]);
            assert(ids_view(doomed@).to_set() =~= Set::empty().insert(gid)) by {
                assert forall|y: int| ids_view(doomed@).to_set().contains(y) implies y == gid by {
                    let j = choose|j: int|
                        0 <= j < ids_view(doomed@).len() && ids_view(doomed@)[j] == y;
                }
                assert(ids_view(doomed@)[0] == gid);
                assert(ids_view(doomed@).contains(gid));
            }
        }
        let n = self.nodes.len();
        let mut i: usize = 0;
        while i < n
            invariant
                i <= n,
                n == self.nodes.len(),
                self.wf(),
                self@.nodes == nodes0,
                subtree_ids(nodes0, gid) == mark_from(
                    nodes0,
                    i as int,
                    ids_view(doomed@).to_set(),
                ),
            decreases n - i,
        {
            let ghost dset0 = ids_view(doomed@).to_set();
            proof {
                assert(nodes0[i as int] == self.nodes@[i as int]@);
            }
            let hit = vec_has(&doomed, self.nodes[i].id);
            if hit {
                let m = self.nodes[i].children.len();
                let ghost cs = nodes0[i as int].children;
                proof {
                    assert(cs.take(0).to_set() =~= Set::<int>::empty());
                    assert(dset0.union(cs.take(0).to_set()) =~= dset0);
                }
                let mut k: usize = 0;
                while k < m
                    invariant
                        k <= m,
                        i < n,
                        n == self.nodes.len(),
                        self@.nodes == nodes0,
                        cs == nodes0[i as int].children,
                        m == cs.len(),
                        ids_view(doomed@).to_set() == dset0.union(cs.take(k as int).to_set()),
                    decreases m - k,
                {
                    let c = self.nodes[i].children[k];
                    proof {
                        assert(nodes0[i as int] == self.nodes@[i as int]@);
                        assert(cs[k as int] == c as int);
                    }
                    let ghost before = ids_view(doomed@);
                    doomed.push(c);
                    proof {
                        assert(ids_view(doomed@) =~= before.push(c as int));
                        assert(ids_view(doomed@).to_set() =~= before.to_set().insert(c as int))
                            by {
                            assert forall|y: int|
                                ids_view(doomed@).to_set().contains(y) implies before.to_set()
                                .insert(c as int).contains(y) by {
                                let j = choose|j: int|
                                    0 <= j < ids_view(doomed@).len() && ids_view(doomed@)[j] == y;
                                if j < before.len() {
                                    assert(before[j] == y);
                                    assert(before.contains(y));
                                }
                            }
                            assert forall|y: int|
                                before.to_set().insert(c as int).contains(y) implies ids_view(
                                doomed@,
                            ).to_set().contains(y) by {
                                if before.to_set().contains(y) {
                                    let j = choose|j: int|
                                        0 <= j < before.len() && before[j] == y;
                                    assert(ids_view(doomed@)[j] == y);
                                } else {
                                    assert(ids_view(doomed@).last() == y);
                                }
                                assert(ids_view(doomed@).contains(y));
                            }
                        }
                        crate::model::lemma_take_step_to_set(cs, k as int);
                        assert(dset0.union(cs.take(k as int + 1).to_set()) =~= dset0.union(
                            cs.take(k as int).to_set(),
                        ).insert(cs[k as int]));
                    }
                    k = k + 1;
                }
                proof {
                    assert(cs.take(m as int) =~= cs);
                    assert(dset0.contains(nodes0[i as int].id));
                    assert(ids_view(doomed@).to_set() =~= mark_children(dset0, nodes0[i as int]));
                }
            } else {
                proof {
                    assert(ids_view(doomed@).to_set() == mark_children(dset0, nodes0[i as int]));
                }
            }
            i = i + 1;
        }
        let ghost d = subtree_ids(nodes0, gid);
        proof {
            assert(d == ids_view(doomed@).to_set());
        }
        // Rebuild the store without the marked nodes, stripping marked ids
        // out of the surviving children lists.
        let mut new_nodes: Vec<Node> = Vec::new();
        proof {
            assert(nodes0.skip(0) =~= nodes0);
            assert(views_of(new_nodes@) =~= Seq::<NodeView>::empty());
            assert(remove_marked(nodes0, d) =~= views_of(new_nodes@) + remove_marked(
                nodes0.skip(0),
                d,
            ));
        }
        let mut i: usize = 0;
        while i < n
            invariant
                i <= n,
                n == self.nodes.len(),
                self@.nodes == nodes0,
                d == ids_view(doomed@).to_set(),
                remove_marked(nodes0, d) == views_of(new_nodes@) + remove_marked(
                    nodes0.skip(i as int),
                    d,
                ),
            decreases n - i,
        {
            proof {
                let s = nodes0.skip(i as int);
                assert(nodes0[i as int] == self.nodes@[i as int]@);
                assert(s[0] == nodes0[i as int]);
                assert(s.drop_first() =~= nodes0.skip(i as int + 1));
            }
            let ghost acc0 = views_of(new_nodes@);
            if !vec_has(&doomed, self.nodes[i].id) {
                let ghost cs = nodes0[i as int].children;
                let m = self.nodes[i].children.len();
                let mut kids: Vec<usize> = Vec::new();
                proof {
                    assert(cs.skip(0) =~= cs);
                    assert(ids_view(kids@) =~= Seq::<int>::empty());
                    assert(filter_ids(cs, d) =~= ids_view(kids@) + filter_ids(cs.skip(0), d));
                }
                let mut k: usize = 0;
                while k < m
                    invariant
                        k <= m,
                        i < n,
                        n == self.nodes.len(),
                        self@.nodes == nodes0,
                        cs == nodes0[i as int].children,
                        m == cs.len(),
                        d == ids_view(doomed@).to_set(),
                        filter_ids(cs, d) == ids_view(kids@) + filter_ids(cs.skip(k as int), d),
                    decreases m - k,
                {
                    proof {
                        assert(nodes0[i as int] == self.nodes@[i as int]@);
                        assert(cs.skip(k as int)[0] == cs[k as int]);
                        assert(cs.skip(k as int).drop_first() =~= cs.skip(k as int + 1));
                    }
                    let c = self.nodes[i].children[k];
                    proof {
                        assert(cs[k as int] == c as int);
                    }
                    let ghost kids0 = ids_view(kids@);
                    if !vec_has(&doomed, c) {
                        kids.push(c);
                        proof {
                            assert(ids_view(kids@) =~= kids0.push(c as int));
                            assert(kids0.push(c as int) + filter_ids(cs.skip(k as int + 1), d)
                                =~= kids0 + (seq![c as int] + filter_ids(
                                cs.skip(k as int + 1),
                                d,
                            )));
                        }
                    }
                    k = k + 1;
                }
                proof {
                    assert(cs.skip(m as int) =~= Seq::<int>::empty());
                    assert(ids_view(kids@) + filter_ids(Seq::<int>::empty(), d) =~= ids_view(
                        kids@,
                    ));
                    assert(ids_view(kids@) == filter_ids(cs, d));
                }
                let nd = Node {
                    id: self.nodes[i].id,
                    text: self.nodes[i].text.clone(),
                    x: self.nodes[i].x,
                    y: self.nodes[i].y,
                    children: kids,
                };
                new_nodes.push(nd);
                proof {
                    assert(nd@ =~= strip_node(nodes0[i as int], d));
                    assert(views_of(new_nodes@) =~= acc0.push(strip_node(nodes0[i as int], d)));
                    assert(acc0.push(strip_node(nodes0[i as int], d)) + remove_marked(
                        nodes0.skip(i as int + 1),
                        d,
                    ) =~= acc0 + (seq![strip_node(nodes0[i as int], d)] + remove_marked(
                        nodes0.skip(i as int + 1),
                        d,
                    )));
                }
            }
            i = i + 1;
        }
        proof {
            assert(nodes0.skip(n as int) =~= Seq::<NodeView>::empty());
            assert(views_of(new_nodes@) + remove_marked(Seq::<NodeView>::empty(), d) =~= views_of(
                new_nodes@,
            ));
        }
        self.nodes = new_nodes;
        // Drop the marked ids from the selection.
        let ghost sel0 = ids_view(self.selected_nodes@);
        let sn = self.selected_nodes.len();
        let mut sel: Vec<usize> = Vec::new();
        proof {
            assert(sel0.skip(0) =~= sel0);
            assert(ids_view(sel@) =~= Seq::<int>::empty());
            assert(filter_ids(sel0, d) =~= ids_view(sel@) + filter_ids(sel0.skip(0), d));
        }
        let mut i: usize = 0;
        while i < sn
            invariant
                i <= sn,
                sn == self.selected_nodes.len(),
                sel0 == ids_view(self.selected_nodes@),
                d == ids_view(doomed@).to_set(),
                filter_ids(sel0, d) == ids_view(sel@) + filter_ids(sel0.skip(i as int), d),
            decreases sn - i,
        {
            proof {
                assert(sel0.skip(i as int)[0] == sel0[i as int]);
                assert(sel0.skip(i as int).drop_first() =~= sel0.skip(i as int + 1));
                assert(sel0[i as int] == self.selected_nodes@[i as int] as int);
            }
            let s = self.selected_nodes[i];
            let ghost acc0 = ids_view(sel@);
            if !vec_has(&doomed, s) {
                sel.push(s);
                proof {
                    assert(ids_view(sel@) =~= acc0.push(s as int));
                    assert(acc0.push(s as int) + filter_ids(sel0.skip(i as int + 1), d) =~= acc0
                        + (seq![s as int] + filter_ids(sel0.skip(i as int + 1), d)));
                }
            }
            i = i + 1;
        }
        proof {
            assert(sel0.skip(sn as int) =~= Seq::<int>::empty());
            assert(ids_view(sel@) + filter_ids(Seq::<int>::empty(), d) =~= ids_view(sel@));
        }
        self.selected_nodes = sel;
        // Drop the marked ids from the drag bookkeeping.
        let ghost offs0 = old(self)@.drag_offsets;
        let on = self.drag_offsets.len();
        let mut offs: Vec<DragOffset> = Vec::new();
        proof {
            assert(offs0 == self.drag_offsets@.map_values(|o: DragOffset| o@));
            assert(offs0.skip(0) =~= offs0);
            assert(offs@.map_values(|o: DragOffset| o@) =~= Seq::<DragView>::empty());
            assert(filter_drags(offs0, d) =~= offs@.map_values(|o: DragOffset| o@) + filter_drags(
                offs0.skip(0),
                d,
            ));
        }
        let mut i: usize = 0;
        while i < on
            invariant
                i <= on,
                on == self.drag_offsets.len(),
                offs0 == self.drag_offsets@.map_values(|o: DragOffset| o@),
                d == ids_view(doomed@).to_set(),
                filter_drags(offs0, d) == offs@.map_values(|o: DragOffset| o@) + filter_drags(
                    offs0.skip(i as int),
                    d,
                ),
            decreases on - i,
        {
            proof {
                assert(offs0.skip(i as int)[0] == offs0[i as int]);
                assert(offs0.skip(i as int).drop_first() =~= offs0.skip(i as int + 1));
                assert(offs0[i as int] == self.drag_offsets@[i as int]@);
            }
            let o = self.drag_offsets[i];
            let ghost acc0 = offs@.map_values(|q: DragOffset| q@);
            if !vec_has(&doomed, o.id) {
                offs.push(o);
                proof {
                    assert(offs@.map_values(|q: DragOffset| q@) =~= acc0.push(o@));
                    assert(acc0.push(o@) + filter_drags(offs0.skip(i as int + 1), d) =~= acc0 + (
                    seq![o@] + filter_drags(offs0.skip(i as int + 1), d)));
                }
            }
            i = i + 1;
        }
        proof {
            assert(offs0.skip(on as int) =~= Seq::<DragView>::empty());
            assert(offs@.map_values(|o: DragOffset| o@) + filter_drags(
                Seq::<DragView>::empty(),
                d,
            ) =~= offs@.map_values(|o: DragOffset| o@));
        }
        self.drag_offsets = offs;
        proof {
            assert(self@ =~~= spec_delete(old(self)@, gid).0);
            lemma_delete_wf(old(self)@, gid);
        }
        true
    }

    /// Collapses the selection to the single node `id`.
    pub fn select_single(&mut self, id: usize)
        requires
            old(self).wf(),
            contains_id(old(self)@.nodes, id as int),
        ensures
            final(self).wf(),
            final(self)@ == (MindMapView { selected: seq![id as int], ..old(self)@ }),
    {
        let mut sel: Vec<usize> = Vec::new();
        sel.push(id);
        self.selected_nodes = sel;
        proof {
            assert(self@.selected =~= seq![id as int]);
            assert(self@ =~~= (MindMapView { selected: seq![id as int], ..old(self)@ }));
            assert(store_wf(self@));
        }
    }

    /// Replaces the selection wholesale.
    pub fn set_selection(&mut self, ids: Vec<usize>)
        requires
            old(self).wf(),
            id_list_wf(old(self)@.nodes, ids_view(ids@)),
        ensures
            final(self).wf(),
            final(self)@ == (MindMapView { selected: ids_view(ids@), ..old(self)@ }),
    {
        self.selected_nodes = ids;
        proof {
            assert(self@ =~~= (MindMapView { selected: ids_view(ids@), ..old(self)@ }));
            assert(store_wf(self@));
        }
    }

    /// Forgets all drag bookkeeping.
    pub fn clear_drag_offsets(&mut self)
        requires
            old(self).wf(),
        ensures
            final(self).wf(),
            final(self)@ == (MindMapView { drag_offsets: Seq::empty(), ..old(self)@ }),
    {
        self.drag_offsets = Vec::new();
        proof {
            assert(self@.drag_offsets =~= Seq::<DragView>::empty());
            assert(self@ =~~= (MindMapView { drag_offsets: Seq::<DragView>::empty(), ..old(self)@ }));
            assert(store_wf(self@));
        }
    }

    /// Captures, for every selected node, its offset from the pointer's
    /// virtual position, so a following drag moves the whole selection
    /// rigidly.
    pub fn capture_drag_offsets(&mut self, vx: i64, vy: i64)
        requires
            old(self).wf(),
        ensures
            final(self).wf(),
            final(self)@ == (MindMapView {
                drag_offsets: capture_offsets(
                    old(self)@.nodes,
                    old(self)@.selected,
                    vx as int,
                    vy as int,
                ),
                ..old(self)@
            }),
    {
        let ghost target = capture_offsets(old(self)@.nodes, old(self)@.selected, vx as int, vy as int);
        let n = self.selected_nodes.len();
        let mut offs: Vec<DragOffset> = Vec::new();
        let mut k: usize = 0;
        while k < n
            invariant
                k <= n,
                n == self.selected_nodes.len(),
                self.wf(),
                self@ == old(self)@,
                target == capture_offsets(self@.nodes, self@.selected, vx as int, vy as int),
                offs@.map_values(|o: DragOffset| o@) == target.take(k as int),
            decreases n - k,
        {
            let id = self.selected_nodes[k];
            proof {
                assert(self@.selected[k as int] == id as int);
                assert(contains_id(self@.nodes, id as int));
            }
            let j = match self.find_index(id) {
                Some(j) => j,
                None => {
                    proof {
                        assert(false);
                    }
                    0
                },
            };
            let dx = crate::coord::sat_sub(vx, self.nodes[j].x);
            let dy = crate::coord::sat_sub(vy, self.nodes[j].y);
            let ghost acc0 = offs@.map_values(|o: DragOffset| o@);
            offs.push(DragOffset { id, dx, dy });
            proof {
                assert(self@.nodes[j as int] == self.nodes@[j as int]@);
                assert(node_at(self@.nodes, id as int) == self@.nodes[j as int]);
                assert(target[k as int] == (DragView {
                    id: id as int,
                    dx: dx as int,
                    dy: dy as int,
                }));
                assert(offs@.map_values(|o: DragOffset| o@) =~= acc0.push(target[k as int]));
                assert(target.take(k as int + 1) =~= target.take(k as int).push(target[k as int]));
            }
            k = k + 1;
        }
        self.drag_offsets = offs;
        proof {
            assert(target.take(n as int) =~= target);
            assert(self@ =~~= (MindMapView { drag_offsets: target, ..old(self)@ }));
            assert(drag_ids(target) =~= old(self)@.selected);
            assert(store_wf(self@));
        }
    }

    /// Moves every node with a captured offset so that it keeps that offset
    /// to the pointer's virtual position; everything else stays put.
    pub fn move_dragged(&mut self, vx: i64, vy: i64)
        requires
            old(self).wf(),
        ensures
            final(self).wf(),
            final(self)@ == (MindMapView {
                nodes: apply_drag(
                    old(self)@.nodes,
                    old(self)@.drag_offsets,
                    vx as int,
                    vy as int,
                ),
                ..old(self)@
            }),
    {
        let ghost nodes0 = old(self)@.nodes;
        let ghost offs0 = old(self)@.drag_offsets;
        let ghost gvx = vx as int;
        let ghost gvy = vy as int;
        proof {
            assert(apply_drag(nodes0, offs0.take(0), gvx, gvy) =~= nodes0) by {
                assert(forall|id: int| !has_drag(offs0.take(0), id));
            }
        }
        let n = self.drag_offsets.len();
        let mut k: usize = 0;
        while k < n
            invariant
                k <= n,
                n == self.drag_offsets.len(),
                self.wf(),
                nodes0 == old(self)@.nodes,
                offs0 == old(self)@.drag_offsets,
                gvx == vx as int,
                gvy == vy as int,
                self@ == (MindMapView {
                    nodes: apply_drag(nodes0, offs0.take(k as int), gvx, gvy),
                    ..old(self)@
                }),
            decreases n - k,
        {
            let ghost cur = self@.nodes;
            let o = self.drag_offsets[k];
            proof {
                assert(o@ == offs0[k as int]);
                assert(drag_ids(offs0)[k as int] == o.id as int);
                assert(contains_id(nodes0, o.id as int));
                assert(cur.len() == nodes0.len());
                assert(forall|i: int|
                    0 <= i < nodes0.len() ==> #[trigger] cur[i].id == nodes0[i].id
                        && cur[i].text == nodes0[i].text && cur[i].children == nodes0[i].children);
                assert(contains_id(cur, o.id as int)) by {
                    let i = choose|i: int| 0 <= i < nodes0.len() && nodes0[i].id == o.id as int;
                    assert(cur[i].id == o.id as int);
                }
            }
            let x = crate::coord::sat_sub(vx, o.dx);
            let y = crate::coord::sat_sub(vy, o.dy);
            self.set_position(o.id, x, y);
            proof {
                let oid = o.id as int;
                let t0 = offs0.take(k as int);
                let t1 = offs0.take(k as int + 1);
                let prev = apply_drag(nodes0, t0, gvx, gvy);
                let next = apply_drag(nodes0, t1, gvx, gvy);
                assert(prev == cur);
                let j = id_index(cur, oid);
                assert(ids_increasing(cur)) by {
                    assert(forall|a: int, b: int|
                        0 <= a < b < cur.len() ==> cur[a].id == nodes0[a].id && cur[b].id
                            == nodes0[b].id);
                }
                crate::model::lemma_id_index(cur, oid);
                // Entry k is the only one for this id, so earlier steps left
                // its node alone.
                assert(no_dups(drag_ids(offs0)));
                assert(!has_drag(t0, oid)) by {
                    if has_drag(t0, oid) {
                        let a = choose|a: int| 0 <= a < t0.len() && t0[a].id == oid;
                        assert(drag_ids(offs0)[a] == oid);
                        assert(drag_ids(offs0)[k as int] == oid);
                    }
                }
                assert(has_drag(t1, oid)) by {
                    assert(t1[k as int].id == oid);
                }
                assert(drag_at(t1, oid) == offs0[k as int]) by {
                    let a = choose|a: int| 0 <= a < t1.len() && t1[a].id == oid;
                    if a < k as int {
                        assert(drag_ids(offs0)[a] == oid);
                        assert(drag_ids(offs0)[k as int] == oid);
                    }
                }
                assert(self@.nodes == cur.update(
                    j,
                    NodeView { x: x as int, y: y as int, ..node_at(cur, oid) },
                ));
                assert forall|i: int| 0 <= i < nodes0.len() implies #[trigger] self@.nodes[i]
                    == next[i] by {
                    if i == j {
                        assert(cur[j].id == oid);
                        assert(!has_drag(t0, nodes0[j].id));
                        assert(cur[j] == nodes0[j]);
                        assert(next[j] == (NodeView {
                            x: crate::coord::sat64(gvx - offs0[k as int].dx),
                            y: crate::coord::sat64(gvy - offs0[k as int].dy),
                            ..nodes0[j]
                        }));
                    } else {
                        assert(nodes0[i].id != oid) by {
                            assert(cur[i].id == nodes0[i].id);
                            if nodes0[i].id == oid {
                                assert(cur[i].id == oid);
                            }
                        }
                        assert(has_drag(t1, nodes0[i].id) == has_drag(t0, nodes0[i].id)) by {
                            if has_drag(t1, nodes0[i].id) {
                                let a = choose|a: int|
                                    0 <= a < t1.len() && t1[a].id == nodes0[i].id;
                                assert(a != k as int);
                                assert(t0[a].id == nodes0[i].id);
                            }
                            if has_drag(t0, nodes0[i].id) {
                                let a = choose|a: int|
                                    0 <= a < t0.len() && t0[a].id == nodes0[i].id;
                                assert(t1[a].id == nodes0[i].id);
                            }
                        }
                        if has_drag(t0, nodes0[i].id) {
                            assert(drag_at(t1, nodes0[i].id) == drag_at(t0, nodes0[i].id)) by {
                                let a = choose|a: int|
                                    0 <= a < t1.len() && t1[a].id == nodes0[i].id;
                                let b = choose|b: int|
                                    0 <= b < t0.len() && t0[b].id == nodes0[i].id;
                                assert(drag_ids(offs0)[a] == nodes0[i].id);
                                assert(drag_ids(offs0)[b] == nodes0[i].id);
                                assert(a == b);
                            }
                        }
                        assert(self@.nodes[i] == cur[i]);
                    }
                }
                assert(self@.nodes =~= next);
                assert(self@ =~~= (MindMapView { nodes: next, ..old(self)@ }));
            }
            k = k + 1;
        }
        proof {
            assert(offs0.take(n as int) =~= offs0);
        }
    }

    /// Whether `id` is currently selected.
    pub fn is_selected(&self, id: usize) -> (r: bool)
        ensures
            r == self@.selected.contains(id as int),
    {
        let n = self.selected_nodes.len();
        let mut i: usize = 0;
        while i < n
            invariant
                i <= n,
                n == self.selected_nodes.len(),
                forall|k: int| 0 <= k < i ==> #[trigger] self@.selected[k] != id as int,
            decreases n - i,
        {
            if self.selected_nodes[i] == id {
                proof {
                    assert(self@.selected[i as int] == id as int);
                }
                return true;
            }
            i = i + 1;
        }
        proof {
            if self@.selected.contains(id as int) {
                let j = choose|j: int|
                    0 <= j < self@.selected.len() && self@.selected[j] == id as int;
            }
        }
        false
    }
}

} // verus!
