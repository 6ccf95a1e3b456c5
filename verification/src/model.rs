//! Mathematical model of the node store.
//!
//! The store is pictured as a sequence of [`NodeView`]s in creation order,
//! together with the id counter, the root id, the selection and the drag
//! bookkeeping.  Every operation of the store has its meaning given by a
//! spec function over this picture, and the well-formedness predicate
//! [`store_wf`] collects the tree invariants that all operations preserve.

use crate::node::{Node, NodeView};
use vstd::prelude::*;

verus! {

/// Drag bookkeeping for one node: the pointer-to-node offset captured when
/// the drag started.
#[verifier::ext_equal]
pub ghost struct DragView {
    pub id: int,
    pub dx: int,
    pub dy: int,
}

/// Mathematical image of the whole store.
#[verifier::ext_equal]
pub ghost struct MindMapView {
    pub nodes: Seq<NodeView>,
    pub next_id: int,
    pub root_id: Option<int>,
    pub selected: Seq<int>,
    pub drag_offsets: Seq<DragView>,
}

pub open spec fn views_of(nodes: Seq<Node>) -> Seq<NodeView> {
    nodes.map_values(|n: Node| n@)
}

pub open spec fn ids_view(ids: Seq<usize>) -> Seq<int> {
    ids.map_values(|c: usize| c as int)
}

pub open spec fn contains_id(nodes: Seq<NodeView>, id: int) -> bool {
    exists|i: int| 0 <= i < nodes.len() && nodes[i].id == id
}

/// The index holding `id`; meaningful only when `contains_id` holds and ids
/// are unique.
pub open spec fn id_index(nodes: Seq<NodeView>, id: int) -> int {
    choose|i: int| 0 <= i < nodes.len() && nodes[i].id == id
}

pub open spec fn node_at(nodes: Seq<NodeView>, id: int) -> NodeView {
    nodes[id_index(nodes, id)]
}

/// Whether `id` occurs in some node's children list.
pub open spec fn is_child(nodes: Seq<NodeView>, id: int) -> bool {
    exists|i: int, k: int|
        0 <= i < nodes.len() && 0 <= k < nodes[i].children.len() && nodes[i].children[k] == id
}

pub open spec fn no_dups(s: Seq<int>) -> bool {
    forall|i: int, j: int| 0 <= i < j < s.len() ==> s[i] != s[j]
}

/// Ids are strictly increasing in storage order: nodes are stored in
/// creation order and ids are assigned monotonically.
pub open spec fn ids_increasing(nodes: Seq<NodeView>) -> bool {
    forall|i: int, j: int| 0 <= i < j < nodes.len() ==> nodes[i].id < nodes[j].id
}

pub open spec fn ids_bounded(nodes: Seq<NodeView>, next_id: int) -> bool {
    forall|i: int| 0 <= i < nodes.len() ==> 0 <= #[trigger] nodes[i].id < next_id
}

/// Every child id names a stored node, and a child is always created after
/// its parent, so its id is strictly greater.
pub open spec fn children_wf(nodes: Seq<NodeView>) -> bool {
    forall|i: int, k: int|
        0 <= i < nodes.len() && 0 <= k < nodes[i].children.len() ==> {
            &&& contains_id(nodes, #[trigger] nodes[i].children[k])
            &&& nodes[i].children[k] > nodes[i].id
        }
}

/// No id appears twice in one children list.
pub open spec fn children_lists_no_dups(nodes: Seq<NodeView>) -> bool {
    forall|i: int| 0 <= i < nodes.len() ==> no_dups(#[trigger] nodes[i].children)
}

/// No id appears in the children lists of two different parents.
pub open spec fn children_disjoint(nodes: Seq<NodeView>) -> bool {
    forall|i: int, j: int, c: int|
        0 <= i < nodes.len() && 0 <= j < nodes.len() && #[trigger] nodes[i].children.contains(c)
            && #[trigger] nodes[j].children.contains(c) ==> i == j
}

/// Once the store holds anything it holds the root, and the root is nobody's
/// child.
pub open spec fn root_wf(nodes: Seq<NodeView>, root_id: Option<int>) -> bool {
    match root_id {
        Option::None => nodes.len() == 0,
        Option::Some(r) => contains_id(nodes, r) && !is_child(nodes, r),
    }
}

/// A list of ids acting as a set over stored nodes: no duplicates, every
/// member stored.
pub open spec fn id_list_wf(nodes: Seq<NodeView>, ids: Seq<int>) -> bool {
    &&& no_dups(ids)
    &&& forall|k: int| 0 <= k < ids.len() ==> contains_id(nodes, #[trigger] ids[k])
}

pub open spec fn drag_ids(offs: Seq<DragView>) -> Seq<int> {
    offs.map_values(|o: DragView| o.id)
}

pub open spec fn drag_wf(nodes: Seq<NodeView>, offs: Seq<DragView>) -> bool {
    id_list_wf(nodes, drag_ids(offs))
}

/// The store's tree invariants.
pub open spec fn store_wf(m: MindMapView) -> bool {
    &&& ids_increasing(m.nodes)
    &&& ids_bounded(m.nodes, m.next_id)
    &&& children_wf(m.nodes)
    &&& children_lists_no_dups(m.nodes)
    &&& children_disjoint(m.nodes)
    &&& root_wf(m.nodes, m.root_id)
    &&& id_list_wf(m.nodes, m.selected)
    &&& drag_wf(m.nodes, m.drag_offsets)
}

/// Hit testing in reverse storage order: the node drawn last wins.
pub open spec fn find_at(nodes: Seq<NodeView>, px: int, py: int, vw: int) -> Option<int>
    decreases nodes.len(),
{
    if nodes.len() == 0 {
        Option::None
    } else if crate::node::spec_contains_point(nodes.last(), px, py, vw) {
        Option::Some(nodes.last().id)
    } else {
        find_at(nodes.drop_last(), px, py, vw)
    }
}

/// Center-point containment in the rectangle spanned by `(x1, y1)` and
/// `(x2, y2)` after normalizing each axis; both borders count.
pub open spec fn in_rect(n: NodeView, x1: int, y1: int, x2: int, y2: int) -> bool {
    let min_x = if x1 <= x2 { x1 } else { x2 };
    let max_x = if x1 <= x2 { x2 } else { x1 };
    let min_y = if y1 <= y2 { y1 } else { y2 };
    let max_y = if y1 <= y2 { y2 } else { y1 };
    min_x <= n.x <= max_x && min_y <= n.y <= max_y
}

/// Ids of all nodes whose center lies in the rectangle, in storage order.
pub open spec fn nodes_in_rect(nodes: Seq<NodeView>, x1: int, y1: int, x2: int, y2: int) -> Seq<
    int,
>
    decreases nodes.len(),
{
    if nodes.len() == 0 {
        Seq::empty()
    } else if in_rect(nodes[0], x1, y1, x2, y2) {
        seq![nodes[0].id] + nodes_in_rect(nodes.drop_first(), x1, y1, x2, y2)
    } else {
        nodes_in_rect(nodes.drop_first(), x1, y1, x2, y2)
    }
}

/// How many times `x` occurs in `s`.
pub open spec fn count_of(s: Seq<int>, x: int) -> int
    decreases s.len(),
{
    if s.len() == 0 {
        0
    } else {
        (if s[0] == x {
            1int
        } else {
            0int
        }) + count_of(s.drop_first(), x)
    }
}

/// One marking step: a node already marked dooms all its children.
pub open spec fn mark_children(s: Set<int>, n: NodeView) -> Set<int> {
    if s.contains(n.id) {
        s.union(n.children.to_set())
    } else {
        s
    }
}

/// Forward sweep from index `i`: since every child is stored after its
/// parent, one sweep reaches the whole subtree.
pub open spec fn mark_from(nodes: Seq<NodeView>, i: int, s: Set<int>) -> Set<int>
    decreases nodes.len() - i,
{
    if 0 <= i < nodes.len() {
        mark_from(nodes, i + 1, mark_children(s, nodes[i]))
    } else {
        s
    }
}

/// The ids of `id` and all its descendants.
pub open spec fn subtree_ids(nodes: Seq<NodeView>, id: int) -> Set<int> {
    mark_from(nodes, 0, Set::empty().insert(id))
}

/// `s` with every id in `d` dropped, order kept.
pub open spec fn filter_ids(s: Seq<int>, d: Set<int>) -> Seq<int>
    decreases s.len(),
{
    if s.len() == 0 {
        Seq::empty()
    } else if d.contains(s[0]) {
        filter_ids(s.drop_first(), d)
    } else {
        seq![s[0]] + filter_ids(s.drop_first(), d)
    }
}

pub open spec fn filter_drags(offs: Seq<DragView>, d: Set<int>) -> Seq<DragView>
    decreases offs.len(),
{
    if offs.len() == 0 {
        Seq::empty()
    } else if d.contains(offs[0].id) {
        filter_drags(offs.drop_first(), d)
    } else {
        seq![offs[0]] + filter_drags(offs.drop_first(), d)
    }
}

/// A surviving node keeps everything but its doomed children.
pub open spec fn strip_node(n: NodeView, d: Set<int>) -> NodeView {
    NodeView { children: filter_ids(n.children, d), ..n }
}

/// The store's nodes after deleting the marked set: marked nodes vanish,
/// the rest lose their marked children, order is kept.
pub open spec fn remove_marked(nodes: Seq<NodeView>, d: Set<int>) -> Seq<NodeView>
    decreases nodes.len(),
{
    if nodes.len() == 0 {
        Seq::empty()
    } else if d.contains(nodes[0].id) {
        remove_marked(nodes.drop_first(), d)
    } else {
        seq![strip_node(nodes[0], d)] + remove_marked(nodes.drop_first(), d)
    }
}

/// Deletion: the root and absent ids are refused without mutation;
/// otherwise the whole subtree leaves the store, every remaining children
/// list, the selection and the drag bookkeeping.
pub open spec fn spec_delete(m: MindMapView, id: int) -> (MindMapView, bool) {
    if m.root_id == Option::Some(id) || !contains_id(m.nodes, id) {
        (m, false)
    } else {
        let d = subtree_ids(m.nodes, id);
        (
            MindMapView {
                nodes: remove_marked(m.nodes, d),
                selected: filter_ids(m.selected, d),
                drag_offsets: filter_drags(m.drag_offsets, d),
                ..m
            },
            true,
        )
    }
}

/// Deleting a batch of ids left to right, reporting whether any succeeded.
pub open spec fn spec_delete_seq(m: MindMapView, ids: Seq<int>, i: int) -> (MindMapView, bool)
    decreases ids.len() - i,
{
    if 0 <= i < ids.len() {
        let (m1, r1) = spec_delete(m, ids[i]);
        let (m2, r2) = spec_delete_seq(m1, ids, i + 1);
        (m2, r1 || r2)
    } else {
        (m, false)
    }
}

/// Adding a child: a missing parent is refused without mutation; otherwise
/// the next id is allocated, the child is placed from the parent's position
/// and current child count, and appended to the parent's children.
pub open spec fn spec_add_child(m: MindMapView, parent_id: int, text: Seq<char>, vw: int) -> (
    MindMapView,
    Option<int>,
) {
    if !contains_id(m.nodes, parent_id) {
        (m, Option::None)
    } else {
        let p = id_index(m.nodes, parent_id);
        let parent = m.nodes[p];
        let child = NodeView {
            id: m.next_id,
            text: text,
            x: crate::node::spec_child_x(parent.x, vw),
            y: crate::node::spec_child_y(parent.y, parent.children.len() as int, vw),
            children: Seq::empty(),
        };
        let grown = NodeView { children: parent.children.push(m.next_id), ..parent };
        (
            MindMapView {
                nodes: m.nodes.update(p, grown).push(child),
                next_id: m.next_id + 1,
                ..m
            },
            Option::Some(m.next_id),
        )
    }
}

/// Drag capture on pointer-down: for every selected node, the offset from
/// the pointer's virtual position to the node's position.
pub open spec fn capture_offsets(nodes: Seq<NodeView>, sel: Seq<int>, vx: int, vy: int) -> Seq<
    DragView,
> {
    sel.map_values(
        |id: int|
            DragView {
                id: id,
                dx: crate::coord::sat64(vx - node_at(nodes, id).x),
                dy: crate::coord::sat64(vy - node_at(nodes, id).y),
            },
    )
}

pub open spec fn has_drag(offs: Seq<DragView>, id: int) -> bool {
    exists|k: int| 0 <= k < offs.len() && offs[k].id == id
}

pub open spec fn drag_at(offs: Seq<DragView>, id: int) -> DragView {
    offs[choose|k: int| 0 <= k < offs.len() && offs[k].id == id]
}

/// Drag application on pointer-move: every dragged node follows the pointer
/// rigidly through its captured offset; everything else stays.
pub open spec fn apply_drag(nodes: Seq<NodeView>, offs: Seq<DragView>, vx: int, vy: int) -> Seq<
    NodeView,
> {
    nodes.map_values(
        |n: NodeView|
            if has_drag(offs, n.id) {
                NodeView {
                    x: crate::coord::sat64(vx - drag_at(offs, n.id).dx),
                    y: crate::coord::sat64(vy - drag_at(offs, n.id).dy),
                    ..n
                }
            } else {
                n
            },
    )
}

// ---------------------------------------------------------------------------
// Facts about the marking sweep.
// ---------------------------------------------------------------------------
/// Marking never unmarks: the seed stays in the result.
pub proof fn lemma_mark_monotone(nodes: Seq<NodeView>, i: int, s: Set<int>)
    ensures
        s.subset_of(mark_from(nodes, i, s)),
    decreases nodes.len() - i,
{
    if 0 <= i < nodes.len() {
        lemma_mark_monotone(nodes, i + 1, mark_children(s, nodes[i]));
    }
}

/// An id that is not seeded and is nobody's child from `i` on is never
/// marked.
pub proof fn lemma_mark_no_new(nodes: Seq<NodeView>, i: int, s: Set<int>, x: int)
    requires
        !s.contains(x),
        forall|j: int| i <= j < nodes.len() ==> !#[trigger] nodes[j].children.contains(x),
    ensures
        !mark_from(nodes, i, s).contains(x),
    decreases nodes.len() - i,
{
    if 0 <= i < nodes.len() {
        assert(!nodes[i].children.contains(x));
        assert(!mark_children(s, nodes[i]).contains(x));
        lemma_mark_no_new(nodes, i + 1, mark_children(s, nodes[i]), x);
    }
}

/// The marked set is closed under children: whenever a stored node's id is
/// marked, so are all its children.  Rests on children being stored after
/// their parents (larger ids).
pub proof fn lemma_mark_closed(nodes: Seq<NodeView>, i: int, s: Set<int>, i0: int)
    requires
        ids_increasing(nodes),
        children_wf(nodes),
        0 <= i <= i0 < nodes.len(),
        mark_from(nodes, i, s).contains(nodes[i0].id),
    ensures
        forall|c: int|
            nodes[i0].children.contains(c) ==> mark_from(nodes, i, s).contains(c),
    decreases i0 - i,
{
    let s1 = mark_children(s, nodes[i]);
    if i == i0 {
        if s.contains(nodes[i0].id) {
            assert(s1 == s.union(nodes[i0].children.to_set()));
            lemma_mark_monotone(nodes, i + 1, s1);
            assert forall|c: int| nodes[i0].children.contains(c) implies mark_from(
                nodes,
                i,
                s,
            ).contains(c) by {
                assert(s1.contains(c));
            }
        } else {
            // The id could not have been marked later: every child recorded
            // from index i0 on has an id larger than nodes[i0].id.
            assert(s1 == s);
            assert forall|j: int| i0 + 1 <= j < nodes.len() implies !#[trigger] nodes[j].children.contains(
                nodes[i0].id,
            ) by {
                if nodes[j].children.contains(nodes[i0].id) {
                    let k = choose|k: int|
                        0 <= k < nodes[j].children.len() && nodes[j].children[k] == nodes[i0].id;
                    assert(nodes[j].children[k] > nodes[j].id);
                    assert(nodes[j].id > nodes[i0].id);
                }
            }
            lemma_mark_no_new(nodes, i0 + 1, s, nodes[i0].id);
            assert(false);
        }
    } else {
        lemma_mark_closed(nodes, i + 1, s1, i0);
    }
}

// ---------------------------------------------------------------------------
// Facts about filtering.
// ---------------------------------------------------------------------------
/// Membership survives the filter exactly for unmarked ids.
pub proof fn lemma_filter_ids_contains(s: Seq<int>, d: Set<int>)
    ensures
        forall|x: int|
            #[trigger] filter_ids(s, d).contains(x) <==> s.contains(x) && !d.contains(x),
    decreases s.len(),
{
    if s.len() > 0 {
        let rest = s.drop_first();
        let f = filter_ids(s, d);
        let fr = filter_ids(rest, d);
        lemma_filter_ids_contains(rest, d);
        assert forall|x: int| s.contains(x) && !d.contains(x) implies #[trigger] f.contains(x) by {
            let i = choose|i: int| 0 <= i < s.len() && s[i] == x;
            if i > 0 {
                assert(rest[i - 1] == x);
                assert(rest.contains(x));
                assert(fr.contains(x));
                let k = choose|k: int| 0 <= k < fr.len() && fr[k] == x;
                if d.contains(s[0]) {
                    assert(f[k] == x);
                } else {
                    assert(f[k + 1] == x);
                }
            } else {
                assert(f[0] == x);
            }
        }
        assert forall|x: int| #[trigger] f.contains(x) implies s.contains(x) && !d.contains(
            x,
        ) by {
            let k = choose|k: int| 0 <= k < f.len() && f[k] == x;
            if !d.contains(s[0]) && k == 0 {
                assert(s[0] == x);
            } else {
                if d.contains(s[0]) {
                    assert(fr[k] == x);
                } else {
                    assert(fr[k - 1] == x);
                }
                assert(fr.contains(x));
                assert(rest.contains(x));
                let j = choose|j: int| 0 <= j < rest.len() && rest[j] == x;
                assert(s[j + 1] == x);
            }
        }
    }
}

/// Filtering keeps a duplicate-free list duplicate-free.
pub proof fn lemma_filter_ids_no_dups(s: Seq<int>, d: Set<int>)
    requires
        no_dups(s),
    ensures
        no_dups(filter_ids(s, d)),
    decreases s.len(),
{
    if s.len() > 0 {
        let rest = s.drop_first();
        assert(no_dups(rest)) by {
            assert(forall|i: int, j: int|
                0 <= i < j < rest.len() ==> rest[i] == s[i + 1] && rest[j] == s[j + 1]);
        }
        lemma_filter_ids_no_dups(rest, d);
        lemma_filter_ids_contains(rest, d);
        if !d.contains(s[0]) {
            let f = filter_ids(s, d);
            assert(!rest.contains(s[0])) by {
                if rest.contains(s[0]) {
                    let i = choose|i: int| 0 <= i < rest.len() && rest[i] == s[0];
                    assert(s[i + 1] == s[0]);
                }
            }
            assert forall|i: int, j: int| 0 <= i < j < f.len() implies f[i] != f[j] by {
                if i == 0 {
                    assert(f[j] == filter_ids(rest, d)[j - 1]);
                    assert(filter_ids(rest, d).contains(f[j]));
                }
            }
        }
    }
}

/// Kept drag entries are exactly the old entries with unmarked ids.
pub proof fn lemma_filter_drags_elements(offs: Seq<DragView>, d: Set<int>)
    ensures
        forall|k: int|
            0 <= k < filter_drags(offs, d).len() ==> offs.contains(
                #[trigger] filter_drags(offs, d)[k],
            ) && !d.contains(filter_drags(offs, d)[k].id),
        forall|x: int|
            #[trigger] drag_ids(filter_drags(offs, d)).contains(x) <==> drag_ids(offs).contains(x)
                && !d.contains(x),
        no_dups(drag_ids(offs)) ==> no_dups(drag_ids(filter_drags(offs, d))),
    decreases offs.len(),
{
    if offs.len() > 0 {
        let rest = offs.drop_first();
        lemma_filter_drags_elements(rest, d);
        let f = filter_drags(offs, d);
        let fr = filter_drags(rest, d);
        assert forall|k: int| 0 <= k < f.len() implies offs.contains(#[trigger] f[k])
            && !d.contains(f[k].id) by {
            if d.contains(offs[0].id) {
                assert(f[k] == fr[k]);
                assert(rest.contains(fr[k]));
                let i = choose|i: int| 0 <= i < rest.len() && rest[i] == fr[k];
                assert(offs[i + 1] == fr[k]);
            } else {
                if k == 0 {
                    assert(f[0] == offs[0]);
                } else {
                    assert(f[k] == fr[k - 1]);
                    assert(rest.contains(fr[k - 1]));
                    let i = choose|i: int| 0 <= i < rest.len() && rest[i] == fr[k - 1];
                    assert(offs[i + 1] == fr[k - 1]);
                }
            }
        }
        assert forall|x: int| drag_ids(offs).contains(x) && !d.contains(x) implies #[trigger] drag_ids(
            f,
        ).contains(x) by {
            let i = choose|i: int| 0 <= i < offs.len() && drag_ids(offs)[i] == x;
            if i > 0 {
                assert(drag_ids(rest)[i - 1] == x);
                assert(drag_ids(rest).contains(x));
                assert(drag_ids(fr).contains(x));
                let k = choose|k: int| 0 <= k < fr.len() && drag_ids(fr)[k] == x;
                if d.contains(offs[0].id) {
                    assert(drag_ids(f)[k] == x);
                } else {
                    assert(drag_ids(f)[k + 1] == x);
                }
            } else {
                assert(offs[0].id == x);
                assert(drag_ids(f)[0] == x);
            }
        }
        assert forall|x: int| #[trigger] drag_ids(f).contains(x) implies drag_ids(offs).contains(x)
            && !d.contains(x) by {
            let k = choose|k: int| 0 <= k < f.len() && drag_ids(f)[k] == x;
            assert(offs.contains(f[k]));
            let i = choose|i: int| 0 <= i < offs.len() && offs[i] == f[k];
            assert(drag_ids(offs)[i] == x);
        }
        if no_dups(drag_ids(offs)) {
            assert(no_dups(drag_ids(rest))) by {
                assert(forall|i: int|
                    0 <= i < rest.len() ==> #[trigger] drag_ids(rest)[i] == drag_ids(offs)[i + 1]);
            }
            if !d.contains(offs[0].id) {
                assert(!drag_ids(rest).contains(offs[0].id)) by {
                    if drag_ids(rest).contains(offs[0].id) {
                        let i = choose|i: int|
                            0 <= i < rest.len() && drag_ids(rest)[i] == offs[0].id;
                        assert(drag_ids(offs)[i + 1] == drag_ids(offs)[0]);
                    }
                }
                assert forall|i: int, j: int|
                    0 <= i < j < drag_ids(f).len() implies drag_ids(f)[i] != drag_ids(f)[j] by {
                    if i == 0 {
                        assert(drag_ids(f)[j] == drag_ids(fr)[j - 1]);
                        assert(drag_ids(fr).contains(drag_ids(fr)[j - 1]));
                    } else {
                        assert(drag_ids(f)[i] == drag_ids(fr)[i - 1]);
                        assert(drag_ids(f)[j] == drag_ids(fr)[j - 1]);
                    }
                }
            }
        }
    }
}

// ---------------------------------------------------------------------------
// Facts about node removal.
// ---------------------------------------------------------------------------
/// A node id survives the removal exactly when it is stored and unmarked.
pub proof fn lemma_remove_contains(nodes: Seq<NodeView>, d: Set<int>)
    ensures
        forall|x: int|
            #[trigger] contains_id(remove_marked(nodes, d), x) <==> contains_id(nodes, x)
                && !d.contains(x),
    decreases nodes.len(),
{
    if nodes.len() > 0 {
        let rest = nodes.drop_first();
        lemma_remove_contains(rest, d);
        let r = remove_marked(nodes, d);
        assert forall|x: int| contains_id(nodes, x) && !d.contains(x) implies #[trigger] contains_id(
            r,
            x,
        ) by {
            let i = choose|i: int| 0 <= i < nodes.len() && nodes[i].id == x;
            if i > 0 {
                assert(rest[i - 1].id == x);
                assert(contains_id(rest, x));
                assert(contains_id(remove_marked(rest, d), x));
                let k = choose|k: int|
                    0 <= k < remove_marked(rest, d).len() && remove_marked(rest, d)[k].id == x;
                if d.contains(nodes[0].id) {
                    assert(r[k].id == x);
                } else {
                    assert(r[k + 1].id == x);
                }
            } else {
                assert(r[0].id == x);
            }
        }
        assert forall|x: int| #[trigger] contains_id(r, x) implies contains_id(nodes, x)
            && !d.contains(x) by {
            let k = choose|k: int| 0 <= k < r.len() && r[k].id == x;
            if d.contains(nodes[0].id) {
                assert(remove_marked(rest, d)[k].id == x);
                assert(contains_id(remove_marked(rest, d), x));
                let i = choose|i: int| 0 <= i < rest.len() && rest[i].id == x;
                assert(nodes[i + 1].id == x);
            } else {
                if k == 0 {
                    assert(nodes[0].id == x);
                } else {
                    assert(remove_marked(rest, d)[k - 1].id == x);
                    assert(contains_id(remove_marked(rest, d), x));
                    let i = choose|i: int| 0 <= i < rest.len() && rest[i].id == x;
                    assert(nodes[i + 1].id == x);
                }
            }
        }
    }
}

/// Every surviving entry is a stored node stripped of its marked children.
pub proof fn lemma_remove_elements(nodes: Seq<NodeView>, d: Set<int>)
    ensures
        forall|k: int|
            0 <= k < remove_marked(nodes, d).len() ==> exists|j: int|
                0 <= j < nodes.len() && !d.contains(nodes[j].id) && #[trigger] remove_marked(
                    nodes,
                    d,
                )[k] == strip_node(nodes[j], d),
    decreases nodes.len(),
{
    if nodes.len() > 0 {
        let rest = nodes.drop_first();
        lemma_remove_elements(rest, d);
        let r = remove_marked(nodes, d);
        assert forall|k: int| 0 <= k < r.len() implies exists|j: int|
            0 <= j < nodes.len() && !d.contains(nodes[j].id) && #[trigger] r[k] == strip_node(
                nodes[j],
                d,
            ) by {
            if d.contains(nodes[0].id) {
                assert(r[k] == remove_marked(rest, d)[k]);
                let j = choose|j: int|
                    0 <= j < rest.len() && !d.contains(rest[j].id) && remove_marked(rest, d)[k]
                        == strip_node(rest[j], d);
                assert(0 <= j + 1 < nodes.len() && !d.contains(nodes[j + 1].id) && r[k]
                    == strip_node(nodes[j + 1], d));
            } else if k == 0 {
                assert(0 <= 0 < nodes.len() && !d.contains(nodes[0].id) && r[0] == strip_node(
                    nodes[0],
                    d,
                ));
            } else {
                assert(r[k] == remove_marked(rest, d)[k - 1]);
                let j = choose|j: int|
                    0 <= j < rest.len() && !d.contains(rest[j].id) && remove_marked(rest, d)[k - 1]
                        == strip_node(rest[j], d);
                assert(0 <= j + 1 < nodes.len() && !d.contains(nodes[j + 1].id) && r[k]
                    == strip_node(nodes[j + 1], d));
            }
        }
    }
}

/// Removal keeps the storage order, so ids stay strictly increasing.
pub proof fn lemma_remove_increasing(nodes: Seq<NodeView>, d: Set<int>)
    requires
        ids_increasing(nodes),
    ensures
        ids_increasing(remove_marked(nodes, d)),
    decreases nodes.len(),
{
    if nodes.len() > 0 {
        let rest = nodes.drop_first();
        assert(ids_increasing(rest)) by {
            assert(forall|i: int|
                0 <= i < rest.len() ==> #[trigger] rest[i] == nodes[i + 1]);
        }
        lemma_remove_increasing(rest, d);
        lemma_remove_elements(rest, d);
        if !d.contains(nodes[0].id) {
            let r = remove_marked(nodes, d);
            let fr = remove_marked(rest, d);
            assert forall|i: int, j: int| 0 <= i < j < r.len() implies r[i].id < r[j].id by {
                if i == 0 {
                    assert(r[j] == fr[j - 1]);
                    let j2 = choose|j2: int|
                        0 <= j2 < rest.len() && !d.contains(rest[j2].id) && fr[j - 1] == strip_node(
                            rest[j2],
                            d,
                        );
                    assert(rest[j2] == nodes[j2 + 1]);
                    assert(nodes[0].id < nodes[j2 + 1].id);
                } else {
                    assert(r[i] == fr[i - 1] && r[j] == fr[j - 1]);
                }
            }
        }
    }
}

/// Counting facts: an absent id counts zero, and appending adds one
/// occurrence of the appended id.
pub proof fn lemma_count_absent(s: Seq<int>, x: int)
    requires
        !s.contains(x),
    ensures
        count_of(s, x) == 0,
    decreases s.len(),
{
    if s.len() > 0 {
        assert(s[0] != x);
        assert(!s.drop_first().contains(x)) by {
            if s.drop_first().contains(x) {
                let i = choose|i: int| 0 <= i < s.drop_first().len() && s.drop_first()[i] == x;
                assert(s[i + 1] == x);
            }
        }
        lemma_count_absent(s.drop_first(), x);
    }
}

pub proof fn lemma_count_snoc(s: Seq<int>, v: int, x: int)
    ensures
        count_of(s.push(v), x) == count_of(s, x) + (if v == x {
            1int
        } else {
            0int
        }),
    decreases s.len(),
{
    if s.len() == 0 {
        assert(s.push(v)[0] == v);
        assert(s.push(v).drop_first() =~= Seq::<int>::empty());
        assert(count_of(Seq::<int>::empty(), x) == 0);
        assert(count_of(s, x) == 0);
        assert(count_of(s.push(v), x) == (if v == x {
            1int
        } else {
            0int
        }) + count_of(s.push(v).drop_first(), x));
    } else {
        assert(s.push(v)[0] == s[0]);
        assert(s.push(v).drop_first() =~= s.drop_first().push(v));
        lemma_count_snoc(s.drop_first(), v, x);
        assert(count_of(s.push(v), x) == (if s[0] == x {
            1int
        } else {
            0int
        }) + count_of(s.drop_first().push(v), x));
        assert(count_of(s, x) == (if s[0] == x {
            1int
        } else {
            0int
        }) + count_of(s.drop_first(), x));
    }
}

/// Extending a prefix by one element inserts that element into its set.
pub proof fn lemma_take_step_to_set(s: Seq<int>, k: int)
    requires
        0 <= k < s.len(),
    ensures
        s.take(k + 1).to_set() == s.take(k).to_set().insert(s[k]),
{
    let a = s.take(k);
    let b = s.take(k + 1);
    assert forall|y: int| b.to_set().contains(y) implies a.to_set().insert(s[k]).contains(y) by {
        let i = choose|i: int| 0 <= i < b.len() && b[i] == y;
        if i < k {
            assert(a[i] == y);
            assert(a.contains(y));
        } else {
            assert(y == s[k]);
        }
    }
    assert forall|y: int| a.to_set().insert(s[k]).contains(y) implies b.to_set().contains(y) by {
        if a.to_set().contains(y) {
            let i = choose|i: int| 0 <= i < a.len() && a[i] == y;
            assert(b[i] == y);
            assert(b.contains(y));
        } else {
            assert(b[k] == y);
            assert(b.contains(y));
        }
    }
    assert(b.to_set() =~= a.to_set().insert(s[k]));
}

/// Invariants do not look at labels or positions: a store with the same
/// ids, children and bookkeeping as a well-formed one is well-formed.
pub proof fn lemma_wf_same_structure(a: MindMapView, b: MindMapView)
    requires
        store_wf(a),
        b.nodes.len() == a.nodes.len(),
        forall|i: int| 0 <= i < a.nodes.len() ==> #[trigger] b.nodes[i].id == a.nodes[i].id,
        forall|i: int|
            0 <= i < a.nodes.len() ==> #[trigger] b.nodes[i].children == a.nodes[i].children,
        b.next_id == a.next_id,
        b.root_id == a.root_id,
        b.selected == a.selected,
        b.drag_offsets == a.drag_offsets,
    ensures
        store_wf(b),
{
    assert forall|x: int| contains_id(a.nodes, x) implies contains_id(b.nodes, x) by {
        let i = choose|i: int| 0 <= i < a.nodes.len() && a.nodes[i].id == x;
        assert(b.nodes[i].id == x);
    }
    if b.root_id is Some {
        let r = b.root_id->Some_0;
        assert(!is_child(b.nodes, r)) by {
            if is_child(b.nodes, r) {
                let (i, k) = choose|i: int, k: int|
                    0 <= i < b.nodes.len() && 0 <= k < b.nodes[i].children.len()
                        && b.nodes[i].children[k] == r;
                assert(a.nodes[i].children[k] == r);
                assert(is_child(a.nodes, r));
            }
        }
    }
    assert(store_wf(b));
}

/// With strictly increasing ids, `id_index` is the one index holding `id`.
pub proof fn lemma_id_index(nodes: Seq<NodeView>, id: int)
    requires
        ids_increasing(nodes),
        contains_id(nodes, id),
    ensures
        0 <= id_index(nodes, id) < nodes.len(),
        nodes[id_index(nodes, id)].id == id,
        forall|j: int| 0 <= j < nodes.len() && nodes[j].id == id ==> j == id_index(nodes, id),
{
    let i = id_index(nodes, id);
    assert(0 <= i < nodes.len() && nodes[i].id == id);
    assert forall|j: int| 0 <= j < nodes.len() && nodes[j].id == id implies j == i by {
        if j < i {
            assert(nodes[j].id < nodes[i].id);
        }
        if i < j {
            assert(nodes[i].id < nodes[j].id);
        }
    }
}

/// Deletion preserves every store invariant.
pub proof fn lemma_delete_wf(m: MindMapView, id: int)
    requires
        store_wf(m),
    ensures
        store_wf(spec_delete(m, id).0),
{
    if m.root_id == Option::Some(id) || !contains_id(m.nodes, id) {
    } else {
        let d = subtree_ids(m.nodes, id);
        let nn = remove_marked(m.nodes, d);
        let m1 = spec_delete(m, id).0;
        lemma_remove_increasing(m.nodes, d);
        lemma_remove_elements(m.nodes, d);
        lemma_remove_contains(m.nodes, d);
        // ids stay bounded: every survivor carries an old id.
        assert forall|k: int| 0 <= k < nn.len() implies 0 <= #[trigger] nn[k].id < m.next_id by {
            let j = choose|j: int|
                0 <= j < m.nodes.len() && !d.contains(m.nodes[j].id) && nn[k] == strip_node(
                    m.nodes[j],
                    d,
                );
        }
        // children lists: filtered sublists of old lists.
        assert forall|k: int, c: int|
            0 <= k < nn.len() && #[trigger] nn[k].children.contains(c) implies contains_id(
            m.nodes,
            c,
        ) && !d.contains(c) && c > nn[k].id by {
            let j = choose|j: int|
                0 <= j < m.nodes.len() && !d.contains(m.nodes[j].id) && nn[k] == strip_node(
                    m.nodes[j],
                    d,
                );
            lemma_filter_ids_contains(m.nodes[j].children, d);
            assert(m.nodes[j].children.contains(c));
            let k2 = choose|k2: int|
                0 <= k2 < m.nodes[j].children.len() && m.nodes[j].children[k2] == c;
            assert(contains_id(m.nodes, m.nodes[j].children[k2]));
            assert(m.nodes[j].children[k2] > m.nodes[j].id);
        }
        assert(children_wf(nn)) by {
            assert forall|i: int, k: int|
                0 <= i < nn.len() && 0 <= k < nn[i].children.len() implies contains_id(
                nn,
                #[trigger] nn[i].children[k],
            ) && nn[i].children[k] > nn[i].id by {
                let c = nn[i].children[k];
                assert(nn[i].children.contains(c));
                assert(contains_id(m.nodes, c) && !d.contains(c));
            }
        }
        assert(children_lists_no_dups(nn)) by {
            assert forall|k: int| 0 <= k < nn.len() implies no_dups(#[trigger] nn[k].children) by {
                let j = choose|j: int|
                    0 <= j < m.nodes.len() && !d.contains(m.nodes[j].id) && nn[k] == strip_node(
                        m.nodes[j],
                        d,
                    );
                lemma_filter_ids_no_dups(m.nodes[j].children, d);
            }
        }
        assert(children_disjoint(nn)) by {
            assert forall|i: int, j: int, c: int|
                0 <= i < nn.len() && 0 <= j < nn.len() && #[trigger] nn[i].children.contains(c)
                    && #[trigger] nn[j].children.contains(c) implies i == j by {
                let j1 = choose|j1: int|
                    0 <= j1 < m.nodes.len() && !d.contains(m.nodes[j1].id) && nn[i] == strip_node(
                        m.nodes[j1],
                        d,
                    );
                let j2 = choose|j2: int|
                    0 <= j2 < m.nodes.len() && !d.contains(m.nodes[j2].id) && nn[j] == strip_node(
                        m.nodes[j2],
                        d,
                    );
                lemma_filter_ids_contains(m.nodes[j1].children, d);
                lemma_filter_ids_contains(m.nodes[j2].children, d);
                assert(m.nodes[j1].children.contains(c));
                assert(m.nodes[j2].children.contains(c));
                assert(j1 == j2);
                assert(nn[i].id == nn[j].id);
                if i < j {
                    assert(nn[i].id < nn[j].id);
                }
                if j < i {
                    assert(nn[j].id < nn[i].id);
                }
            }
        }
        // The root is never marked: it is not the seed and is nobody's child.
        let r = m.root_id->Some_0;
        assert(contains_id(m.nodes, r));
        assert(r != id);
        assert forall|j: int| 0 <= j < m.nodes.len() implies !#[trigger] m.nodes[j].children.contains(
            r,
        ) by {
            if m.nodes[j].children.contains(r) {
                let k = choose|k: int|
                    0 <= k < m.nodes[j].children.len() && m.nodes[j].children[k] == r;
                assert(is_child(m.nodes, r));
            }
        }
        lemma_mark_no_new(m.nodes, 0, Set::empty().insert(id), r);
        assert(contains_id(nn, r));
        assert(!is_child(nn, r)) by {
            if is_child(nn, r) {
                let (i, k) = choose|i: int, k: int|
                    0 <= i < nn.len() && 0 <= k < nn[i].children.len() && nn[i].children[k] == r;
                assert(nn[i].children.contains(r));
                assert(contains_id(m.nodes, r) && !d.contains(r));
                let j = choose|j: int|
                    0 <= j < m.nodes.len() && !d.contains(m.nodes[j].id) && nn[i] == strip_node(
                        m.nodes[j],
                        d,
                    );
                lemma_filter_ids_contains(m.nodes[j].children, d);
                assert(m.nodes[j].children.contains(r));
            }
        }
        // Selection and drag bookkeeping stay duplicate-free and stored.
        lemma_filter_ids_contains(m.selected, d);
        lemma_filter_ids_no_dups(m.selected, d);
        assert forall|k: int| 0 <= k < m1.selected.len() implies contains_id(
            m1.nodes,
            #[trigger] m1.selected[k],
        ) by {
            let x = m1.selected[k];
            assert(m1.selected.contains(x));
            assert(m.selected.contains(x) && !d.contains(x));
            let k2 = choose|k2: int| 0 <= k2 < m.selected.len() && m.selected[k2] == x;
        }
        lemma_filter_drags_elements(m.drag_offsets, d);
        assert forall|k: int| 0 <= k < drag_ids(m1.drag_offsets).len() implies contains_id(
            m1.nodes,
            #[trigger] drag_ids(m1.drag_offsets)[k],
        ) by {
            let x = drag_ids(m1.drag_offsets)[k];
            assert(drag_ids(m1.drag_offsets).contains(x));
            assert(drag_ids(m.drag_offsets).contains(x) && !d.contains(x));
            let k2 = choose|k2: int|
                0 <= k2 < m.drag_offsets.len() && drag_ids(m.drag_offsets)[k2] == x;
            assert(contains_id(m.nodes, drag_ids(m.drag_offsets)[k2]));
        }
        assert(store_wf(m1));
    }
}

/// View of an optional id.
pub open spec fn opt_id_view(o: Option<usize>) -> Option<int> {
    match o {
        Option::Some(v) => Option::Some(v as int),
        Option::None => Option::None,
    }
}

/// Adding a child preserves every store invariant: the fresh id is larger
/// than every stored id, so order, freshness and disjointness carry over.
pub proof fn lemma_add_child_wf(m: MindMapView, pid: int, text: Seq<char>, vw: int)
    requires
        store_wf(m),
    ensures
        store_wf(spec_add_child(m, pid, text, vw).0),
{
    if contains_id(m.nodes, pid) {
        lemma_id_index(m.nodes, pid);
        let p = id_index(m.nodes, pid);
        let parent = m.nodes[p];
        let nid = m.next_id;
        let m1 = spec_add_child(m, pid, text, vw).0;
        let nn = m1.nodes;
        let len = m.nodes.len() as int;
        assert(nn.len() == len + 1);
        assert(forall|i: int| 0 <= i < len && i != p ==> nn[i] == m.nodes[i]);
        assert(nn[p].id == parent.id && nn[p].children == parent.children.push(nid));
        assert(nn[len].id == nid && nn[len].children == Seq::<int>::empty());
        assert(forall|i: int| 0 <= i < len ==> #[trigger] nn[i].id == m.nodes[i].id);
        // Transfer of membership, plus the fresh id.
        assert forall|x: int| contains_id(m.nodes, x) implies contains_id(nn, x) by {
            let i = choose|i: int| 0 <= i < len && m.nodes[i].id == x;
            assert(nn[i].id == x);
        }
        assert(contains_id(nn, nid)) by {
            assert(nn[len].id == nid);
        }
        // Every old child id is an old node id, hence below the fresh id.
        assert forall|i: int, k: int|
            0 <= i < len && 0 <= k < m.nodes[i].children.len() implies #[trigger] m.nodes[i].children[k]
            < nid by {
            assert(contains_id(m.nodes, m.nodes[i].children[k]));
            let j = choose|j: int| 0 <= j < len && m.nodes[j].id == m.nodes[i].children[k];
        }
        assert(ids_increasing(nn)) by {
            assert forall|i: int, j: int| 0 <= i < j < nn.len() implies nn[i].id < nn[j].id by {
                if j == len {
                    assert(nn[i].id == m.nodes[i].id < nid);
                }
            }
        }
        assert(ids_bounded(nn, m1.next_id));
        assert(children_wf(nn)) by {
            assert forall|i: int, k: int|
                0 <= i < nn.len() && 0 <= k < nn[i].children.len() implies contains_id(
                nn,
                #[trigger] nn[i].children[k],
            ) && nn[i].children[k] > nn[i].id by {
                if i == p && k == nn[p].children.len() - 1 {
                    assert(nn[i].children[k] == nid);
                } else if i < len {
                    assert(nn[i].children[k] == m.nodes[i].children[k]);
                    assert(contains_id(m.nodes, m.nodes[i].children[k]));
                }
            }
        }
        assert(children_lists_no_dups(nn)) by {
            assert forall|i: int| 0 <= i < nn.len() implies no_dups(#[trigger] nn[i].children) by {
                if i == p {
                    assert(no_dups(parent.children));
                    assert forall|a: int, b: int|
                        0 <= a < b < nn[p].children.len() implies nn[p].children[a]
                        != nn[p].children[b] by {
                        if b == nn[p].children.len() - 1 {
                            assert(nn[p].children[a] == parent.children[a] < nid);
                        }
                    }
                } else if i < len {
                    assert(nn[i].children == m.nodes[i].children);
                }
            }
        }
        assert(children_disjoint(nn)) by {
            assert forall|i: int, j: int, c: int|
                0 <= i < nn.len() && 0 <= j < nn.len() && #[trigger] nn[i].children.contains(c)
                    && #[trigger] nn[j].children.contains(c) implies i == j by {
                let ki = choose|ki: int| 0 <= ki < nn[i].children.len() && nn[i].children[ki] == c;
                let kj = choose|kj: int| 0 <= kj < nn[j].children.len() && nn[j].children[kj] == c;
                assert(i < nn.len() - 1 || nn[i].children.len() == 0);
                assert(j < nn.len() - 1 || nn[j].children.len() == 0);
                if c == nid {
                    // Only the parent's list gained the fresh id.
                    if i != p {
                        assert(nn[i].children[ki] == m.nodes[i].children[ki] < nid);
                    }
                    if j != p {
                        assert(nn[j].children[kj] == m.nodes[j].children[kj] < nid);
                    }
                } else {
                    let oi: int = if i == p { if ki < parent.children.len() { ki } else { 0 } } else { ki };
                    if i == p {
                        assert(ki < parent.children.len());
                    }
                    assert(m.nodes[i].children[oi] == c);
                    assert(m.nodes[i].children.contains(c));
                    let oj: int = if j == p { if kj < parent.children.len() { kj } else { 0 } } else { kj };
                    if j == p {
                        assert(kj < parent.children.len());
                    }
                    assert(m.nodes[j].children[oj] == c);
                    assert(m.nodes[j].children.contains(c));
                }
            }
        }
        // The store was nonempty, so the root is present; it keeps its place
        // and the fresh id is not the root.
        assert(m.root_id is Some);
        let r = m.root_id->Some_0;
        assert(contains_id(nn, r));
        assert(r < nid) by {
            let j = choose|j: int| 0 <= j < len && m.nodes[j].id == r;
        }
        assert(!is_child(nn, r)) by {
            if is_child(nn, r) {
                let (i, k) = choose|i: int, k: int|
                    0 <= i < nn.len() && 0 <= k < nn[i].children.len() && nn[i].children[k] == r;
                if i == p && k == nn[p].children.len() - 1 {
                } else {
                    assert(i < len && nn[i].children[k] == m.nodes[i].children[k]);
                    assert(is_child(m.nodes, r));
                }
            }
        }
        assert forall|k: int| 0 <= k < m1.selected.len() implies contains_id(
            m1.nodes,
            #[trigger] m1.selected[k],
        ) by {
            assert(contains_id(m.nodes, m.selected[k]));
        }
        assert forall|k: int| 0 <= k < drag_ids(m1.drag_offsets).len() implies contains_id(
            m1.nodes,
            #[trigger] drag_ids(m1.drag_offsets)[k],
        ) by {
            assert(contains_id(m.nodes, drag_ids(m.drag_offsets)[k]));
        }
        assert(store_wf(m1));
    }
}

/// Reverse-order hit testing: a hit with nothing above it is the answer, and
/// a `None` answer means nothing was hit at all.
#[verifier::rlimit(50)]
pub proof fn lemma_find_at_topmost(nodes: Seq<NodeView>, px: int, py: int, vw: int)
    ensures
        find_at(nodes, px, py, vw) is None <==> forall|i: int|
            0 <= i < nodes.len() ==> !crate::node::spec_contains_point(nodes[i], px, py, vw),
        forall|i: int|
            {
                &&& 0 <= i < nodes.len()
                &&& crate::node::spec_contains_point(nodes[i], px, py, vw)
                &&& forall|j: int|
                    i < j < nodes.len() ==> !crate::node::spec_contains_point(nodes[j], px, py, vw)
            } ==> find_at(nodes, px, py, vw) == Option::Some(nodes[i].id),
    decreases nodes.len(),
{
    if nodes.len() > 0 {
        let prefix = nodes.drop_last();
        lemma_find_at_topmost(prefix, px, py, vw);
        assert(forall|i: int| 0 <= i < prefix.len() ==> prefix[i] == nodes[i]);
        assert(nodes.last() == nodes[nodes.len() - 1]);
        if !crate::node::spec_contains_point(nodes.last(), px, py, vw) {
            assert(find_at(nodes, px, py, vw) == find_at(prefix, px, py, vw));
            if find_at(prefix, px, py, vw) is None {
                assert forall|i: int| 0 <= i < nodes.len() implies !crate::node::spec_contains_point(
                    nodes[i],
                    px,
                    py,
                    vw,
                ) by {
                    if i < nodes.len() - 1 {
                        assert(!crate::node::spec_contains_point(prefix[i], px, py, vw));
                    }
                }
            }
            assert forall|i: int|
                {
                    &&& 0 <= i < nodes.len()
                    &&& crate::node::spec_contains_point(nodes[i], px, py, vw)
                    &&& forall|j: int|
                        i < j < nodes.len() ==> !crate::node::spec_contains_point(
                            nodes[j],
                            px,
                            py,
                            vw,
                        )
                } implies find_at(nodes, px, py, vw) == Option::Some(nodes[i].id) by {
                assert(i < nodes.len() - 1);
                assert(prefix[i] == nodes[i]);
                assert(forall|j: int|
                    i < j < prefix.len() ==> !crate::node::spec_contains_point(
                        prefix[j],
                        px,
                        py,
                        vw,
                    ));
            }
        }
    }
}

/// Every id collected by the rubber band names a stored node whose center
/// lies in the rectangle, and conversely; collected in storage order, the
/// ids inherit the store's strict order.
pub proof fn lemma_rect_elements(nodes: Seq<NodeView>, x1: int, y1: int, x2: int, y2: int)
    ensures
        forall|x: int|
            #[trigger] nodes_in_rect(nodes, x1, y1, x2, y2).contains(x) <==> exists|j: int|
                0 <= j < nodes.len() && #[trigger] nodes[j].id == x && in_rect(
                    nodes[j],
                    x1,
                    y1,
                    x2,
                    y2,
                ),
        ids_increasing(nodes) ==> id_list_wf(nodes, nodes_in_rect(nodes, x1, y1, x2, y2)),
    decreases nodes.len(),
{
    let r = nodes_in_rect(nodes, x1, y1, x2, y2);
    if nodes.len() > 0 {
        let rest = nodes.drop_first();
        let rr = nodes_in_rect(rest, x1, y1, x2, y2);
        lemma_rect_elements(rest, x1, y1, x2, y2);
        assert forall|x: int| #[trigger] r.contains(x) implies exists|j: int|
            0 <= j < nodes.len() && #[trigger] nodes[j].id == x && in_rect(
                nodes[j],
                x1,
                y1,
                x2,
                y2,
            ) by {
            let k = choose|k: int| 0 <= k < r.len() && r[k] == x;
            if in_rect(nodes[0], x1, y1, x2, y2) && k == 0 {
                assert(nodes[0].id == x && in_rect(nodes[0], x1, y1, x2, y2));
            } else {
                if in_rect(nodes[0], x1, y1, x2, y2) {
                    assert(rr[k - 1] == x);
                } else {
                    assert(rr[k] == x);
                }
                assert(rr.contains(x));
                let j = choose|j: int|
                    0 <= j < rest.len() && #[trigger] rest[j].id == x && in_rect(
                        rest[j],
                        x1,
                        y1,
                        x2,
                        y2,
                    );
                assert(nodes[j + 1].id == x && in_rect(nodes[j + 1], x1, y1, x2, y2));
            }
        }
        assert forall|x: int|
            (exists|j: int|
                0 <= j < nodes.len() && #[trigger] nodes[j].id == x && in_rect(
                    nodes[j],
                    x1,
                    y1,
                    x2,
                    y2,
                )) implies #[trigger] r.contains(x) by {
            let j = choose|j: int|
                0 <= j < nodes.len() && #[trigger] nodes[j].id == x && in_rect(
                    nodes[j],
                    x1,
                    y1,
                    x2,
                    y2,
                );
            if j == 0 {
                assert(r[0] == x);
            } else {
                assert(rest[j - 1].id == x && in_rect(rest[j - 1], x1, y1, x2, y2));
                assert(rr.contains(x));
                let k = choose|k: int| 0 <= k < rr.len() && rr[k] == x;
                if in_rect(nodes[0], x1, y1, x2, y2) {
                    assert(r[k + 1] == x);
                } else {
                    assert(r[k] == x);
                }
            }
        }
        if ids_increasing(nodes) {
            assert(ids_increasing(rest)) by {
                assert(forall|i: int| 0 <= i < rest.len() ==> #[trigger] rest[i] == nodes[i + 1]);
            }
            assert forall|a: int, b: int| 0 <= a < b < r.len() implies r[a] != r[b] by {
                if in_rect(nodes[0], x1, y1, x2, y2) && a == 0 {
                    assert(r[b] == rr[b - 1]);
                    assert(rr.contains(rr[b - 1]));
                    let j = choose|j: int|
                        0 <= j < rest.len() && #[trigger] rest[j].id == r[b] && in_rect(
                            rest[j],
                            x1,
                            y1,
                            x2,
                            y2,
                        );
                    assert(nodes[0].id < nodes[j + 1].id);
                } else {
                    if in_rect(nodes[0], x1, y1, x2, y2) {
                        assert(r[a] == rr[a - 1] && r[b] == rr[b - 1]);
                    } else {
                        assert(r[a] == rr[a] && r[b] == rr[b]);
                    }
                }
            }
            assert forall|k: int| 0 <= k < r.len() implies contains_id(nodes, #[trigger] r[k]) by {
                assert(r.contains(r[k]));
                let j = choose|j: int|
                    0 <= j < nodes.len() && #[trigger] nodes[j].id == r[k] && in_rect(
                        nodes[j],
                        x1,
                        y1,
                        x2,
                        y2,
                    );
            }
        }
    }
}

} // verus!
