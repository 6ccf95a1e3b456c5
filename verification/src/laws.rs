//! The engine's guarantees, stated on their own.
//!
//! Each proof function here records one promise of the design over the
//! spec-level transitions of [`crate::model`], so the guarantees can be
//! read without retracing the operations' contracts.

use crate::model::{
    contains_id, count_of, find_at, id_index, is_child, lemma_add_child_wf, lemma_count_absent,
    lemma_count_snoc, lemma_find_at_topmost, lemma_id_index, lemma_mark_closed,
    lemma_mark_monotone,
    lemma_remove_contains, node_at, spec_add_child, spec_delete, store_wf, subtree_ids,
    MindMapView,
};
use crate::node::spec_contains_point;
use vstd::prelude::*;

verus! {

/// In every well-formed store that holds a root, the root is present and is
/// in nobody's children list: it has no parent.
pub proof fn law_root_present_and_parentless(m: MindMapView)
    requires
        store_wf(m),
        m.root_id is Some,
    ensures
        contains_id(m.nodes, m.root_id->Some_0),
        !is_child(m.nodes, m.root_id->Some_0),
{
}

/// Deleting the root never succeeds and never changes the store.
pub proof fn law_delete_root_refused(m: MindMapView)
    requires
        m.root_id is Some,
    ensures
        spec_delete(m, m.root_id->Some_0) == (m, false),
{
}

/// Each id appears in at most one parent's children list, and at most once
/// in that list.
pub proof fn law_one_parent(m: MindMapView, i: int, j: int, ki: int, kj: int)
    requires
        store_wf(m),
        0 <= i < m.nodes.len(),
        0 <= j < m.nodes.len(),
        0 <= ki < m.nodes[i].children.len(),
        0 <= kj < m.nodes[j].children.len(),
        m.nodes[i].children[ki] == m.nodes[j].children[kj],
    ensures
        i == j,
        ki == kj,
{
    assert(m.nodes[i].children.contains(m.nodes[i].children[ki]));
    assert(m.nodes[j].children.contains(m.nodes[j].children[kj]));
}

/// Deletion is idempotent: after a successful deletion the id is gone, and
/// a second deletion of the same id is a refused no-op.
pub proof fn law_delete_idempotent(m: MindMapView, id: int)
    requires
        store_wf(m),
    ensures
        spec_delete(m, id).1 ==> spec_delete(spec_delete(m, id).0, id) == (
            spec_delete(m, id).0,
            false,
        ),
{
    if spec_delete(m, id).1 {
        let d = subtree_ids(m.nodes, id);
        lemma_mark_monotone(m.nodes, 0, Set::empty().insert(id));
        assert(d.contains(id));
        lemma_remove_contains(m.nodes, d);
        assert(!contains_id(spec_delete(m, id).0.nodes, id));
    }
}

/// A successful deletion removes the whole subtree: the deleted id is gone,
/// and whenever a node was removed, all its children were removed with it —
/// no descendant survives, at any depth.
pub proof fn law_delete_removes_descendants(m: MindMapView, id: int, i: int)
    requires
        store_wf(m),
        spec_delete(m, id).1,
        0 <= i < m.nodes.len(),
        subtree_ids(m.nodes, id).contains(m.nodes[i].id),
    ensures
        !contains_id(spec_delete(m, id).0.nodes, m.nodes[i].id),
        forall|c: int|
            m.nodes[i].children.contains(c) ==> !contains_id(spec_delete(m, id).0.nodes, c),
{
    let d = subtree_ids(m.nodes, id);
    lemma_remove_contains(m.nodes, d);
    lemma_mark_closed(m.nodes, 0, Set::empty().insert(id), i);
}

/// Round trip: after `add_child` succeeds, the parent's children list is
/// the old list with the fresh id appended, so the fresh id occurs in it
/// exactly once, and the fresh node is stored.
pub proof fn law_add_child_round_trip(m: MindMapView, pid: int, text: Seq<char>, vw: int)
    requires
        store_wf(m),
        contains_id(m.nodes, pid),
    ensures
        spec_add_child(m, pid, text, vw).1 == Option::Some(m.next_id),
        contains_id(spec_add_child(m, pid, text, vw).0.nodes, m.next_id),
        node_at(spec_add_child(m, pid, text, vw).0.nodes, pid).children == node_at(
            m.nodes,
            pid,
        ).children.push(m.next_id),
        count_of(node_at(spec_add_child(m, pid, text, vw).0.nodes, pid).children, m.next_id) == 1,
{
    lemma_id_index(m.nodes, pid);
    lemma_add_child_wf(m, pid, text, vw);
    let p = id_index(m.nodes, pid);
    let m1 = spec_add_child(m, pid, text, vw).0;
    let nid = m.next_id;
    assert(m1.nodes[m1.nodes.len() - 1].id == nid);
    assert(contains_id(m1.nodes, nid));
    assert(m1.nodes[p].id == pid);
    assert(contains_id(m1.nodes, pid));
    lemma_id_index(m1.nodes, pid);
    assert(id_index(m1.nodes, pid) == p);
    assert(node_at(m1.nodes, pid).children == node_at(m.nodes, pid).children.push(nid));
    let cs = node_at(m.nodes, pid).children;
    assert(!cs.contains(nid)) by {
        if cs.contains(nid) {
            let k = choose|k: int| 0 <= k < cs.len() && cs[k] == nid;
            assert(contains_id(m.nodes, cs[k]));
            let j = choose|j: int| 0 <= j < m.nodes.len() && m.nodes[j].id == nid;
        }
    }
    lemma_count_absent(cs, nid);
    lemma_count_snoc(cs, nid, nid);
}

/// Boundary: hit testing prefers the most recently created node.  If a
/// node's box contains the point and no later-created node's box does, that
/// node is the answer; in particular, of two overlapping nodes the later
/// one wins.
pub proof fn law_topmost_wins(nodes: Seq<crate::node::NodeView>, px: int, py: int, vw: int, i: int)
    requires
        0 <= i < nodes.len(),
        spec_contains_point(nodes[i], px, py, vw),
        forall|j: int| i < j < nodes.len() ==> !spec_contains_point(nodes[j], px, py, vw),
    ensures
        find_at(nodes, px, py, vw) == Option::Some(nodes[i].id),
{
    lemma_find_at_topmost(nodes, px, py, vw);
}

} // verus!
