//! Nodes and size-tier geometry.
//!
//! A node is a labeled box centered at a position in virtual space, with an
//! ordered list of child ids.  Box dimensions, hit padding and layout spacing
//! come in two tiers chosen by the viewport width: a compact tier for narrow
//! viewports and a regular tier otherwise.

use crate::coord::sat64;
use vstd::prelude::*;

verus! {

/// Viewport widths below this use the compact size tier.
pub const COMPACT_WIDTH_LIMIT: u32 = 600;

pub open spec fn spec_node_width(vw: int) -> int {
    if vw < 600 {
        100
    } else {
        120
    }
}

pub open spec fn spec_node_height(vw: int) -> int {
    if vw < 600 {
        35
    } else {
        40
    }
}

/// The compact tier grows the hit box on every side to ease touch accuracy;
/// the regular tier adds nothing.
pub open spec fn spec_hit_padding(vw: int) -> int {
    if vw < 600 {
        5
    } else {
        0
    }
}

/// Horizontal distance from a parent to each of its children.
pub open spec fn spec_horizontal_spacing(vw: int) -> int {
    if vw < 600 {
        120
    } else {
        150
    }
}

/// Vertical spacing unit between siblings.
pub open spec fn spec_vertical_spacing(vw: int) -> int {
    if vw < 600 {
        50
    } else {
        60
    }
}

pub fn node_width(viewport_width: u32) -> (w: i64)
    ensures
        w as int == spec_node_width(viewport_width as int),
{
    if viewport_width < COMPACT_WIDTH_LIMIT {
        100
    } else {
        120
    }
}

pub fn node_height(viewport_width: u32) -> (h: i64)
    ensures
        h as int == spec_node_height(viewport_width as int),
{
    if viewport_width < COMPACT_WIDTH_LIMIT {
        35
    } else {
        40
    }
}

pub fn hit_padding(viewport_width: u32) -> (p: i64)
    ensures
        p as int == spec_hit_padding(viewport_width as int),
{
    if viewport_width < COMPACT_WIDTH_LIMIT {
        5
    } else {
        0
    }
}

pub fn horizontal_spacing(viewport_width: u32) -> (s: i64)
    ensures
        s as int == spec_horizontal_spacing(viewport_width as int),
{
    if viewport_width < COMPACT_WIDTH_LIMIT {
        120
    } else {
        150
    }
}

pub fn vertical_spacing(viewport_width: u32) -> (s: i64)
    ensures
        s as int == spec_vertical_spacing(viewport_width as int),
{
    if viewport_width < COMPACT_WIDTH_LIMIT {
        50
    } else {
        60
    }
}

/// A node of the mind map: identity, label, center position in virtual
/// space, and the ordered ids of its children (insertion order is visual
/// stacking order).
pub struct Node {
    pub id: usize,
    pub text: String,
    pub x: i64,
    pub y: i64,
    pub children: Vec<usize>,
}

/// Mathematical image of a [`Node`].
#[verifier::ext_equal]
pub ghost struct NodeView {
    pub id: int,
    pub text: Seq<char>,
    pub x: int,
    pub y: int,
    pub children: Seq<int>,
}

impl View for Node {
    type V = NodeView;

    open spec fn view(&self) -> NodeView {
        NodeView {
            id: self.id as int,
            text: self.text@,
            x: self.x as int,
            y: self.y as int,
            children: self.children@.map_values(|c: usize| c as int),
        }
    }
}

impl Node {
    pub fn new(id: usize, text: String, x: i64, y: i64) -> (n: Node)
        ensures
            n@.id == id as int,
            n@.text == text@,
            n@.x == x as int,
            n@.y == y as int,
            n@.children == Seq::<int>::empty(),
    {
        let n = Node { id, text, x, y, children: Vec::new() };
        proof {
            assert(n@.children =~= Seq::<int>::empty());
        }
        n
    }

    /// Whether the point `(px, py)` lies in this node's hit box: the node's
    /// box centered at its position, grown by the tier's hit padding.
    /// The comparisons are doubled so the half-extents need no rounding.
    pub fn contains_point(&self, px: i64, py: i64, viewport_width: u32) -> (hit: bool)
        ensures
            hit == spec_contains_point(self@, px as int, py as int, viewport_width as int),
    {
        let w: i64 = node_width(viewport_width);
        let h: i64 = node_height(viewport_width);
        let p: i64 = hit_padding(viewport_width);
        let dx2: i128 = 2 * (px as i128 - self.x as i128);
        let dy2: i128 = 2 * (py as i128 - self.y as i128);
        let wb: i128 = (w + 2 * p) as i128;
        let hb: i128 = (h + 2 * p) as i128;
        -wb <= dx2 && dx2 <= wb && -hb <= dy2 && dy2 <= hb
    }
}

/// Hit test on the mathematical image: `(px, py)` within the padded box
/// centered at `(n.x, n.y)`.
pub open spec fn spec_contains_point(n: NodeView, px: int, py: int, vw: int) -> bool {
    let wb = spec_node_width(vw) + 2 * spec_hit_padding(vw);
    let hb = spec_node_height(vw) + 2 * spec_hit_padding(vw);
    &&& -wb <= 2 * (px - n.x) <= wb
    &&& -hb <= 2 * (py - n.y) <= hb
}

/// Position of a new child: one horizontal spacing to the parent's right,
/// and an asymmetric vertical offset that grows with the number of children
/// the parent already has.  Siblings already placed are never moved.
pub open spec fn spec_child_x(parent_x: int, vw: int) -> int {
    sat64(parent_x + spec_horizontal_spacing(vw))
}

pub open spec fn spec_child_y(parent_y: int, count: int, vw: int) -> int {
    let step = count * spec_vertical_spacing(vw);
    sat64(parent_y + step - step / 2)
}

pub fn child_x(parent_x: i64, viewport_width: u32) -> (x: i64)
    ensures
        x as int == spec_child_x(parent_x as int, viewport_width as int),
{
    crate::coord::sat_add(parent_x, horizontal_spacing(viewport_width))
}

pub fn child_y(parent_y: i64, count: usize, viewport_width: u32) -> (y: i64)
    ensures
        y as int == spec_child_y(parent_y as int, count as int, viewport_width as int),
{
    let c: i128 = count as i128;
    let v: i128 = vertical_spacing(viewport_width) as i128;
    assert(0 <= c * v <= (u64::MAX as i128) * 60) by (nonlinear_arith)
        requires
            0 <= c <= u64::MAX as i128,
            1 <= v <= 60,
    ;
    let step: i128 = c * v;
    let raw: i128 = parent_y as i128 + step - step / 2;
    if raw > i64::MAX as i128 {
        i64::MAX
    } else if raw < i64::MIN as i128 {
        i64::MIN
    } else {
        raw as i64
    }
}

} // verus!
