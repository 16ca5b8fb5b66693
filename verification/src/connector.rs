//! Geometry and the connector/binder.
//!
//! A [`ShapeRecord`] is an emitted box; an [`ArrowRecord`] is a connector
//! whose point list is relative to its own origin. [`anchor`] resolves a
//! perimeter-midpoint anchor for a chosen [`BoxSide`]; [`bind`] creates the
//! arrow between two shapes and records the bidirectional bound-element
//! links on both endpoint shapes. Coordinates are integer canvas units.

use vstd::prelude::*;

verus! {

/// A side of a box, selecting a perimeter anchor.
#[derive(Clone, Copy, Debug, PartialEq, Eq, Structural)]
pub enum BoxSide {
    Top,
    Bottom,
    Left,
    Right,
}

/// One endpoint record tying an arrow to a shape: the arrow strikes the
/// anchor point exactly (focus 0), offset outward by `gap` canvas units.
#[derive(Clone, Debug, PartialEq)]
pub struct Binding {
    pub element_id: String,
    pub focus: i64,
    pub gap: i64,
}

/// An emitted box. `bound_element_ids` lists the arrows that terminate on
/// this shape; it only ever grows.
#[derive(Clone, Debug, PartialEq)]
pub struct ShapeRecord {
    pub id: String,
    pub x: i64,
    pub y: i64,
    pub width: i64,
    pub height: i64,
    pub index: String,
    pub bound_element_ids: Vec<String>,
}

/// An emitted connector. The point list is relative to the arrow's origin:
/// the first point is always (0, 0).
#[derive(Clone, Debug, PartialEq)]
pub struct ArrowRecord {
    pub id: String,
    pub x: i64,
    pub y: i64,
    pub width: i64,
    pub height: i64,
    pub points: Vec<(i64, i64)>,
    pub start_binding: Option<Binding>,
    pub end_binding: Option<Binding>,
}

/// Coordinate bound under which all connector arithmetic stays exact.
pub const COORD_LIMIT: i64 = 0x4000_0000;

/// The shape's geometry is within the coordinate bound, with non-negative
/// extent.
pub open spec fn coord_ok(s: ShapeRecord) -> bool {
    &&& -COORD_LIMIT <= s.x <= COORD_LIMIT
    &&& -COORD_LIMIT <= s.y <= COORD_LIMIT
    &&& 0 <= s.width <= COORD_LIMIT
    &&& 0 <= s.height <= COORD_LIMIT
}

/// The midpoint of the requested perimeter edge of a box.
pub open spec fn anchor_of(s: ShapeRecord, side: BoxSide) -> (int, int) {
    match side {
        BoxSide::Top => (s.x + s.width / 2, s.y as int),
        BoxSide::Bottom => (s.x + s.width / 2, s.y + s.height),
        BoxSide::Left => (s.x as int, s.y + s.height / 2),
        BoxSide::Right => (s.x + s.width, s.y + s.height / 2),
    }
}

/// Absolute value.
pub open spec fn abs_of(v: int) -> int {
    if v < 0 {
        -v
    } else {
        v
    }
}

/// Resolve the anchor point for `side`: the midpoint of that perimeter edge
/// (TOP and BOTTOM halve the width; LEFT and RIGHT halve the height).
pub fn anchor(shape: &ShapeRecord, side: BoxSide) -> (p: (i64, i64))
    requires
        coord_ok(*shape),
    ensures
        (p.0 as int, p.1 as int) == anchor_of(*shape, side),
{
    match side {
        BoxSide::Top => (shape.x + shape.width / 2, shape.y),
        BoxSide::Bottom => (shape.x + shape.width / 2, shape.y + shape.height),
        BoxSide::Left => (shape.x, shape.y + shape.height / 2),
        BoxSide::Right => (shape.x + shape.width, shape.y + shape.height / 2),
    }
}

/// Floor of the square root, by binary search.
pub fn isqrt(n: u128) -> (r: u128)
    requires
        n < 0x4_0000_0000_0000_0000u128,
    ensures
        (r * r) as int <= n as int,
        (r as int + 1) * (r as int + 1) > n as int,
        r < 0x2_0000_0000u128,
{
    let mut lo: u128 = 0;
    let mut hi: u128 = 0x2_0000_0000;
    while lo + 1 < hi
        invariant
            lo < hi <= 0x2_0000_0000u128,
            (lo * lo) as int <= n as int,
            (hi as int) * (hi as int) > n as int,
        decreases hi - lo,
    {
        let mid = lo + (hi - lo) / 2;
        proof {
            assert((mid as int) * (mid as int) <= 0x4_0000_0000_0000_0000int) by (nonlinear_arith)
                requires
                    0 <= mid <= 0x2_0000_0000u128,
            ;
        }
        if mid * mid <= n {
            lo = mid;
        } else {
            hi = mid;
        }
    }
    lo
}

/// The geometry and identity of the shape are unchanged; only the
/// bound-element list may differ.
pub open spec fn same_but_bound(s1: ShapeRecord, s2: ShapeRecord) -> bool {
    &&& s1.id == s2.id
    &&& s1.x == s2.x
    &&& s1.y == s2.y
    &&& s1.width == s2.width
    &&& s1.height == s2.height
    &&& s1.index == s2.index
}

/// What the arrow between `src` and `dst` looks like: it originates at the
/// source anchor; its two points are relative to that origin; its width is
/// the horizontal extent of the vector and its height the Euclidean length
/// of the vector, rounded down (exact when the arrow is axis-aligned); each
/// endpoint binding strikes its anchor exactly (focus 0) with the given gap.
pub open spec fn arrow_matches(
    arrow: ArrowRecord,
    src: ShapeRecord,
    dst: ShapeRecord,
    source_side: BoxSide,
    dest_side: BoxSide,
    gap: i64,
    id: String,
) -> bool {
    let start = anchor_of(src, source_side);
    let end = anchor_of(dst, dest_side);
    let dx = end.0 - start.0;
    let dy = end.1 - start.1;
    &&& arrow.id == id
    &&& arrow.x as int == start.0
    &&& arrow.y as int == start.1
    &&& arrow.points@.len() == 2
    &&& arrow.points@[0] == (0i64, 0i64)
    &&& arrow.points@[1].0 as int == dx
    &&& arrow.points@[1].1 as int == dy
    &&& arrow.width as int == abs_of(dx)
    &&& 0 <= arrow.height
    &&& (arrow.height as int) * (arrow.height as int) <= dx * dx + dy * dy
    &&& dx * dx + dy * dy < (arrow.height as int + 1) * (arrow.height as int + 1)
    &&& arrow.start_binding == Some(Binding { element_id: src.id, focus: 0i64, gap })
    &&& arrow.end_binding == Some(Binding { element_id: dst.id, focus: 0i64, gap })
}

/// Build the arrow record from resolved start and end anchors.
fn arrow_between(
    start: (i64, i64),
    end: (i64, i64),
    source_id: String,
    dest_id: String,
    gap: i64,
    arrow_id: String,
) -> (arrow: ArrowRecord)
    requires
        -0x8000_0000i64 <= start.0 <= 0x8000_0000i64,
        -0x8000_0000i64 <= start.1 <= 0x8000_0000i64,
        -0x8000_0000i64 <= end.0 <= 0x8000_0000i64,
        -0x8000_0000i64 <= end.1 <= 0x8000_0000i64,
    ensures
        arrow.id == arrow_id,
        arrow.x == start.0,
        arrow.y == start.1,
        arrow.points@.len() == 2,
        arrow.points@[0] == (0i64, 0i64),
        arrow.points@[1].0 as int == end.0 - start.0,
        arrow.points@[1].1 as int == end.1 - start.1,
        arrow.width as int == abs_of(end.0 - start.0),
        0 <= arrow.height,
        (arrow.height as int) * (arrow.height as int) <= (end.0 - start.0) * (end.0 - start.0) + (
        end.1 - start.1) * (end.1 - start.1),
        (end.0 - start.0) * (end.0 - start.0) + (end.1 - start.1) * (end.1 - start.1) < (
        arrow.height as int + 1) * (arrow.height as int + 1),
        arrow.start_binding == Some(Binding { element_id: source_id, focus: 0i64, gap }),
        arrow.end_binding == Some(Binding { element_id: dest_id, focus: 0i64, gap }),
{
    let dx = end.0 - start.0;
    let dy = end.1 - start.1;
    let w = if dx < 0 {
        -dx
    } else {
        dx
    };
    proof {
        assert((dx as int) * (dx as int) + (dy as int) * (dy as int)
            < 0x4_0000_0000_0000_0000int && (dx as int) * (dx as int) >= 0 && (dy as int) * (
        dy as int) >= 0) by (nonlinear_arith)
            requires
                -0x1_0000_0000i64 <= dx <= 0x1_0000_0000i64,
                -0x1_0000_0000i64 <= dy <= 0x1_0000_0000i64,
        ;
    }
    let sq: i128 = (dx as i128) * (dx as i128) + (dy as i128) * (dy as i128);
    let h = isqrt(sq as u128) as i64;
    let points: Vec<(i64, i64)> = vec![(0i64, 0i64), (dx, dy)];
    ArrowRecord {
        id: arrow_id,
        x: start.0,
        y: start.1,
        width: w,
        height: h,
        points,
        start_binding: Some(Binding { element_id: source_id, focus: 0, gap }),
        end_binding: Some(Binding { element_id: dest_id, focus: 0, gap }),
    }
}

/// Bind two shapes with a fresh arrow: resolve both anchors, create the
/// arrow record between them, and append the arrow's id to the bound-element
/// list of both endpoint shapes (an append, never a replacement). Binding
/// the same pair twice produces two distinct arrows and two more
/// bound-element entries; deduplication is the caller's concern.
pub fn bind(
    source: &mut ShapeRecord,
    dest: &mut ShapeRecord,
    source_side: BoxSide,
    dest_side: BoxSide,
    gap: i64,
    arrow_id: String,
) -> (arrow: ArrowRecord)
    requires
        coord_ok(*old(source)),
        coord_ok(*old(dest)),
    ensures
        arrow_matches(arrow, *old(source), *old(dest), source_side, dest_side, gap, arrow_id),
        same_but_bound(*old(source), *final(source)),
        same_but_bound(*old(dest), *final(dest)),
        final(source).bound_element_ids@ == old(source).bound_element_ids@.push(arrow_id),
        final(dest).bound_element_ids@ == old(dest).bound_element_ids@.push(arrow_id),
{
    let sp = anchor(source, source_side);
    let dp = anchor(dest, dest_side);
    let arrow = arrow_between(sp, dp, source.id.clone(), dest.id.clone(), gap, arrow_id.clone());
    source.bound_element_ids.push(arrow_id.clone());
    dest.bound_element_ids.push(arrow_id);
    arrow
}

/// The total number of bound-element entries over all shapes.
pub open spec fn bound_sum(shapes: Seq<ShapeRecord>) -> int
    decreases shapes.len(),
{
    if shapes.len() == 0 {
        0
    } else {
        shapes[0].bound_element_ids@.len() + bound_sum(shapes.drop_first())
    }
}

proof fn lemma_bound_sum_update(shapes: Seq<ShapeRecord>, j: int, s2: ShapeRecord)
    requires
        0 <= j < shapes.len(),
    ensures
        bound_sum(shapes.update(j, s2)) == bound_sum(shapes) - shapes[j].bound_element_ids@.len()
            + s2.bound_element_ids@.len(),
    decreases shapes.len(),
{
    let upd = shapes.update(j, s2);
    if j == 0 {
        assert(upd.drop_first() =~= shapes.drop_first());
    } else {
        assert(upd.drop_first() =~= shapes.drop_first().update(j - 1, s2));
        lemma_bound_sum_update(shapes.drop_first(), j - 1, s2);
    }
}

/// The ids of the first `upto` edges that touch shape `i`, in edge order.
pub open spec fn incident_ids(
    edges: Seq<(usize, usize)>,
    ids: Seq<String>,
    i: int,
    upto: int,
) -> Seq<String>
    decreases upto,
{
    if upto <= 0 {
        Seq::empty()
    } else {
        incident_ids(edges, ids, i, upto - 1) + (if edges[upto - 1].0 == i || edges[upto - 1].1
            == i {
            seq![ids[upto - 1]]
        } else {
            Seq::empty()
        })
    }
}

/// Bind one arrow per edge, in edge order, each edge binding its source
/// shape's side to its destination shape's side. Every shape keeps its
/// geometry and gains exactly the ids of its incident edges, and — the
/// binder invariant — after binding N edges the total number of
/// bound-element entries over all shapes has grown by exactly 2N: each edge
/// touches exactly two shapes.
pub fn bind_edges(
    shapes: &mut Vec<ShapeRecord>,
    edges: &Vec<(usize, usize)>,
    source_side: BoxSide,
    dest_side: BoxSide,
    gap: i64,
    ids: &Vec<String>,
) -> (arrows: Vec<ArrowRecord>)
    requires
        ids@.len() == edges@.len(),
        forall|e: int|
            0 <= e < edges@.len() ==> (#[trigger] edges@[e]).0 < old(shapes)@.len()
                && edges@[e].1 < old(shapes)@.len() && edges@[e].0 != edges@[e].1,
        forall|i: int| 0 <= i < old(shapes)@.len() ==> coord_ok(#[trigger] old(shapes)@[i]),
    ensures
        arrows@.len() == edges@.len(),
        final(shapes)@.len() == old(shapes)@.len(),
        forall|i: int|
            0 <= i < final(shapes)@.len() ==> same_but_bound(
                #[trigger] old(shapes)@[i],
                final(shapes)@[i],
            ),
        forall|i: int|
            0 <= i < final(shapes)@.len() ==> #[trigger] final(shapes)@[i].bound_element_ids@
                == old(shapes)@[i].bound_element_ids@ + incident_ids(
                edges@,
                ids@,
                i,
                edges@.len() as int,
            ),
        forall|e: int|
            0 <= e < edges@.len() ==> arrow_matches(
                #[trigger] arrows@[e],
                old(shapes)@[edges@[e].0 as int],
                old(shapes)@[edges@[e].1 as int],
                source_side,
                dest_side,
                gap,
                ids@[e],
            ),
        bound_sum(final(shapes)@) == bound_sum(old(shapes)@) + 2 * edges@.len(),
{
    let m = edges.len();
    let mut arrows: Vec<ArrowRecord> = Vec::new();
    let mut k: usize = 0;
    while k < m
        invariant
            k <= m == edges@.len() == ids@.len(),
            shapes@.len() == old(shapes)@.len(),
            forall|e: int|
                0 <= e < edges@.len() ==> (#[trigger] edges@[e]).0 < shapes@.len() && edges@[e].1
                    < shapes@.len() && edges@[e].0 != edges@[e].1,
            forall|i: int| 0 <= i < shapes@.len() ==> coord_ok(#[trigger] old(shapes)@[i]),
            forall|i: int|
                0 <= i < shapes@.len() ==> same_but_bound(
                    #[trigger] old(shapes)@[i],
                    shapes@[i],
                ),
            forall|i: int|
                0 <= i < shapes@.len() ==> #[trigger] shapes@[i].bound_element_ids@ == old(
                    shapes,
                )@[i].bound_element_ids@ + incident_ids(edges@, ids@, i, k as int),
            arrows@.len() == k,
            forall|e: int|
                0 <= e < k ==> arrow_matches(
                    #[trigger] arrows@[e],
                    old(shapes)@[edges@[e].0 as int],
                    old(shapes)@[edges@[e].1 as int],
                    source_side,
                    dest_side,
                    gap,
                    ids@[e],
                ),
            bound_sum(shapes@) == bound_sum(old(shapes)@) + 2 * k,
        decreases m - k,
    {
        let edge = edges[k];
        let s = edge.0;
        let d = edge.1;
        proof {
            assert(coord_ok(shapes@[s as int])) by {
                assert(same_but_bound(old(shapes)@[s as int], shapes@[s as int]));
            }
            assert(coord_ok(shapes@[d as int])) by {
                assert(same_but_bound(old(shapes)@[d as int], shapes@[d as int]));
            }
        }
        let sp = anchor(&shapes[s], source_side);
        let dp = anchor(&shapes[d], dest_side);
        let arrow = arrow_between(sp, dp, shapes[s].id.clone(), shapes[d].id.clone(), gap, ids[
            k].clone());
        proof {
            assert(anchor_of(shapes@[s as int], source_side) == anchor_of(
                old(shapes)@[s as int],
                source_side,
            ));
            assert(anchor_of(shapes@[d as int], dest_side) == anchor_of(
                old(shapes)@[d as int],
                dest_side,
            ));
        }
        arrows.push(arrow);
        let ghost mid0 = shapes@;
        shapes[s].bound_element_ids.push(ids[k].clone());
        proof {
            lemma_bound_sum_update(mid0, s as int, shapes@[s as int]);
        }
        let ghost mid1 = shapes@;
        shapes[d].bound_element_ids.push(ids[k].clone());
        proof {
            lemma_bound_sum_update(mid1, d as int, shapes@[d as int]);
            assert forall|i: int|
                0 <= i < shapes@.len() implies #[trigger] shapes@[i].bound_element_ids@ == old(
                shapes,
            )@[i].bound_element_ids@ + incident_ids(edges@, ids@, i, k + 1) by {
                if i == s {
                    assert(shapes@[i].bound_element_ids@ == mid0[i].bound_element_ids@.push(
                        ids@[k as int],
                    ));
                    assert(mid0[i].bound_element_ids@ + seq![ids@[k as int]]
                        =~= mid0[i].bound_element_ids@.push(ids@[k as int]));
                    assert((old(shapes)@[i].bound_element_ids@ + incident_ids(
                        edges@,
                        ids@,
                        i,
                        k as int,
                    )) + seq![ids@[k as int]] =~= old(shapes)@[i].bound_element_ids@ + (
                    incident_ids(edges@, ids@, i, k as int) + seq![ids@[k as int]]));
                } else if i == d {
                    assert(shapes@[i].bound_element_ids@ == mid1[i].bound_element_ids@.push(
                        ids@[k as int],
                    ));
                    assert(mid1[i].bound_element_ids@ + seq![ids@[k as int]]
                        =~= mid1[i].bound_element_ids@.push(ids@[k as int]));
                    assert((old(shapes)@[i].bound_element_ids@ + incident_ids(
                        edges@,
                        ids@,
                        i,
                        k as int,
                    )) + seq![ids@[k as int]] =~= old(shapes)@[i].bound_element_ids@ + (
                    incident_ids(edges@, ids@, i, k as int) + seq![ids@[k as int]]));
                } else {
                    assert(shapes@[i].bound_element_ids@ == mid0[i].bound_element_ids@);
                    assert(incident_ids(edges@, ids@, i, k + 1) =~= incident_ids(
                        edges@,
                        ids@,
                        i,
                        k as int,
                    ));
                }
            }
        }
        k = k + 1;
    }
    arrows
}

} // verus!
