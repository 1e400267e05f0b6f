//! Turning the corners of a traced loop into the vertices of a collider:
//! every convex corner is cut off, so that no sharp spike is left, and the
//! edges between the corners are listed as rigid pieces.

use crate::point::{clamp_axis, Point};
use crate::segment::Segment;
use vstd::prelude::*;
use vstd::std_specs::ops::{AddSpec, SubSpec};

verus! {

/// How far along each axis, at most, a convex corner is cut back: three
/// tenths of a unit.
pub const MAX_BEVEL: i32 = 300;

/// The closed outline of a wall, ready for the physics engine.
#[derive(Debug)]
pub struct WallOutline {
    /// The vertices of the outline; the last repeats the first.
    pub vertices: Vec<Point>,
    /// Pairs of places in `vertices` whose vertices are joined by a rigid
    /// edge.
    pub indices: Vec<(usize, usize)>,
}

/// `v` with both coordinates kept between `-MAX_BEVEL` and `MAX_BEVEL`.
pub open spec fn cut_back(v: Point) -> Point {
    Point { x: clamp_axis(v.x, MAX_BEVEL), y: clamp_axis(v.y, MAX_BEVEL) }
}

/// The walk from `a` over `b` to `c` turns left at `b`.
pub open spec fn is_convex(a: Point, b: Point, c: Point) -> bool {
    (Segment { a, b }).angle_to(Segment { a: b, b: c }).is_left_turn()
}

/// The vertices that stand for corner `b`, which lies between `a` and `c`:
/// a convex corner gives a vertex on the edge that arrives and one on the
/// edge that leaves, each cut back from `b`; any other corner gives `b`.
pub open spec fn bevel_corner(a: Point, b: Point, c: Point) -> Seq<Point> {
    if is_convex(a, b, c) {
        seq![b.sub_spec(cut_back(b.sub_spec(a))), b.add_spec(cut_back(c.sub_spec(b)))]
    } else {
        seq![b]
    }
}

/// Corner number `i` of the loop, counted round and round for `i` up to
/// twice the number of corners.
pub open spec fn cyclic(corners: Seq<Point>, i: int) -> Point {
    if i >= corners.len() {
        corners[i - corners.len()]
    } else {
        corners[i]
    }
}

/// The vertices for the first `k` corners that are beveled. The first
/// corner to be beveled is the second of the loop.
pub open spec fn beveled(corners: Seq<Point>, k: int) -> Seq<Point>
    decreases k,
{
    if k <= 0 {
        Seq::empty()
    } else {
        beveled(corners, k - 1) + bevel_corner(
            corners[k - 1],
            cyclic(corners, k),
            cyclic(corners, k + 1),
        )
    }
}

/// The rigid edges after the first `k` corners have been beveled: each
/// corner adds the edge that leaves its last vertex.
pub open spec fn rigid_edges(corners: Seq<Point>, k: int) -> Seq<(int, int)>
    decreases k,
{
    if k <= 0 {
        Seq::empty()
    } else {
        rigid_edges(corners, k - 1).push(
            (beveled(corners, k).len() - 1, beveled(corners, k).len() as int),
        )
    }
}

/// The vertices of the outline of a loop: the vertices of all its corners,
/// and the first of them once more to close the outline.
pub open spec fn outline_vertices(corners: Seq<Point>) -> Seq<Point> {
    let all = beveled(corners, corners.len() as int);
    all.push(all[0])
}

/// `outline` is the outline of the loop with corners `corners`: its vertices
/// are the vertices of the beveled corners and the first of them once more,
/// and it lists the rigid edge of every corner.
pub open spec fn is_outline_of(outline: WallOutline, corners: Seq<Point>) -> bool {
    &&& outline.vertices@ == outline_vertices(corners)
    &&& outline.indices@.len() == corners.len()
    &&& forall|j: int|
        0 <= j < corners.len() ==> (#[trigger] outline.indices@[j]).0 == rigid_edges(
            corners,
            corners.len() as int,
        )[j].0 && outline.indices@[j].1 == rigid_edges(corners, corners.len() as int)[j].1
}

/// Every corner gives one or two vertices.
pub proof fn lemma_beveled_len(corners: Seq<Point>, k: int)
    requires
        0 <= k,
    ensures
        k <= beveled(corners, k).len() <= 2 * k,
        rigid_edges(corners, k).len() == k,
    decreases k,
{
    if k > 0 {
        lemma_beveled_len(corners, k - 1);
    }
}

/// Every rigid edge joins two vertices that follow each other in the
/// outline, and both are vertices of the outline.
pub proof fn lemma_rigid_edges_in_outline(corners: Seq<Point>, k: int, j: int)
    requires
        0 <= j < k <= corners.len(),
    ensures
        rigid_edges(corners, k)[j].1 == rigid_edges(corners, k)[j].0 + 1,
        0 <= rigid_edges(corners, k)[j].0,
        rigid_edges(corners, k)[j].1 <= beveled(corners, k).len(),
        rigid_edges(corners, k)[j].1 < outline_vertices(corners).len(),
    decreases k,
{
    lemma_beveled_len(corners, k);
    lemma_beveled_grows(corners, k, corners.len() as int);
    if j < k - 1 {
        lemma_rigid_edges_in_outline(corners, k - 1, j);
        lemma_beveled_len(corners, k - 1);
    }
}

/// Beveling more corners never takes vertices away.
pub proof fn lemma_beveled_grows(corners: Seq<Point>, k: int, n: int)
    requires
        0 <= k <= n,
    ensures
        beveled(corners, k).len() <= beveled(corners, n).len(),
    decreases n - k,
{
    if k < n {
        lemma_beveled_grows(corners, k, n - 1);
    }
}

/// Bevels the convex corners of a loop.
///
/// Returns the vertices of the outline, closed by a repeat of the first
/// vertex, and for every corner the rigid edge that leaves it.
pub fn bevel(corners: &Vec<Point>) -> (outline: WallOutline)
    requires
        corners.len() >= 2,
    ensures
        is_outline_of(outline, corners@),
{
    let n: usize = corners.len();
    let mut vertices: Vec<Point> = Vec::new();
    let mut indices: Vec<(usize, usize)> = Vec::new();
    let mut i: usize = 0;
    while i < n
        invariant
            0 <= i <= n,
            n == corners.len(),
            n >= 2,
            vertices@ == beveled(corners@, i as int),
            indices@.len() == i,
            forall|j: int|
                0 <= j < i ==> (#[trigger] indices@[j]).0 == rigid_edges(corners@, i as int)[j].0
                    && indices@[j].1 == rigid_edges(corners@, i as int)[j].1,
        decreases n - i,
    {
        let next: usize = if i + 1 == n {
            0
        } else {
            i + 1
        };
        let after: usize = if next + 1 == n {
            0
        } else {
            next + 1
        };
        let a: Point = corners[i];
        let b: Point = corners[next];
        let c: Point = corners[after];
        let arriving: Segment = Segment::new(a, b);
        let leaving: Segment = Segment::new(b, c);
        proof {
            assert(b == cyclic(corners@, i + 1));
            assert(c == cyclic(corners@, i + 2));
            lemma_beveled_len(corners@, i as int);
        }
        if arriving.angle_between(&leaving).left_turn() {
            let d1: Point = (b - a).clamp_axes(MAX_BEVEL);
            let d2: Point = (c - b).clamp_axes(MAX_BEVEL);
            vertices.push(b - d1);
            vertices.push(b + d2);
        } else {
            vertices.push(b);
        }
        proof {
            assert(vertices@ =~= beveled(corners@, i + 1));
        }
        let len: usize = vertices.len();
        indices.push((len - 1, len));
        proof {
            assert forall|j: int| 0 <= j < i + 1 implies (#[trigger] indices@[j]).0 == rigid_edges(
                corners@,
                i + 1,
            )[j].0 && indices@[j].1 == rigid_edges(corners@, i + 1)[j].1 by {
                if j < i {
                    assert(rigid_edges(corners@, i + 1)[j] == rigid_edges(corners@, i as int)[j]);
                }
            }
        }
        i += 1;
    }
    proof {
        lemma_beveled_len(corners@, n as int);
    }
    let first: Point = vertices[0];
    vertices.push(first);
    WallOutline { vertices, indices }
}

} // verus!
