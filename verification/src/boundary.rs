//! Tracing the outlines of the walls: the edges left in the registry are
//! joined end to start into closed loops, always taking the sharpest turn to
//! the right where several edges leave a point, and runs of edges with the
//! same slope collapse into one edge.

use crate::point::Point;
use crate::registry::{
    entered, first_overlap, held_at, holds_key, holds_overlap, key_at, keys_cover,
    lemma_entered_cover, lemma_entered_keys, lemma_entered_wf, lemma_first_overlap,
    lemma_key_not_held, lemma_without_cover, lemma_without_keys, lemma_without_waiting,
    lemma_without_wf, no_entries, no_overlaps, point_map_entries, registry_wf,
    segment_set_keys, swap_removed, waiting, without, Cell, PointMap, SegmentKey, SegmentSet,
};
use crate::loops::{
    closed_loops, comes_round, is_chain, lemma_loop_is_closed, lemma_loop_takes_edges,
    lemma_traced_loops_are_closed, loop_corners, loop_edges, taken,
};
use crate::segment::{lemma_segment_eq_is_same_key, Angle, Segment};
use vstd::prelude::*;

verus! {

/// Why the outlines of a level could not be traced.
#[derive(Clone, Copy, Debug, PartialEq, Eq, Structural)]
pub enum TraceError {
    /// A tile carries a collision shape that is neither a rectangle nor a
    /// polygon.
    UnsupportedShape,
    /// A chain of edges ends at a point that no edge leaves.
    DanglingEndpoint,
    /// A loop has fewer than two corners.
    DegenerateLoop,
}

/// The turn from `incoming` into `candidate`, measured as the angle from
/// `incoming` to the reverse of `candidate`: the smaller it is, the sharper
/// the turn to the right.
pub open spec fn turn(incoming: Segment, candidate: Segment) -> Angle {
    incoming.angle_to(candidate.reversed())
}

/// Place of the best of the first `k` candidates to follow `incoming`: the
/// first one whose turn no other undercuts. `None` if none of them makes an
/// angle with `incoming`.
pub open spec fn best_turn(incoming: Segment, candidates: Seq<Segment>, k: int) -> Option<int>
    decreases k,
{
    if k <= 0 {
        None
    } else {
        let before = best_turn(incoming, candidates, k - 1);
        let angle = turn(incoming, candidates[k - 1]);
        if angle.is_defined() && (before is None || angle.precedes(
            turn(incoming, candidates[before.unwrap()]),
        )) {
            Some(k - 1)
        } else {
            before
        }
    }
}

/// Place of the candidate that follows `incoming`: the one with the sharpest
/// turn to the right, the first of them if several turn alike, and the first
/// candidate if none makes an angle with `incoming`.
pub open spec fn next_index(incoming: Segment, candidates: Seq<Segment>) -> int {
    match best_turn(incoming, candidates, candidates.len() as int) {
        Some(i) => i,
        None => 0,
    }
}

/// The best of the first `k` candidates is one of them, makes an angle, and
/// no candidate among them turns more sharply; of those that turn alike it
/// comes first.
pub proof fn lemma_best_turn(incoming: Segment, candidates: Seq<Segment>, k: int)
    requires
        0 <= k <= candidates.len(),
    ensures
        match best_turn(incoming, candidates, k) {
            Some(i) => {
                &&& 0 <= i < k
                &&& turn(incoming, candidates[i]).is_defined()
                &&& forall|j: int|
                    0 <= j < k ==> !(#[trigger] turn(incoming, candidates[j])).precedes(
                        turn(incoming, candidates[i]),
                    )
                &&& forall|j: int|
                    0 <= j < i ==> turn(incoming, candidates[i]).precedes(
                        #[trigger] turn(incoming, candidates[j]),
                    ) || !turn(incoming, candidates[j]).is_defined()
            },
            None => forall|j: int|
                0 <= j < k ==> !(#[trigger] turn(incoming, candidates[j])).is_defined(),
        },
    decreases k,
{
    if k > 0 {
        lemma_best_turn(incoming, candidates, k - 1);
        let before = best_turn(incoming, candidates, k - 1);
        let angle = turn(incoming, candidates[k - 1]);
        if angle.is_defined() && before is Some && angle.precedes(
            turn(incoming, candidates[before.unwrap()]),
        ) {
            let old_best = turn(incoming, candidates[before.unwrap()]);
            assert forall|j: int| 0 <= j < k implies !(#[trigger] turn(
                incoming,
                candidates[j],
            )).precedes(angle) by {
                let other = turn(incoming, candidates[j]);
                if j < k - 1 && other.precedes(angle) {
                    lemma_precedes_transitive(other, angle, old_best);
                }
            }
            assert forall|j: int| 0 <= j < k - 1 implies angle.precedes(
                #[trigger] turn(incoming, candidates[j]),
            ) || !turn(incoming, candidates[j]).is_defined() by {
                let other = turn(incoming, candidates[j]);
                if other.is_defined() {
                    lemma_precedes_total(other, old_best);
                    if old_best.precedes(other) {
                        lemma_precedes_transitive(angle, old_best, other);
                    } else {
                        lemma_precedes_alike(angle, old_best, other);
                    }
                }
            }
        } else if before is Some {
            let old_best = turn(incoming, candidates[before.unwrap()]);
            if angle.is_defined() {
                assert(!angle.precedes(old_best));
            }
        }
    }
}

/// A place inside the list of candidates follows `incoming`, if there are
/// any candidates.
pub proof fn lemma_next_index(incoming: Segment, candidates: Seq<Segment>)
    requires
        candidates.len() > 0,
    ensures
        0 <= next_index(incoming, candidates) < candidates.len(),
{
    lemma_best_turn(incoming, candidates, candidates.len() as int);
}

/// Of three angles, if the first is smaller than the second and the second
/// smaller than the third, the first is smaller than the third.
pub proof fn lemma_precedes_transitive(a: Angle, b: Angle, c: Angle)
    requires
        a.precedes(b),
        b.precedes(c),
    ensures
        a.precedes(c),
{
    if a.sector() == b.sector() && b.sector() == c.sector() {
        lemma_cotangent_order(a, b, c);
    }
}

/// Of two angles that are not equal in size one is smaller than the other:
/// if neither is smaller they lie in the same sector and have the same
/// cotangent.
pub proof fn lemma_precedes_total(a: Angle, b: Angle)
    requires
        a.is_defined(),
        b.is_defined(),
    ensures
        a.precedes(b) || b.precedes(a) || (a.sector() == b.sector() && a.cos * b.sin == b.cos
            * a.sin),
{
    if a.sector() == b.sector() && a.sin == 0 {
        assert(a.cos * b.sin == b.cos * a.sin) by (nonlinear_arith)
            requires
                a.sin == 0,
                b.sin == 0,
        ;
    }
}

/// An angle smaller than `b` is smaller than every angle of the size of `b`.
pub proof fn lemma_precedes_alike(a: Angle, b: Angle, c: Angle)
    requires
        a.precedes(b),
        c.is_defined(),
        !b.precedes(c),
        !c.precedes(b),
    ensures
        a.precedes(c),
{
    lemma_precedes_total(b, c);
    if a.sector() == b.sector() {
        lemma_cotangent_alike(a, b, c);
    }
}

/// Within one sector with a sine, cotangents are ordered transitively.
proof fn lemma_cotangent_order(a: Angle, b: Angle, c: Angle)
    requires
        a.sector() == b.sector(),
        b.sector() == c.sector(),
        a.sin != 0,
        a.cos * b.sin > b.cos * a.sin,
        b.cos * c.sin > c.cos * b.sin,
    ensures
        a.cos * c.sin > c.cos * a.sin,
{
    let (p, q, r) = (a.sin as int, b.sin as int, c.sin as int);
    let (x, y, z) = (a.cos as int, b.cos as int, c.cos as int);
    // All three sines have the same sign, so products of two are positive.
    assert((x * q - y * p) * r * r > 0 && (y * r - z * q) * p * r > 0 ==> (x * r - z * p) * q
        * r > 0) by (nonlinear_arith)
        requires
            (p > 0 && q > 0 && r > 0) || (p < 0 && q < 0 && r < 0),
            x * q > y * p,
            y * r > z * q,
    ;
    assert((x * q - y * p) * r * r > 0) by (nonlinear_arith)
        requires
            r != 0,
            x * q > y * p,
    ;
    assert((y * r - z * q) * p * r > 0) by (nonlinear_arith)
        requires
            (p > 0 && r > 0) || (p < 0 && r < 0),
            y * r > z * q,
    ;
    assert(x * r > z * p) by (nonlinear_arith)
        requires
            (q > 0 && r > 0) || (q < 0 && r < 0),
            (x * r - z * p) * q * r > 0,
    ;
}

/// Within one sector with a sine, an angle with the cotangent of `b` is
/// ordered against `a` as `b` is.
proof fn lemma_cotangent_alike(a: Angle, b: Angle, c: Angle)
    requires
        a.sector() == b.sector(),
        b.sector() == c.sector(),
        a.sin != 0,
        a.cos * b.sin > b.cos * a.sin,
        b.cos * c.sin == c.cos * b.sin,
    ensures
        a.cos * c.sin > c.cos * a.sin,
{
    let (p, q, r) = (a.sin as int, b.sin as int, c.sin as int);
    let (x, y, z) = (a.cos as int, b.cos as int, c.cos as int);
    assert((x * r - z * p) * q == (x * q - y * p) * r) by (nonlinear_arith)
        requires
            y * r == z * q,
    ;
    assert((x * q - y * p) * r * q > 0) by (nonlinear_arith)
        requires
            (q > 0 && r > 0) || (q < 0 && r < 0),
            x * q > y * p,
    ;
    assert(x * r > z * p) by (nonlinear_arith)
        requires
            q != 0,
            (x * r - z * p) * q == (x * q - y * p) * r,
            (x * q - y * p) * r * q > 0,
    ;
}

/// Whether one of `corners` lies in the cell of `p`.
pub open spec fn contains_point(corners: Seq<Point>, p: Point) -> bool {
    exists|i: int| 0 <= i < corners.len() && (#[trigger] corners[i]).same_cell(p)
}

/// The walk along the edges of `entries` that has just passed `incoming`.
///
/// The walk takes the edge that follows `incoming` out of the list under the
/// cell where `incoming` ends. Where the slope changes, the start of the new
/// edge becomes a corner. The walk is over when it comes to a corner it has
/// been at and no edge leaves from there; if the last edge has the slope of
/// the first, the first corner lies on a straight line and is dropped. The
/// result is what is left of the entries and the corners of the loop, or
/// `None` for the corners if the walk came to a point that no edge leaves.
pub open spec fn walk(
    entries: Map<Cell, Seq<Segment>>,
    incoming: Segment,
    corners: Seq<Point>,
    slope: int,
    first_slope: int,
) -> (Map<Cell, Seq<Segment>>, Option<Seq<Point>>)
    decreases waiting(entries),
{
    let key = incoming.b.hashable();
    if !entries.dom().contains(key) || entries[key].len() == 0 {
        (entries, None)
    } else {
        let i = next_index(incoming, entries[key]);
        let next = entries[key][i];
        let rest = without(entries, key, i);
        let next_slope = next.slope_correlate();
        let turned = if slope != next_slope {
            corners.push(next.a)
        } else {
            corners
        };
        if contains_point(turned, next.b) && !rest.dom().contains(next.b.hashable()) {
            (
                rest,
                Some(
                    if first_slope == next_slope {
                        swap_removed(turned, 0)
                    } else {
                        turned
                    },
                ),
            )
        } else {
            proof {
                lemma_next_index(incoming, entries[key]);
                lemma_without_waiting(entries, key, i);
            }
            walk(rest, next, turned, next_slope, first_slope)
        }
    }
}

/// The edges that the walk takes after `incoming`, in the order in which it
/// takes them.
pub open spec fn walk_edges(
    entries: Map<Cell, Seq<Segment>>,
    incoming: Segment,
    corners: Seq<Point>,
    slope: int,
    first_slope: int,
) -> Seq<Segment>
    decreases waiting(entries),
{
    let key = incoming.b.hashable();
    if !entries.dom().contains(key) || entries[key].len() == 0 {
        Seq::empty()
    } else {
        let i = next_index(incoming, entries[key]);
        let next = entries[key][i];
        let rest = without(entries, key, i);
        let next_slope = next.slope_correlate();
        let turned = if slope != next_slope {
            corners.push(next.a)
        } else {
            corners
        };
        if contains_point(turned, next.b) && !rest.dom().contains(next.b.hashable()) {
            seq![next]
        } else {
            proof {
                lemma_next_index(incoming, entries[key]);
                lemma_without_waiting(entries, key, i);
            }
            seq![next] + walk_edges(rest, next, turned, next_slope, first_slope)
        }
    }
}

/// The edges of a walk hang together: the first starts in the cell where
/// `incoming` ends, and every other starts in the cell where the one before
/// it ends.
pub proof fn lemma_walk_is_a_chain(
    entries: Map<Cell, Seq<Segment>>,
    incoming: Segment,
    corners: Seq<Point>,
    slope: int,
    first_slope: int,
)
    requires
        registry_wf(entries),
    ensures
        ({
            let edges = walk_edges(entries, incoming, corners, slope, first_slope);
            &&& edges.len() > 0 ==> edges[0].a.same_cell(incoming.b)
            &&& forall|k: int|
                0 <= k < edges.len() - 1 ==> (#[trigger] edges[k + 1]).a.same_cell(edges[k].b)
        }),
    decreases waiting(entries),
{
    let key = incoming.b.hashable();
    if entries.dom().contains(key) && entries[key].len() > 0 {
        lemma_next_index(incoming, entries[key]);
        let i = next_index(incoming, entries[key]);
        let next = entries[key][i];
        let rest = without(entries, key, i);
        let next_slope = next.slope_correlate();
        let turned = if slope != next_slope {
            corners.push(next.a)
        } else {
            corners
        };
        assert(next.a.hashable() == key);
        if !(contains_point(turned, next.b) && !rest.dom().contains(next.b.hashable())) {
            lemma_without_waiting(entries, key, i);
            lemma_without_wf(entries, key, i);
            lemma_walk_is_a_chain(rest, next, turned, next_slope, first_slope);
            let tail = walk_edges(rest, next, turned, next_slope, first_slope);
            let edges = seq![next] + tail;
            assert forall|k: int|
                0 <= k < edges.len() - 1 implies (#[trigger] edges[k + 1]).a.same_cell(
                edges[k].b,
            ) by {
                if k == 0 {
                    assert(edges[1] == tail[0]);
                    assert(tail[0].a.same_cell(next.b));
                } else {
                    assert(edges[k + 1] == tail[k - 1 + 1]);
                    assert(edges[k] == tail[k - 1]);
                    assert(tail[k - 1 + 1].a.same_cell(tail[k - 1].b));
                }
            }
        }
    }
}

/// A walk that ends well ends where it has been: its last edge ends in the
/// cell of one of the corners it returns, or in the cell of the first corner
/// it set out with, which it may have dropped.
pub proof fn lemma_walk_closes(
    entries: Map<Cell, Seq<Segment>>,
    incoming: Segment,
    corners: Seq<Point>,
    slope: int,
    first_slope: int,
)
    requires
        corners.len() > 0,
    ensures
        walk(entries, incoming, corners, slope, first_slope).1 matches Some(found) ==> ({
            let edges = walk_edges(entries, incoming, corners, slope, first_slope);
            edges.len() > 0 && (contains_point(found, edges.last().b) || corners[0].same_cell(
                edges.last().b,
            ))
        }),
    decreases waiting(entries),
{
    let key = incoming.b.hashable();
    if entries.dom().contains(key) && entries[key].len() > 0 {
        lemma_next_index(incoming, entries[key]);
        let i = next_index(incoming, entries[key]);
        let next = entries[key][i];
        let rest = without(entries, key, i);
        let next_slope = next.slope_correlate();
        let turned = if slope != next_slope {
            corners.push(next.a)
        } else {
            corners
        };
        assert(turned[0] == corners[0]);
        if contains_point(turned, next.b) && !rest.dom().contains(next.b.hashable()) {
            let at = choose|at: int|
                0 <= at < turned.len() && (#[trigger] turned[at]).same_cell(next.b);
            if first_slope == next_slope && at != 0 {
                let kept = swap_removed(turned, 0);
                if at == turned.len() - 1 {
                    assert(kept[0] == turned[at]);
                } else {
                    assert(kept[at] == turned[at]);
                }
            }
        } else {
            lemma_without_waiting(entries, key, i);
            lemma_walk_closes(rest, next, turned, next_slope, first_slope);
            let tail = walk_edges(rest, next, turned, next_slope, first_slope);
            if walk(rest, next, turned, next_slope, first_slope).1 is Some {
                assert((seq![next] + tail).last() == tail.last());
            }
        }
    }
}

/// The loop that starts with the first edge under `start`: what is left of
/// the entries afterwards, and the corners of the loop or `None` if the walk
/// came to a point that no edge leaves.
pub open spec fn loop_from(entries: Map<Cell, Seq<Segment>>, start: Cell) -> (
    Map<Cell, Seq<Segment>>,
    Option<Seq<Point>>,
) {
    let first = entries[start][0];
    walk(
        without(entries, start, 0),
        first,
        seq![first.a],
        first.slope_correlate(),
        first.slope_correlate(),
    )
}

/// `loops` can be traced from `from` one after the other, each from some
/// cell that holds an edge, and `to` is what is left.
pub open spec fn traced(
    from: Map<Cell, Seq<Segment>>,
    loops: Seq<Seq<Point>>,
    to: Map<Cell, Seq<Segment>>,
) -> bool
    decreases loops.len(),
{
    if loops.len() == 0 {
        to == from
    } else {
        exists|mid: Map<Cell, Seq<Segment>>, start: Cell|
            traced(from, loops.drop_last(), mid) && mid.dom().contains(start)
                && #[trigger] loop_from(mid, start) == (to, Some(loops.last()))
    }
}

/// After some loops have been traced from `from`, a further walk comes to
/// a point that no edge leaves, and `to` is what is left then.
pub open spec fn trace_fails(from: Map<Cell, Seq<Segment>>, to: Map<Cell, Seq<Segment>>) -> bool {
    exists|loops: Seq<Seq<Point>>, mid: Map<Cell, Seq<Segment>>, start: Cell|
        #![trigger traced(from, loops, mid), loop_from(mid, start)]
        traced(from, loops, mid) && mid.dom().contains(start) && loop_from(mid, start) == (
            to,
            None::<Seq<Point>>,
        )
}

/// The corners of each loop, as sequences.
pub open spec fn loops_view(loops: Seq<Vec<Point>>) -> Seq<Seq<Point>> {
    Seq::new(loops.len(), |i: int| loops[i]@)
}

/// The edges of the walls of a level, each waiting under the cell of its
/// start point. A set of the keys of all edges tells at once that an edge is
/// new.
pub struct SegmentRegistry {
    segments: SegmentSet,
    points_map: PointMap,
}

impl View for SegmentRegistry {
    type V = Map<Cell, Seq<Segment>>;

    closed spec fn view(&self) -> Map<Cell, Seq<Segment>> {
        point_map_entries(self.points_map)
    }
}

impl SegmentRegistry {
    /// Every list of the registry is non-empty and holds only segments that
    /// start in its cell, no two segments overlap, and the set of keys holds
    /// the key of every segment.
    pub closed spec fn wf(&self) -> bool {
        &&& registry_wf(self@)
        &&& no_overlaps(self@)
        &&& keys_cover(segment_set_keys(self.segments), self@)
    }

    /// In a well-formed registry every list is non-empty and holds only
    /// segments that start in its cell, and no two segments overlap.
    pub proof fn lemma_wf(&self)
        requires
            self.wf(),
        ensures
            registry_wf(self@),
            no_overlaps(self@),
    {
    }

    /// A registry without edges.
    pub fn new() -> (registry: SegmentRegistry)
        ensures
            registry.wf(),
            registry@ == no_entries(),
    {
        SegmentRegistry { segments: SegmentSet::new(), points_map: PointMap::new() }
    }

    /// Whether no edge is left.
    pub fn is_empty(&self) -> (empty: bool)
        requires
            self.wf(),
        ensures
            empty == (self@ == no_entries()),
    {
        let key = self.points_map.any_key();
        proof {
            if key is Some {
                assert(!no_entries().dom().contains(key.unwrap()));
            }
        }
        key.is_none()
    }

    /// Some cell under which an edge waits, or `None` if no edge is left.
    pub fn next_start(&self) -> (start: Option<Cell>)
        requires
            self.wf(),
        ensures
            start matches Some(cell) ==> self@.dom().contains(cell),
            start is None ==> self@ == no_entries(),
    {
        self.points_map.any_key()
    }

    /// Takes the first segment that overlaps `segment` out of the list under
    /// `key`, if there is one, and says whether there was.
    fn cancel(&mut self, key: Cell, segment: &Segment) -> (cancelled: bool)
        requires
            old(self).wf(),
        ensures
            final(self).wf(),
            cancelled == holds_overlap(old(self)@, key, *segment),
            cancelled ==> final(self)@ == without(
                old(self)@,
                key,
                first_overlap(old(self)@[key], *segment, 0),
            ),
            !cancelled ==> final(self)@ == old(self)@,
            segment_set_keys(final(self).segments) == segment_set_keys(old(self).segments),
    {
        match self.points_map.remove(key) {
            None => {
                proof {
                    assert(self@ =~= old(self)@);
                }
                false
            },
            Some(mut list) => {
                let ghost held: Seq<Segment> = list@;
                let mut i: usize = 0;
                while i < list.len() && !(list[i] == *segment)
                    invariant
                        list@ == held,
                        0 <= i <= list.len(),
                        first_overlap(held, *segment, 0) == first_overlap(held, *segment, i as int),
                    decreases list.len() - i,
                {
                    i += 1;
                }
                proof {
                    lemma_first_overlap(held, *segment, i as int);
                }
                if i < list.len() {
                    list.swap_remove(i);
                    if !list.is_empty() {
                        self.points_map.insert(key, list);
                    }
                    proof {
                        assert(self@ =~= without(old(self)@, key, i as int));
                        lemma_without_wf(old(self)@, key, i as int);
                        lemma_without_keys(old(self)@, key, i as int);
                        lemma_without_cover(
                            segment_set_keys(self.segments),
                            old(self)@,
                            key,
                            i as int,
                        );
                    }
                    true
                } else {
                    self.points_map.insert(key, list);
                    proof {
                        assert(self@ =~= old(self)@);
                    }
                    false
                }
            },
        }
    }

    /// Enters `segment`. If a segment that overlaps it is waiting, that one
    /// leaves and `segment` is not added: an edge shared by two tiles is no
    /// part of the outline. Otherwise `segment` waits under the cell of its
    /// start point from now on.
    pub fn insert(&mut self, segment: Segment)
        requires
            old(self).wf(),
        ensures
            final(self).wf(),
            final(self)@ == entered(old(self)@, segment),
    {
        let start: Cell = segment.a.get_hashable();
        let end: Cell = segment.b.get_hashable();
        let key: SegmentKey = segment.get_hashable();
        let ghost keys: Set<SegmentKey> = segment_set_keys(self.segments);
        proof {
            lemma_entered_wf(old(self)@, segment);
            lemma_entered_keys(old(self)@, segment);
            lemma_entered_cover(keys, old(self)@, segment);
        }
        if self.segments.contains(key) {
            let cancelled: bool = if self.cancel(end, &segment) {
                true
            } else {
                self.cancel(start, &segment)
            };
            if cancelled {
                proof {
                    let cell: Cell = if holds_overlap(old(self)@, end, segment) {
                        end
                    } else {
                        start
                    };
                    let i = first_overlap(old(self)@[cell], segment, 0);
                    lemma_first_overlap(old(self)@[cell], segment, 0);
                    lemma_segment_eq_is_same_key(old(self)@[cell][i], segment);
                    assert(held_at(old(self)@, cell, i) && key_at(old(self)@, cell, i) == key);
                    assert(holds_key(old(self)@, key));
                }
                self.segments.remove(key);
                proof {
                    assert(self@ == entered(old(self)@, segment));
                    assert(segment_set_keys(self.segments) == keys.remove(segment.key()));
                }
                return ;
            }
            proof {
                assert(self@ == old(self)@);
            }
        } else {
            proof {
                if holds_key(old(self)@, key) {
                    let (cell, i) = choose|cell: Cell, i: int|
                        held_at(old(self)@, cell, i) && #[trigger] key_at(old(self)@, cell, i)
                            == key;
                    assert(keys.contains(key_at(old(self)@, cell, i)));
                }
                lemma_key_not_held(old(self)@, segment, end);
                lemma_key_not_held(old(self)@, segment, start);
            }
        }
        match self.points_map.remove(start) {
            Some(mut list) => {
                list.push(segment);
                self.points_map.insert(start, list);
            },
            None => {
                let mut list: Vec<Segment> = Vec::new();
                list.push(segment);
                self.points_map.insert(start, list);
            },
        }
        self.segments.insert(key);
        proof {
            assert(self@ =~= entered(old(self)@, segment));
            assert(segment_set_keys(self.segments) == keys.insert(segment.key()));
        }
    }

    /// Traces the loop that starts with the first edge under `start`, and
    /// takes the edges it passes out of the registry.
    ///
    /// Returns the corners of the loop, or `DanglingEndpoint` if the walk
    /// comes to a point that no edge leaves.
    pub fn trace_loop(&mut self, start: Cell) -> (corners: Result<Vec<Point>, TraceError>)
        requires
            old(self).wf(),
            old(self)@.dom().contains(start),
        ensures
            final(self).wf(),
            final(self)@ == loop_from(old(self)@, start).0,
            waiting(final(self)@) < waiting(old(self)@),
            match corners {
                Ok(list) => loop_from(old(self)@, start).1 == Some(list@),
                Err(error) => error == TraceError::DanglingEndpoint && loop_from(
                    old(self)@,
                    start,
                ).1 is None,
            },
            taken(old(self)@, loop_edges(old(self)@, start), final(self)@),
            corners matches Ok(list) ==> is_chain(loop_edges(old(self)@, start)) && comes_round(
                loop_edges(old(self)@, start),
            ) && list@ == loop_corners(loop_edges(old(self)@, start)),
    {
        proof {
            lemma_loop_takes_edges(old(self)@, start);
            if loop_from(old(self)@, start).1 is Some {
                lemma_loop_is_closed(old(self)@, start);
            }
        }
        let first: Segment = self.take(start, 0);
        let mut incoming: Segment = first;
        let mut corners: Vec<Point> = Vec::new();
        corners.push(first.a);
        let first_slope: i32 = first.get_slope_correlate();
        let mut slope: i32 = first_slope;
        loop
            invariant
                self.wf(),
                waiting(self@) < waiting(old(self)@),
                first_slope == first.slope_correlate(),
                corners@.len() > 0,
                taken(
                    old(self)@,
                    loop_edges(old(self)@, start),
                    loop_from(old(self)@, start).0,
                ),
                loop_from(old(self)@, start).1 is Some ==> is_chain(loop_edges(old(self)@, start))
                    && comes_round(loop_edges(old(self)@, start)) && loop_from(
                    old(self)@,
                    start,
                ).1 == Some(loop_corners(loop_edges(old(self)@, start))),
                loop_from(old(self)@, start) == walk(
                    self@,
                    incoming,
                    corners@,
                    slope as int,
                    first_slope as int,
                ),
            decreases waiting(self@),
        {
            let key: Cell = incoming.b.get_hashable();
            if !self.points_map.contains_key(key) {
                return Err(TraceError::DanglingEndpoint);
            }
            let ghost before: Map<Cell, Seq<Segment>> = self@;
            let ghost came: Segment = incoming;
            let ghost seen: Seq<Point> = corners@;
            let ghost old_slope: int = slope as int;
            let i: usize = self.choose_next(key, &incoming);
            let next: Segment = self.take(key, i);
            let next_slope: i32 = next.get_slope_correlate();
            if slope != next_slope {
                slope = next_slope;
                corners.push(next.a);
            }
            let back: bool = contains(&corners, next.b);
            if back && !self.points_map.contains_key(next.b.get_hashable()) {
                if first_slope == slope {
                    corners.swap_remove(0);
                }
                return Ok(corners);
            }
            incoming = next;
            proof {
                assert(walk(before, came, seen, old_slope, first_slope as int) == walk(
                    self@,
                    incoming,
                    corners@,
                    slope as int,
                    first_slope as int,
                ));
            }
        }
    }

    /// Traces loops until no edge is left.
    ///
    /// Returns the corners of every loop in the order in which the loops
    /// were traced, or `DanglingEndpoint` as soon as a walk comes to a point
    /// that no edge leaves. Which edge a loop starts with is not fixed.
    pub fn trace(&mut self) -> (loops: Result<Vec<Vec<Point>>, TraceError>)
        requires
            old(self).wf(),
        ensures
            final(self).wf(),
            match loops {
                Ok(list) => final(self)@ == no_entries() && traced(
                    old(self)@,
                    loops_view(list@),
                    final(self)@,
                ) && closed_loops(old(self)@, loops_view(list@), final(self)@),
                Err(error) => error == TraceError::DanglingEndpoint && trace_fails(
                    old(self)@,
                    final(self)@,
                ),
            },
    {
        let mut loops: Vec<Vec<Point>> = Vec::new();
        proof {
            assert(loops_view(loops@) =~= Seq::<Seq<Point>>::empty());
        }
        loop
            invariant
                self.wf(),
                old(self).wf(),
                traced(old(self)@, loops_view(loops@), self@),
            decreases waiting(self@),
        {
            let start: Cell = match self.points_map.any_key() {
                Some(start) => start,
                None => {
                    proof {
                        lemma_traced_loops_are_closed(old(self)@, loops_view(loops@), self@);
                    }
                    return Ok(loops);
                },
            };
            let ghost mid: Map<Cell, Seq<Segment>> = self@;
            let ghost done: Seq<Seq<Point>> = loops_view(loops@);
            match self.trace_loop(start) {
                Ok(corners) => {
                    let ghost shape: Seq<Point> = corners@;
                    loops.push(corners);
                    proof {
                        let all = loops_view(loops@);
                        assert(all.drop_last() =~= done);
                        assert(all.last() == shape);
                        assert(loop_from(mid, start) == (self@, Some(all.last())));
                    }
                },
                Err(error) => {
                    proof {
                        assert(loop_from(mid, start) == (self@, None::<Seq<Point>>));
                        assert(traced(old(self)@, done, mid));
                    }
                    return Err(error);
                },
            }
        }
    }

    /// Takes entry number `i` out of the list under `key`.
    fn take(&mut self, key: Cell, i: usize) -> (segment: Segment)
        requires
            old(self).wf(),
            old(self)@.dom().contains(key),
            i < old(self)@[key].len(),
        ensures
            final(self).wf(),
            segment == old(self)@[key][i as int],
            final(self)@ == without(old(self)@, key, i as int),
            waiting(final(self)@) + 1 == waiting(old(self)@),
    {
        proof {
            lemma_without_wf(old(self)@, key, i as int);
            lemma_without_waiting(old(self)@, key, i as int);
            lemma_without_keys(old(self)@, key, i as int);
            lemma_without_cover(segment_set_keys(self.segments), old(self)@, key, i as int);
        }
        match self.points_map.remove(key) {
            Some(mut list) => {
                let segment: Segment = list.swap_remove(i);
                if !list.is_empty() {
                    self.points_map.insert(key, list);
                }
                proof {
                    assert(self@ =~= without(old(self)@, key, i as int));
                }
                segment
            },
            None => {
                proof {
                    assert(false);
                }
                Segment::new(Point::new(0, 0), Point::new(0, 0))
            },
        }
    }

    /// Place, in the list under `key`, of the edge that follows `incoming`.
    fn choose_next(&mut self, key: Cell, incoming: &Segment) -> (i: usize)
        requires
            old(self).wf(),
            old(self)@.dom().contains(key),
        ensures
            final(self).wf(),
            final(self)@ == old(self)@,
            i == next_index(*incoming, old(self)@[key]),
            i < old(self)@[key].len(),
    {
        match self.points_map.remove(key) {
            Some(list) => {
                let i: usize = sharpest_turn(incoming, &list);
                self.points_map.insert(key, list);
                proof {
                    assert(self@ =~= old(self)@);
                }
                i
            },
            None => {
                proof {
                    assert(false);
                }
                0
            },
        }
    }
}

/// Place of the candidate that follows `incoming`: the one with the sharpest
/// turn to the right.
pub fn sharpest_turn(incoming: &Segment, candidates: &Vec<Segment>) -> (i: usize)
    requires
        candidates.len() > 0,
    ensures
        i == next_index(*incoming, candidates@),
        i < candidates.len(),
{
    let mut best: Option<usize> = None;
    let mut best_angle: Angle = Angle { sin: 0, cos: 0 };
    let mut k: usize = 0;
    while k < candidates.len()
        invariant
            0 <= k <= candidates.len(),
            best matches Some(i) ==> best_turn(*incoming, candidates@, k as int) == Some(i as int)
                && best_angle == turn(*incoming, candidates@[i as int]),
            best is None ==> best_turn(*incoming, candidates@, k as int) is None,
        decreases candidates.len() - k,
    {
        let reversed: Segment = candidates[k].reverse();
        let angle: Angle = incoming.angle_between(&reversed);
        if angle.defined() && (best.is_none() || angle.less_than(&best_angle)) {
            best = Some(k);
            best_angle = angle;
        }
        k += 1;
    }
    proof {
        lemma_next_index(*incoming, candidates@);
    }
    match best {
        Some(i) => i,
        None => 0,
    }
}

/// Whether one of `corners` lies in the cell of `p`.
pub fn contains(corners: &Vec<Point>, p: Point) -> (found: bool)
    ensures
        found == contains_point(corners@, p),
{
    let mut i: usize = 0;
    while i < corners.len()
        invariant
            0 <= i <= corners.len(),
            forall|j: int| 0 <= j < i ==> !(#[trigger] corners@[j]).same_cell(p),
        decreases corners.len() - i,
    {
        if corners[i] == p {
            return true;
        }
        i += 1;
    }
    false
}

} // verus!
