//! What holds of the loops that are traced: a loop is a closed chain of
//! edges, it has a corner exactly where the slope of its edges changes, and
//! every edge of the registry goes into exactly one loop.

use crate::boundary::{
    contains_point, lemma_next_index, lemma_walk_closes, lemma_walk_is_a_chain, loop_from,
    next_index, traced, walk, walk_edges,
};
use crate::point::Point;
use crate::registry::{
    held_at, holds_key, key_at, lemma_without_keeps, lemma_without_keys, lemma_without_waiting,
    lemma_without_wf, no_overlaps, registry_wf, swap_removed, waiting, without, Cell, SegmentKey,
};
use crate::segment::Segment;
use vstd::prelude::*;

verus! {

/// The edges of the loop that starts with the first edge under `start`, in
/// the order in which the walk takes them.
pub open spec fn loop_edges(entries: Map<Cell, Seq<Segment>>, start: Cell) -> Seq<Segment> {
    let first = entries[start][0];
    seq![first] + walk_edges(
        without(entries, start, 0),
        first,
        seq![first.a],
        first.slope_correlate(),
        first.slope_correlate(),
    )
}

/// The slope of the edge before edge number `k` of `edges`; `slope` before
/// the first.
pub open spec fn slope_before(slope: int, edges: Seq<Segment>, k: int) -> int {
    if k <= 0 {
        slope
    } else {
        edges[k - 1].slope_correlate()
    }
}

/// `corners`, and after them the start of every one of `edges` whose slope
/// is not the slope of the edge before it; `slope` is the slope before the
/// first edge.
pub open spec fn turned_corners(corners: Seq<Point>, slope: int, edges: Seq<Segment>) -> Seq<Point>
    decreases edges.len(),
{
    if edges.len() == 0 {
        corners
    } else {
        turned_corners(
            if edges[0].slope_correlate() != slope {
                corners.push(edges[0].a)
            } else {
                corners
            },
            edges[0].slope_correlate(),
            edges.drop_first(),
        )
    }
}

/// The corners `all` of a chain of edges that has come round: if the last
/// edge has the slope of the first, the first corner lies on a straight line
/// and is dropped.
pub open spec fn closing(all: Seq<Point>, first_slope: int, last_slope: int) -> Seq<Point> {
    if first_slope == last_slope {
        swap_removed(all, 0)
    } else {
        all
    }
}

/// The corners of a closed chain of edges: the start of the first edge and
/// the start of every edge whose slope is not the slope of the edge before
/// it, without the first if the chain comes round with the slope it set out
/// with.
pub open spec fn loop_corners(edges: Seq<Segment>) -> Seq<Point> {
    closing(
        turned_corners(seq![edges[0].a], edges[0].slope_correlate(), edges.drop_first()),
        edges[0].slope_correlate(),
        edges.last().slope_correlate(),
    )
}

/// One of `edges` has the key `key`.
pub open spec fn among(edges: Seq<Segment>, key: SegmentKey) -> bool {
    exists|k: int| 0 <= k < edges.len() && (#[trigger] edges[k]).key() == key
}

/// No two of `edges` have the same key: none of them overlap.
pub open spec fn distinct_keys(edges: Seq<Segment>) -> bool {
    forall|j: int, k: int|
        0 <= j < k < edges.len() ==> (#[trigger] edges[j]).key() != (#[trigger] edges[k]).key()
}

/// The edges hang together: each starts in the cell where the one before it
/// ends.
pub open spec fn is_chain(edges: Seq<Segment>) -> bool {
    forall|k: int| 0 <= k < edges.len() - 1 ==> (#[trigger] edges[k + 1]).a.same_cell(edges[k].b)
}

/// The chain ends at a point it has left from: its last edge ends in the
/// cell where one of its edges starts.
pub open spec fn comes_round(edges: Seq<Segment>) -> bool {
    exists|k: int| 0 <= k < edges.len() && (#[trigger] edges[k]).a.same_cell(edges.last().b)
}

/// Taking the walk to its end takes `edges` out of `entries` and leaves
/// `rest`: the edges were in the registry and are there no more, no two of
/// them overlap, and nothing else has left or come.
pub open spec fn taken(
    entries: Map<Cell, Seq<Segment>>,
    edges: Seq<Segment>,
    rest: Map<Cell, Seq<Segment>>,
) -> bool {
    &&& registry_wf(rest)
    &&& no_overlaps(rest)
    &&& distinct_keys(edges)
    &&& forall|key: SegmentKey| #[trigger]
        among(edges, key) ==> holds_key(entries, key) && !holds_key(rest, key)
    &&& forall|key: SegmentKey| #[trigger] holds_key(rest, key) ==> holds_key(entries, key)
    &&& forall|key: SegmentKey| #[trigger]
        holds_key(entries, key) ==> holds_key(rest, key) || among(edges, key)
}

/// The corners from before stay where they are when corners are added.
pub proof fn lemma_turned_prefix(corners: Seq<Point>, slope: int, edges: Seq<Segment>)
    ensures
        turned_corners(corners, slope, edges).len() >= corners.len(),
        forall|j: int|
            0 <= j < corners.len() ==> #[trigger] turned_corners(corners, slope, edges)[j]
                == corners[j],
    decreases edges.len(),
{
    if edges.len() > 0 {
        let next = if edges[0].slope_correlate() != slope {
            corners.push(edges[0].a)
        } else {
            corners
        };
        lemma_turned_prefix(next, edges[0].slope_correlate(), edges.drop_first());
        assert forall|j: int| 0 <= j < corners.len() implies #[trigger] turned_corners(
            corners,
            slope,
            edges,
        )[j] == corners[j] by {
            assert(next[j] == corners[j]);
        }
    }
}

/// Every corner that is added stands where the slope changes: it is the
/// start of an edge whose slope is not the slope of the edge before it.
pub proof fn lemma_corners_at_turns(corners: Seq<Point>, slope: int, edges: Seq<Segment>, j: int)
    requires
        corners.len() <= j < turned_corners(corners, slope, edges).len(),
    ensures
        exists|k: int|
            0 <= k < edges.len() && turned_corners(corners, slope, edges)[j] == (
            #[trigger] edges[k]).a && edges[k].slope_correlate() != slope_before(slope, edges, k),
    decreases edges.len(),
{
    if edges.len() > 0 {
        let turn = edges[0].slope_correlate();
        let next = if turn != slope {
            corners.push(edges[0].a)
        } else {
            corners
        };
        let tail = edges.drop_first();
        lemma_turned_prefix(next, turn, tail);
        if j < next.len() {
            assert(turned_corners(corners, slope, edges)[j] == next[j]);
            assert(turned_corners(corners, slope, edges)[j] == edges[0].a);
        } else {
            lemma_corners_at_turns(next, turn, tail, j);
            let k = choose|k: int|
                0 <= k < tail.len() && turned_corners(next, turn, tail)[j] == (
                #[trigger] tail[k]).a && tail[k].slope_correlate() != slope_before(turn, tail, k);
            assert(edges[k + 1] == tail[k]);
            if k > 0 {
                assert(edges[k] == tail[k - 1]);
            }
            assert(slope_before(slope, edges, k + 1) == slope_before(turn, tail, k));
        }
    }
}

/// Where no corner is added between two edges, the slope does not change:
/// an edge whose slope is not the slope of the edge before it has its start
/// among the corners.
pub proof fn lemma_turns_are_corners(corners: Seq<Point>, slope: int, edges: Seq<Segment>, k: int)
    requires
        0 <= k < edges.len(),
        edges[k].slope_correlate() != slope_before(slope, edges, k),
    ensures
        exists|j: int|
            corners.len() <= j < turned_corners(corners, slope, edges).len() && (
            #[trigger] turned_corners(corners, slope, edges)[j]) == edges[k].a,
    decreases edges.len(),
{
    let turn = edges[0].slope_correlate();
    let next = if turn != slope {
        corners.push(edges[0].a)
    } else {
        corners
    };
    let tail = edges.drop_first();
    lemma_turned_prefix(next, turn, tail);
    if k == 0 {
        let j = corners.len() as int;
        assert(turned_corners(corners, slope, edges)[j] == next[j]);
    } else {
        assert(edges[k] == tail[k - 1]);
        if k > 1 {
            assert(edges[k - 1] == tail[k - 2]);
        }
        lemma_turns_are_corners(next, turn, tail, k - 1);
        let j = choose|j: int|
            next.len() <= j < turned_corners(next, turn, tail).len() && (
            #[trigger] turned_corners(next, turn, tail)[j]) == tail[k - 1].a;
        assert(turned_corners(corners, slope, edges)[j] == edges[k].a);
    }
}

/// The corners that a walk returns are the corners it set out with and one
/// more for every change of slope along its edges; the first is dropped if
/// the last edge has the slope of the first.
pub proof fn lemma_walk_corners(
    entries: Map<Cell, Seq<Segment>>,
    incoming: Segment,
    corners: Seq<Point>,
    slope: int,
    first_slope: int,
)
    ensures
        walk(entries, incoming, corners, slope, first_slope).1 matches Some(found) ==> ({
            let edges = walk_edges(entries, incoming, corners, slope, first_slope);
            edges.len() > 0 && found == closing(
                turned_corners(corners, slope, edges),
                first_slope,
                edges.last().slope_correlate(),
            )
        }),
    decreases waiting(entries),
{
    let key = incoming.b.hashable();
    if entries.dom().contains(key) && entries[key].len() > 0 {
        lemma_next_index(incoming, entries[key]);
        let i = next_index(incoming, entries[key]);
        let next = entries[key][i];
        let rest = without(entries, key, i);
        let next_slope = next.slope_correlate();
        let turned = if slope != next_slope {
            corners.push(next.a)
        } else {
            corners
        };
        let edges = walk_edges(entries, incoming, corners, slope, first_slope);
        if contains_point(turned, next.b) && !rest.dom().contains(next.b.hashable()) {
            assert(edges == seq![next]);
            assert(edges.drop_first() =~= Seq::<Segment>::empty());
            assert(turned_corners(turned, next_slope, edges.drop_first()) == turned);
            assert(turned_corners(corners, slope, edges) == turned);
        } else {
            lemma_without_waiting(entries, key, i);
            lemma_walk_corners(rest, next, turned, next_slope, first_slope);
            let tail = walk_edges(rest, next, turned, next_slope, first_slope);
            assert(edges == seq![next] + tail);
            assert(edges.drop_first() =~= tail);
            assert(edges[0] == next);
            assert(turned_corners(corners, slope, edges) == turned_corners(
                turned,
                next_slope,
                tail,
            ));
            if walk(rest, next, turned, next_slope, first_slope).1 is Some {
                assert(edges.last() == tail.last());
            }
        }
    }
}

/// What a walk takes out of a registry without overlaps: its edges, each
/// once, and nothing else.
pub proof fn lemma_walk_takes_edges(
    entries: Map<Cell, Seq<Segment>>,
    incoming: Segment,
    corners: Seq<Point>,
    slope: int,
    first_slope: int,
)
    requires
        registry_wf(entries),
        no_overlaps(entries),
    ensures
        taken(
            entries,
            walk_edges(entries, incoming, corners, slope, first_slope),
            walk(entries, incoming, corners, slope, first_slope).0,
        ),
    decreases waiting(entries),
{
    let key = incoming.b.hashable();
    let edges = walk_edges(entries, incoming, corners, slope, first_slope);
    let last = walk(entries, incoming, corners, slope, first_slope).0;
    if entries.dom().contains(key) && entries[key].len() > 0 {
        lemma_next_index(incoming, entries[key]);
        let i = next_index(incoming, entries[key]);
        let next = entries[key][i];
        let rest = without(entries, key, i);
        let next_slope = next.slope_correlate();
        let turned = if slope != next_slope {
            corners.push(next.a)
        } else {
            corners
        };
        let tail = if contains_point(turned, next.b) && !rest.dom().contains(next.b.hashable()) {
            Seq::<Segment>::empty()
        } else {
            walk_edges(rest, next, turned, next_slope, first_slope)
        };
        lemma_without_waiting(entries, key, i);
        lemma_without_wf(entries, key, i);
        lemma_without_keys(entries, key, i);
        if !(contains_point(turned, next.b) && !rest.dom().contains(next.b.hashable())) {
            lemma_walk_takes_edges(rest, next, turned, next_slope, first_slope);
        }
        assert(edges =~= seq![next] + tail);
        assert(taken(rest, tail, last));
        lemma_taken_after_one(entries, key, i, tail, last);
    } else {
        assert(edges =~= Seq::<Segment>::empty());
    }
}

/// If `tail` is what is taken after one edge has been taken out, that edge
/// and `tail` are what is taken in all.
proof fn lemma_taken_after_one(
    entries: Map<Cell, Seq<Segment>>,
    cell: Cell,
    i: int,
    tail: Seq<Segment>,
    last: Map<Cell, Seq<Segment>>,
)
    requires
        registry_wf(entries),
        no_overlaps(entries),
        held_at(entries, cell, i),
        taken(without(entries, cell, i), tail, last),
    ensures
        taken(entries, seq![entries[cell][i]] + tail, last),
{
    let next = entries[cell][i];
    let rest = without(entries, cell, i);
    let edges = seq![next] + tail;
    lemma_without_keys(entries, cell, i);
    assert(key_at(entries, cell, i) == next.key());
    assert(holds_key(entries, next.key()));
    assert(!holds_key(rest, next.key()));
    assert forall|j: int, k: int| 0 <= j < k < edges.len() implies (#[trigger] edges[j]).key() != (
    #[trigger] edges[k]).key() by {
        assert(edges[k] == tail[k - 1]);
        assert(among(tail, tail[k - 1].key()));
        if j == 0 {
            assert(holds_key(rest, tail[k - 1].key()));
        } else {
            assert(edges[j] == tail[j - 1]);
        }
    }
    assert forall|key: SegmentKey| #[trigger] among(edges, key) implies holds_key(entries, key)
        && !holds_key(last, key) by {
        let k = choose|k: int| 0 <= k < edges.len() && (#[trigger] edges[k]).key() == key;
        if k == 0 {
            if holds_key(last, key) {
                assert(holds_key(rest, key));
            }
        } else {
            assert(edges[k] == tail[k - 1]);
            assert(among(tail, key));
            assert(holds_key(rest, key));
        }
    }
    assert forall|key: SegmentKey| #[trigger] holds_key(last, key) implies holds_key(
        entries,
        key,
    ) by {
        assert(holds_key(rest, key));
    }
    assert forall|key: SegmentKey| #[trigger] holds_key(entries, key) implies holds_key(last, key)
        || among(edges, key) by {
        let (other, j) = choose|other: Cell, j: int|
            held_at(entries, other, j) && #[trigger] key_at(entries, other, j) == key;
        if other == cell && j == i {
            assert(edges[0].key() == key);
        } else {
            lemma_without_keeps(entries, cell, i, other, j);
            assert(holds_key(rest, key));
            if !holds_key(last, key) {
                assert(among(tail, key));
                let k = choose|k: int| 0 <= k < tail.len() && (#[trigger] tail[k]).key() == key;
                assert(edges[k + 1] == tail[k]);
            }
        }
    }
}

/// A loop is closed and has its corners where it turns.
///
/// The edges of a loop that has been traced hang together, each starting in
/// the cell where the one before it ends, and the last ends in a cell where
/// one of them starts. The corners of the loop are the start of the first
/// edge and the start of every edge whose slope is not the slope of the edge
/// before it, without the first if the loop comes round with the slope it
/// set out with: between two corners the slope does not change, and at
/// every corner it does.
pub proof fn lemma_loop_is_closed(entries: Map<Cell, Seq<Segment>>, start: Cell)
    requires
        registry_wf(entries),
        entries.dom().contains(start),
        loop_from(entries, start).1 is Some,
    ensures
        is_chain(loop_edges(entries, start)),
        comes_round(loop_edges(entries, start)),
        loop_from(entries, start).1 == Some(loop_corners(loop_edges(entries, start))),
{
    let first = entries[start][0];
    let rest = without(entries, start, 0);
    let slope = first.slope_correlate();
    let tail = walk_edges(rest, first, seq![first.a], slope, slope);
    let edges = loop_edges(entries, start);
    let found = loop_from(entries, start).1.unwrap();
    lemma_without_wf(entries, start, 0);
    lemma_walk_is_a_chain(rest, first, seq![first.a], slope, slope);
    lemma_walk_closes(rest, first, seq![first.a], slope, slope);
    lemma_walk_corners(rest, first, seq![first.a], slope, slope);
    assert(edges == seq![first] + tail);
    assert(edges.drop_first() =~= tail);
    assert(edges.last() == tail.last());
    assert forall|k: int| 0 <= k < edges.len() - 1 implies (#[trigger] edges[k + 1]).a.same_cell(
        edges[k].b,
    ) by {
        assert(edges[k + 1] == tail[k]);
        if k > 0 {
            assert(edges[k] == tail[k - 1]);
            assert(tail[k - 1 + 1].a.same_cell(tail[k - 1].b));
        }
    }
    // The walk ends at one of its corners, and every corner is the start of
    // an edge.
    let all = turned_corners(seq![first.a], slope, tail);
    lemma_turned_prefix(seq![first.a], slope, tail);
    assert(all[0] == first.a);
    let end = edges.last().b;
    if (seq![first.a])[0].same_cell(end) {
        assert(edges[0].a.same_cell(end));
    } else {
        let at = choose|at: int| 0 <= at < found.len() && (#[trigger] found[at]).same_cell(end);
        // A corner of the loop is a corner of the walk.
        let j: int = if found == all {
            at
        } else if at == 0 {
            all.len() - 1
        } else {
            at
        };
        assert(0 <= j < all.len() && all[j] == found[at]);
        if j == 0 {
            assert(edges[0].a.same_cell(end));
        } else {
            lemma_corners_at_turns(seq![first.a], slope, tail, j);
            let k = choose|k: int|
                0 <= k < tail.len() && all[j] == (#[trigger] tail[k]).a
                    && tail[k].slope_correlate() != slope_before(slope, tail, k);
            assert(edges[k + 1] == tail[k]);
            assert(edges[k + 1].a.same_cell(end));
        }
    }
}

/// Every edge goes into one loop at most, and out of the registry with it.
///
/// Tracing a loop from a registry without overlaps takes the edges of the
/// loop out of the registry, each of them once, and leaves every other edge
/// where it was: what is left holds none of them and is again a registry
/// without overlaps.
pub proof fn lemma_loop_takes_edges(entries: Map<Cell, Seq<Segment>>, start: Cell)
    requires
        registry_wf(entries),
        no_overlaps(entries),
        entries.dom().contains(start),
    ensures
        taken(entries, loop_edges(entries, start), loop_from(entries, start).0),
{
    let first = entries[start][0];
    let rest = without(entries, start, 0);
    let slope = first.slope_correlate();
    lemma_without_wf(entries, start, 0);
    lemma_without_keys(entries, start, 0);
    lemma_walk_takes_edges(rest, first, seq![first.a], slope, slope);
    lemma_taken_after_one(
        entries,
        start,
        0,
        walk_edges(rest, first, seq![first.a], slope, slope),
        loop_from(entries, start).0,
    );
}

/// The chains of edges of loops traced one after the other from `from`, with
/// `to` left over.
pub open spec fn traced_chains(
    from: Map<Cell, Seq<Segment>>,
    chains: Seq<Seq<Segment>>,
    to: Map<Cell, Seq<Segment>>,
) -> bool
    decreases chains.len(),
{
    if chains.len() == 0 {
        to == from
    } else {
        exists|mid: Map<Cell, Seq<Segment>>, start: Cell|
            traced_chains(from, chains.drop_last(), mid) && mid.dom().contains(start)
                && loop_from(mid, start).0 == to && loop_from(mid, start).1 is Some
                && #[trigger] loop_edges(mid, start) == chains.last()
    }
}

/// The key of edge number `k` of chain number `a`.
pub open spec fn chain_key(chains: Seq<Seq<Segment>>, a: int, k: int) -> SegmentKey {
    chains[a][k].key()
}

/// Edge number `k` of chain number `a` exists.
pub open spec fn in_chain(chains: Seq<Seq<Segment>>, a: int, k: int) -> bool {
    0 <= a < chains.len() && 0 <= k < chains[a].len()
}

/// One of the chains has an edge with the key `key`.
pub open spec fn in_chains(chains: Seq<Seq<Segment>>, key: SegmentKey) -> bool {
    exists|a: int, k: int| in_chain(chains, a, k) && #[trigger] chain_key(chains, a, k) == key
}

/// The chains share out the edges that have left the registry: every edge
/// of a chain was in `from` and is not in `to`, no edge stands in two chains
/// or twice in one, and every edge of `from` is in `to` or in a chain.
pub open spec fn shared_out(
    from: Map<Cell, Seq<Segment>>,
    chains: Seq<Seq<Segment>>,
    to: Map<Cell, Seq<Segment>>,
) -> bool {
    &&& registry_wf(to)
    &&& no_overlaps(to)
    &&& forall|a: int, k: int|
        in_chain(chains, a, k) ==> holds_key(from, #[trigger] chain_key(chains, a, k))
            && !holds_key(to, chain_key(chains, a, k))
    &&& forall|a: int, k: int, b: int, l: int|
        in_chain(chains, a, k) && in_chain(chains, b, l) && #[trigger] chain_key(chains, a, k)
            == #[trigger] chain_key(chains, b, l) ==> a == b && k == l
    &&& forall|key: SegmentKey| #[trigger] holds_key(to, key) ==> holds_key(from, key)
    &&& forall|key: SegmentKey| #[trigger]
        holds_key(from, key) ==> holds_key(to, key) || in_chains(chains, key)
}

/// `loops` are the loops of the chains `chains`, traced one after the other
/// from `from` with `to` left over: every loop has the corners of its chain,
/// every chain is closed, and the chains share out the edges that have left
/// the registry.
pub open spec fn loops_of_chains(
    from: Map<Cell, Seq<Segment>>,
    loops: Seq<Seq<Point>>,
    chains: Seq<Seq<Segment>>,
    to: Map<Cell, Seq<Segment>>,
) -> bool {
    &&& traced_chains(from, chains, to)
    &&& chains.len() == loops.len()
    &&& forall|a: int|
        0 <= a < loops.len() ==> #[trigger] loops[a] == loop_corners(chains[a]) && is_chain(
            chains[a],
        ) && comes_round(chains[a])
    &&& shared_out(from, chains, to)
}

/// `loops` are closed loops that share out the edges between them: each is
/// the loop of a closed chain of edges, with a corner exactly where the
/// slope changes, and every edge that has left the registry stands in
/// exactly one of the chains.
pub open spec fn closed_loops(
    from: Map<Cell, Seq<Segment>>,
    loops: Seq<Seq<Point>>,
    to: Map<Cell, Seq<Segment>>,
) -> bool {
    exists|chains: Seq<Seq<Segment>>| #[trigger] loops_of_chains(from, loops, chains, to)
}

/// Loops that have been traced are closed loops that share out the edges
/// between them.
pub proof fn lemma_traced_loops_are_closed(
    from: Map<Cell, Seq<Segment>>,
    loops: Seq<Seq<Point>>,
    to: Map<Cell, Seq<Segment>>,
)
    requires
        registry_wf(from),
        no_overlaps(from),
        traced(from, loops, to),
    ensures
        closed_loops(from, loops, to),
{
    let chains = lemma_traced_has_chains(from, loops, to);
    assert(loops_of_chains(from, loops, chains, to));
}

/// Loops that have been traced are the loops of chains of edges: each has
/// the corners of its chain, and each chain is closed.
pub proof fn lemma_traced_has_chains(
    from: Map<Cell, Seq<Segment>>,
    loops: Seq<Seq<Point>>,
    to: Map<Cell, Seq<Segment>>,
) -> (chains: Seq<Seq<Segment>>)
    requires
        registry_wf(from),
        no_overlaps(from),
        traced(from, loops, to),
    ensures
        traced_chains(from, chains, to),
        chains.len() == loops.len(),
        forall|a: int|
            0 <= a < loops.len() ==> #[trigger] loops[a] == loop_corners(chains[a]) && is_chain(
                chains[a],
            ) && comes_round(chains[a]),
        shared_out(from, chains, to),
    decreases loops.len(),
{
    if loops.len() == 0 {
        Seq::<Seq<Segment>>::empty()
    } else {
        let (mid, start) = choose|mid: Map<Cell, Seq<Segment>>, start: Cell|
            traced(from, loops.drop_last(), mid) && mid.dom().contains(start)
                && #[trigger] loop_from(mid, start) == (to, Some(loops.last()));
        let before = lemma_traced_has_chains(from, loops.drop_last(), mid);
        lemma_loop_is_closed(mid, start);
        lemma_loop_takes_edges(mid, start);
        let chain = loop_edges(mid, start);
        let chains = before.push(chain);
        assert(chains.drop_last() =~= before);
        assert(chains.last() == chain);
        assert forall|a: int| 0 <= a < loops.len() implies #[trigger] loops[a] == loop_corners(
            chains[a],
        ) && is_chain(chains[a]) && comes_round(chains[a]) by {
            if a < loops.len() - 1 {
                assert(loops[a] == loops.drop_last()[a]);
                assert(chains[a] == before[a]);
            }
        }
        lemma_shared_out_grows(from, before, mid, chain, to);
        chains
    }
}

/// When a further chain is taken out of what the chains before it have
/// left, all the chains together share out what has left the registry.
proof fn lemma_shared_out_grows(
    from: Map<Cell, Seq<Segment>>,
    before: Seq<Seq<Segment>>,
    mid: Map<Cell, Seq<Segment>>,
    chain: Seq<Segment>,
    to: Map<Cell, Seq<Segment>>,
)
    requires
        shared_out(from, before, mid),
        taken(mid, chain, to),
    ensures
        shared_out(from, before.push(chain), to),
{
    let chains = before.push(chain);
    let n = before.len() as int;
    assert forall|a: int, k: int| in_chain(chains, a, k) implies (if a < n {
        in_chain(before, a, k) && #[trigger] chain_key(chains, a, k) == chain_key(before, a, k)
    } else {
        0 <= k < chain.len() && chain_key(chains, a, k) == chain[k].key() && among(
            chain,
            chain[k].key(),
        )
    }) by {
        if a < n {
            assert(chains[a] == before[a]);
        } else {
            assert(chains[a] == chain);
        }
    }
    assert forall|a: int, k: int| in_chain(chains, a, k) implies holds_key(
        from,
        #[trigger] chain_key(chains, a, k),
    ) && !holds_key(to, chain_key(chains, a, k)) by {
        let key = chain_key(chains, a, k);
        if a < n {
            assert(chain_key(before, a, k) == key);
            if holds_key(to, key) {
                assert(holds_key(mid, key));
            }
        } else {
            assert(among(chain, key));
            assert(holds_key(mid, key));
        }
    }
    assert forall|a: int, k: int, b: int, l: int|
        in_chain(chains, a, k) && in_chain(chains, b, l) && #[trigger] chain_key(chains, a, k)
            == #[trigger] chain_key(chains, b, l) implies a == b && k == l by {
        let key = chain_key(chains, a, k);
        if a < n && b < n {
            assert(chain_key(before, a, k) == chain_key(before, b, l));
        } else if a < n {
            assert(chain_key(before, a, k) == key);
            assert(among(chain, key));
            assert(holds_key(mid, key));
        } else if b < n {
            assert(chain_key(before, b, l) == key);
            assert(among(chain, key));
            assert(holds_key(mid, key));
        } else {
            if k < l {
                assert(chain[k].key() != chain[l].key());
            } else if l < k {
                assert(chain[l].key() != chain[k].key());
            }
        }
    }
    assert forall|key: SegmentKey| #[trigger] holds_key(to, key) implies holds_key(from, key) by {
        assert(holds_key(mid, key));
    }
    assert forall|key: SegmentKey| #[trigger] holds_key(from, key) implies holds_key(to, key)
        || in_chains(chains, key) by {
        if !holds_key(to, key) {
            if holds_key(mid, key) {
                assert(among(chain, key));
                let k = choose|k: int| 0 <= k < chain.len() && (#[trigger] chain[k]).key() == key;
                assert(in_chain(chains, n, k) && chain_key(chains, n, k) == key);
            } else {
                assert(in_chains(before, key));
                let (a, k) = choose|a: int, k: int|
                    in_chain(before, a, k) && #[trigger] chain_key(before, a, k) == key;
                assert(in_chain(chains, a, k) && chain_key(chains, a, k) == key);
            }
        }
    }
}

/// When loops have been traced until no edge is left, every edge of the
/// registry stands in exactly one of their chains, and every edge of a chain
/// was an edge of the registry.
pub proof fn lemma_every_edge_in_one_loop(
    from: Map<Cell, Seq<Segment>>,
    chains: Seq<Seq<Segment>>,
    key: SegmentKey,
)
    requires
        shared_out(from, chains, crate::registry::no_entries()),
    ensures
        holds_key(from, key) <==> in_chains(chains, key),
        forall|a: int, k: int, b: int, l: int|
            in_chain(chains, a, k) && in_chain(chains, b, l) && #[trigger] chain_key(chains, a, k)
                == key && #[trigger] chain_key(chains, b, l) == key ==> a == b && k == l,
{
    let empty = crate::registry::no_entries();
    if holds_key(empty, key) {
        let (cell, i) = choose|cell: Cell, i: int|
            held_at(empty, cell, i) && #[trigger] key_at(empty, cell, i) == key;
        assert(false);
    }
    if in_chains(chains, key) {
        let (a, k) = choose|a: int, k: int|
            in_chain(chains, a, k) && #[trigger] chain_key(chains, a, k) == key;
        assert(holds_key(from, chain_key(chains, a, k)));
    }
}

} // verus!
