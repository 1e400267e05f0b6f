//! When a loop comes back to where it began: in a registry where as many
//! edges arrive at every point as leave it, a walk never runs dry, ends in
//! the cell it set out from, and leaves such a registry behind.

use crate::boundary::{contains_point, lemma_next_index, loop_from, next_index, walk, walk_edges};
use crate::loops::loop_edges;
use crate::point::Point;
use crate::registry::{
    cell_code, code_cell, differ_only_at, lemma_cell_code, lemma_code_cell, lemma_without_waiting,
    lemma_without_wf, registry_wf, swap_removed, waiting, without, Cell,
};
use crate::segment::Segment;
use vstd::prelude::*;

verus! {

/// 1 if `b` holds, 0 if not.
pub open spec fn one_if(b: bool) -> int {
    if b {
        1
    } else {
        0
    }
}

/// Number of segments of `list` that end in `cell`.
pub open spec fn ending_in(list: Seq<Segment>, cell: Cell) -> int
    decreases list.len(),
{
    if list.len() == 0 {
        0
    } else {
        ending_in(list.drop_last(), cell) + one_if(list.last().b.hashable() == cell)
    }
}

/// Number of segments, among those that wait under the cell with number
/// `code`, that end in `cell`.
pub open spec fn arriving_from(entries: Map<Cell, Seq<Segment>>, cell: Cell, code: int) -> int {
    if entries.dom().contains(code_cell(code)) {
        ending_in(entries[code_cell(code)], cell)
    } else {
        0
    }
}

/// Number of segments, among those that wait under the cells with numbers
/// below `bound`, that end in `cell`.
pub open spec fn arriving_below(entries: Map<Cell, Seq<Segment>>, cell: Cell, bound: nat) -> int
    decreases bound,
{
    if bound == 0 {
        0
    } else {
        arriving_below(entries, cell, (bound - 1) as nat) + arriving_from(entries, cell, bound - 1)
    }
}

/// Number of segments of the registry that end in `cell`.
pub open spec fn arriving(entries: Map<Cell, Seq<Segment>>, cell: Cell) -> int {
    arriving_below(entries, cell, 0x1_0000_0000_0000_0000)
}

/// Number of segments of the registry that start in `cell`.
pub open spec fn leaving(entries: Map<Cell, Seq<Segment>>, cell: Cell) -> int {
    if entries.dom().contains(cell) {
        entries[cell].len() as int
    } else {
        0
    }
}

/// By how many the segments that leave `cell` outnumber those that arrive.
pub open spec fn surplus(entries: Map<Cell, Seq<Segment>>, cell: Cell) -> int {
    leaving(entries, cell) - arriving(entries, cell)
}

/// As many segments arrive at every cell as leave it.
pub open spec fn balanced(entries: Map<Cell, Seq<Segment>>) -> bool {
    forall|cell: Cell| #[trigger] surplus(entries, cell) == 0
}

/// The registry of a walk that has left `home` and stands at `at`: one
/// segment more leaves `at` than arrives there, one less leaves `home`, and
/// every other cell is in balance.
pub open spec fn on_the_way(entries: Map<Cell, Seq<Segment>>, at: Cell, home: Cell) -> bool {
    forall|cell: Cell|
        #[trigger] surplus(entries, cell) == one_if(cell == at) - one_if(cell == home)
}

/// Putting `x` in place of entry `i` changes the count by what the two
/// entries count.
proof fn lemma_ending_update(list: Seq<Segment>, i: int, x: Segment, cell: Cell)
    requires
        0 <= i < list.len(),
    ensures
        ending_in(list.update(i, x), cell) == ending_in(list, cell) - one_if(
            list[i].b.hashable() == cell,
        ) + one_if(x.b.hashable() == cell),
    decreases list.len(),
{
    let updated = list.update(i, x);
    if i == list.len() - 1 {
        assert(updated.drop_last() =~= list.drop_last());
    } else {
        assert(updated.drop_last() =~= list.drop_last().update(i, x));
        lemma_ending_update(list.drop_last(), i, x, cell);
    }
}

/// Taking entry `i` out of a list takes what it counts off the count.
proof fn lemma_ending_swap_removed(list: Seq<Segment>, i: int, cell: Cell)
    requires
        0 <= i < list.len(),
    ensures
        ending_in(swap_removed(list, i), cell) == ending_in(list, cell) - one_if(
            list[i].b.hashable() == cell,
        ),
{
    let updated = list.update(i, list.last());
    lemma_ending_update(list, i, list.last(), cell);
    assert(updated.last() == list.last());
}

/// A list without entries counts nothing.
proof fn lemma_ending_nonnegative(list: Seq<Segment>, cell: Cell)
    ensures
        ending_in(list, cell) >= 0,
    decreases list.len(),
{
    if list.len() > 0 {
        lemma_ending_nonnegative(list.drop_last(), cell);
    }
}

/// Two maps that differ only under `key` have the same number of segments
/// arriving at `cell` from below `bound`, but for those from under `key`.
proof fn lemma_arriving_differs_at(
    before: Map<Cell, Seq<Segment>>,
    after: Map<Cell, Seq<Segment>>,
    key: Cell,
    cell: Cell,
    bound: nat,
)
    requires
        differ_only_at(before, after, key),
        bound <= 0x1_0000_0000_0000_0000,
    ensures
        arriving_below(after, cell, bound) + (if cell_code(key) < bound {
            arriving_from(before, cell, cell_code(key))
        } else {
            0
        }) == arriving_below(before, cell, bound) + (if cell_code(key) < bound {
            arriving_from(after, cell, cell_code(key))
        } else {
            0
        }),
    decreases bound,
{
    if bound > 0 {
        lemma_arriving_differs_at(before, after, key, cell, (bound - 1) as nat);
        lemma_cell_code(key);
        lemma_code_cell(bound - 1);
        if bound - 1 != cell_code(key) {
            assert(code_cell(bound - 1) != key);
            assert(before.dom().contains(code_cell(bound - 1)) == after.dom().contains(
                code_cell(bound - 1),
            ));
        }
    }
}

/// No fewer than no segments arrive at a cell.
proof fn lemma_arriving_nonnegative(entries: Map<Cell, Seq<Segment>>, cell: Cell, bound: nat)
    ensures
        arriving_below(entries, cell, bound) >= 0,
    decreases bound,
{
    if bound > 0 {
        lemma_arriving_nonnegative(entries, cell, (bound - 1) as nat);
        if entries.dom().contains(code_cell(bound - 1)) {
            lemma_ending_nonnegative(entries[code_cell(bound - 1)], cell);
        }
    }
}

/// Taking a segment out of the registry takes one off what leaves the cell
/// it starts in and one off what arrives at the cell it ends in.
pub proof fn lemma_without_surplus(
    entries: Map<Cell, Seq<Segment>>,
    key: Cell,
    i: int,
    cell: Cell,
)
    requires
        entries.dom().contains(key),
        0 <= i < entries[key].len(),
    ensures
        surplus(without(entries, key, i), cell) == surplus(entries, cell) - one_if(cell == key)
            + one_if(cell == entries[key][i].b.hashable()),
{
    let after = without(entries, key, i);
    lemma_cell_code(key);
    lemma_arriving_differs_at(entries, after, key, cell, 0x1_0000_0000_0000_0000);
    lemma_ending_swap_removed(entries[key], i, cell);
    let rest = swap_removed(entries[key], i);
    if rest.len() == 0 {
        assert(ending_in(rest, cell) == 0);
    }
}

/// In a registry in balance, or on the way home, a walk that has an edge
/// to go on with never runs dry: it ends well, in the cell it set out from,
/// and leaves a registry in balance.
pub proof fn lemma_walk_comes_home(
    entries: Map<Cell, Seq<Segment>>,
    incoming: Segment,
    corners: Seq<Point>,
    slope: int,
    first_slope: int,
    home: Cell,
)
    requires
        registry_wf(entries),
        on_the_way(entries, incoming.b.hashable(), home),
        corners.len() > 0,
        corners[0].hashable() == home,
        incoming.b.hashable() == home ==> entries.dom().contains(home),
    ensures
        walk(entries, incoming, corners, slope, first_slope).1 is Some,
        walk_edges(entries, incoming, corners, slope, first_slope).len() > 0,
        walk_edges(entries, incoming, corners, slope, first_slope).last().b.hashable() == home,
        balanced(walk(entries, incoming, corners, slope, first_slope).0),
    decreases waiting(entries),
{
    let at = incoming.b.hashable();
    assert(surplus(entries, at) == one_if(at == at) - one_if(at == home));
    lemma_arriving_nonnegative(entries, at, 0x1_0000_0000_0000_0000);
    assert(entries.dom().contains(at));
    assert(entries[at].len() > 0);
    lemma_next_index(incoming, entries[at]);
    let i = next_index(incoming, entries[at]);
    let next = entries[at][i];
    let rest = without(entries, at, i);
    let next_slope = next.slope_correlate();
    let turned = if slope != next_slope {
        corners.push(next.a)
    } else {
        corners
    };
    let to = next.b.hashable();
    lemma_without_wf(entries, at, i);
    lemma_without_waiting(entries, at, i);
    assert forall|cell: Cell| #[trigger] surplus(rest, cell) == one_if(cell == to) - one_if(
        cell == home,
    ) by {
        lemma_without_surplus(entries, at, i, cell);
        assert(surplus(entries, cell) == one_if(cell == at) - one_if(cell == home));
    }
    assert(turned[0] == corners[0]);
    if contains_point(turned, next.b) && !rest.dom().contains(to) {
        assert(surplus(rest, to) == one_if(to == to) - one_if(to == home));
        lemma_arriving_nonnegative(rest, to, 0x1_0000_0000_0000_0000);
        assert(to == home);
        assert forall|cell: Cell| #[trigger] surplus(rest, cell) == 0 by {
            assert(surplus(rest, cell) == one_if(cell == to) - one_if(cell == home));
        }
    } else {
        if !rest.dom().contains(to) {
            // Nothing leaves the cell: it is the cell of the first corner.
            assert(surplus(rest, to) == one_if(to == to) - one_if(to == home));
            lemma_arriving_nonnegative(rest, to, 0x1_0000_0000_0000_0000);
            assert(to == home);
            assert(turned[0].same_cell(next.b));
            assert(false);
        }
        lemma_walk_comes_home(rest, next, turned, next_slope, first_slope, home);
        let tail = walk_edges(rest, next, turned, next_slope, first_slope);
        assert((seq![next] + tail).last() == tail.last());
    }
}

/// In a registry in balance a loop is closed: traced from a first edge that
/// leads to another cell, or whose cell another edge leaves, the loop ends
/// well, its last edge ends in the cell where its first edge starts, and
/// what is left is in balance again.
pub proof fn lemma_balanced_loop_is_closed(entries: Map<Cell, Seq<Segment>>, start: Cell)
    requires
        registry_wf(entries),
        balanced(entries),
        entries.dom().contains(start),
        entries[start][0].b.hashable() != start || entries[start].len() > 1,
    ensures
        loop_from(entries, start).1 is Some,
        loop_edges(entries, start).last().b.same_cell(loop_edges(entries, start)[0].a),
        balanced(loop_from(entries, start).0),
{
    let first = entries[start][0];
    let rest = without(entries, start, 0);
    let slope = first.slope_correlate();
    let to = first.b.hashable();
    lemma_without_wf(entries, start, 0);
    assert(first.a.hashable() == start);
    assert forall|cell: Cell| #[trigger] surplus(rest, cell) == one_if(cell == to) - one_if(
        cell == start,
    ) by {
        lemma_without_surplus(entries, start, 0, cell);
        assert(surplus(entries, cell) == 0);
    }
    if to == start {
        assert(swap_removed(entries[start], 0).len() > 0);
        assert(rest.dom().contains(start));
    }
    lemma_walk_comes_home(rest, first, seq![first.a], slope, slope, start);
    let tail = walk_edges(rest, first, seq![first.a], slope, slope);
    assert((seq![first] + tail).last() == tail.last());
    assert((seq![first] + tail)[0] == first);
}

} // verus!
