//! On a grid without walls the wave finds the cheapest cost of every tile:
//! its octile distance from the first tile of the wave.
//!
//! With walls this is not so: a tile keeps the cost it was first given, and
//! a cheaper way may come by later. What holds with walls is said in
//! `paths` and `reach`.

use crate::direction::Direction;
use crate::flowfield::{
    abs_diff, lemma_expanded_grid, octile_distance, FlowfieldView, INFINITE_COST,
};
use crate::frontier::Node;
use crate::grid::{
    col_of, lemma_coords, lemma_direction_between, lemma_neighbor, lemma_tile_index, row_of,
};
use crate::paths::lemma_octile_step;
use crate::reach::lemma_pop_step_wave;
use vstd::prelude::*;

verus! {

/// No tile is a wall.
pub open spec fn no_walls(storage: Seq<u8>) -> bool {
    forall|i: int| 0 <= i < storage.len() ==> #[trigger] storage[i] == 0
}

/// The direction of the first step of a cheapest way from column `col` and
/// row `row` to column `x` and row `y`: diagonal as long as both differ.
pub open spec fn step_towards(x: int, y: int, col: int, row: int) -> Direction {
    if x > col {
        if y > row {
            Direction::NorthEast
        } else if y < row {
            Direction::SouthEast
        } else {
            Direction::East
        }
    } else if x < col {
        if y > row {
            Direction::NorthWest
        } else if y < row {
            Direction::SouthWest
        } else {
            Direction::West
        }
    } else if y < row {
        Direction::South
    } else {
        Direction::North
    }
}

/// The first step of a cheapest way brings a tile nearer by exactly its
/// cost, and stays between the tile and where the way leads.
pub proof fn lemma_step_towards(x: int, y: int, col: int, row: int)
    requires
        x != col || y != row,
    ensures
        ({
            let d = step_towards(x, y, col, row);
            &&& octile_distance(abs_diff(x, col + d.dx()), abs_diff(y, row + d.dy()))
                + d.step_cost() == octile_distance(abs_diff(x, col), abs_diff(y, row))
            &&& col <= col + d.dx() <= x || x <= col + d.dx() <= col
            &&& row <= row + d.dy() <= y || y <= row + d.dy() <= row
        }),
{
}

/// If a step in direction `d` from a tile at octile distance `c` leads to a
/// tile that is no nearer than `c` and nearer than the step would make it,
/// the cheapest way from that tile starts with a step to a tile nearer than
/// `c`.
pub proof fn lemma_nearer_neighbour(x: int, y: int, col: int, row: int, d: Direction)
    requires
        octile_distance(abs_diff(x, col), abs_diff(y, row)) <= octile_distance(
            abs_diff(x, col + d.dx()),
            abs_diff(y, row + d.dy()),
        ),
        octile_distance(abs_diff(x, col + d.dx()), abs_diff(y, row + d.dy())) < octile_distance(
            abs_diff(x, col),
            abs_diff(y, row),
        ) + d.step_cost(),
    ensures
        x != col + d.dx() || y != row + d.dy(),
        octile_distance(abs_diff(x, col + d.dx()), abs_diff(y, row + d.dy())) - step_towards(
            x,
            y,
            col + d.dx(),
            row + d.dy(),
        ).step_cost() < octile_distance(abs_diff(x, col), abs_diff(y, row)),
{
}

impl FlowfieldView {
    /// The octile distance of tile `n` from the first tile of the wave.
    pub open spec fn octile_to_seed(self, n: int) -> int {
        octile_distance(
            abs_diff(self.transient_target.0 as int, col_of(self.width, n)),
            abs_diff(self.transient_target.1 as int, row_of(self.width, n)),
        )
    }

    /// Every tile that has been visited has the cheapest cost there is: its
    /// octile distance from the first tile of the wave.
    pub open spec fn exact_costs(self) -> bool {
        self.has_seed() ==> forall|n: int|
            0 <= n < self.cells() && #[trigger] self.visited(n) ==> self.cost_grid[n].0
                == self.octile_to_seed(n)
    }

    /// Tile number `k + 1` of `path` lies next to tile number `k`.
    pub open spec fn is_step(self, path: Seq<int>, k: int) -> bool {
        crate::grid::direction_between(self.width, path[k], path[k + 1]) is Some
    }

    /// `path` leads from the first tile of the wave over tiles of the grid,
    /// each next to the one before; walls do not matter.
    pub open spec fn steps_from_seed(self, path: Seq<int>) -> bool {
        &&& path.len() >= 1
        &&& path[0] == self.seed()
        &&& forall|k: int| 0 <= k < path.len() ==> 0 <= #[trigger] path[k] < self.cells()
        &&& forall|k: int| 0 <= k < path.len() - 1 ==> #[trigger] self.is_step(path, k)
    }

    /// Whatever waits on the frontier costs more than `cost`.
    pub open spec fn below_frontier(self, cost: int) -> bool {
        forall|node: Node| #[trigger] self.frontier.contains(node) ==> cost < node.cost
    }
}

/// On a grid without walls the wave is a front: every tile nearer to the
/// first tile than whatever waits on the frontier has been visited, has its
/// octile distance for cost, and has been expanded.
pub proof fn lemma_below_frontier_is_done(v: FlowfieldView, storage: Seq<u8>, n: int)
    requires
        v.wf(),
        v.wave_holds(storage),
        no_walls(storage),
        v.has_seed(),
        v.visited(v.seed()),
        v.exact_costs(),
        0 <= n < v.cells(),
        v.octile_to_seed(n) < INFINITE_COST,
        v.below_frontier(v.octile_to_seed(n)),
    ensures
        v.visited(n),
        v.cost_grid[n].0 == v.octile_to_seed(n),
        !v.waits(n),
        v.expanded(storage, n),
    decreases v.octile_to_seed(n),
{
    let x = v.transient_target.0 as int;
    let y = v.transient_target.1 as int;
    lemma_tile_index(v.width, v.height, x, y);
    lemma_coords(v.width, v.height, n);
    let col = col_of(v.width, n);
    let row = row_of(v.width, n);
    if n != v.seed() {
        assert(x != col || y != row);
        lemma_step_towards(x, y, col, row);
        let d = step_towards(x, y, col, row);
        lemma_neighbor(v.width, v.height, n, d);
        assert(v.neighbor(n, d) is Some);
        let q = v.neighbor(n, d).unwrap();
        assert(v.octile_to_seed(q) + d.step_cost() == v.octile_to_seed(n));
        assert(v.below_frontier(v.octile_to_seed(q)));
        lemma_below_frontier_is_done(v, storage, q);
        lemma_neighbor(v.width, v.height, q, d.reversed());
        assert(d.reversed().reversed() == d);
        assert(v.neighbor(q, d.reversed()) == Some(n));
        assert(v.looked_at(storage, q, d.reversed()));
        assert(!v.cuts_corner(storage, q, d.reversed())) by {
            let e = d.reversed();
            lemma_neighbor(v.width, v.height, q, e.vertical_part());
            lemma_neighbor(v.width, v.height, q, e.horizontal_part());
        }
        assert(v.origin_cost(q) == v.octile_to_seed(q));
        assert(d.reversed().step_cost() == d.step_cost());
        assert(v.visited(n));
    }
    assert(v.cost_grid[n].0 == v.octile_to_seed(n));
    if v.waits(n) {
        let held = Node { index: n as usize, cost: v.cost_grid[n].0 };
        assert(v.frontier.contains(held));
        assert(v.octile_to_seed(n) < held.cost);
    }
    assert(v.settled(n));
}

/// On a grid without walls a tile that the cheapest node of the frontier
/// reaches is given its octile distance for cost.
proof fn lemma_reached_is_exact(v: FlowfieldView, storage: Seq<u8>, node: Node, d: Direction)
    requires
        v.wf(),
        v.wave_holds(storage),
        no_walls(storage),
        v.exact_costs(),
        v.cheapest(node),
        v.neighbor(node.index as int, d) is Some,
        !v.visited(v.neighbor(node.index as int, d).unwrap()),
        node.cost + d.step_cost() < INFINITE_COST,
    ensures
        node.cost + d.step_cost() == v.octile_to_seed(v.neighbor(node.index as int, d).unwrap()),
{
    broadcast use vstd::multiset::group_multiset_axioms;

    let i = node.index as int;
    let n = v.neighbor(i, d).unwrap();
    let x = v.transient_target.0 as int;
    let y = v.transient_target.1 as int;
    lemma_pop_step_wave(v, storage, node);
    assert(v.frontier.len() > 0);
    assert(v.has_seed());
    lemma_tile_index(v.width, v.height, x, y);
    lemma_coords(v.width, v.height, i);
    lemma_neighbor(v.width, v.height, i, d);
    assert(v.visited(i));
    assert(v.visited(v.seed()));
    let c = node.cost as int;
    assert(c == v.octile_to_seed(i));
    let col = col_of(v.width, i);
    let row = row_of(v.width, i);
    lemma_octile_step(x, y, col, row, d);
    let far = v.octile_to_seed(n);
    assert(far <= c + d.step_cost());
    if far < c + d.step_cost() {
        if far < c {
            assert(v.below_frontier(far));
            lemma_below_frontier_is_done(v, storage, n);
        } else {
            lemma_nearer_neighbour(x, y, col, row, d);
            let back = step_towards(x, y, col + d.dx(), row + d.dy());
            lemma_step_towards(x, y, col + d.dx(), row + d.dy());
            lemma_neighbor(v.width, v.height, n, back);
            assert(v.neighbor(n, back) is Some);
            let q = v.neighbor(n, back).unwrap();
            assert(v.octile_to_seed(q) < c);
            assert(v.below_frontier(v.octile_to_seed(q)));
            lemma_below_frontier_is_done(v, storage, q);
            lemma_neighbor(v.width, v.height, q, back.reversed());
            assert(back.reversed().reversed() == back);
            assert(v.neighbor(q, back.reversed()) == Some(n));
            assert(v.looked_at(storage, q, back.reversed()));
            assert(!v.cuts_corner(storage, q, back.reversed())) by {
                let e = back.reversed();
                lemma_neighbor(v.width, v.height, q, e.vertical_part());
                lemma_neighbor(v.width, v.height, q, e.horizontal_part());
            }
            assert(v.origin_cost(q) == v.octile_to_seed(q));
            assert(back.reversed().step_cost() == back.step_cost());
        }
        assert(false);
    }
}

/// On a grid without walls a step of the wave keeps every cost the
/// cheapest there is.
pub proof fn lemma_pop_step_exact(v: FlowfieldView, storage: Seq<u8>, node: Node)
    requires
        v.wf(),
        v.wave_holds(storage),
        no_walls(storage),
        v.exact_costs(),
        v.cheapest(node),
    ensures
        v.pop_step(storage, node).exact_costs(),
{
    broadcast use vstd::multiset::group_multiset_axioms;

    let i = node.index as int;
    let w = v.pop_step(storage, node);
    let popped = v.popped(node);
    lemma_pop_step_wave(v, storage, node);
    assert(v.frontier.len() > 0);
    assert(w == popped.expand(storage, node));
    assert forall|other: Node| #[trigger]
        popped.frontier.contains(other) implies v.frontier.contains(other) by {}
    assert(popped.wf());
    lemma_expanded_grid(popped, storage, node, 8);
    assert forall|n: int| 0 <= n < w.cells() && #[trigger] w.visited(n) implies w.cost_grid[n].0
        == w.octile_to_seed(n) by {
        lemma_direction_between(v.width, v.height, i, n);
        assert(w.cost_grid[n] == if crate::grid::direction_between(v.width, i, n) is Some {
            popped.expanded_cell(storage, node, n)
        } else {
            v.cost_grid[n]
        });
        if w.cost_grid[n] == v.cost_grid[n] {
            assert(v.visited(n));
        } else {
            let d = crate::grid::direction_between(v.width, i, n).unwrap();
            assert(popped.reaches(storage, node, d));
            lemma_reached_is_exact(v, storage, node, d);
        }
    }
}

/// A new wave has the cheapest cost on its only visited tile.
pub proof fn lemma_seeded_exact(v: FlowfieldView)
    requires
        v.wf(),
        v.point_in_grid(v.target),
    ensures
        v.seeded().exact_costs(),
{
    let w = v.seeded();
    lemma_tile_index(v.width, v.height, v.target.whole().0 as int, v.target.whole().1 as int);
    assert forall|n: int| 0 <= n < w.cells() && #[trigger] w.visited(n) implies w.cost_grid[n].0
        == w.octile_to_seed(n) by {
        assert(n == v.point_index(v.target));
    }
}

/// Whether every cost is the cheapest does not depend on where the target
/// is now, on whether it has moved, on the flows remembered, or on what
/// waits on the frontier.
pub proof fn lemma_exact_ignores_target(v: FlowfieldView, w: FlowfieldView)
    requires
        v.exact_costs(),
        w.width == v.width,
        w.height == v.height,
        w.transient_target == v.transient_target,
        w.cost_grid == v.cost_grid,
    ensures
        w.exact_costs(),
{
    if w.has_seed() {
        assert forall|n: int|
            0 <= n < w.cells() && #[trigger] w.visited(n) implies w.cost_grid[n].0
            == w.octile_to_seed(n) by {
            assert(v.visited(n));
        }
    }
}

/// On a grid without walls, a wave that has run out has given every tile
/// its octile distance from the first tile for cost: no way to a tile is
/// cheaper than the cost the wave has found.
pub proof fn lemma_open_grid_costs(v: FlowfieldView, storage: Seq<u8>, n: int)
    requires
        v.wf(),
        v.wave_holds(storage),
        v.exact_costs(),
        no_walls(storage),
        v.has_seed(),
        v.visited(v.seed()),
        v.frontier.len() == 0,
        0 <= n < v.cells(),
        v.octile_to_seed(n) < INFINITE_COST,
    ensures
        v.cost_grid[n] == (v.octile_to_seed(n) as u32, true),
{
    broadcast use vstd::multiset::group_multiset_axioms;

    lemma_below_frontier_is_done(v, storage, n);
}

/// A field on which nothing has been visited has no cost to be wrong.
pub proof fn lemma_untouched_exact(v: FlowfieldView)
    requires
        forall|n: int| 0 <= n < v.cells() ==> !(#[trigger] v.cost_grid[n]).1,
    ensures
        v.exact_costs(),
{
    assert forall|n: int| 0 <= n < v.cells() implies !#[trigger] v.visited(n) by {
        assert(!v.cost_grid[n].1);
    }
}

/// No way from the first tile of the wave to a tile costs less than the
/// octile distance of the tile, whatever walls it may pass.
pub proof fn lemma_no_path_is_cheaper(v: FlowfieldView, path: Seq<int>)
    requires
        v.wf(),
        v.has_seed(),
        v.steps_from_seed(path),
    ensures
        v.path_cost(path) >= v.octile_to_seed(path.last()),
    decreases path.len(),
{
    let x = v.transient_target.0 as int;
    let y = v.transient_target.1 as int;
    lemma_tile_index(v.width, v.height, x, y);
    if path.len() > 1 {
        let before = path.drop_last();
        assert forall|k: int| 0 <= k < before.len() - 1 implies #[trigger] v.is_step(
            before,
            k,
        ) by {
            assert(v.is_step(path, k));
        }
        lemma_no_path_is_cheaper(v, before);
        let p = path[path.len() - 2];
        let n = path[path.len() - 1];
        assert(p == before.last());
        assert(v.is_step(path, path.len() - 2));
        let d = crate::grid::direction_between(v.width, p, n).unwrap();
        lemma_octile_step(x, y, col_of(v.width, p), row_of(v.width, p), d);
    }
}

} // verus!
