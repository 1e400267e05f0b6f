//! Why the costs of a wave can be trusted: every cost a tile has received is
//! the cost of a path of legal steps from the tile the wave started at.

use crate::direction::Direction;
use crate::flowfield::{
    abs_diff, lemma_expanded_frontier, lemma_expanded_grid, octile_distance, FlowfieldView,
    INFINITE_COST,
};
use crate::frontier::Node;
use crate::grid::{
    col_of, direction_between, lemma_direction_between, lemma_neighbor, lemma_tile_index, row_of,
    tile_index,
};
use vstd::multiset::Multiset;
use vstd::prelude::*;

verus! {

impl FlowfieldView {
    /// The transient target lies on the grid, so the wave has a first tile.
    pub open spec fn has_seed(self) -> bool {
        self.tile_in_grid(self.transient_target.0 as int, self.transient_target.1 as int)
    }

    /// Index of the tile the wave started at.
    pub open spec fn seed(self) -> int {
        tile_index(self.width, self.transient_target.0 as int, self.transient_target.1 as int)
    }

    /// The wave has visited tile `n` and given it a finite cost.
    pub open spec fn settled(self, n: int) -> bool {
        self.cost_grid[n].1 && self.cost_grid[n].0 != INFINITE_COST
    }

    /// The wave has visited tile `n`.
    pub open spec fn visited(self, n: int) -> bool {
        self.cost_grid[n].1
    }

    /// Cost at which the wave left tile `p`: 0 at the tile it started at,
    /// whatever that tile holds now, and the cost of the tile anywhere else.
    pub open spec fn origin_cost(self, p: int) -> int {
        if p == self.seed() {
            0
        } else {
            self.cost_grid[p].0 as int
        }
    }

    /// Tile `n` owes its cost to a step in direction `d`: the tile that step
    /// comes from is the first tile of the wave or a settled one, the cost of
    /// `n` is the cost there plus the cost of the step, and the step does not
    /// pass between two walls that touch at a corner.
    pub open spec fn stepped_from(self, storage: Seq<u8>, n: int, d: Direction) -> bool {
        match self.neighbor(n, d.reversed()) {
            Some(p) => (p == self.seed() || self.settled(p)) && self.origin_cost(p)
                + d.step_cost() == self.cost_grid[n].0 && !self.cuts_corner(storage, p, d),
            None => false,
        }
    }

    /// Some step accounts for the cost of tile `n`.
    pub open spec fn justified(self, storage: Seq<u8>, n: int) -> bool {
        exists|d: Direction| #[trigger] self.stepped_from(storage, n, d)
    }

    /// The costs of the grid belong to one wave over the walls of `storage`.
    /// Once the wave has a first tile: every settled tile but the first is
    /// open and owes its cost to a step from another tile; the first tile,
    /// while settled, has cost 0; a tile that is visited and has infinite
    /// cost is a wall; nothing is visited before the first tile; and every
    /// tile on the frontier has been visited.
    pub open spec fn paths_hold(self, storage: Seq<u8>) -> bool {
        &&& storage.len() == self.cells()
        &&& self.has_seed() ==> {
            &&& forall|n: int|
                0 <= n < self.cells() && #[trigger] self.settled(n) && n != self.seed()
                    ==> storage[n] == 0 && self.justified(storage, n)
            &&& self.settled(self.seed()) ==> self.cost_grid[self.seed()].0 == 0
            &&& forall|n: int|
                0 <= n < self.cells() && #[trigger] self.visited(n) ==> self.visited(self.seed())
                    && (self.settled(n) || storage[n] != 0)
            &&& forall|node: Node| #[trigger]
                self.frontier.contains(node) ==> self.visited(node.index as int)
        }
    }

    /// A wave may step from tile `from` to tile `to`: they are neighbours,
    /// `to` is open, and the step does not cut a wall corner.
    pub open spec fn legal_step(self, storage: Seq<u8>, from: int, to: int) -> bool {
        match direction_between(self.width, from, to) {
            Some(d) => self.neighbor(from, d) == Some(to) && storage[to] == 0
                && !self.cuts_corner(storage, from, d),
            None => false,
        }
    }

    /// Cost of the step between two neighbouring tiles.
    pub open spec fn step_cost_between(self, from: int, to: int) -> int {
        match direction_between(self.width, from, to) {
            Some(d) => d.step_cost(),
            None => 0,
        }
    }

    /// Sum of the costs of the steps along `path`.
    pub open spec fn path_cost(self, path: Seq<int>) -> int
        decreases path.len(),
    {
        if path.len() <= 1 {
            0
        } else {
            self.path_cost(path.drop_last()) + self.step_cost_between(
                path[path.len() - 2],
                path[path.len() - 1],
            )
        }
    }

    /// The step of `path` that leaves its tile number `k` is a legal step of
    /// the wave, lands on a tile of the grid, and raises the cost by exactly
    /// the cost of the step.
    pub open spec fn path_step(self, storage: Seq<u8>, path: Seq<int>, k: int) -> bool {
        &&& 0 <= path[k] < self.cells()
        &&& 0 <= path[k + 1] < self.cells()
        &&& self.legal_step(storage, path[k], path[k + 1])
        &&& self.cost_grid[path[k + 1]].0 == self.origin_cost(path[k]) + self.step_cost_between(
            path[k],
            path[k + 1],
        )
        &&& self.origin_cost(path[k]) < self.cost_grid[path[k + 1]].0
    }

    /// `path` leads from the first tile of the wave to tile `n` by legal
    /// steps, and along it the cost grows by the cost of each step.
    pub open spec fn wave_path(self, storage: Seq<u8>, path: Seq<int>, n: int) -> bool {
        &&& path.len() >= 1
        &&& path[0] == self.seed()
        &&& path[path.len() - 1] == n
        &&& forall|k: int| 0 <= k < path.len() - 1 ==> #[trigger] self.path_step(storage, path, k)
    }
}

/// A new wave has costs that can be trusted: only its first tile is visited.
pub proof fn lemma_seeded_paths(v: FlowfieldView, storage: Seq<u8>)
    requires
        v.wf(),
        v.point_in_grid(v.target),
        storage.len() == v.cells(),
    ensures
        v.seeded().wf(),
        v.seeded().paths_hold(storage),
{
    broadcast use vstd::multiset::group_multiset_axioms;

    let w = v.seeded();
    lemma_tile_index(v.width, v.height, v.target.whole().0 as int, v.target.whole().1 as int);
    assert(w.seed() == v.point_index(v.target));
    let seed_node = Node { index: w.seed() as usize, cost: 0 };
    assert forall|node: Node| #[trigger] w.frontier.contains(node) implies node == seed_node by {
        if node != seed_node {
            assert(w.frontier.count(node) == Multiset::<Node>::empty().count(node));
        }
    }
    assert(w.frontier.len() > 0 ==> w.has_seed());
}

/// What expanding `node` does to every tile.
proof fn lemma_expand_cells(v: FlowfieldView, storage: Seq<u8>, node: Node)
    requires
        v.wf(),
        node.index < v.cells(),
    ensures
        v.expand(storage, node).cost_grid.len() == v.cells(),
        forall|m: int|
            0 <= m < v.cells() ==> #[trigger] v.expand(storage, node).cost_grid[m]
                == v.expanded_cell(storage, node, m),
{
    lemma_expanded_grid(v, storage, node, 8);
}

/// Expanding a visited node from a field whose costs can be trusted changes
/// a tile only by visiting it: a settled tile other than the first keeps its
/// cost, and a tile that was visited stays visited.
proof fn lemma_expand_frame(v: FlowfieldView, storage: Seq<u8>, node: Node, m: int)
    requires
        v.wf(),
        v.has_seed(),
        storage.len() == v.cells(),
        node.index < v.cells(),
        0 <= m < v.cells(),
        v.visited(v.seed()),
        v.settled(m) && m != v.seed() ==> storage[m] == 0,
    ensures
        v.visited(m) ==> v.expand(storage, node).visited(m),
        v.expand(storage, node).cost_grid[m] != v.cost_grid[m] ==> v.expand(storage, node).visited(
            m,
        ) && (v.expand(storage, node).settled(m) || storage[m] != 0),
        v.settled(m) && m != v.seed() ==> v.expand(storage, node).cost_grid[m] == v.cost_grid[m],
        v.expand(storage, node).cost_grid[m] != v.cost_grid[m] ==> v.expand(
            storage,
            node,
        ).cost_grid[m] == v.expanded_cell(storage, node, m) && direction_between(
            v.width,
            node.index as int,
            m,
        ) is Some,
        v.expand(storage, node).settled(m) && v.expand(storage, node).cost_grid[m]
            != v.cost_grid[m] ==> m != v.seed() && storage[m] == 0 && v.reaches(
            storage,
            node,
            direction_between(v.width, node.index as int, m).unwrap(),
        ),
{
    lemma_expand_cells(v, storage, node);
    lemma_direction_between(v.width, v.height, node.index as int, m);
}

/// After expanding `node`, whose cost is the cost of its tile, tile `n` is
/// still accounted for.
proof fn lemma_expand_keeps_justified(v: FlowfieldView, storage: Seq<u8>, node: Node, n: int)
    requires
        v.wf(),
        v.paths_hold(storage),
        v.has_seed(),
        node.index < v.cells(),
        v.visited(node.index as int),
        v.cost_grid[node.index as int].0 == node.cost,
        0 <= n < v.cells(),
        v.expand(storage, node).settled(n),
        n != v.seed(),
    ensures
        storage[n] == 0,
        v.expand(storage, node).justified(storage, n),
{
    let w = v.expand(storage, node);
    let i = node.index as int;
    lemma_tile_index(
        v.width,
        v.height,
        v.transient_target.0 as int,
        v.transient_target.1 as int,
    );
    assert(v.visited(v.seed()));
    lemma_expand_frame(v, storage, node, n);
    if w.cost_grid[n] == v.cost_grid[n] {
        assert(v.settled(n));
        let d = choose|d: Direction| #[trigger] v.stepped_from(storage, n, d);
        let p = v.neighbor(n, d.reversed()).unwrap();
        lemma_neighbor(v.width, v.height, n, d.reversed());
        if v.settled(p) && p != v.seed() {
            assert(storage[p] == 0);
        }
        lemma_expand_frame(v, storage, node, p);
        assert(w.neighbor(n, d.reversed()) == Some(p));
        assert(w.cuts_corner(storage, p, d) == v.cuts_corner(storage, p, d));
        assert(w.stepped_from(storage, n, d));
    } else {
        let e = direction_between(v.width, i, n).unwrap();
        assert(v.reaches(storage, node, e));
        lemma_direction_between(v.width, v.height, i, n);
        lemma_neighbor(v.width, v.height, i, e);
        assert(w.neighbor(n, e.reversed()) == Some(i));
        if v.settled(i) && i != v.seed() {
            assert(storage[i] == 0);
        }
        lemma_expand_frame(v, storage, node, i);
        assert(i != n);
        assert(v.settled(i));
        if i != v.seed() {
            assert(w.cost_grid[i] == v.cost_grid[i]);
        } else {
            assert(v.cost_grid[i].0 == 0);
        }
        assert(w.cuts_corner(storage, i, e) == v.cuts_corner(storage, i, e));
        assert(e.reversed().reversed() == e);
        assert(w.stepped_from(storage, n, e));
    }
}

/// Expanding a node of the frontier keeps the costs trustworthy.
proof fn lemma_expand_paths(v: FlowfieldView, storage: Seq<u8>, node: Node)
    requires
        v.wf(),
        v.paths_hold(storage),
        v.has_seed(),
        node.index < v.cells(),
        v.visited(node.index as int),
        v.cost_grid[node.index as int].0 == node.cost,
    ensures
        v.expand(storage, node).wf(),
        v.expand(storage, node).paths_hold(storage),
{
    broadcast use vstd::multiset::group_multiset_axioms;

    let w = v.expand(storage, node);
    let i = node.index as int;
    lemma_tile_index(
        v.width,
        v.height,
        v.transient_target.0 as int,
        v.transient_target.1 as int,
    );
    lemma_expand_cells(v, storage, node);
    lemma_expanded_frontier(v, storage, node, 8);
    assert(v.visited(v.seed()));
    assert forall|n: int|
        0 <= n < w.cells() && #[trigger] w.settled(n) && n != w.seed() implies storage[n] == 0
        && w.justified(storage, n) by {
        lemma_expand_keeps_justified(v, storage, node, n);
    }
    assert forall|n: int| 0 <= n < w.cells() implies (v.visited(n) ==> #[trigger] w.visited(n))
        && (v.settled(n) && n != v.seed() ==> w.cost_grid[n] == v.cost_grid[n]) && (w.visited(n)
        ==> w.settled(n) || storage[n] != 0) by {
        if v.settled(n) && n != v.seed() {
            assert(storage[n] == 0);
        }
        lemma_expand_frame(v, storage, node, n);
        if w.cost_grid[n] == v.cost_grid[n] && w.visited(n) {
            assert(v.visited(n));
        }
    }
    assert(w.visited(w.seed()));
    assert(w.settled(w.seed()) ==> w.cost_grid[w.seed()].0 == 0) by {
        lemma_expand_frame(v, storage, node, v.seed());
    }
    assert forall|other: Node| #[trigger] w.frontier.contains(other) implies other.index
        < w.cells() && w.visited(other.index as int) by {
        if !v.frontier.contains(other) {
            let d = choose|d: Direction|
                v.reaches(storage, node, d) && other == #[trigger] v.reached_node(node, d);
            lemma_neighbor(v.width, v.height, i, d);
            let m = v.neighbor(i, d).unwrap();
            assert(w.cost_grid[m] == v.expanded_cell(storage, node, m));
        } else {
            assert(v.visited(other.index as int));
        }
    }
    assert forall|k: int| 0 <= k < w.field.len() implies (#[trigger] w.field[k] matches Some(flow)
        ==> flow.wf()) by {
        if k != i {
            assert(w.field[k] == v.field[k]);
        }
    }
}

/// Taking a node off the frontier keeps the costs trustworthy.
pub proof fn lemma_popped_paths(v: FlowfieldView, storage: Seq<u8>, node: Node)
    requires
        v.wf(),
        v.paths_hold(storage),
        v.frontier.contains(node),
    ensures
        v.has_seed(),
        v.popped(node).wf(),
        v.popped(node).paths_hold(storage),
        v.visited(node.index as int),
{
    broadcast use vstd::multiset::group_multiset_axioms;

    let popped = v.popped(node);
    assert(v.frontier.len() > 0);
    assert(v.has_seed());
    assert forall|other: Node| #[trigger]
        popped.frontier.contains(other) implies v.frontier.contains(other) by {}
    assert(popped.wf());
    assert forall|n: int|
        0 <= n < popped.cells() && #[trigger] popped.settled(n) && n
            != popped.seed() implies storage[n] == 0 && popped.justified(storage, n) by {
        assert(v.settled(n));
        let d = choose|d: Direction| #[trigger] v.stepped_from(storage, n, d);
        assert(popped.stepped_from(storage, n, d));
    }
    assert forall|n: int|
        0 <= n < popped.cells() && #[trigger] popped.visited(n) implies popped.visited(
        popped.seed(),
    ) && (popped.settled(n) || storage[n] != 0) by {
        assert(v.visited(n));
    }
}

/// One step of the wave keeps the costs trustworthy.
pub proof fn lemma_pop_step_paths(v: FlowfieldView, storage: Seq<u8>, node: Node)
    requires
        v.wf(),
        v.paths_hold(storage),
        v.frontier.contains(node),
    ensures
        v.pop_step(storage, node).wf(),
        v.pop_step(storage, node).paths_hold(storage),
{
    lemma_popped_paths(v, storage, node);
    if v.cost_grid[node.index as int].0 == node.cost {
        lemma_expand_paths(v.popped(node), storage, node);
    }
}

/// Whether the costs can be trusted does not depend on where the target is
/// now, on whether it has moved, or on the flows remembered.
pub proof fn lemma_paths_ignore_target(v: FlowfieldView, w: FlowfieldView, storage: Seq<u8>)
    requires
        v.paths_hold(storage),
        w.width == v.width,
        w.height == v.height,
        w.transient_target == v.transient_target,
        w.cost_grid == v.cost_grid,
        w.frontier == v.frontier,
    ensures
        w.paths_hold(storage),
{
    if w.has_seed() {
        assert forall|n: int|
            0 <= n < w.cells() && #[trigger] w.settled(n) && n != w.seed() implies storage[n] == 0
            && w.justified(storage, n) by {
            assert(v.settled(n));
            let d = choose|d: Direction| #[trigger] v.stepped_from(storage, n, d);
            assert(w.stepped_from(storage, n, d));
        }
        assert forall|n: int| 0 <= n < w.cells() && #[trigger] w.visited(n) implies w.visited(
            w.seed(),
        ) && (w.settled(n) || storage[n] != 0) by {
            assert(v.visited(n));
        }
    }
}

/// Every settled tile can be reached from the first tile of the wave by a
/// path of legal steps, none of which cuts a wall corner, whose costs add up
/// to exactly the cost of the tile, and along which the cost grows with
/// every step.
pub proof fn lemma_cost_is_path_cost(v: FlowfieldView, storage: Seq<u8>, n: int)
    requires
        v.wf(),
        v.paths_hold(storage),
        v.has_seed(),
        0 <= n < v.cells(),
        v.settled(n),
    ensures
        exists|path: Seq<int>| #[trigger]
            v.wave_path(storage, path, n) && v.path_cost(path) == v.cost_grid[n].0,
    decreases v.cost_grid[n].0,
{
    lemma_tile_index(
        v.width,
        v.height,
        v.transient_target.0 as int,
        v.transient_target.1 as int,
    );
    if n == v.seed() {
        let path = seq![n];
        assert(v.wave_path(storage, path, n));
    } else {
        let d = choose|d: Direction| #[trigger] v.stepped_from(storage, n, d);
        let p = v.neighbor(n, d.reversed()).unwrap();
        lemma_neighbor(v.width, v.height, n, d.reversed());
        lemma_neighbor(v.width, v.height, p, d);
        assert(d.reversed().reversed() == d);
        assert(v.neighbor(p, d) == Some(n));
        assert(direction_between(v.width, p, n) == Some(d));
        assert(v.legal_step(storage, p, n));
        let before: Seq<int> = if p == v.seed() {
            seq![p]
        } else {
            lemma_cost_is_path_cost(v, storage, p);
            choose|path: Seq<int>| #[trigger]
                v.wave_path(storage, path, p) && v.path_cost(path) == v.cost_grid[p].0
        };
        assert(v.wave_path(storage, before, p));
        assert(v.path_cost(before) == v.origin_cost(p));
        let path = before.push(n);
        assert(path.drop_last() =~= before);
        assert(v.path_cost(path) == v.path_cost(before) + v.step_cost_between(p, n));
        assert forall|k: int| 0 <= k < path.len() - 1 implies #[trigger] v.path_step(
            storage,
            path,
            k,
        ) by {
            if k < before.len() - 1 {
                assert(v.path_step(storage, before, k));
                assert(path[k] == before[k]);
                assert(path[k + 1] == before[k + 1]);
            } else {
                assert(path[k] == p);
                assert(path[k + 1] == n);
            }
        }
        assert(v.wave_path(storage, path, n));
    }
}

/// One step to a neighbour brings a tile nearer to another by no more than
/// the cost of the step, as the octile distance counts.
pub proof fn lemma_octile_step(x: int, y: int, col: int, row: int, d: Direction)
    ensures
        octile_distance(abs_diff(x, col + d.dx()), abs_diff(y, row + d.dy())) <= octile_distance(
            abs_diff(x, col),
            abs_diff(y, row),
        ) + d.step_cost(),
        octile_distance(abs_diff(x, col), abs_diff(y, row)) <= octile_distance(
            abs_diff(x, col + d.dx()),
            abs_diff(y, row + d.dy()),
        ) + d.step_cost(),
{
}

/// No settled tile is cheaper than its octile distance from the first tile
/// of the wave: the cost of a tile in plain sight of the target is the
/// least cost there can be.
pub proof fn lemma_cost_at_least_octile(v: FlowfieldView, storage: Seq<u8>, n: int)
    requires
        v.wf(),
        v.paths_hold(storage),
        v.has_seed(),
        0 <= n < v.cells(),
        v.settled(n),
    ensures
        v.minimum_cost(n) <= v.cost_grid[n].0,
        n != v.seed() ==> octile_distance(
            abs_diff(v.transient_target.0 as int, col_of(v.width, n)),
            abs_diff(v.transient_target.1 as int, row_of(v.width, n)),
        ) <= v.cost_grid[n].0,
    decreases v.cost_grid[n].0,
{
    lemma_tile_index(
        v.width,
        v.height,
        v.transient_target.0 as int,
        v.transient_target.1 as int,
    );
    if n != v.seed() {
        let d = choose|d: Direction| #[trigger] v.stepped_from(storage, n, d);
        let p = v.neighbor(n, d.reversed()).unwrap();
        lemma_neighbor(v.width, v.height, n, d.reversed());
        if p != v.seed() {
            lemma_cost_at_least_octile(v, storage, p);
        }
        lemma_octile_step(
            v.transient_target.0 as int,
            v.transient_target.1 as int,
            col_of(v.width, n),
            row_of(v.width, n),
            d.reversed(),
        );
    }
}

} // verus!
