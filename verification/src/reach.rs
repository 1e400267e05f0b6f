//! Why a wave that has run out has reached every tile it can: whatever is
//! settled either still waits on the frontier or has looked at all its
//! neighbours.

use crate::direction::Direction;
use crate::flowfield::{lemma_expanded_frontier, lemma_expanded_grid, FlowfieldView, INFINITE_COST};
use crate::frontier::Node;
use crate::grid::{lemma_direction_between, lemma_neighbor, lemma_tile_index};
use vstd::multiset::Multiset;
use vstd::prelude::*;

verus! {

impl FlowfieldView {
    /// Tile `p` waits on the frontier with the cost it has.
    pub open spec fn waits(self, p: int) -> bool {
        self.frontier.contains(Node { index: p as usize, cost: self.cost_grid[p].0 })
    }

    /// The wave has dealt with the neighbour of tile `p` in direction `d`:
    /// there is none, or it has been visited, or it is open but the step to
    /// it would cut a wall corner or cost more than a cost can hold.
    pub open spec fn looked_at(self, storage: Seq<u8>, p: int, d: Direction) -> bool {
        match self.neighbor(p, d) {
            Some(n) => self.visited(n) || (storage[n] == 0 && (self.cuts_corner(storage, p, d)
                || self.origin_cost(p) + d.step_cost() >= INFINITE_COST)),
            None => true,
        }
    }

    /// The wave has dealt with every neighbour of tile `p`.
    pub open spec fn expanded(self, storage: Seq<u8>, p: int) -> bool {
        forall|d: Direction| #[trigger] self.looked_at(storage, p, d)
    }

    /// The frontier is in step with the grid. Once the wave has a first
    /// tile: every node on the frontier carries the cost of its tile, which
    /// is visited and finite; a wall waits on the frontier only when it is
    /// alone there, as the first tile of a wave may; and every tile that is
    /// settled, and the first tile once visited, waits on the frontier or
    /// has been expanded.
    pub open spec fn frontier_holds(self, storage: Seq<u8>) -> bool {
        &&& storage.len() == self.cells()
        &&& self.has_seed() ==> {
            &&& forall|node: Node| #[trigger]
                self.frontier.contains(node) ==> {
                    &&& self.cost_grid[node.index as int] == (node.cost, true)
                    &&& node.cost != INFINITE_COST
                    &&& storage[node.index as int] == 0 || self.frontier.len() == 1
                }
            &&& forall|p: int|
                0 <= p < self.cells() && #[trigger] self.visited(p) && (self.settled(p) || p
                    == self.seed()) ==> self.waits(p) || self.expanded(storage, p)
        }
    }

    /// The costs of the grid can be trusted and the frontier is in step with
    /// the grid: the field is the state of one wave over the walls of
    /// `storage`.
    pub open spec fn wave_holds(self, storage: Seq<u8>) -> bool {
        self.paths_hold(storage) && self.frontier_holds(storage)
    }

    /// A wave may step from `from` to `to` and the cost of `to` stays a
    /// cost: the step is legal and the cost at `from` leaves room for it.
    pub open spec fn open_step(self, storage: Seq<u8>, from: int, to: int) -> bool {
        self.legal_step(storage, from, to) && self.origin_cost(from) + self.step_cost_between(
            from,
            to,
        ) < INFINITE_COST
    }

    /// `path` leads from the first tile of the wave over tiles of the grid,
    /// each of which the wave may step to from the one before.
    pub open spec fn open_path(self, storage: Seq<u8>, path: Seq<int>) -> bool {
        &&& path.len() >= 1
        &&& path[0] == self.seed()
        &&& forall|k: int| 0 <= k < path.len() ==> 0 <= #[trigger] path[k] < self.cells()
        &&& forall|k: int|
            0 <= k < path.len() - 1 ==> #[trigger] self.open_step(storage, path[k], path[k + 1])
    }
}

/// Whatever waits on the frontier while `node` is expanded still waits
/// afterwards.
proof fn lemma_frontier_keeps(v: FlowfieldView, storage: Seq<u8>, node: Node, k: int, other: Node)
    requires
        0 <= k <= 8,
        v.frontier.contains(other),
    ensures
        v.expanded_frontier(storage, node, k).contains(other),
    decreases k,
{
    broadcast use vstd::multiset::group_multiset_axioms;

    if k > 0 {
        lemma_frontier_keeps(v, storage, node, k - 1, other);
    }
}

/// The node that expanding `node` reaches in direction `d` waits on the
/// frontier afterwards.
proof fn lemma_frontier_gets(v: FlowfieldView, storage: Seq<u8>, node: Node, k: int, d: Direction)
    requires
        0 <= k <= 8,
        d.rank() < k,
        v.reaches(storage, node, d),
    ensures
        v.expanded_frontier(storage, node, k).contains(v.reached_node(node, d)),
    decreases k,
{
    broadcast use vstd::multiset::group_multiset_axioms;

    if d.rank() < k - 1 {
        lemma_frontier_gets(v, storage, node, k - 1, d);
    } else {
        assert(Direction::at_rank(k - 1) == d);
    }
}

/// A multiset with one member has no member left when that one is taken
/// out, and holds it once.
proof fn lemma_alone(frontier: Multiset<Node>, node: Node, other: Node)
    requires
        frontier.len() == 1,
        frontier.contains(node),
    ensures
        !frontier.remove(node).contains(other),
        frontier.contains(other) ==> other == node,
{
    broadcast use vstd::multiset::group_multiset_axioms;

    assert(frontier.remove(node).len() == 0);
    if frontier.contains(other) && other != node {
        assert(frontier.remove(node).contains(other));
    }
}

/// A new wave has a frontier in step with the grid: its first tile waits
/// there alone.
pub proof fn lemma_seeded_frontier(v: FlowfieldView, storage: Seq<u8>)
    requires
        v.wf(),
        v.point_in_grid(v.target),
        storage.len() == v.cells(),
    ensures
        v.seeded().frontier_holds(storage),
{
    broadcast use vstd::multiset::group_multiset_axioms;

    let w = v.seeded();
    lemma_tile_index(v.width, v.height, v.target.whole().0 as int, v.target.whole().1 as int);
    assert(w.seed() == v.point_index(v.target));
    let seed_node = Node { index: w.seed() as usize, cost: 0 };
    assert forall|node: Node| #[trigger] w.frontier.contains(node) implies node == seed_node by {
        if node != seed_node {
            assert(w.frontier.count(node) == Multiset::<Node>::empty().count(node));
        }
    }
    assert(w.frontier.len() == 1);
    assert(w.frontier.contains(seed_node));
    assert forall|p: int|
        0 <= p < w.cells() && #[trigger] w.visited(p) && (w.settled(p) || p
            == w.seed()) implies w.waits(p) || w.expanded(storage, p) by {
        assert(p == w.seed());
    }
}

/// Expanding a node looks at all the neighbours of its tile.
proof fn lemma_expanding_looks(v: FlowfieldView, storage: Seq<u8>, node: Node, d: Direction)
    requires
        v.wf(),
        v.has_seed(),
        storage.len() == v.cells(),
        node.index < v.cells(),
        v.cost_grid[node.index as int].0 == node.cost,
        node.index == v.seed() ==> node.cost == 0,
    ensures
        v.expand(storage, node).looked_at(storage, node.index as int, d),
{
    let w = v.expand(storage, node);
    let i = node.index as int;
    lemma_expanded_grid(v, storage, node, 8);
    lemma_neighbor(v.width, v.height, i, d);
    lemma_direction_between(v.width, v.height, i, i);
    if v.neighbor(i, d) is Some {
        let n = v.neighbor(i, d).unwrap();
        assert(w.cost_grid[n] == v.expanded_cell(storage, node, n));
        assert(w.cost_grid[i] == v.cost_grid[i]) by {
            vstd::arithmetic::div_mod::lemma_mod_bound(i, v.width);
        }
        assert(w.cuts_corner(storage, i, d) == v.cuts_corner(storage, i, d));
    }
}

/// A neighbour that has been looked at stays looked at when a node is
/// expanded, as long as the tile keeps the cost the wave left it at.
proof fn lemma_looked_at_stays(
    v: FlowfieldView,
    storage: Seq<u8>,
    node: Node,
    p: int,
    d: Direction,
)
    requires
        v.wf(),
        v.has_seed(),
        v.paths_hold(storage),
        node.index < v.cells(),
        0 <= p < v.cells(),
        v.looked_at(storage, p, d),
        p == v.seed() || v.expand(storage, node).cost_grid[p] == v.cost_grid[p],
    ensures
        v.expand(storage, node).looked_at(storage, p, d),
{
    let w = v.expand(storage, node);
    lemma_expanded_grid(v, storage, node, 8);
    lemma_neighbor(v.width, v.height, p, d);
    if v.neighbor(p, d) is Some {
        let n = v.neighbor(p, d).unwrap();
        lemma_direction_between(v.width, v.height, node.index as int, n);
        if v.visited(n) {
            assert(v.settled(n) || storage[n] != 0);
            assert(w.cost_grid[n] == v.expanded_cell(storage, node, n));
            assert(w.visited(n));
        }
        assert(w.cuts_corner(storage, p, d) == v.cuts_corner(storage, p, d));
        assert(w.origin_cost(p) == v.origin_cost(p));
    }
}

/// What is known of a field whose frontier is in step with the grid once
/// `node` has been taken off: `node` carried the cost of its tile, and what
/// still waits are open tiles with the costs their nodes carry.
proof fn lemma_popped_frontier(v: FlowfieldView, storage: Seq<u8>, node: Node)
    requires
        v.wf(),
        v.paths_hold(storage),
        v.frontier_holds(storage),
        v.frontier.contains(node),
    ensures
        v.has_seed(),
        v.popped(node).wf(),
        v.popped(node).paths_hold(storage),
        v.cost_grid[node.index as int] == (node.cost, true),
        node.cost != INFINITE_COST,
        node.index == v.seed() ==> node.cost == 0,
        v.visited(v.seed()),
        forall|other: Node| #[trigger]
            v.popped(node).frontier.contains(other) ==> {
                &&& v.frontier.contains(other)
                &&& other.index < v.cells()
                &&& storage[other.index as int] == 0
                &&& v.cost_grid[other.index as int] == (other.cost, true)
                &&& other.cost != INFINITE_COST
            },
{
    broadcast use vstd::multiset::group_multiset_axioms;

    crate::paths::lemma_popped_paths(v, storage, node);
    let i = node.index as int;
    lemma_tile_index(
        v.width,
        v.height,
        v.transient_target.0 as int,
        v.transient_target.1 as int,
    );
    assert(v.settled(i));
    assert(v.visited(i));
    assert forall|other: Node| #[trigger] v.popped(node).frontier.contains(other) implies {
        &&& v.frontier.contains(other)
        &&& other.index < v.cells()
        &&& storage[other.index as int] == 0
        &&& v.cost_grid[other.index as int] == (other.cost, true)
        &&& other.cost != INFINITE_COST
    } by {
        assert(v.frontier.contains(other));
        if storage[other.index as int] != 0 {
            assert(v.frontier.len() == 1);
            lemma_alone(v.frontier, node, other);
        }
    }
}

/// Expanding `node` leaves every node of the frontier with the cost of its
/// open tile.
proof fn lemma_expand_nodes(v: FlowfieldView, storage: Seq<u8>, node: Node, other: Node)
    requires
        v.wf(),
        v.paths_hold(storage),
        v.frontier_holds(storage),
        v.frontier.contains(node),
        v.pop_step(storage, node).frontier.contains(other),
    ensures
        v.pop_step(storage, node).cost_grid[other.index as int] == (other.cost, true),
        other.cost != INFINITE_COST,
        storage[other.index as int] == 0,
{
    let i = node.index as int;
    let popped = v.popped(node);
    lemma_popped_frontier(v, storage, node);
    let w = popped.expand(storage, node);
    assert(w == v.pop_step(storage, node));
    lemma_expanded_grid(popped, storage, node, 8);
    lemma_expanded_frontier(popped, storage, node, 8);
    if popped.frontier.contains(other) {
        let m = other.index as int;
        lemma_direction_between(v.width, v.height, i, m);
        assert(popped.visited(m));
        assert(w.cost_grid[m] == popped.expanded_cell(storage, node, m));
    } else {
        let d = choose|d: Direction|
            popped.reaches(storage, node, d) && other == #[trigger] popped.reached_node(node, d);
        lemma_neighbor(v.width, v.height, i, d);
        let m = popped.neighbor(i, d).unwrap();
        assert(w.cost_grid[m] == popped.expanded_cell(storage, node, m));
    }
}

/// After a step of the wave, a tile that is settled, or the first tile,
/// waits on the frontier or has been expanded.
proof fn lemma_expand_waits(v: FlowfieldView, storage: Seq<u8>, node: Node, p: int)
    requires
        v.wf(),
        v.paths_hold(storage),
        v.frontier_holds(storage),
        v.frontier.contains(node),
        0 <= p < v.cells(),
        v.pop_step(storage, node).visited(p),
        v.pop_step(storage, node).settled(p) || p == v.seed(),
    ensures
        v.pop_step(storage, node).waits(p) || v.pop_step(storage, node).expanded(storage, p),
{
    broadcast use vstd::multiset::group_multiset_axioms;

    let i = node.index as int;
    let popped = v.popped(node);
    lemma_popped_frontier(v, storage, node);
    let w = popped.expand(storage, node);
    assert(w == v.pop_step(storage, node));
    lemma_expanded_grid(popped, storage, node, 8);
    lemma_direction_between(v.width, v.height, i, p);
    assert(w.cost_grid[p] == popped.expanded_cell(storage, node, p));
    if p == i {
        assert forall|d: Direction| #[trigger] w.looked_at(storage, p, d) by {
            lemma_expanding_looks(popped, storage, node, d);
        }
    } else if w.cost_grid[p] != v.cost_grid[p] && storage[p] == 0 {
        // Reached just now: it waits.
        let d = crate::grid::direction_between(v.width, i, p).unwrap();
        assert(popped.reaches(storage, node, d));
        lemma_neighbor(v.width, v.height, i, d);
        lemma_frontier_gets(popped, storage, node, 8, d);
        assert(popped.reached_node(node, d) == (Node {
            index: p as usize,
            cost: w.cost_grid[p].0,
        }));
    } else {
        // As it was, or the first tile marked as a wall.
        assert(v.visited(p));
        let held = Node { index: p as usize, cost: v.cost_grid[p].0 };
        if v.waits(p) {
            assert(held != node);
            assert(popped.frontier.contains(held));
            lemma_frontier_keeps(popped, storage, node, 8, held);
            assert(w.cost_grid[p] == v.cost_grid[p]);
        } else {
            if w.cost_grid[p] != v.cost_grid[p] {
                assert(p == v.seed());
            }
            assert(v.settled(p) || p == v.seed());
            assert(v.expanded(storage, p));
            assert forall|d: Direction| #[trigger] w.looked_at(storage, p, d) by {
                assert(v.looked_at(storage, p, d));
                assert(popped.looked_at(storage, p, d));
                lemma_looked_at_stays(popped, storage, node, p, d);
            }
        }
    }
}

/// One step of the wave keeps the frontier in step with the grid, and the
/// node it takes is never stale.
pub proof fn lemma_pop_step_frontier(v: FlowfieldView, storage: Seq<u8>, node: Node)
    requires
        v.wf(),
        v.paths_hold(storage),
        v.frontier_holds(storage),
        v.frontier.contains(node),
    ensures
        v.cost_grid[node.index as int].0 == node.cost,
        v.pop_step(storage, node).frontier_holds(storage),
{
    let w = v.pop_step(storage, node);
    lemma_popped_frontier(v, storage, node);
    assert forall|other: Node| #[trigger] w.frontier.contains(other) implies {
        &&& w.cost_grid[other.index as int] == (other.cost, true)
        &&& other.cost != INFINITE_COST
        &&& storage[other.index as int] == 0 || w.frontier.len() == 1
    } by {
        lemma_expand_nodes(v, storage, node, other);
    }
    assert forall|p: int|
        0 <= p < w.cells() && #[trigger] w.visited(p) && (w.settled(p) || p
            == w.seed()) implies w.waits(p) || w.expanded(storage, p) by {
        lemma_expand_waits(v, storage, node, p);
    }
}

/// Whether the frontier is in step with the grid does not depend on where
/// the target is now, on whether it has moved, or on the flows remembered.
pub proof fn lemma_frontier_ignores_target(v: FlowfieldView, w: FlowfieldView, storage: Seq<u8>)
    requires
        v.frontier_holds(storage),
        w.width == v.width,
        w.height == v.height,
        w.transient_target == v.transient_target,
        w.cost_grid == v.cost_grid,
        w.frontier == v.frontier,
    ensures
        w.frontier_holds(storage),
{
    if w.has_seed() {
        assert forall|p: int|
            0 <= p < w.cells() && #[trigger] w.visited(p) && (w.settled(p) || p
                == w.seed()) implies w.waits(p) || w.expanded(storage, p) by {
            assert(v.visited(p));
            if !v.waits(p) {
                assert forall|d: Direction| #[trigger] w.looked_at(storage, p, d) by {
                    assert(v.looked_at(storage, p, d));
                }
            }
        }
    }
}

/// When a wave has run out, every tile that a path of open steps leads to
/// from the first tile of the wave is settled, or is that first tile.
pub proof fn lemma_converged_wave_reaches(v: FlowfieldView, storage: Seq<u8>, path: Seq<int>)
    requires
        v.wf(),
        v.paths_hold(storage),
        v.frontier_holds(storage),
        v.has_seed(),
        v.visited(v.seed()),
        v.frontier.len() == 0,
        v.open_path(storage, path),
    ensures
        v.settled(path.last()) || path.last() == v.seed(),
        v.visited(path.last()),
    decreases path.len(),
{
    if path.len() > 1 {
        let before = path.drop_last();
        assert forall|k: int| 0 <= k < before.len() - 1 implies #[trigger] v.open_step(
            storage,
            before[k],
            before[k + 1],
        ) by {
            assert(v.open_step(storage, path[k], path[k + 1]));
        }
        assert(v.open_path(storage, before));
        lemma_converged_wave_reaches(v, storage, before);
        let p = path[path.len() - 2];
        let n = path.last();
        assert(p == before.last());
        assert(v.open_step(storage, path[path.len() - 2], path[path.len() - 2 + 1]));
        assert(!v.waits(p));
        assert(v.expanded(storage, p));
        let d = crate::grid::direction_between(v.width, p, n).unwrap();
        assert(v.looked_at(storage, p, d));
        assert(v.visited(n));
    }
}

/// A new wave is the state of one wave.
pub proof fn lemma_seeded_wave(v: FlowfieldView, storage: Seq<u8>)
    requires
        v.wf(),
        v.point_in_grid(v.target),
        storage.len() == v.cells(),
    ensures
        v.seeded().wf(),
        v.seeded().wave_holds(storage),
{
    crate::paths::lemma_seeded_paths(v, storage);
    lemma_seeded_frontier(v, storage);
}

/// One step of a wave leaves the state of one wave, and the node it takes
/// carries the cost of its tile.
pub proof fn lemma_pop_step_wave(v: FlowfieldView, storage: Seq<u8>, node: Node)
    requires
        v.wf(),
        v.wave_holds(storage),
        v.frontier.contains(node),
    ensures
        v.cost_grid[node.index as int].0 == node.cost,
        v.pop_step(storage, node).wf(),
        v.pop_step(storage, node).wave_holds(storage),
{
    crate::paths::lemma_pop_step_paths(v, storage, node);
    lemma_pop_step_frontier(v, storage, node);
}

/// Whether the field is the state of one wave does not depend on where the
/// target is now, on whether it has moved, or on the flows remembered.
pub proof fn lemma_wave_ignores_target(v: FlowfieldView, w: FlowfieldView, storage: Seq<u8>)
    requires
        v.wave_holds(storage),
        w.width == v.width,
        w.height == v.height,
        w.transient_target == v.transient_target,
        w.cost_grid == v.cost_grid,
        w.frontier == v.frontier,
    ensures
        w.wave_holds(storage),
{
    crate::paths::lemma_paths_ignore_target(v, w, storage);
    lemma_frontier_ignores_target(v, w, storage);
}

/// A field on which nothing has been visited and nothing waits is the state
/// of a wave that has not begun.
pub proof fn lemma_untouched_wave(v: FlowfieldView, storage: Seq<u8>)
    requires
        v.wf(),
        storage.len() == v.cells(),
        v.frontier.len() == 0,
        forall|n: int| 0 <= n < v.cells() ==> !(#[trigger] v.cost_grid[n]).1,
    ensures
        v.wave_holds(storage),
{
    broadcast use vstd::multiset::group_multiset_axioms;

    assert forall|n: int| 0 <= n < v.cells() implies !#[trigger] v.visited(n) && !v.settled(
        n,
    ) by {
        assert(!v.cost_grid[n].1);
    }
    if v.has_seed() {
        lemma_tile_index(
            v.width,
            v.height,
            v.transient_target.0 as int,
            v.transient_target.1 as int,
        );
    }
}

/// However many steps a wave takes, the field stays the state of one wave.
pub proof fn lemma_wave_steps_keep_wave(
    from: FlowfieldView,
    to: FlowfieldView,
    storage: Seq<u8>,
    n: nat,
)
    requires
        from.wf(),
        from.wave_holds(storage),
        from.wave_steps(to, storage, n),
    ensures
        to.wf(),
        to.wave_holds(storage),
    decreases n,
{
    if n > 0 {
        let (mid, node) = choose|mid: FlowfieldView, node: Node|
            from.wave_steps(mid, storage, (n - 1) as nat) && mid.cheapest(node) && to
                == #[trigger] mid.pop_step(storage, node);
        lemma_wave_steps_keep_wave(from, mid, storage, (n - 1) as nat);
        lemma_pop_step_wave(mid, storage, node);
    }
}

} // verus!
