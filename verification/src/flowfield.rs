//! The cost field that spreads from the target tile a bounded number of
//! steps at a time, and the flow directions derived from it.

use crate::direction::{diagonal_is_blocked, has_wall, lemma_record_wall, Direction};
use crate::flow::default_flow;
use crate::frontier::{Frontier, Node};
use crate::grid::{
    col_of, direction_between, in_grid, lemma_coords, lemma_direction_between, lemma_neighbor,
    lemma_tile_index, neighbor, row_of, tile_index,
};
use crate::open::{
    lemma_exact_ignores_target, lemma_pop_step_exact, lemma_seeded_exact, lemma_untouched_exact,
    no_walls,
};
use crate::reach::{
    lemma_pop_step_wave, lemma_seeded_wave, lemma_untouched_wave, lemma_wave_ignores_target,
};
use crate::point::Point;
use crate::tilemap::TileStorage;
use vstd::multiset::*;
use vstd::prelude::*;

verus! {

/// Cost of a tile that is a wall or has not been reached.
pub const INFINITE_COST: u32 = 0xFFFF_FFFF;

/// The direction in which an agent on a tile should move.
#[derive(Clone, Copy, Debug, PartialEq, Eq, Structural)]
pub enum Flow {
    /// Towards the neighbouring tile in this compass direction.
    Compass(Direction),
    /// Straight at the target: along the vector from the centre of the tile
    /// to the target, in thousandths of a tile. The vector is never zero.
    Toward { dx: i64, dy: i64 },
}

impl Flow {
    /// The flow has a direction: a vector towards the target is not zero.
    pub open spec fn wf(self) -> bool {
        match self {
            Flow::Compass(_) => true,
            Flow::Toward { dx, dy } => dx != 0 || dy != 0,
        }
    }

    /// The flow points along a row, a column or an exact diagonal of the grid.
    pub open spec fn is_reference_angle(self) -> bool {
        match self {
            Flow::Compass(_) => true,
            Flow::Toward { dx, dy } => dx == 0 || dy == 0 || dx == dy || dx == -dy,
        }
    }

    /// The flow has a part along the rows and a part along the columns.
    pub open spec fn is_oblique(self) -> bool {
        match self {
            Flow::Compass(d) => d.is_diagonal(),
            Flow::Toward { dx, dy } => dx != 0 && dy != 0,
        }
    }

    pub fn reference_angle(self) -> (b: bool)
        ensures
            b == self.is_reference_angle(),
    {
        match self {
            Flow::Compass(_) => true,
            Flow::Toward { dx, dy } => dx == 0 || dy == 0 || dx == dy || (dx != i64::MIN && dy
                == -dx),
        }
    }

    pub fn oblique(self) -> (b: bool)
        ensures
            b == self.is_oblique(),
    {
        match self {
            Flow::Compass(d) => d.diagonal(),
            Flow::Toward { dx, dy } => dx != 0 && dy != 0,
        }
    }
}

/// Cost of the cheapest eight-way path between two tiles that lie `dx`
/// columns and `dy` rows apart on a grid without walls: diagonal steps as far
/// as both distances allow, straight steps for the rest.
pub open spec fn octile_distance(dx: int, dy: int) -> int {
    if dx <= dy {
        dx * 14 + (dy - dx) * 10
    } else {
        dy * 14 + (dx - dy) * 10
    }
}

pub open spec fn abs_diff(a: int, b: int) -> int {
    if a >= b {
        a - b
    } else {
        b - a
    }
}

/// What a flow field holds, as plain mathematical values.
pub struct FlowfieldView {
    /// Width in tiles.
    pub width: int,
    /// Height in tiles.
    pub height: int,
    /// Where the target is now, in thousandths of a tile.
    pub target: Point,
    /// The tile from which the current wave of costs spreads.
    pub transient_target: (i32, i32),
    /// Whether the target has left the tile of the current wave.
    pub target_changed: bool,
    /// Cost and visited flag of every tile.
    pub cost_grid: Seq<(u32, bool)>,
    /// The flow remembered for every tile.
    pub field: Seq<Option<Flow>>,
    /// The tiles that wait to be expanded.
    pub frontier: Multiset<Node>,
}

impl FlowfieldView {
    pub open spec fn cells(self) -> int {
        self.width * self.height
    }

    pub open spec fn wf(self) -> bool {
        &&& 0 <= self.width <= i32::MAX
        &&& 0 <= self.height <= i32::MAX
        &&& self.cells() <= usize::MAX
        &&& self.cost_grid.len() == self.cells()
        &&& self.field.len() == self.cells()
        &&& forall|node: Node| #[trigger]
            self.frontier.contains(node) ==> node.index < self.cells()
        &&& forall|i: int|
            0 <= i < self.field.len() ==> (#[trigger] self.field[i] matches Some(flow)
                ==> flow.wf())
        &&& self.frontier.len() > 0 ==> self.tile_in_grid(
            self.transient_target.0 as int,
            self.transient_target.1 as int,
        )
    }

    pub open spec fn tile_in_grid(self, col: int, row: int) -> bool {
        in_grid(self.width, self.height, col, row)
    }

    /// Whether `tile`, in thousandths of a tile, lies on the grid.
    pub open spec fn point_in_grid(self, tile: Point) -> bool {
        tile.x >= 0 && tile.y >= 0 && self.tile_in_grid(
            tile.whole().0 as int,
            tile.whole().1 as int,
        )
    }

    /// Index of the grid tile that holds `tile`.
    pub open spec fn point_index(self, tile: Point) -> int {
        tile_index(self.width, tile.whole().0 as int, tile.whole().1 as int)
    }

    pub open spec fn neighbor(self, index: int, d: Direction) -> Option<int> {
        neighbor(self.width, self.height, index, d)
    }

    /// Cost of a path from tile `index` to the tile of the current wave if no
    /// wall stood between them, capped at the largest cost.
    pub open spec fn minimum_cost(self, index: int) -> int {
        let cost = octile_distance(
            abs_diff(self.transient_target.0 as int, col_of(self.width, index)),
            abs_diff(self.transient_target.1 as int, row_of(self.width, index)),
        );
        if cost < INFINITE_COST {
            cost
        } else {
            INFINITE_COST as int
        }
    }

    /// The tile next to `index` in direction `d` is a wall.
    pub open spec fn wall_towards(self, storage: Seq<u8>, index: int, d: Direction) -> bool {
        match self.neighbor(index, d) {
            Some(n) => storage[n] != 0,
            None => false,
        }
    }

    /// A step from `index` in the diagonal direction `d` would pass between
    /// two walls that touch at a corner.
    pub open spec fn cuts_corner(self, storage: Seq<u8>, index: int, d: Direction) -> bool {
        d.is_diagonal() && self.wall_towards(storage, index, d.vertical_part())
            && self.wall_towards(storage, index, d.horizontal_part())
    }

    /// Expanding `node` gives its neighbour in direction `d` a cost: the
    /// neighbour is on the grid, open, not visited yet, not behind a wall
    /// corner, and its cost stays below the infinite cost.
    pub open spec fn reaches(self, storage: Seq<u8>, node: Node, d: Direction) -> bool {
        match self.neighbor(node.index as int, d) {
            Some(n) => storage[n] == 0 && !self.cost_grid[n].1 && !self.cuts_corner(
                storage,
                node.index as int,
                d,
            ) && node.cost + d.step_cost() < INFINITE_COST,
            None => false,
        }
    }

    /// The node that expanding `node` puts on the frontier for direction `d`.
    pub open spec fn reached_node(self, node: Node, d: Direction) -> Node {
        Node {
            index: self.neighbor(node.index as int, d).unwrap() as usize,
            cost: (node.cost + d.step_cost()) as u32,
        }
    }

    /// What expanding `node` does to the neighbour in direction `d`: a wall is
    /// marked infinite and visited, a tile that is reached gets its cost, any
    /// other tile stays as it is.
    pub open spec fn expand_direction(
        self,
        storage: Seq<u8>,
        node: Node,
        d: Direction,
        grid: Seq<(u32, bool)>,
    ) -> Seq<(u32, bool)> {
        match self.neighbor(node.index as int, d) {
            Some(n) => if storage[n] != 0 {
                grid.update(n, (INFINITE_COST, true))
            } else if self.reaches(storage, node, d) {
                grid.update(n, (self.reached_node(node, d).cost, true))
            } else {
                grid
            },
            None => grid,
        }
    }

    /// Cost and visited flag of tile `m` after `node` has been expanded.
    pub open spec fn expanded_cell(self, storage: Seq<u8>, node: Node, m: int) -> (u32, bool) {
        match direction_between(self.width, node.index as int, m) {
            Some(d) => if storage[m] != 0 {
                (INFINITE_COST, true)
            } else if self.reaches(storage, node, d) {
                (self.reached_node(node, d).cost, true)
            } else {
                self.cost_grid[m]
            },
            None => self.cost_grid[m],
        }
    }

    /// The cost grid after `node` has looked at its first `k` neighbours.
    pub open spec fn expanded_grid(self, storage: Seq<u8>, node: Node, k: int) -> Seq<(u32, bool)>
        decreases k,
    {
        if k <= 0 {
            self.cost_grid
        } else {
            self.expand_direction(
                storage,
                node,
                Direction::at_rank(k - 1),
                self.expanded_grid(storage, node, k - 1),
            )
        }
    }

    /// The frontier after `node` has looked at its first `k` neighbours.
    pub open spec fn expanded_frontier(self, storage: Seq<u8>, node: Node, k: int) -> Multiset<Node>
        decreases k,
    {
        if k <= 0 {
            self.frontier
        } else {
            let before = self.expanded_frontier(storage, node, k - 1);
            let d = Direction::at_rank(k - 1);
            if self.reaches(storage, node, d) {
                before.insert(self.reached_node(node, d))
            } else {
                before
            }
        }
    }

    /// The field after `node`, already taken off the frontier, has been
    /// expanded: its remembered flow is dropped and each of its eight
    /// neighbours is treated as `expand_direction` says.
    pub open spec fn expand(self, storage: Seq<u8>, node: Node) -> FlowfieldView {
        FlowfieldView {
            cost_grid: self.expanded_grid(storage, node, 8),
            frontier: self.expanded_frontier(storage, node, 8),
            field: self.field.update(node.index as int, None),
            ..self
        }
    }
    /// The same field with the flag `target_changed` set to `changed`.
    pub open spec fn with_target_changed(self, changed: bool) -> FlowfieldView {
        FlowfieldView { target_changed: changed, ..self }
    }

    /// `node` waits on the frontier and nothing there is cheaper.
    pub open spec fn cheapest(self, node: Node) -> bool {
        self.frontier.contains(node) && forall|other: Node| #[trigger]
            self.frontier.contains(other) ==> node.cost <= other.cost
    }

    /// The field with `node` taken off the frontier.
    pub open spec fn popped(self, node: Node) -> FlowfieldView {
        FlowfieldView { frontier: self.frontier.remove(node), ..self }
    }

    /// The field after `node` has been taken off the frontier. A node whose
    /// cost is no longer the cost of its tile is stale and dropped; any other
    /// node is expanded.
    pub open spec fn pop_step(self, storage: Seq<u8>, node: Node) -> FlowfieldView {
        if self.cost_grid[node.index as int].0 == node.cost {
            self.popped(node).expand(storage, node)
        } else {
            self.popped(node)
        }
    }

    /// `to` is what the field can be after `n` steps from `self`, each of
    /// which takes a cheapest node off the frontier.
    pub open spec fn wave_steps(self, to: FlowfieldView, storage: Seq<u8>, n: nat) -> bool
        decreases n,
    {
        if n == 0 {
            to == self
        } else {
            exists|mid: FlowfieldView, node: Node|
                self.wave_steps(mid, storage, (n - 1) as nat) && mid.cheapest(node) && to
                    == #[trigger] mid.pop_step(storage, node)
        }
    }

    /// Nothing is left to do: the grid has no tiles, or the last wave has run
    /// out and the target is still on its tile.
    pub open spec fn idle(self) -> bool {
        self.cells() == 0 || (!self.target_changed && self.frontier.len() == 0)
    }

    /// An update changes nothing: the field is idle, or a new wave is due but
    /// the target is off the grid.
    pub open spec fn resting(self) -> bool {
        self.idle() || (self.frontier.len() == 0 && !self.point_in_grid(self.target))
    }

    /// The field at the start of a new wave from the tile of the target:
    /// that tile is the transient target, has cost 0, is visited and alone on
    /// the frontier; no other tile is visited; every other cost stays.
    pub open spec fn seeded(self) -> FlowfieldView {
        let start = self.point_index(self.target);
        FlowfieldView {
            transient_target: self.target.whole(),
            cost_grid: Seq::new(
                self.cost_grid.len(),
                |m: int|
                    if m == start {
                        (0u32, true)
                    } else {
                        (self.cost_grid[m].0, false)
                    },
            ),
            frontier: Multiset::<Node>::empty().insert(Node { index: start as usize, cost: 0 }),
            ..self
        }
    }

    /// The field from which the steps of an update start: a new wave if the
    /// frontier is empty, the wave under way otherwise.
    pub open spec fn wave_start(self) -> FlowfieldView {
        if self.frontier.len() == 0 {
            self.seeded()
        } else {
            self
        }
    }
}

/// A grid-based navigation field: the cost of reaching the target from every
/// tile, and the direction to move in on every tile.
pub struct Flowfield {
    target: Point,
    transient_target: (i32, i32),
    target_changed: bool,
    cost_grid: Vec<(u32, bool)>,
    field: Vec<Option<Flow>>,
    heap: Frontier,
    width: usize,
    height: usize,
}

impl View for Flowfield {
    type V = FlowfieldView;

    closed spec fn view(&self) -> FlowfieldView {
        FlowfieldView {
            width: self.width as int,
            height: self.height as int,
            target: self.target,
            transient_target: self.transient_target,
            target_changed: self.target_changed,
            cost_grid: self.cost_grid@,
            field: self.field@,
            frontier: self.heap@,
        }
    }
}

impl Flowfield {
    /// The buffers fit the size of the grid and the frontier is in order.
    pub closed spec fn wf(&self) -> bool {
        self@.wf() && self.heap.wf()
    }

    /// What a well-formed field holds is well formed: the laws about what
    /// a field holds apply to it.
    pub proof fn lemma_wf(&self)
        requires
            self.wf(),
        ensures
            self@.wf(),
    {
    }

    /// A field of `width` by `height` tiles on which nothing has been
    /// computed: every cost infinite, no tile visited, no flow remembered,
    /// and a first wave due.
    pub fn new(width: usize, height: usize) -> (flowfield: Flowfield)
        requires
            width <= i32::MAX,
            height <= i32::MAX,
            width * height <= usize::MAX,
        ensures
            flowfield.wf(),
            flowfield@.width == width,
            flowfield@.height == height,
            flowfield@.target == (Point { x: 0, y: 0 }),
            flowfield@.transient_target == (0i32, 0i32),
            flowfield@.target_changed,
            flowfield@.cost_grid == Seq::new(
                (width * height) as nat,
                |i: int| (INFINITE_COST, false),
            ),
            flowfield@.field == Seq::new((width * height) as nat, |i: int| None::<Flow>),
            flowfield@.frontier == Multiset::<Node>::empty(),
            forall|storage: Seq<u8>|
                storage.len() == width * height ==> #[trigger] flowfield@.wave_holds(storage),
            flowfield@.exact_costs(),
    {
        let cells: usize = width * height;
        let mut cost_grid: Vec<(u32, bool)> = Vec::new();
        let mut field: Vec<Option<Flow>> = Vec::new();
        let mut i: usize = 0;
        while i < cells
            invariant
                i <= cells,
                cost_grid@ == Seq::new(i as nat, |k: int| (INFINITE_COST, false)),
                field@ == Seq::new(i as nat, |k: int| None::<Flow>),
            decreases cells - i,
        {
            cost_grid.push((INFINITE_COST, false));
            field.push(None);
            i += 1;
            assert(cost_grid@ =~= Seq::new(i as nat, |k: int| (INFINITE_COST, false)));
            assert(field@ =~= Seq::new(i as nat, |k: int| None::<Flow>));
        }
        let flowfield = Flowfield {
            target: Point { x: 0, y: 0 },
            transient_target: (0, 0),
            target_changed: true,
            cost_grid,
            field,
            heap: Frontier::new(),
            width,
            height,
        };
        proof {
            assert forall|storage: Seq<u8>|
                storage.len() == width * height implies #[trigger] flowfield@.wave_holds(
                storage,
            ) by {
                lemma_untouched_wave(flowfield@, storage);
            }
            lemma_untouched_exact(flowfield@);
        }
        flowfield
    }

    /// Width in number of tiles.
    pub fn width(&self) -> (w: usize)
        ensures
            w == self@.width,
    {
        self.width
    }

    /// Height in number of tiles.
    pub fn height(&self) -> (h: usize)
        ensures
            h == self@.height,
    {
        self.height
    }

    /// Cost and visited flag of tile `index`, or `None` off the grid.
    pub fn get_cost_at_index(&self, index: usize) -> (cell: Option<(u32, bool)>)
        requires
            self.wf(),
        ensures
            cell == if index < self@.cells() {
                Some(self@.cost_grid[index as int])
            } else {
                None
            },
    {
        if index < self.cost_grid.len() {
            Some(self.cost_grid[index])
        } else {
            None
        }
    }

    /// The flow remembered for tile `index`, if any.
    pub fn get_memo_at_index(&self, index: usize) -> (memo: Option<Flow>)
        requires
            self.wf(),
        ensures
            memo == if index < self@.cells() {
                self@.field[index as int]
            } else {
                None
            },
    {
        if index < self.field.len() {
            self.field[index]
        } else {
            None
        }
    }

    /// Where the target is now, in thousandths of a tile.
    pub fn target(&self) -> (target: Point)
        ensures
            target == self@.target,
    {
        self.target
    }

    /// The tile from which the current wave of costs spreads.
    pub fn transient_target(&self) -> (tile: (i32, i32))
        ensures
            tile == self@.transient_target,
    {
        self.transient_target
    }

    /// Whether the target has left the tile of the current wave.
    pub fn target_changed(&self) -> (changed: bool)
        ensures
            changed == self@.target_changed,
    {
        self.target_changed
    }

    /// Whether a wave is under way: the frontier is not empty.
    pub fn is_propagating(&self) -> (busy: bool)
        ensures
            busy == (self@.frontier.len() > 0),
    {
        !self.heap.is_empty()
    }

    /// Index of the grid tile that holds `tile`, given in thousandths of a
    /// tile, or `None` if `tile` lies off the grid.
    pub fn get_index_at_tile(&self, tile: Point) -> (index: Option<usize>)
        requires
            self.wf(),
        ensures
            index is Some <==> self@.point_in_grid(tile),
            index matches Some(i) ==> i == self@.point_index(tile) && i < self@.cells(),
    {
        if tile.x < 0 || tile.y < 0 {
            return None;
        }
        let (col, row) = tile.as_ivec2();
        if row as usize >= self.height || col as usize >= self.width {
            return None;
        }
        proof {
            lemma_tile_index(self.width as int, self.height as int, col as int, row as int);
        }
        Some(self.get_index_at_tile_unchecked(tile))
    }

    /// Index of the grid tile that holds `tile`, which must lie on the grid.
    pub fn get_index_at_tile_unchecked(&self, tile: Point) -> (index: usize)
        requires
            self.wf(),
            self@.point_in_grid(tile),
        ensures
            index == self@.point_index(tile),
            index < self@.cells(),
    {
        let (col, row) = tile.as_ivec2();
        proof {
            lemma_tile_index(self.width as int, self.height as int, col as int, row as int);
            vstd::arithmetic::mul::lemma_mul_nonnegative(row as int, self.width as int);
        }
        col as usize + row as usize * self.width
    }

    /// Cost of a path from tile `index` to the tile of the current wave if no
    /// wall stood between them.
    pub fn get_minimum_cost_at_index(&self, index: usize) -> (cost: u32)
        requires
            self.wf(),
            index < self@.cells(),
        ensures
            cost == self@.minimum_cost(index as int),
    {
        proof {
            lemma_coords(self.width as int, self.height as int, index as int);
        }
        let (col, row) = get_tile_coords(index, self.width as isize);
        let x_diff: u64 = distance(self.transient_target.0, col);
        let y_diff: u64 = distance(self.transient_target.1, row);
        let diag_count: u64 = if x_diff < y_diff {
            x_diff
        } else {
            y_diff
        };
        let straight_count: u64 = if x_diff < y_diff {
            y_diff - diag_count
        } else {
            x_diff - diag_count
        };
        let cost: u64 = diag_count * 14 + straight_count * 10;
        if cost < INFINITE_COST as u64 {
            cost as u32
        } else {
            INFINITE_COST
        }
    }

    /// Expands `node`, which has just been taken off the frontier: forgets
    /// the flow remembered for its tile and looks at each of its eight
    /// neighbours in turn.
    fn expand(&mut self, storage: &TileStorage, node: Node)
        requires
            old(self).wf(),
            storage@.len() == old(self)@.cells(),
            node.index < old(self)@.cells(),
            old(self)@.tile_in_grid(
                old(self)@.transient_target.0 as int,
                old(self)@.transient_target.1 as int,
            ),
        ensures
            final(self).wf(),
            final(self)@ == old(self)@.expand(storage@, node),
    {
        let i: usize = node.index;
        self.field.set(i, None);
        let dirs: [Direction; 8] = Direction::all();
        let mut wall_mask: u8 = 0;
        let mut k: usize = 0;
        proof {
            assert(self.heap@ == old(self)@.frontier);
            assert(old(self)@.wf());
            assert forall|o: Direction| !o.is_diagonal() implies !has_wall(wall_mask, o) by {
                let b: u8 = o.mask();
                assert(0u8 & b == 0) by (bit_vector);
            }
        }
        while k < 8
            invariant
                0 <= k <= 8,
                i == node.index,
                self.heap.wf(),
                old(self).wf(),
                storage@.len() == old(self)@.cells(),
                i < old(self)@.cells(),
                forall|j: int| 0 <= j < 8 ==> #[trigger] dirs[j] == Direction::at_rank(j),
                self.width == old(self).width,
                self.height == old(self).height,
                self.target == old(self).target,
                self.transient_target == old(self).transient_target,
                self.target_changed == old(self).target_changed,
                self.field@ == old(self).field@.update(i as int, None),
                self.cost_grid@ == old(self)@.expanded_grid(storage@, node, k as int),
                self.cost_grid@.len() == old(self)@.cells(),
                self.heap@ == old(self)@.expanded_frontier(storage@, node, k as int),
                forall|other: Node| #[trigger]
                    self.heap@.contains(other) ==> other.index < old(self)@.cells(),
                forall|o: Direction|
                    !o.is_diagonal() ==> (#[trigger] has_wall(wall_mask, o) == (o.rank() < k
                        && old(self)@.wall_towards(storage@, i as int, o))),
            decreases 8 - k,
        {
            let d: Direction = dirs[k];
            let ghost before_mask: u8 = wall_mask;
            let ghost before_heap: Multiset<Node> = self.heap@;
            let ghost marked: bool = false;
            proof {
                assert(d == Direction::at_rank(k as int));
                assert(d.rank() == k);
                lemma_expanded_grid(old(self)@, storage@, node, k as int);
                lemma_neighbor(old(self)@.width, old(self)@.height, i as int, d);
            }
            match neighbor_index(self.width, self.height, i, d) {
                None => {},
                Some(n) => {
                    if storage.0[n] != 0 {
                        wall_mask = wall_mask | d.bitmask();
                        self.cost_grid.set(n, (INFINITE_COST, true));
                        proof {
                            marked = true;
                        }
                    } else if self.cost_grid[n].1 {
                    } else if diagonal_is_blocked(wall_mask, d) {
                    } else if node.cost as u64 + d.cost() as u64 >= INFINITE_COST as u64 {
                    } else {
                        let new_cost: u32 = node.cost + d.cost();
                        let reached: Node = Node::new(n, new_cost);
                        self.cost_grid.set(n, (new_cost, true));
                        self.heap.push(reached);
                        proof {
                            broadcast use vstd::multiset::group_multiset_axioms;

                            assert forall|other: Node| #[trigger]
                                self.heap@.contains(other) implies other.index
                                < old(self)@.cells() by {
                                if other != reached {
                                    assert(before_heap.contains(other));
                                }
                            }
                        }
                    }
                },
            }
            proof {
                let v: FlowfieldView = old(self)@;
                assert(v.neighbor(i as int, d) is Some ==> v.cost_grid[v.neighbor(
                    i as int,
                    d,
                ).unwrap()] == v.expanded_grid(storage@, node, k as int)[v.neighbor(
                    i as int,
                    d,
                ).unwrap()]);
                assert(v.cuts_corner(storage@, i as int, d) == crate::direction::diagonal_blocked(
                    before_mask,
                    d,
                )) by {
                    if d.is_diagonal() {
                        assert(d.vertical_part().rank() < 4 && d.horizontal_part().rank() < 4);
                        assert(!d.vertical_part().is_diagonal());
                        assert(!d.horizontal_part().is_diagonal());
                    }
                }
                assert forall|o: Direction| !o.is_diagonal() implies (#[trigger] has_wall(
                    wall_mask,
                    o,
                ) == (o.rank() < k + 1 && v.wall_towards(storage@, i as int, o))) by {
                    if marked {
                        lemma_record_wall(before_mask, d, o);
                    }
                }
                assert(self.cost_grid@ =~= v.expanded_grid(storage@, node, k + 1));
                assert(self.heap@ == v.expanded_frontier(storage@, node, k + 1));
            }
            k += 1;
        }
        proof {
            assert(self@ == old(self)@.expand(storage@, node));
        }
    }

    /// Advances the wave of costs by at most `iterations` steps.
    ///
    /// Does nothing on a grid without tiles, when the last wave has run out
    /// and the target has not left its tile, or when a new wave is due but
    /// the target is off the grid. With an empty frontier a new wave starts at
    /// the tile of the target. Each step takes a cheapest node off the
    /// frontier and expands it. When the frontier runs empty the field has
    /// caught up with the target.
    pub fn update_cost(&mut self, storage: &TileStorage, iterations: usize)
        requires
            old(self).wf(),
            storage@.len() == old(self)@.cells(),
        ensures
            final(self).wf(),
            old(self)@.resting() ==> final(self)@ == old(self)@,
            !old(self)@.resting() ==> {
                &&& exists|steps: nat|
                    steps <= iterations && (steps == iterations || final(self)@.frontier.len()
                        == 0) && #[trigger] old(self)@.wave_start().wave_steps(
                        final(self)@.with_target_changed(old(self)@.target_changed),
                        storage@,
                        steps,
                    )
                &&& final(self)@.target_changed == (old(self)@.target_changed
                    && final(self)@.frontier.len() > 0)
            },
            old(self)@.wave_holds(storage@) ==> final(self)@.wave_holds(storage@),
            !old(self)@.resting() && old(self)@.frontier.len() == 0 ==> final(self)@.wave_holds(
                storage@,
            ),
            no_walls(storage@) && old(self)@.wave_holds(storage@) && old(self)@.exact_costs()
                ==> final(self)@.exact_costs(),
            no_walls(storage@) && !old(self)@.resting() && old(self)@.frontier.len() == 0
                ==> final(self)@.exact_costs(),
    {
        if self.cost_grid.len() == 0 {
            return ;
        }
        if !self.target_changed && self.heap.is_empty() {
            return ;
        }
        if self.heap.is_empty() {
            let start: usize = match self.get_index_at_tile(self.target) {
                Some(start) => start,
                None => {
                    return ;
                },
            };
            self.transient_target = self.target.as_ivec2();
            let n: usize = self.cost_grid.len();
            let mut m: usize = 0;
            while m < n
                invariant
                    m <= n,
                    n == self.cost_grid.len(),
                    n == old(self).cost_grid.len(),
                    self.heap.wf(),
                    self.heap@ == old(self).heap@,
                    self.field == old(self).field,
                    self.width == old(self).width,
                    self.height == old(self).height,
                    self.target == old(self).target,
                    self.target_changed == old(self).target_changed,
                    self.transient_target == old(self).target.whole(),
                    forall|other: Node| #[trigger]
                        self.heap@.contains(other) ==> other.index < n,
                    forall|j: int|
                        0 <= j < m ==> #[trigger] self.cost_grid@[j] == (
                            old(self).cost_grid@[j].0,
                            false,
                        ),
                    forall|j: int|
                        m <= j < n ==> #[trigger] self.cost_grid@[j] == old(self).cost_grid@[j],
                decreases n - m,
            {
                let cost: u32 = self.cost_grid[m].0;
                self.cost_grid.set(m, (cost, false));
                m += 1;
            }
            self.cost_grid.set(start, (0, true));
            let seed: Node = Node::new(start, 0);
            self.heap.push(seed);
            proof {
                broadcast use vstd::multiset::group_multiset_axioms;

                assert(old(self).heap@ =~= Multiset::<Node>::empty());
                assert(self.cost_grid@ =~= old(self)@.seeded().cost_grid);
                assert(self@ == old(self)@.seeded());
                assert forall|other: Node| #[trigger]
                    self@.frontier.contains(other) implies other.index < self@.cells() by {
                    if other != seed {
                        assert(old(self).heap@.contains(other));
                    }
                }
                assert(self@.wf());
                lemma_seeded_wave(old(self)@, storage@);
                lemma_seeded_exact(old(self)@);
            }
        }
        let ghost start_view: FlowfieldView = self@;
        let mut done: usize = 0;
        proof {
            assert(start_view == old(self)@.wave_start());
        }
        while done < iterations && !self.heap.is_empty()
            invariant
                self.wf(),
                done <= iterations,
                storage@.len() == self@.cells(),
                self@.target_changed == start_view.target_changed,
                start_view.wave_steps(self@, storage@, done as nat),
                start_view.wave_holds(storage@) ==> self@.wave_holds(storage@),
                no_walls(storage@) && start_view.wave_holds(storage@) && start_view.exact_costs()
                    ==> self@.exact_costs(),
            decreases iterations - done,
        {
            let ghost before: FlowfieldView = self@;
            match self.heap.pop() {
                Some(node) => {
                    proof {
                        broadcast use vstd::multiset::group_multiset_axioms;

                        assert(before.cheapest(node));
                        assert(before.frontier.len() > 0);
                        assert forall|other: Node| #[trigger]
                            self@.frontier.contains(other) implies other.index
                            < self@.cells() by {
                            assert(before.frontier.contains(other));
                        }
                        assert(self@.wf());
                    }
                    if self.cost_grid[node.index].0 == node.cost {
                        self.expand(storage, node);
                    }
                    proof {
                        assert(self@ == before.pop_step(storage@, node));
                        if before.wave_holds(storage@) {
                            lemma_pop_step_wave(before, storage@, node);
                            if no_walls(storage@) && before.exact_costs() {
                                lemma_pop_step_exact(before, storage@, node);
                            }
                        }
                    }
                },
                None => {
                    proof {
                        assert(false);
                    }
                },
            }
            done += 1;
        }
        let ghost stepped: FlowfieldView = self@;
        if self.heap.is_empty() {
            self.target_changed = false;
        }
        proof {
            if stepped.wave_holds(storage@) {
                lemma_wave_ignores_target(stepped, self@, storage@);
            }
            if stepped.exact_costs() {
                lemma_exact_ignores_target(stepped, self@);
            }
            let resumed = self@.with_target_changed(old(self)@.target_changed);
            assert(old(self)@.wave_start().wave_steps(resumed, storage@, done as nat));
        }
    }

    /// The direction in which an agent on `tile`, given in thousandths of a
    /// tile, should move.
    ///
    /// Off the grid the answer is the default flow and nothing changes. On
    /// the grid the flow of the tile is derived as `flow_memo` says,
    /// remembered, and returned. `cost_threshold` is the cost above which a
    /// remembered flow is taken as it is; `smooth` turns the straightening of
    /// flows in plain sight of the target on.
    pub fn get_flow_at_tile(
        &mut self,
        tile: Point,
        storage: &TileStorage,
        smooth: bool,
        cost_threshold: u32,
    ) -> (flow: Flow)
        requires
            old(self).wf(),
            storage@.len() == old(self)@.cells(),
        ensures
            final(self).wf(),
            flow.wf(),
            !old(self)@.point_in_grid(tile) ==> flow == default_flow(),
            !old(self)@.point_in_grid(tile) ==> final(self)@ == old(self)@,
            old(self)@.point_in_grid(tile) ==> flow == old(self)@.flow_at(
                storage@,
                old(self)@.point_index(tile),
                smooth,
                cost_threshold,
            ) && final(self)@ == old(self)@.flow_derived(
                storage@,
                old(self)@.point_index(tile),
                smooth,
                cost_threshold,
            ),
            flow is Toward ==> smooth || !old(self)@.compass_only(),
            !smooth && old(self)@.compass_only() ==> final(self)@.compass_only(),
            forall|walls: Seq<u8>|
                old(self)@.wave_holds(walls) ==> #[trigger] final(self)@.wave_holds(walls),
            old(self)@.exact_costs() ==> final(self)@.exact_costs(),
    {
        match self.get_index_at_tile(tile) {
            Some(i) => self.get_flow_at_index(i, storage, smooth, cost_threshold),
            None => Flow::Compass(Direction::North),
        }
    }

    /// Derives and remembers the flow of every tile of the grid, in the
    /// order of their indices.
    pub fn update_flowfield(&mut self, storage: &TileStorage, smooth: bool, cost_threshold: u32)
        requires
            old(self).wf(),
            storage@.len() == old(self)@.cells(),
        ensures
            final(self).wf(),
            final(self)@ == old(self)@.flows_derived(
                storage@,
                smooth,
                cost_threshold,
                old(self)@.cells(),
            ),
            !smooth && old(self)@.compass_only() ==> final(self)@.compass_only(),
            forall|walls: Seq<u8>|
                old(self)@.wave_holds(walls) ==> #[trigger] final(self)@.wave_holds(walls),
            old(self)@.exact_costs() ==> final(self)@.exact_costs(),
    {
        let n: usize = self.cost_grid.len();
        let mut i: usize = 0;
        while i < n
            invariant
                0 <= i <= n,
                n == old(self)@.cells(),
                self.wf(),
                storage@.len() == self@.cells(),
                self@.cells() == n,
                self@ == old(self)@.flows_derived(storage@, smooth, cost_threshold, i as int),
                !smooth && old(self)@.compass_only() ==> self@.compass_only(),
                forall|walls: Seq<u8>|
                    old(self)@.wave_holds(walls) ==> #[trigger] self@.wave_holds(walls),
                old(self)@.exact_costs() ==> self@.exact_costs(),
            decreases n - i,
        {
            let ghost before: FlowfieldView = self@;
            self.get_flow_at_index(i, storage, smooth, cost_threshold);
            proof {
                assert(self@ == before.flow_derived(storage@, i as int, smooth, cost_threshold));
                assert(old(self)@.flows_derived(storage@, smooth, cost_threshold, i + 1)
                    == old(self)@.flows_derived(
                    storage@,
                    smooth,
                    cost_threshold,
                    i as int,
                ).flow_derived(storage@, i as int, smooth, cost_threshold));
            }
            i += 1;
        }
    }

    /// The direction in which an agent on the tile with index `index`
    /// should move.
    ///
    /// Off the grid the answer is the default flow and nothing changes. On
    /// the grid the flow of the tile is derived as `flow_memo` says,
    /// remembered, and returned.
    pub fn get_flow_at_index(
        &mut self,
        index: usize,
        storage: &TileStorage,
        smooth: bool,
        cost_threshold: u32,
    ) -> (flow: Flow)
        requires
            old(self).wf(),
            storage@.len() == old(self)@.cells(),
        ensures
            final(self).wf(),
            flow.wf(),
            index >= old(self)@.cells() ==> flow == default_flow() && final(self)@ == old(self)@,
            index < old(self)@.cells() ==> flow == old(self)@.flow_at(
                storage@,
                index as int,
                smooth,
                cost_threshold,
            ) && final(self)@ == old(self)@.flow_derived(
                storage@,
                index as int,
                smooth,
                cost_threshold,
            ),
            flow is Toward ==> smooth || !old(self)@.compass_only(),
            !smooth && old(self)@.compass_only() ==> final(self)@.compass_only(),
            forall|walls: Seq<u8>|
                old(self)@.wave_holds(walls) ==> #[trigger] final(self)@.wave_holds(walls),
            old(self)@.exact_costs() ==> final(self)@.exact_costs(),
    {
        if index >= self.cost_grid.len() {
            return Flow::Compass(Direction::North);
        }
        let i: usize = index;
        let cost: u32 = self.cost_grid[i].0;
        let line_of_sight: bool = cost == self.get_minimum_cost_at_index(i);
        if cost > cost_threshold || !line_of_sight {
            if let Some(flow) = self.field[i] {
                proof {
                    assert(self@.field.update(i as int, self@.field[i as int]) =~= self@.field);
                }
                return flow;
            }
        }
        let needs_scan: bool = match self.field[i] {
            None => true,
            Some(flow) => self.target_changed || flow.reference_angle(),
        };
        let mut wall_mask: u8 = 0;
        let mut best: Option<Direction> = None;
        if needs_scan {
            let scanned = self.scan_neighbors(storage, i);
            best = scanned.0;
            wall_mask = scanned.1;
        }
        let scanned_memo: Option<Flow> = match best {
            Some(d) => Some(Flow::Compass(d)),
            None => self.field[i],
        };
        proof {
            lemma_coords(self.width as int, self.height as int, i as int);
        }
        let col: i64 = (i % self.width) as i64;
        let row: i64 = (i / self.width) as i64;
        let oblique: bool = match scanned_memo {
            Some(flow) => flow.oblique(),
            None => false,
        };
        let memo: Option<Flow> = if wall_mask == 0 && line_of_sight && (oblique || col
            == self.transient_target.0 as i64 || row == self.transient_target.1 as i64) && smooth {
            let centre_x: i64 = col * 1000 + 500;
            let centre_y: i64 = row * 1000 + 500;
            let (dx, dy) = if cost < cost_threshold {
                (self.target.x as i64 - centre_x, self.target.y as i64 - centre_y)
            } else {
                (
                    self.transient_target.0 as i64 * 1000 - centre_x,
                    self.transient_target.1 as i64 * 1000 - centre_y,
                )
            };
            if dx == 0 && dy == 0 {
                Some(Flow::Compass(Direction::North))
            } else {
                Some(Flow::Toward { dx, dy })
            }
        } else {
            scanned_memo
        };
        self.field.set(i, memo);
        proof {
            assert(memo == old(self)@.flow_memo(storage@, i as int, smooth, cost_threshold));
            assert forall|walls: Seq<u8>|
                old(self)@.wave_holds(walls) implies #[trigger] self@.wave_holds(walls) by {
                lemma_wave_ignores_target(old(self)@, self@, walls);
            }
            if old(self)@.exact_costs() {
                lemma_exact_ignores_target(old(self)@, self@);
            }
        }
        match memo {
            Some(flow) => flow,
            None => Flow::Compass(Direction::North),
        }
    }

    /// Looks at the eight neighbours of tile `i`. Returns the direction of
    /// the cheapest one that the flow may point at, and a wall mask that is
    /// zero only if none of the neighbours looked at has infinite cost.
    fn scan_neighbors(&self, storage: &TileStorage, i: usize) -> (scanned: (Option<Direction>, u8))
        requires
            self.wf(),
            storage@.len() == self@.cells(),
            i < self@.cells(),
        ensures
            scanned.0 == self@.scan_best(storage@, i as int, 8),
            (scanned.1 != 0) == self@.scan_walls(storage@, i as int, 8),
    {
        let subtile_mask: u8 = storage.0[i];
        let dirs: [Direction; 8] = Direction::all();
        let mut wall_mask: u8 = 0;
        let mut best: Option<Direction> = None;
        let mut min: u32 = INFINITE_COST;
        let mut k: usize = 0;
        proof {
            assert forall|o: Direction| !o.is_diagonal() implies !has_wall(wall_mask, o) by {
                let b: u8 = o.mask();
                assert(0u8 & b == 0) by (bit_vector);
            }
        }
        while k < 8
            invariant
                0 <= k <= 8,
                self.wf(),
                storage@.len() == self@.cells(),
                i < self@.cells(),
                subtile_mask == storage@[i as int],
                forall|j: int| 0 <= j < 8 ==> #[trigger] dirs[j] == Direction::at_rank(j),
                best == self@.scan_best(storage@, i as int, k as int),
                best is None ==> min == INFINITE_COST,
                best matches Some(d) ==> min == self@.cost_towards(i as int, d) && min
                    != INFINITE_COST,
                (wall_mask != 0) == self@.scan_walls(storage@, i as int, k as int),
                forall|o: Direction|
                    !o.is_diagonal() ==> (#[trigger] has_wall(wall_mask, o) == (o.rank() < k
                        && self@.scan_wall(storage@, i as int, o))),
            decreases 8 - k,
        {
            let d: Direction = dirs[k];
            let mask: u8 = d.bitmask();
            let ghost before_mask: u8 = wall_mask;
            let ghost marked: bool = false;
            proof {
                assert(d == Direction::at_rank(k as int));
                assert(d.rank() == k);
            }
            if subtile_mask & mask != mask {
                match neighbor_index(self.width, self.height, i, d) {
                    None => {},
                    Some(n) => {
                        let neighbor_cost: u32 = self.cost_grid[n].0;
                        if neighbor_cost == INFINITE_COST {
                            wall_mask = wall_mask | mask;
                            proof {
                                marked = true;
                            }
                        } else if neighbor_cost < min {
                            if !diagonal_is_blocked(wall_mask, d) {
                                min = neighbor_cost;
                                best = Some(d);
                            }
                        }
                    },
                }
            }
            proof {
                let v: FlowfieldView = self@;
                assert(marked == v.scan_wall(storage@, i as int, d));
                assert(v.scan_blocked(storage@, i as int, d) == crate::direction::diagonal_blocked(
                    before_mask,
                    d,
                )) by {
                    if d.is_diagonal() {
                        assert(d.vertical_part().rank() < 4 && d.horizontal_part().rank() < 4);
                        assert(!d.vertical_part().is_diagonal());
                        assert(!d.horizontal_part().is_diagonal());
                    }
                }
                assert forall|o: Direction| !o.is_diagonal() implies (#[trigger] has_wall(
                    wall_mask,
                    o,
                ) == (o.rank() < k + 1 && v.scan_wall(storage@, i as int, o))) by {
                    if marked {
                        lemma_record_wall(before_mask, d, o);
                    }
                }
                if marked {
                    lemma_record_wall(before_mask, d, Direction::North);
                }
            }
            k += 1;
        }
        (best, wall_mask)
    }

    /// Moves the target to `target`, given in thousandths of a tile, and
    /// notes whether it has left the tile of the current wave.
    pub fn update_target(&mut self, target: Point)
        requires
            old(self).wf(),
        ensures
            final(self).wf(),
            final(self)@ == (FlowfieldView {
                target: target,
                target_changed: old(self)@.target_changed
                    || target.whole() != old(self)@.transient_target,
                ..old(self)@
            }),
            forall|storage: Seq<u8>|
                old(self)@.wave_holds(storage) ==> #[trigger] final(self)@.wave_holds(storage),
            old(self)@.exact_costs() ==> final(self)@.exact_costs(),
    {
        self.target = target;
        let tile: (i32, i32) = target.as_ivec2();
        if tile.0 != self.transient_target.0 || tile.1 != self.transient_target.1 {
            self.target_changed = true;
        }
        proof {
            assert forall|storage: Seq<u8>|
                old(self)@.wave_holds(storage) implies #[trigger] self@.wave_holds(storage) by {
                lemma_wave_ignores_target(old(self)@, self@, storage);
            }
            if old(self)@.exact_costs() {
                lemma_exact_ignores_target(old(self)@, self@);
            }
        }
    }
}

/// While `node` looks at its first `k` neighbours the grid keeps its size,
/// each of those neighbours becomes what `expanded_cell` says, and no other
/// tile changes.
pub proof fn lemma_expanded_grid(v: FlowfieldView, storage: Seq<u8>, node: Node, k: int)
    requires
        v.wf(),
        node.index < v.cells(),
        0 <= k <= 8,
    ensures
        v.expanded_grid(storage, node, k).len() == v.cost_grid.len(),
        forall|m: int|
            0 <= m < v.cost_grid.len() ==> #[trigger] v.expanded_grid(storage, node, k)[m] == (
            if direction_between(v.width, node.index as int, m) matches Some(d) && d.rank() < k {
                v.expanded_cell(storage, node, m)
            } else {
                v.cost_grid[m]
            }),
    decreases k,
{
    if k > 0 {
        lemma_expanded_grid(v, storage, node, k - 1);
        let d = Direction::at_rank(k - 1);
        lemma_neighbor(v.width, v.height, node.index as int, d);
        assert forall|m: int| 0 <= m < v.cost_grid.len() implies #[trigger] v.expanded_grid(
            storage,
            node,
            k,
        )[m] == (if direction_between(v.width, node.index as int, m) matches Some(e) && e.rank()
            < k {
            v.expanded_cell(storage, node, m)
        } else {
            v.cost_grid[m]
        }) by {
            lemma_direction_between(v.width, v.height, node.index as int, m);
        }
    }
}

/// Expanding `node` leaves on the frontier what was there and the nodes it
/// reaches, nothing else.
pub proof fn lemma_expanded_frontier(v: FlowfieldView, storage: Seq<u8>, node: Node, k: int)
    requires
        0 <= k <= 8,
    ensures
        forall|other: Node| #[trigger]
            v.expanded_frontier(storage, node, k).contains(other) ==> v.frontier.contains(other)
                || exists|d: Direction|
                v.reaches(storage, node, d) && other == #[trigger] v.reached_node(node, d),
    decreases k,
{
    broadcast use vstd::multiset::group_multiset_axioms;

    if k > 0 {
        lemma_expanded_frontier(v, storage, node, k - 1);
        let d = Direction::at_rank(k - 1);
        let before = v.expanded_frontier(storage, node, k - 1);
        assert forall|other: Node| #[trigger]
            v.expanded_frontier(storage, node, k).contains(other) implies v.frontier.contains(
            other,
        ) || exists|e: Direction|
            v.reaches(storage, node, e) && other == #[trigger] v.reached_node(node, e) by {
            if !before.contains(other) {
                assert(v.reaches(storage, node, d) && other == v.reached_node(node, d));
            }
        }
    }
}

/// Index of the neighbour of tile `index` in direction `d` on a grid of
/// `width` by `height` tiles, or `None` where the grid ends.
fn neighbor_index(width: usize, height: usize, index: usize, d: Direction) -> (n: Option<usize>)
    requires
        width * height <= usize::MAX,
        index < width * height,
    ensures
        n matches Some(i) ==> neighbor(width as int, height as int, index as int, d) == Some(
            i as int,
        ) && i < width * height && i != index,
        n is None ==> neighbor(width as int, height as int, index as int, d) is None,
{
    proof {
        lemma_coords(width as int, height as int, index as int);
        lemma_neighbor(width as int, height as int, index as int, d);
    }
    let col: usize = index % width;
    let row: usize = index / width;
    let (dx, dy) = d.offset();
    let next_col: usize = if dx < 0 {
        if col == 0 {
            return None;
        }
        col - 1
    } else if dx > 0 {
        if col + 1 >= width {
            return None;
        }
        col + 1
    } else {
        col
    };
    let next_row: usize = if dy < 0 {
        if row == 0 {
            return None;
        }
        row - 1
    } else if dy > 0 {
        if row + 1 >= height {
            return None;
        }
        row + 1
    } else {
        row
    };
    proof {
        lemma_tile_index(width as int, height as int, next_col as int, next_row as int);
        vstd::arithmetic::mul::lemma_mul_nonnegative(next_row as int, width as int);
    }
    Some(next_col + next_row * width)
}

/// Number of frontier nodes to expand in a frame that lasted `delta`, so
/// that a grid of `tile_count` tiles is covered once in `per_iteration`:
/// `tile_count * delta / per_iteration`, rounded up. Both times are in
/// nanoseconds. With no time allowed for a full pass the budget has no bound
/// but the largest number, unless the frame took no time.
pub open spec fn update_budget(tile_count: int, delta: int, per_iteration: int) -> int {
    let work = tile_count * delta;
    if work == 0 {
        0
    } else if per_iteration == 0 {
        usize::MAX as int
    } else {
        let steps = (work + per_iteration - 1) / per_iteration;
        if steps < usize::MAX {
            steps
        } else {
            usize::MAX as int
        }
    }
}

/// Number of frontier nodes to expand in a frame that lasted `delta_nanos`
/// nanoseconds, when one pass over the whole grid is to take
/// `nanos_per_iteration` nanoseconds.
pub fn iterations_per_update(tile_count: usize, delta_nanos: u64, nanos_per_iteration: u64) -> (n:
    usize)
    ensures
        n == update_budget(tile_count as int, delta_nanos as int, nanos_per_iteration as int),
{
    proof {
        assert(tile_count * delta_nanos <= 0xFFFF_FFFF_FFFF_FFFF * 0xFFFF_FFFF_FFFF_FFFF)
            by (nonlinear_arith)
            requires
                0 <= tile_count <= 0xFFFF_FFFF_FFFF_FFFF,
                0 <= delta_nanos <= 0xFFFF_FFFF_FFFF_FFFF,
        ;
    }
    let work: u128 = tile_count as u128 * delta_nanos as u128;
    if work == 0 {
        return 0;
    }
    if nanos_per_iteration == 0 {
        return usize::MAX;
    }
    let steps: u128 = (work + (nanos_per_iteration as u128 - 1)) / nanos_per_iteration as u128;
    if steps < usize::MAX as u128 {
        steps as usize
    } else {
        usize::MAX
    }
}

/// How far apart two tile coordinates are.
fn distance(a: i32, b: u32) -> (d: u64)
    ensures
        d == abs_diff(a as int, b as int),
{
    let a: i64 = a as i64;
    let b: i64 = b as i64;
    if a >= b {
        (a - b) as u64
    } else {
        (b - a) as u64
    }
}

/// Column and row of the tile with index `index` on a grid `width` tiles
/// wide.
pub fn get_tile_coords(index: usize, width: isize) -> (coords: (u32, u32))
    requires
        0 < width,
        index / (width as usize) <= u32::MAX,
        width <= u32::MAX,
    ensures
        coords.0 == col_of(width as int, index as int),
        coords.1 == row_of(width as int, index as int),
{
    let w: usize = width as usize;
    let x: usize = index % w;
    let y: usize = index / w;
    (x as u32, y as u32)
}

} // verus!
