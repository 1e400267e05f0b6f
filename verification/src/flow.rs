//! How the flow of a tile is derived from the cost grid: the cheapest open
//! neighbour gives the direction, and where the target is in plain sight the
//! direction is straightened to point at the target itself.

use crate::direction::Direction;
use crate::flowfield::{Flow, FlowfieldView, INFINITE_COST};
use crate::grid::{col_of, row_of};
use vstd::prelude::*;

verus! {

/// The flow of a tile for which none could be derived.
pub open spec fn default_flow() -> Flow {
    Flow::Compass(Direction::North)
}

impl FlowfieldView {
    /// The cost of tile `i` is what it would be on a grid without walls.
    pub open spec fn line_of_sight(self, i: int) -> bool {
        self.cost_grid[i].0 == self.minimum_cost(i)
    }

    /// The flow remembered for tile `i` is returned as it is: the tile is
    /// far from the target or out of its sight, and a flow is remembered.
    pub open spec fn keeps_memo(self, i: int, cost_threshold: u32) -> bool {
        (self.cost_grid[i].0 > cost_threshold || !self.line_of_sight(i)) && self.field[i] is Some
    }

    /// The neighbours of tile `i` are looked at again: nothing is remembered,
    /// the target has moved, or what is remembered points along a row, a
    /// column or a diagonal.
    pub open spec fn needs_scan(self, i: int) -> bool {
        self.field[i] is None || self.target_changed || self.field[i].unwrap().is_reference_angle()
    }

    /// The neighbour of tile `i` in direction `d`, unless the wall mask of
    /// tile `i` itself closes that direction or the grid ends there.
    pub open spec fn open_towards(self, storage: Seq<u8>, i: int, d: Direction) -> Option<int> {
        if storage[i] & d.mask() == d.mask() {
            None
        } else {
            self.neighbor(i, d)
        }
    }

    /// The neighbour of tile `i` in direction `d` can be looked at and has
    /// infinite cost.
    pub open spec fn scan_wall(self, storage: Seq<u8>, i: int, d: Direction) -> bool {
        match self.open_towards(storage, i, d) {
            Some(n) => self.cost_grid[n].0 == INFINITE_COST,
            None => false,
        }
    }

    /// A flow from tile `i` in the diagonal direction `d` would pass between
    /// two tiles of infinite cost that touch at a corner.
    pub open spec fn scan_blocked(self, storage: Seq<u8>, i: int, d: Direction) -> bool {
        d.is_diagonal() && self.scan_wall(storage, i, d.vertical_part()) && self.scan_wall(
            storage,
            i,
            d.horizontal_part(),
        )
    }

    /// The flow of tile `i` may point in direction `d`: the neighbour there
    /// can be looked at, has a finite cost and is not behind a corner.
    pub open spec fn candidate(self, storage: Seq<u8>, i: int, d: Direction) -> bool {
        match self.open_towards(storage, i, d) {
            Some(n) => self.cost_grid[n].0 != INFINITE_COST && !self.scan_blocked(storage, i, d),
            None => false,
        }
    }

    /// Cost of the neighbour of tile `i` in direction `d`.
    pub open spec fn cost_towards(self, i: int, d: Direction) -> int {
        self.cost_grid[self.neighbor(i, d).unwrap()].0 as int
    }

    /// The direction chosen among the first `k` directions: the first of
    /// those candidates that no other undercuts.
    pub open spec fn scan_best(self, storage: Seq<u8>, i: int, k: int) -> Option<Direction>
        decreases k,
    {
        if k <= 0 {
            None
        } else {
            let before = self.scan_best(storage, i, k - 1);
            let d = Direction::at_rank(k - 1);
            if self.candidate(storage, i, d) && (before is None || self.cost_towards(i, d)
                < self.cost_towards(i, before.unwrap())) {
                Some(d)
            } else {
                before
            }
        }
    }

    /// One of the first `k` directions holds a neighbour of infinite cost.
    pub open spec fn scan_walls(self, storage: Seq<u8>, i: int, k: int) -> bool
        decreases k,
    {
        k > 0 && (self.scan_walls(storage, i, k - 1) || self.scan_wall(
            storage,
            i,
            Direction::at_rank(k - 1),
        ))
    }

    /// What is remembered for tile `i` once its neighbours have been looked
    /// at, if they have to be: the compass direction of the cheapest
    /// candidate, or what was remembered before if there is none.
    pub open spec fn scanned_memo(self, storage: Seq<u8>, i: int) -> Option<Flow> {
        if self.needs_scan(i) {
            match self.scan_best(storage, i, 8) {
                Some(d) => Some(Flow::Compass(d)),
                None => self.field[i],
            }
        } else {
            self.field[i]
        }
    }

    /// The flow of tile `i` is straightened: smoothing is on, the look at the
    /// neighbours found no tile of infinite cost, the target is in plain
    /// sight, and either the flow found so far is oblique or the tile lies
    /// in the row or the column of the transient target.
    pub open spec fn smooths(self, storage: Seq<u8>, i: int, smooth: bool) -> bool {
        &&& smooth
        &&& !(self.needs_scan(i) && self.scan_walls(storage, i, 8))
        &&& self.line_of_sight(i)
        &&& (self.scanned_memo(storage, i) matches Some(flow) && flow.is_oblique()) || col_of(
            self.width,
            i,
        ) == self.transient_target.0 || row_of(self.width, i) == self.transient_target.1
    }

    /// The vector, in thousandths of a tile, from the centre of tile `i` to
    /// the target if the tile is nearer than the threshold, and to the corner
    /// of the transient target tile otherwise.
    pub open spec fn aim(self, i: int, cost_threshold: u32) -> (int, int) {
        let centre_x = col_of(self.width, i) * 1000 + 500;
        let centre_y = row_of(self.width, i) * 1000 + 500;
        if self.cost_grid[i].0 < cost_threshold {
            (self.target.x - centre_x, self.target.y - centre_y)
        } else {
            (
                self.transient_target.0 * 1000 - centre_x,
                self.transient_target.1 * 1000 - centre_y,
            )
        }
    }

    /// The straightened flow of tile `i`; the default flow where the vector
    /// to the target has no length.
    pub open spec fn smoothed(self, i: int, cost_threshold: u32) -> Flow {
        let (dx, dy) = self.aim(i, cost_threshold);
        if dx == 0 && dy == 0 {
            default_flow()
        } else {
            Flow::Toward { dx: dx as i64, dy: dy as i64 }
        }
    }

    /// What is remembered for tile `i` after its flow has been asked for.
    pub open spec fn flow_memo(
        self,
        storage: Seq<u8>,
        i: int,
        smooth: bool,
        cost_threshold: u32,
    ) -> Option<Flow> {
        if self.keeps_memo(i, cost_threshold) {
            self.field[i]
        } else if self.smooths(storage, i, smooth) {
            Some(self.smoothed(i, cost_threshold))
        } else {
            self.scanned_memo(storage, i)
        }
    }

    /// The field after the flow of tile `i` has been asked for: only what is
    /// remembered for tile `i` may have changed.
    pub open spec fn flow_derived(
        self,
        storage: Seq<u8>,
        i: int,
        smooth: bool,
        cost_threshold: u32,
    ) -> FlowfieldView {
        FlowfieldView {
            field: self.field.update(i, self.flow_memo(storage, i, smooth, cost_threshold)),
            ..self
        }
    }

    /// The field after the flows of the first `k` tiles have been asked for,
    /// one after the other.
    pub open spec fn flows_derived(
        self,
        storage: Seq<u8>,
        smooth: bool,
        cost_threshold: u32,
        k: int,
    ) -> FlowfieldView
        decreases k,
    {
        if k <= 0 {
            self
        } else {
            self.flows_derived(storage, smooth, cost_threshold, k - 1).flow_derived(
                storage,
                k - 1,
                smooth,
                cost_threshold,
            )
        }
    }

    /// No flow that is remembered points straight at the target: each is one
    /// of the eight compass directions.
    pub open spec fn compass_only(self) -> bool {
        forall|i: int|
            0 <= i < self.field.len() ==> (#[trigger] self.field[i] matches Some(flow)
                ==> flow is Compass)
    }

    /// The flow of tile `i`: what is remembered for it after the question,
    /// or the default flow if that is nothing.
    pub open spec fn flow_at(
        self,
        storage: Seq<u8>,
        i: int,
        smooth: bool,
        cost_threshold: u32,
    ) -> Flow {
        match self.flow_memo(storage, i, smooth, cost_threshold) {
            Some(flow) => flow,
            None => default_flow(),
        }
    }
}

/// The direction chosen among the first `k` is a candidate, no candidate
/// among them is cheaper, and of equally cheap ones it comes first. Where none
/// is chosen, none of them is a candidate.
pub proof fn lemma_scan_best_is_cheapest(v: FlowfieldView, storage: Seq<u8>, i: int, k: int)
    requires
        0 <= k <= 8,
    ensures
        match v.scan_best(storage, i, k) {
            Some(d) => {
                &&& d.rank() < k
                &&& v.candidate(storage, i, d)
                &&& forall|e: Direction|
                    e.rank() < k && #[trigger] v.candidate(storage, i, e) ==> v.cost_towards(i, d)
                        < v.cost_towards(i, e) || (v.cost_towards(i, d) == v.cost_towards(i, e)
                        && d.rank() <= e.rank())
            },
            None => forall|e: Direction| e.rank() < k ==> !#[trigger] v.candidate(storage, i, e),
        },
    decreases k,
{
    if k > 0 {
        lemma_scan_best_is_cheapest(v, storage, i, k - 1);
        let d = Direction::at_rank(k - 1);
        assert(d.rank() == k - 1);
        assert forall|e: Direction| e.rank() < k implies e.rank() < k - 1 || e == d by {}
    }
}

/// A step from a tile to the neighbour its flow picks never passes between
/// two tiles of infinite cost that touch at a corner.
pub proof fn lemma_scan_never_cuts_corner(v: FlowfieldView, storage: Seq<u8>, i: int)
    ensures
        v.scan_best(storage, i, 8) matches Some(d) ==> !v.scan_blocked(storage, i, d),
{
    lemma_scan_best_is_cheapest(v, storage, i, 8);
}

} // verus!
