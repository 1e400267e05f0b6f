use train_game::direction::{
    diagonal_is_blocked, Direction, E_BITMASK, N_BITMASK, S_BITMASK, WALL_BITMASK, W_BITMASK,
};
use train_game::flowfield::{
    get_tile_coords, iterations_per_update, Flow, Flowfield, INFINITE_COST,
};
use train_game::frontier::{Frontier, Node};
use train_game::point::Point;
use train_game::tilemap::TileStorage;

const ALL: [Direction; 8] = [
    Direction::North,
    Direction::East,
    Direction::South,
    Direction::West,
    Direction::NorthEast,
    Direction::SouthEast,
    Direction::SouthWest,
    Direction::NorthWest,
];

fn offset(d: Direction) -> (i64, i64) {
    let (dx, dy) = d.offset();
    (dx as i64, dy as i64)
}

/// Centre of tile (col, row) in thousandths of a tile.
fn centre(col: i32, row: i32) -> Point {
    Point::new(col * 1000 + 500, row * 1000 + 500)
}

fn open_storage(width: usize, height: usize) -> TileStorage {
    TileStorage(vec![0; width * height])
}

fn storage_with_walls(width: usize, height: usize, walls: &[(usize, usize)]) -> TileStorage {
    let mut tiles = vec![0u8; width * height];
    for &(col, row) in walls {
        tiles[col + row * width] = WALL_BITMASK;
    }
    TileStorage(tiles)
}

/// Runs a complete wave from the tile that holds `target`.
fn converged(width: usize, height: usize, storage: &TileStorage, target: Point) -> Flowfield {
    let mut field = Flowfield::new(width, height);
    field.update_target(target);
    field.update_cost(storage, usize::MAX);
    assert!(!field.is_propagating());
    field
}

fn cost(field: &Flowfield, width: usize, col: usize, row: usize) -> u32 {
    field.get_cost_at_index(col + row * width).unwrap().0
}

fn wall(storage: &TileStorage, width: usize, height: usize, col: i64, row: i64) -> bool {
    col >= 0
        && row >= 0
        && (col as usize) < width
        && (row as usize) < height
        && storage.0[col as usize + row as usize * width] != 0
}

/// Cheapest costs by exhaustive relaxation, with the same steps and the same
/// corner rule as the wave.
fn brute_force(width: usize, height: usize, storage: &TileStorage, seed: usize) -> Vec<u32> {
    let mut best = vec![INFINITE_COST; width * height];
    best[seed] = 0;
    let mut changed = true;
    while changed {
        changed = false;
        for from in 0..width * height {
            if best[from] == INFINITE_COST || (from != seed && storage.0[from] != 0) {
                continue;
            }
            let col = (from % width) as i64;
            let row = (from / width) as i64;
            for d in ALL {
                let (dx, dy) = offset(d);
                let (c, r) = (col + dx, row + dy);
                if c < 0 || r < 0 || c as usize >= width || r as usize >= height {
                    continue;
                }
                let to = c as usize + r as usize * width;
                if storage.0[to] != 0 {
                    continue;
                }
                if dx != 0
                    && dy != 0
                    && wall(storage, width, height, col + dx, row)
                    && wall(storage, width, height, col, row + dy)
                {
                    continue;
                }
                let through = best[from] + d.cost();
                if through < best[to] {
                    best[to] = through;
                    changed = true;
                }
            }
        }
    }
    best
}

#[test]
fn octile_cost_on_an_empty_grid() {
    let storage = open_storage(5, 5);
    let field = converged(5, 5, &storage, centre(2, 2));
    assert_eq!(cost(&field, 5, 4, 4), 28);
    assert_eq!(cost(&field, 5, 2, 2), 0);
    assert_eq!(cost(&field, 5, 2, 3), 10);
    assert_eq!(cost(&field, 5, 3, 3), 14);
    assert_eq!(cost(&field, 5, 0, 1), 24);
    assert_eq!(cost(&field, 5, 4, 2), 20);
    for index in 0..25 {
        assert_eq!(
            field.get_cost_at_index(index).unwrap().0,
            field.get_minimum_cost_at_index(index)
        );
        assert!(field.get_cost_at_index(index).unwrap().1);
    }
}

#[test]
fn costs_agree_with_exhaustive_search_around_a_wall_column() {
    let walls = [(2, 0), (2, 1), (2, 2), (2, 3)];
    let storage = storage_with_walls(5, 5, &walls);
    let field = converged(5, 5, &storage, centre(0, 0));
    let expected = brute_force(5, 5, &storage, 0);
    for index in 0..25 {
        let (got, visited) = field.get_cost_at_index(index).unwrap();
        assert_eq!(got, expected[index], "tile {}", index);
        assert!(visited);
    }
    // Round the end of the column: four diagonal and four straight steps.
    assert_eq!(cost(&field, 5, 4, 0), 4 * 14 + 4 * 10);
    assert_eq!(cost(&field, 5, 2, 1), INFINITE_COST);
}

#[test]
fn every_cost_is_its_predecessors_cost_plus_the_step() {
    let walls = [(1, 1), (3, 1), (1, 3), (3, 3), (2, 3)];
    let storage = storage_with_walls(5, 5, &walls);
    let field = converged(5, 5, &storage, centre(2, 2));
    let seed = 2 + 2 * 5;
    for index in 0..25usize {
        let (here, visited) = field.get_cost_at_index(index).unwrap();
        if !visited || here == INFINITE_COST || index == seed {
            continue;
        }
        let col = (index % 5) as i64;
        let row = (index / 5) as i64;
        let accounted = ALL.iter().any(|&d| {
            let (dx, dy) = offset(d);
            let (c, r) = (col - dx, row - dy);
            if c < 0 || r < 0 || c >= 5 || r >= 5 {
                return false;
            }
            let (before, seen) = field.get_cost_at_index((c + r * 5) as usize).unwrap();
            seen && before != INFINITE_COST && before < here && before + d.cost() == here
        });
        assert!(accounted, "tile {} has no predecessor", index);
    }
}

#[test]
fn no_cost_through_the_corner_of_two_walls() {
    // Walls north and east of the target; the tile to the north-east lies
    // across the corner and is reached only the long way round.
    let walls = [(1, 2), (2, 1)];
    let storage = storage_with_walls(4, 4, &walls);
    let field = converged(4, 4, &storage, centre(1, 1));
    assert_eq!(cost(&field, 4, 1, 2), INFINITE_COST);
    assert_eq!(cost(&field, 4, 2, 1), INFINITE_COST);
    assert_ne!(cost(&field, 4, 2, 2), 14);
    assert_eq!(cost(&field, 4, 2, 2), 3 * 14);
    let expected = brute_force(4, 4, &storage, 1 + 4);
    for index in 0..16 {
        assert_eq!(field.get_cost_at_index(index).unwrap().0, expected[index]);
    }
}

#[test]
fn a_single_wall_does_not_close_the_diagonal() {
    let storage = storage_with_walls(3, 3, &[(1, 2)]);
    let field = converged(3, 3, &storage, centre(1, 1));
    assert_eq!(cost(&field, 3, 2, 2), 14);
    assert_eq!(cost(&field, 3, 0, 2), 14);
}

#[test]
fn diagonal_is_blocked_for_each_direction() {
    let n = N_BITMASK;
    let e = E_BITMASK;
    let s = S_BITMASK;
    let w = W_BITMASK;
    assert!(diagonal_is_blocked(n | e, Direction::NorthEast));
    assert!(diagonal_is_blocked(s | e, Direction::SouthEast));
    assert!(diagonal_is_blocked(s | w, Direction::SouthWest));
    assert!(diagonal_is_blocked(n | w, Direction::NorthWest));
    assert!(!diagonal_is_blocked(n, Direction::NorthEast));
    assert!(!diagonal_is_blocked(e, Direction::NorthEast));
    assert!(!diagonal_is_blocked(s | w, Direction::NorthEast));
    assert!(!diagonal_is_blocked(n | w, Direction::SouthEast));
    assert!(!diagonal_is_blocked(n | e, Direction::SouthWest));
    assert!(!diagonal_is_blocked(s | e, Direction::NorthWest));
    for d in [Direction::North, Direction::East, Direction::South, Direction::West] {
        assert!(!diagonal_is_blocked(WALL_BITMASK, d));
    }
    for d in ALL {
        assert!(!diagonal_is_blocked(0, d));
        // The shifted mask covers the diagonal exactly when the rule blocks it.
        for mask in 0..=255u8 {
            if d.diagonal() {
                assert_eq!(
                    diagonal_is_blocked(mask, d),
                    (mask << 4) & d.bitmask() == d.bitmask()
                );
            }
        }
    }
}

#[test]
fn directions_have_their_offsets_costs_and_masks() {
    assert_eq!(Direction::North.offset(), (0, 1));
    assert_eq!(Direction::East.offset(), (1, 0));
    assert_eq!(Direction::South.offset(), (0, -1));
    assert_eq!(Direction::West.offset(), (-1, 0));
    assert_eq!(Direction::NorthEast.offset(), (1, 1));
    assert_eq!(Direction::SouthEast.offset(), (1, -1));
    assert_eq!(Direction::SouthWest.offset(), (-1, -1));
    assert_eq!(Direction::NorthWest.offset(), (-1, 1));
    assert_eq!(Direction::all(), ALL);
    for d in ALL {
        assert_eq!(d.cost(), if d.diagonal() { 14 } else { 10 });
        assert_eq!(d.opposite().opposite(), d);
        let (dx, dy) = d.offset();
        assert_eq!(d.opposite().offset(), (-dx, -dy));
    }
    assert_eq!(Direction::NorthEast.bitmask(), 0b1100_0000);
    assert_eq!(Direction::West.bitmask(), 0b0000_0001);
}

#[test]
fn the_wave_advances_by_the_budget() {
    let storage = open_storage(5, 5);
    let mut field = Flowfield::new(5, 5);
    assert!(field.target_changed());
    field.update_target(centre(2, 2));
    field.update_cost(&storage, 1);
    // One step: the target tile has been expanded, its neighbours wait.
    assert!(field.is_propagating());
    assert!(field.target_changed());
    assert_eq!(field.transient_target(), (2, 2));
    assert_eq!(cost(&field, 5, 2, 2), 0);
    assert_eq!(cost(&field, 5, 3, 2), 10);
    assert_eq!(cost(&field, 5, 3, 3), 14);
    assert_eq!(field.get_cost_at_index(4 + 4 * 5), Some((INFINITE_COST, false)));
    // The target moves while the wave runs: the wave is finished first.
    field.update_target(centre(0, 0));
    field.update_cost(&storage, 1000);
    assert!(!field.is_propagating());
    assert!(!field.target_changed());
    assert_eq!(field.transient_target(), (2, 2));
    assert_eq!(cost(&field, 5, 4, 4), 28);
    // Now the move is noticed and a new wave starts from the new tile.
    field.update_target(centre(0, 0));
    assert!(field.target_changed());
    field.update_cost(&storage, 0);
    assert!(field.is_propagating());
    assert_eq!(field.transient_target(), (0, 0));
    assert_eq!(field.get_cost_at_index(0), Some((0, true)));
    // Costs of the old wave stay until the new one reaches the tile.
    assert_eq!(field.get_cost_at_index(4 + 4 * 5), Some((28, false)));
    field.update_cost(&storage, 1000);
    assert_eq!(cost(&field, 5, 4, 4), 4 * 14);
    assert!(!field.target_changed());
}

#[test]
fn an_idle_field_stays_as_it_is() {
    let storage = open_storage(3, 3);
    let mut field = converged(3, 3, &storage, centre(1, 1));
    field.update_target(Point::new(1900, 1100));
    assert!(!field.target_changed());
    field.update_cost(&storage, 10);
    assert!(!field.is_propagating());
    assert_eq!(cost(&field, 3, 0, 0), 14);
    // A target off the grid starts no wave.
    field.update_target(Point::new(-500, 1000));
    assert!(field.target_changed());
    field.update_cost(&storage, 10);
    assert_eq!(field.transient_target(), (1, 1));
    assert_eq!(cost(&field, 3, 0, 0), 14);
    // A grid without tiles has nothing to do.
    let mut empty = Flowfield::new(0, 0);
    empty.update_cost(&TileStorage(vec![]), 10);
    assert!(!empty.is_propagating());
    assert_eq!(empty.get_cost_at_index(0), None);
}

#[test]
fn tiles_are_found_by_their_coordinates() {
    let field = Flowfield::new(4, 3);
    assert_eq!(field.width(), 4);
    assert_eq!(field.height(), 3);
    assert_eq!(field.get_index_at_tile(Point::new(0, 0)), Some(0));
    assert_eq!(field.get_index_at_tile(Point::new(3999, 2999)), Some(11));
    assert_eq!(field.get_index_at_tile(Point::new(1500, 2000)), Some(9));
    assert_eq!(field.get_index_at_tile(Point::new(4000, 0)), None);
    assert_eq!(field.get_index_at_tile(Point::new(0, 3000)), None);
    assert_eq!(field.get_index_at_tile(Point::new(-1, 0)), None);
    assert_eq!(field.get_index_at_tile(Point::new(0, -1)), None);
    assert_eq!(field.get_index_at_tile_unchecked(Point::new(2700, 1200)), 6);
    assert_eq!(get_tile_coords(6, 4), (2, 1));
    assert_eq!(get_tile_coords(11, 4), (3, 2));
    assert_eq!(get_tile_coords(0, 1), (0, 0));
}

#[test]
fn minimum_cost_is_the_octile_distance() {
    let storage = open_storage(6, 4);
    let field = converged(6, 4, &storage, centre(1, 1));
    // (5, 3) is four columns and two rows away: two diagonal and two straight steps.
    assert_eq!(field.get_minimum_cost_at_index(5 + 3 * 6), 2 * 14 + 2 * 10);
    assert_eq!(field.get_minimum_cost_at_index(1 + 6), 0);
    assert_eq!(field.get_minimum_cost_at_index(0), 14);
    assert_eq!(field.get_minimum_cost_at_index(1), 10);
}

#[test]
fn the_budget_is_rounded_up() {
    // 10 000 tiles, 60 frames a second, a full pass every 0.4 s.
    assert_eq!(iterations_per_update(10_000, 16_666_667, 400_000_000), 417);
    assert_eq!(iterations_per_update(100, 100, 1000), 10);
    assert_eq!(iterations_per_update(100, 101, 1000), 11);
    assert_eq!(iterations_per_update(1, 1, 1_000_000_000), 1);
    assert_eq!(iterations_per_update(0, 16_000_000, 400_000_000), 0);
    assert_eq!(iterations_per_update(100, 0, 400_000_000), 0);
    assert_eq!(iterations_per_update(100, 16_000_000, 0), usize::MAX);
    assert_eq!(iterations_per_update(0, 16_000_000, 0), 0);
    assert_eq!(iterations_per_update(usize::MAX, u64::MAX, 1), usize::MAX);
}

#[test]
fn the_frontier_hands_out_the_cheapest_first() {
    let mut frontier = Frontier::new();
    assert!(frontier.is_empty());
    assert_eq!(frontier.pop(), None);
    for (index, cost) in [(0, 30), (1, 10), (2, 24), (3, 10), (4, 0), (5, 14), (6, 28)] {
        frontier.push(Node::new(index, cost));
    }
    assert_eq!(frontier.len(), 7);
    let mut costs = vec![];
    let mut indices = vec![];
    while let Some(node) = frontier.pop() {
        costs.push(node.cost);
        indices.push(node.index);
    }
    assert_eq!(costs, vec![0, 10, 10, 14, 24, 28, 30]);
    indices.sort();
    assert_eq!(indices, vec![0, 1, 2, 3, 4, 5, 6]);
    assert!(frontier.is_empty());
    assert_eq!(Node::new(7, 9), Node { index: 7, cost: 9 });
}

#[test]
fn the_flow_points_down_the_costs() {
    let storage = open_storage(5, 5);
    let mut field = converged(5, 5, &storage, centre(2, 2));
    let flow = field.get_flow_at_tile(centre(4, 2), &storage, false, 150);
    assert_eq!(flow, Flow::Compass(Direction::West));
    assert_eq!(field.get_memo_at_index(4 + 2 * 5), Some(Flow::Compass(Direction::West)));
    assert_eq!(
        field.get_flow_at_tile(centre(4, 4), &storage, false, 150),
        Flow::Compass(Direction::SouthWest)
    );
    assert_eq!(
        field.get_flow_at_tile(centre(2, 0), &storage, false, 150),
        Flow::Compass(Direction::North)
    );
    // Two columns and one row away: the cheapest neighbour lies south-west.
    assert_eq!(
        field.get_flow_at_tile(centre(4, 3), &storage, false, 150),
        Flow::Compass(Direction::SouthWest)
    );
}

#[test]
fn the_flow_is_a_compass_direction_without_smoothing() {
    let walls = [(2, 1), (2, 2), (2, 3)];
    let storage = storage_with_walls(5, 5, &walls);
    let mut field = converged(5, 5, &storage, centre(0, 2));
    for row in 0..5 {
        for col in 0..5 {
            let flow = field.get_flow_at_tile(centre(col, row), &storage, false, 150);
            assert!(matches!(flow, Flow::Compass(_)), "tile ({}, {})", col, row);
        }
    }
}

#[test]
fn the_flow_round_a_wall_never_cuts_its_corner() {
    // The corner at (1, 1) is enclosed north and east by tiles that cannot
    // be entered; the flow may not point north-east between them.
    let walls = [(1, 2), (2, 1)];
    let storage = storage_with_walls(4, 4, &walls);
    let mut field = converged(4, 4, &storage, centre(2, 2));
    let flow = field.get_flow_at_tile(centre(1, 1), &storage, false, 150);
    assert_ne!(flow, Flow::Compass(Direction::NorthEast));
    assert_eq!(flow, Flow::Compass(Direction::SouthEast));
}

#[test]
fn smoothing_points_straight_at_the_target() {
    let storage = open_storage(7, 7);
    let mut field = Flowfield::new(7, 7);
    let target = Point::new(3250, 3750);
    field.update_target(target);
    field.update_cost(&storage, usize::MAX);
    // (6, 5) is three columns and two rows away: cost 48, in plain sight,
    // and the discrete flow south-west is oblique.
    let flow = field.get_flow_at_tile(centre(6, 5), &storage, true, 150);
    assert_eq!(flow, Flow::Toward { dx: 3250 - 6500, dy: 3750 - 5500 });
    // In the row of the target the flow is straightened too.
    let flow = field.get_flow_at_tile(centre(0, 3), &storage, true, 150);
    assert_eq!(flow, Flow::Toward { dx: 3250 - 500, dy: 3750 - 3500 });
    // Beyond the threshold the flow aims at the transient target tile.
    let flow = field.get_flow_at_tile(centre(6, 6), &storage, true, 40);
    assert_eq!(flow, Flow::Toward { dx: 3000 - 6500, dy: 3000 - 6500 });
    // What was smoothed is remembered and given back with smoothing off.
    let memo = field.get_flow_at_tile(centre(6, 5), &storage, false, 150);
    assert_eq!(memo, Flow::Toward { dx: 3250 - 6500, dy: 3750 - 5500 });
}

#[test]
fn a_target_on_the_centre_of_its_tile_gives_the_default_flow() {
    let storage = open_storage(3, 3);
    let mut field = converged(3, 3, &storage, centre(1, 1));
    let flow = field.get_flow_at_tile(centre(1, 1), &storage, true, 150);
    assert_eq!(flow, Flow::Compass(Direction::North));
}

#[test]
fn off_the_grid_the_flow_is_the_default() {
    let storage = open_storage(3, 3);
    let mut field = converged(3, 3, &storage, centre(1, 1));
    assert_eq!(
        field.get_flow_at_tile(Point::new(3000, 0), &storage, true, 150),
        Flow::Compass(Direction::North)
    );
    assert_eq!(
        field.get_flow_at_tile(Point::new(-1, 0), &storage, true, 150),
        Flow::Compass(Direction::North)
    );
}

#[test]
fn a_wall_next_to_the_tile_turns_smoothing_off() {
    let storage = storage_with_walls(5, 5, &[(4, 3)]);
    let mut field = converged(5, 5, &storage, centre(2, 2));
    // (4, 4) is in plain sight of the target but has a wall to its south.
    let flow = field.get_flow_at_tile(centre(4, 4), &storage, true, 150);
    assert_eq!(flow, Flow::Compass(Direction::SouthWest));
}

#[test]
fn the_wall_mask_of_the_tile_closes_directions() {
    let mut storage = open_storage(3, 3);
    // The tile in the middle of the top row is closed to the south.
    storage.0[1 + 2 * 3] = S_BITMASK;
    let mut field = Flowfield::new(3, 3);
    field.update_target(centre(1, 0));
    field.update_cost(&storage, usize::MAX);
    // For the wave that tile is a wall.
    assert_eq!(cost(&field, 3, 1, 2), INFINITE_COST);
    // Asked for its flow, it does not look south: south-east and south-west
    // cost the same, and south-east comes first.
    let flow = field.get_flow_at_tile(centre(1, 2), &storage, false, 150);
    assert_eq!(flow, Flow::Compass(Direction::SouthEast));
}

#[test]
fn a_wave_that_has_run_out_has_reached_every_tile_it_can() {
    // A ring of walls round the middle tile of a 5 by 5 grid.
    let mut walls = vec![];
    for row in 1..4 {
        for col in 1..4 {
            if (col, row) != (2, 2) {
                walls.push((col, row));
            }
        }
    }
    let storage = storage_with_walls(5, 5, &walls);
    let field = converged(5, 5, &storage, centre(0, 0));
    let expected = brute_force(5, 5, &storage, 0);
    for row in 0..5 {
        for col in 0..5 {
            let index = col + row * 5;
            let cell = field.get_cost_at_index(index).unwrap();
            if (col, row) == (2, 2) {
                // Shut in: the wave never comes here.
                assert_eq!(cell, (INFINITE_COST, false));
            } else if walls.contains(&(col, row)) {
                assert_eq!(cell, (INFINITE_COST, true));
            } else {
                assert_eq!(cell, (expected[index], true));
                assert_ne!(cell.0, INFINITE_COST);
            }
        }
    }
}

#[test]
fn a_wave_from_a_wall_tile_spreads_all_the_same() {
    let storage = storage_with_walls(3, 3, &[(1, 1)]);
    let mut field = Flowfield::new(3, 3);
    field.update_target(centre(1, 1));
    field.update_cost(&storage, 1);
    assert_eq!(field.get_cost_at_index(4), Some((0, true)));
    assert_eq!(cost(&field, 3, 0, 0), 14);
    field.update_cost(&storage, 1000);
    // The neighbours have marked the tile as the wall it is.
    assert_eq!(field.get_cost_at_index(4), Some((INFINITE_COST, true)));
    assert_eq!(cost(&field, 3, 2, 1), 10);
    assert_eq!(cost(&field, 3, 2, 2), 14);
    assert!(!field.is_propagating());
}

#[test]
fn flows_are_derived_for_the_whole_grid_at_once() {
    let storage = storage_with_walls(4, 3, &[(1, 1)]);
    let mut field = converged(4, 3, &storage, centre(3, 1));
    for index in 0..12 {
        assert_eq!(field.get_memo_at_index(index), None);
    }
    field.update_flowfield(&storage, false, 150);
    let mut one_by_one = converged(4, 3, &storage, centre(3, 1));
    for index in 0..12 {
        let flow = one_by_one.get_flow_at_index(index, &storage, false, 150);
        assert!(matches!(flow, Flow::Compass(_)));
        if index == 5 {
            // The wall closes every way out of its own tile: nothing is
            // remembered, and the answer is the default flow.
            assert_eq!(flow, Flow::Compass(Direction::North));
            assert_eq!(field.get_memo_at_index(index), None);
        } else {
            assert_eq!(field.get_memo_at_index(index), Some(flow), "tile {}", index);
        }
    }
    assert_eq!(field.get_memo_at_index(2), Some(Flow::Compass(Direction::NorthEast)));
    assert_eq!(field.get_memo_at_index(0), Some(Flow::Compass(Direction::East)));
    // West of the wall the way leads round it.
    assert_eq!(field.get_memo_at_index(4), Some(Flow::Compass(Direction::NorthEast)));
    // Off the grid nothing is derived.
    assert_eq!(
        field.get_flow_at_index(12, &storage, true, 150),
        Flow::Compass(Direction::North)
    );
    assert_eq!(field.get_memo_at_index(12), None);
}

#[test]
fn a_remembered_flow_far_from_the_target_is_taken_as_it_is() {
    let storage = open_storage(8, 1);
    let mut field = converged(8, 1, &storage, centre(7, 0));
    // Tile 0 costs 70; with a threshold of 50 nothing remembered is replaced.
    assert_eq!(
        field.get_flow_at_index(0, &storage, false, 50),
        Flow::Compass(Direction::East)
    );
    // The target moves to the west end; the new wave has not run yet.
    field.update_target(centre(0, 0));
    assert!(field.target_changed());
    assert_eq!(
        field.get_flow_at_index(0, &storage, true, 50),
        Flow::Compass(Direction::East)
    );
    // With a threshold above the cost the flow is derived anew and, in the
    // row of the old target, straightened towards the new one, which lies
    // a quarter of a tile east of the centre of this tile.
    field.update_target(Point::new(750, 500));
    assert_eq!(
        field.get_flow_at_index(0, &storage, true, 150),
        Flow::Toward { dx: 250, dy: 0 }
    );
    // What points along a row is derived anew every time.
    assert_eq!(
        field.get_flow_at_index(0, &storage, false, 150),
        Flow::Compass(Direction::East)
    );
}

#[test]
fn no_cost_undercuts_the_octile_distance() {
    let walls = [(2, 0), (2, 1), (2, 2), (2, 3), (4, 4), (5, 2)];
    let storage = storage_with_walls(7, 6, &walls);
    let field = converged(7, 6, &storage, centre(0, 1));
    let mut detours = 0;
    for index in 0..42 {
        let (cost, visited) = field.get_cost_at_index(index).unwrap();
        assert!(visited);
        if cost != INFINITE_COST {
            let least = field.get_minimum_cost_at_index(index);
            assert!(least <= cost, "tile {}", index);
            if least < cost {
                detours += 1;
            }
        }
    }
    // Behind the wall the way is longer than in plain sight.
    assert!(detours > 0);
    assert_eq!(field.get_minimum_cost_at_index(3 + 7), 30);
    // Up past the end of the wall, over it and down again.
    assert_eq!(field.get_cost_at_index(3 + 7), Some((14 + 10 + 14 + 14 + 10 + 10, true)));
}

#[test]
fn the_first_visit_fixes_the_cost_of_a_tile() {
    // Two walls in the second column; the target sits in the far corner.
    // The wave comes to (0, 2) first over the top of the walls, from a tile
    // of cost 42, and gives it 56. The way under the walls, along the bottom
    // row and up the first column, would cost 54, but the tile it comes from
    // has cost 44 and is expanded later: the tile keeps what it was given.
    let storage = storage_with_walls(5, 4, &[(1, 1), (1, 2)]);
    let field = converged(5, 4, &storage, centre(4, 0));
    assert_eq!(cost(&field, 5, 1, 3), 42);
    assert_eq!(cost(&field, 5, 0, 1), 44);
    assert_eq!(cost(&field, 5, 0, 2), 56);
    let cheapest = brute_force(5, 4, &storage, 4);
    assert_eq!(cheapest[0 + 2 * 5], 54);
    // Nowhere else on this grid is there a cheaper way than the wave found.
    for index in 0..20 {
        if index != 10 {
            assert_eq!(field.get_cost_at_index(index).unwrap().0, cheapest[index]);
        }
    }
}
