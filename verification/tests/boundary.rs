use train_game::boundary::{SegmentRegistry, TraceError};
use train_game::direction::{
    NE_SUBTILE_BITMASK, N_SUBTILE_BITMASK, SW_SUBTILE_BITMASK, WALL_BITMASK, W_SUBTILE_BITMASK,
};
use train_game::outline::{bevel, MAX_BEVEL};
use train_game::point::Point;
use train_game::segment::Segment;
use train_game::tilemap::{
    load_tilemap, polygon_segments, rect_segments, subtile_bitmask, wall_shape_of_tile,
    CollisionShape, Tile, Tilemap, WallShape,
};

fn at(x: i32, y: i32) -> Point {
    Point::new(x * 1000, y * 1000)
}

fn seg(ax: i32, ay: i32, bx: i32, by: i32) -> Segment {
    Segment::new(at(ax, ay), at(bx, by))
}

fn coordinates(points: &[Point]) -> Vec<(i32, i32)> {
    points.iter().map(|p| (p.x, p.y)).collect()
}

fn sorted(points: &[Point]) -> Vec<(i32, i32)> {
    let mut list = coordinates(points);
    list.sort();
    list
}

fn ends(edges: &[Segment]) -> Vec<((i32, i32), (i32, i32))> {
    edges.iter().map(|s| ((s.a.x, s.a.y), (s.b.x, s.b.y))).collect()
}

/// The corners in the order of the loop, turned so that the smallest comes first.
fn canonical(points: &[Point]) -> Vec<(i32, i32)> {
    let list = coordinates(points);
    let first = (0..list.len()).min_by_key(|&i| list[i]).unwrap();
    (0..list.len()).map(|i| list[(first + i) % list.len()]).collect()
}

fn square(registry: &mut SegmentRegistry, x: i32, y: i32) {
    for edge in rect_segments(Point::new(x * 1000 + 8000, y * 1000 + 8000), 16_000, 16_000) {
        registry.insert(edge);
    }
}

fn open_tile() -> Tile {
    Tile { shape: WallShape::Open, collision: None }
}

fn wall_tile() -> Tile {
    Tile {
        shape: WallShape::Full,
        collision: Some(CollisionShape::Rect { width: 16_000, height: 16_000 }),
    }
}

fn map(width: usize, height: usize) -> Tilemap {
    Tilemap { width, height, tile_width: 16, tile_height: 16 }
}

#[test]
fn a_rectangle_has_four_edges_counter_clockwise() {
    let edges = rect_segments(at(8, 8), 16_000, 8_000);
    assert_eq!(
        ends(&edges),
        vec![
            ((0, 12_000), (0, 4_000)),
            ((0, 4_000), (16_000, 4_000)),
            ((16_000, 4_000), (16_000, 12_000)),
            ((16_000, 12_000), (0, 12_000)),
        ]
    );
}

#[test]
fn a_polygon_is_placed_in_the_world_and_turned_counter_clockwise() {
    // The south-western triangle of a 16 by 16 tile, as the level editor
    // gives it: y grows downwards from the top left corner of the tile.
    let points = vec![
        Point::new(0, 0),
        Point::new(16_000, 16_000),
        Point::new(0, 16_000),
    ];
    let edges = polygon_segments(at(8, 8), &points, 0, 0, 16, 16);
    assert_eq!(
        ends(&edges),
        vec![
            ((0, 0), (16_000, 0)),
            ((16_000, 0), (0, 16_000)),
            ((0, 16_000), (0, 0)),
        ]
    );
    // Given the other way round, the corners are reversed.
    let reversed = vec![
        Point::new(0, 16_000),
        Point::new(16_000, 16_000),
        Point::new(0, 0),
    ];
    let edges = polygon_segments(at(8, 8), &reversed, 0, 0, 16, 16);
    assert_eq!(
        ends(&edges),
        vec![
            ((0, 0), (16_000, 0)),
            ((16_000, 0), (0, 16_000)),
            ((0, 16_000), (0, 0)),
        ]
    );
    // The place of the shape inside the tile is taken off.
    let moved = polygon_segments(at(8, 8), &points, 1_000, 2_000, 16, 16);
    assert_eq!(moved[0].a.x, -1_000);
    assert_eq!(moved[0].a.y, -2_000);
    assert!(polygon_segments(at(8, 8), &vec![], 0, 0, 16, 16).is_empty());
    let single = polygon_segments(at(8, 8), &vec![Point::new(8_000, 8_000)], 0, 0, 16, 16);
    assert_eq!(ends(&single), vec![((8_000, 8_000), (8_000, 8_000))]);
}

#[test]
fn a_single_wall_tile_gives_one_loop_of_four_corners() {
    let mut registry = SegmentRegistry::new();
    assert!(registry.is_empty());
    assert_eq!(registry.next_start(), None);
    square(&mut registry, 16, 16);
    assert!(!registry.is_empty());
    let loops = registry.trace().unwrap();
    assert!(registry.is_empty());
    assert_eq!(loops.len(), 1);
    assert_eq!(loops[0].len(), 4);
    assert_eq!(
        canonical(&loops[0]),
        vec![(16_000, 16_000), (32_000, 16_000), (32_000, 32_000), (16_000, 32_000)]
    );
}

#[test]
fn an_edge_entered_twice_cancels() {
    let mut registry = SegmentRegistry::new();
    registry.insert(seg(0, 0, 1, 0));
    assert_eq!(registry.next_start(), Some((0, 0)));
    registry.insert(seg(1, 0, 0, 0));
    assert!(registry.is_empty());
    // In the same direction too.
    registry.insert(seg(0, 0, 1, 0));
    registry.insert(seg(0, 0, 1, 0));
    assert!(registry.is_empty());
    // And when the ends only nearly coincide.
    registry.insert(seg(0, 0, 1, 0));
    registry.insert(Segment::new(Point::new(1004, 3), Point::new(-2, 7)));
    assert!(registry.is_empty());
    // A third entry waits again.
    registry.insert(seg(0, 0, 1, 0));
    registry.insert(seg(1, 0, 0, 0));
    registry.insert(seg(1, 0, 0, 0));
    assert_eq!(registry.next_start(), Some((100, 0)));
}

#[test]
fn neighbouring_wall_tiles_merge_into_one_outline() {
    let mut registry = SegmentRegistry::new();
    square(&mut registry, 0, 0);
    square(&mut registry, 16, 0);
    square(&mut registry, 32, 0);
    let loops = registry.trace().unwrap();
    assert_eq!(loops.len(), 1);
    // The corners between the tiles lie on straight lines and are dropped.
    assert_eq!(
        canonical(&loops[0]),
        vec![(0, 0), (48_000, 0), (48_000, 16_000), (0, 16_000)]
    );
}

#[test]
fn an_l_shaped_wall_keeps_its_concave_corner() {
    let mut registry = SegmentRegistry::new();
    square(&mut registry, 0, 0);
    square(&mut registry, 16, 0);
    square(&mut registry, 0, 16);
    let loops = registry.trace().unwrap();
    assert_eq!(loops.len(), 1);
    assert_eq!(
        canonical(&loops[0]),
        vec![
            (0, 0),
            (32_000, 0),
            (32_000, 16_000),
            (16_000, 16_000),
            (16_000, 32_000),
            (0, 32_000),
        ]
    );
}

#[test]
fn walls_apart_give_a_loop_each() {
    let mut registry = SegmentRegistry::new();
    square(&mut registry, 0, 0);
    square(&mut registry, 48, 0);
    let loops = registry.trace().unwrap();
    assert_eq!(loops.len(), 2);
    let mut all: Vec<Vec<(i32, i32)>> = loops.iter().map(|l| canonical(l)).collect();
    all.sort();
    assert_eq!(
        all,
        vec![
            vec![(0, 0), (16_000, 0), (16_000, 16_000), (0, 16_000)],
            vec![(48_000, 0), (64_000, 0), (64_000, 16_000), (48_000, 16_000)],
        ]
    );
}

#[test]
fn a_ring_of_walls_has_an_outer_and_an_inner_outline() {
    let mut registry = SegmentRegistry::new();
    for row in 0..3 {
        for col in 0..3 {
            if (col, row) != (1, 1) {
                square(&mut registry, col * 16, row * 16);
            }
        }
    }
    let loops = registry.trace().unwrap();
    assert_eq!(loops.len(), 2);
    let mut all: Vec<Vec<(i32, i32)>> = loops.iter().map(|l| canonical(l)).collect();
    all.sort();
    // The outer outline runs counter clockwise, the outline of the hole
    // clockwise.
    assert_eq!(
        all,
        vec![
            vec![(0, 0), (48_000, 0), (48_000, 48_000), (0, 48_000)],
            vec![(16_000, 16_000), (16_000, 32_000), (32_000, 32_000), (32_000, 16_000)],
        ]
    );
}

#[test]
fn a_loop_is_traced_from_the_cell_it_is_asked_for() {
    let mut registry = SegmentRegistry::new();
    square(&mut registry, 0, 0);
    square(&mut registry, 48, 0);
    // The edge that leaves (48, 16) runs down the left side of the second
    // square.
    let corners = registry.trace_loop((4800, 1600)).unwrap();
    assert_eq!(
        coordinates(&corners),
        vec![(48_000, 16_000), (48_000, 0), (64_000, 0), (64_000, 16_000)]
    );
    assert!(!registry.is_empty());
    let start = registry.next_start().unwrap();
    let rest = registry.trace_loop(start).unwrap();
    assert_eq!(sorted(&rest), vec![(0, 0), (0, 16_000), (16_000, 0), (16_000, 16_000)]);
    assert!(registry.is_empty());
}

#[test]
fn a_walk_that_starts_in_the_middle_of_a_side_drops_its_first_corner() {
    let mut registry = SegmentRegistry::new();
    square(&mut registry, 0, 0);
    square(&mut registry, 16, 0);
    // (16, 0) lies in the middle of the lower side.
    let corners = registry.trace_loop((1600, 0)).unwrap();
    assert_eq!(corners.len(), 4);
    assert_eq!(sorted(&corners), vec![(0, 0), (0, 16_000), (32_000, 0), (32_000, 16_000)]);
}

#[test]
fn a_chain_that_does_not_close_is_an_error() {
    let mut registry = SegmentRegistry::new();
    registry.insert(seg(0, 0, 1, 0));
    registry.insert(seg(1, 0, 1, 1));
    assert_eq!(registry.trace(), Err(TraceError::DanglingEndpoint));
    let mut single = SegmentRegistry::new();
    single.insert(seg(0, 0, 1, 0));
    assert_eq!(single.trace_loop((0, 0)), Err(TraceError::DanglingEndpoint));
    assert!(single.is_empty());
}

#[test]
fn convex_corners_are_cut_back() {
    assert_eq!(MAX_BEVEL, 300);
    let corners = vec![at(0, 0), at(16, 0), at(16, 16), at(0, 16)];
    let outline = bevel(&corners);
    assert_eq!(
        coordinates(&outline.vertices),
        vec![
            (15_700, 0),
            (16_000, 300),
            (16_000, 15_700),
            (15_700, 16_000),
            (300, 16_000),
            (0, 15_700),
            (0, 300),
            (300, 0),
            (15_700, 0),
        ]
    );
    // The edges along the sides are rigid, the cuts across the corners are not.
    assert_eq!(outline.indices, vec![(1, 2), (3, 4), (5, 6), (7, 8)]);
}

#[test]
fn concave_corners_are_kept() {
    // An L: the corner at (16, 16) is concave.
    let corners = vec![at(0, 0), at(32, 0), at(32, 16), at(16, 16), at(16, 32), at(0, 32)];
    let outline = bevel(&corners);
    assert_eq!(outline.vertices.len(), 5 * 2 + 1 + 1);
    assert_eq!(
        coordinates(&outline.vertices[0..6]),
        vec![
            (31_700, 0),
            (32_000, 300),
            (32_000, 15_700),
            (31_700, 16_000),
            (16_000, 16_000),
            (16_000, 31_700),
        ]
    );
    assert_eq!(outline.indices, vec![(1, 2), (3, 4), (4, 5), (6, 7), (8, 9), (10, 11)]);
    assert_eq!(outline.vertices[11].x, outline.vertices[0].x);
    assert_eq!(outline.vertices[11].y, outline.vertices[0].y);
    // A clockwise loop has no convex corner at all.
    let hole = vec![at(0, 0), at(0, 16), at(16, 16), at(16, 0)];
    let outline = bevel(&hole);
    assert_eq!(
        coordinates(&outline.vertices),
        vec![(0, 16_000), (16_000, 16_000), (16_000, 0), (0, 0), (0, 16_000)]
    );
    assert_eq!(outline.indices, vec![(0, 1), (1, 2), (2, 3), (3, 4)]);
}

#[test]
fn short_sides_are_cut_back_by_their_whole_length_at_most() {
    // Sides of a fifth of a unit are shorter than the cut.
    let corners = vec![
        Point::new(0, 0),
        Point::new(200, 0),
        Point::new(200, 200),
        Point::new(0, 200),
    ];
    let outline = bevel(&corners);
    assert_eq!(
        coordinates(&outline.vertices[0..2]),
        vec![(0, 0), (200, 200)]
    );
}

#[test]
fn tile_numbers_have_their_wall_shapes() {
    assert_eq!(wall_shape_of_tile(19), WallShape::CornerNorthWest);
    assert_eq!(wall_shape_of_tile(18), WallShape::CornerNorthEast);
    assert_eq!(wall_shape_of_tile(4), WallShape::CornerSouthWest);
    assert_eq!(wall_shape_of_tile(3), WallShape::CornerSouthEast);
    assert_eq!(wall_shape_of_tile(31), WallShape::HalfNorth);
    assert_eq!(wall_shape_of_tile(15), WallShape::HalfEast);
    assert_eq!(wall_shape_of_tile(1), WallShape::HalfSouth);
    assert_eq!(wall_shape_of_tile(17), WallShape::HalfWest);
    assert_eq!(wall_shape_of_tile(16), WallShape::Full);
    assert_eq!(wall_shape_of_tile(5), WallShape::Open);
    assert_eq!(wall_shape_of_tile(0), WallShape::Open);
    assert_eq!(subtile_bitmask(WallShape::Open), 0);
    assert_eq!(subtile_bitmask(WallShape::Full), WALL_BITMASK);
    assert_eq!(subtile_bitmask(WallShape::Full), 0b1111_1111);
    assert_eq!(subtile_bitmask(WallShape::HalfNorth), N_SUBTILE_BITMASK);
    assert_eq!(subtile_bitmask(WallShape::HalfNorth), 0b1101_1000);
    assert_eq!(subtile_bitmask(WallShape::HalfWest), W_SUBTILE_BITMASK);
    assert_eq!(subtile_bitmask(WallShape::CornerNorthEast), NE_SUBTILE_BITMASK);
    assert_eq!(subtile_bitmask(WallShape::CornerNorthEast), 0b1100_1100);
    assert_eq!(subtile_bitmask(WallShape::CornerSouthWest), SW_SUBTILE_BITMASK);
    assert_eq!(subtile_bitmask(WallShape::HalfEast), 0b1110_0100);
    assert_eq!(subtile_bitmask(WallShape::HalfSouth), 0b0111_0010);
    assert_eq!(subtile_bitmask(WallShape::CornerNorthWest), 0b1001_1001);
    assert_eq!(subtile_bitmask(WallShape::CornerSouthEast), 0b0110_0110);
}

#[test]
fn tiles_and_world_places_are_converted() {
    let tilemap = map(10, 5);
    assert_eq!(tilemap.get_physical_width(), 160);
    assert_eq!(tilemap.get_physical_height(), 80);
    let centre = tilemap.tile_to_world_coords((0, 0));
    assert_eq!((centre.x, centre.y), (8_000, 8_000));
    let centre = tilemap.tile_to_world_coords((3, 4));
    assert_eq!((centre.x, centre.y), (56_000, 72_000));
    // (24, 40) in the world is a tile and a half along and two and a half up.
    let tile = tilemap.world_to_tile_coords(&at(24, 40));
    assert_eq!((tile.x, tile.y), (1_500, 2_500));
    // Places off the map are kept on it.
    let tile = tilemap.world_to_tile_coords(&at(-5, 1000));
    assert_eq!((tile.x, tile.y), (0, 4_000));
    let tile = tilemap.world_to_tile_coords(&at(1000, -1));
    assert_eq!((tile.x, tile.y), (9_000, 0));
    let far = tilemap.tile_to_world_coords((u32::MAX, 0));
    assert_eq!((far.x, far.y), (i32::MAX, 8_000));
    let wide = Tilemap { width: usize::MAX, height: 1, tile_width: u32::MAX, tile_height: 1 };
    assert_eq!(wide.get_physical_width(), u64::MAX);
    assert_eq!(wide.get_physical_height(), 1);
}

#[test]
fn a_level_with_one_wall_tile_loads() {
    let mut tiles: Vec<Tile> = (0..9).map(|_| open_tile()).collect();
    tiles[4] = wall_tile();
    let (storage, outlines) = load_tilemap(&map(3, 3), &tiles).unwrap();
    assert_eq!(storage.0, vec![0, 0, 0, 0, 255, 0, 0, 0, 0]);
    assert_eq!(outlines.len(), 1);
    assert_eq!(outlines[0].vertices.len(), 9);
    assert_eq!(outlines[0].indices.len(), 4);
    let mut vertices = sorted(&outlines[0].vertices[0..8]);
    vertices.dedup();
    assert_eq!(
        vertices,
        vec![
            (16_000, 16_300),
            (16_000, 31_700),
            (16_300, 16_000),
            (16_300, 32_000),
            (31_700, 16_000),
            (31_700, 32_000),
            (32_000, 16_300),
            (32_000, 31_700),
        ]
    );
    let first = outlines[0].vertices[0];
    let last = outlines[0].vertices[8];
    assert_eq!((first.x, first.y), (last.x, last.y));
}

#[test]
fn a_level_keeps_masks_and_outlines_apart() {
    // A half wall has a mask but its shape covers only half the tile.
    let mut tiles: Vec<Tile> = (0..4).map(|_| open_tile()).collect();
    tiles[0] = Tile {
        shape: WallShape::HalfSouth,
        collision: Some(CollisionShape::Rect { width: 16_000, height: 8_000 }),
    };
    tiles[3] = Tile { shape: WallShape::Full, collision: None };
    let (storage, outlines) = load_tilemap(&map(2, 2), &tiles).unwrap();
    assert_eq!(storage.0, vec![0b0111_0010, 0, 0, 255]);
    assert_eq!(outlines.len(), 1);
    let mut corners = sorted(&outlines[0].vertices);
    corners.dedup();
    assert_eq!(corners.first(), Some(&(0, 4_300)));
    assert_eq!(corners.last(), Some(&(16_000, 11_700)));
}

#[test]
fn a_level_without_walls_has_no_outlines() {
    let tiles: Vec<Tile> = (0..6).map(|_| open_tile()).collect();
    let (storage, outlines) = load_tilemap(&map(3, 2), &tiles).unwrap();
    assert_eq!(storage.0, vec![0; 6]);
    assert!(outlines.is_empty());
    let (storage, outlines) = load_tilemap(&map(0, 0), &vec![]).unwrap();
    assert!(storage.0.is_empty());
    assert!(outlines.is_empty());
}

#[test]
fn an_unsupported_shape_is_an_error() {
    let mut tiles: Vec<Tile> = (0..4).map(|_| wall_tile()).collect();
    tiles[2] = Tile { shape: WallShape::Full, collision: Some(CollisionShape::Unsupported) };
    assert_eq!(load_tilemap(&map(2, 2), &tiles).err(), Some(TraceError::UnsupportedShape));
}

#[test]
fn a_shape_that_does_not_close_is_an_error() {
    let tiles = vec![Tile {
        shape: WallShape::Full,
        collision: Some(CollisionShape::Polygon {
            points: vec![Point::new(8_000, 8_000)],
            x: 0,
            y: 0,
        }),
    }];
    assert_eq!(load_tilemap(&map(1, 1), &tiles).err(), Some(TraceError::DanglingEndpoint));
}

#[test]
fn a_flat_shape_is_an_error() {
    // Three corners on one line: every edge has the same slope.
    let tiles = vec![Tile {
        shape: WallShape::Full,
        collision: Some(CollisionShape::Polygon {
            points: vec![Point::new(0, 8_000), Point::new(8_000, 8_000), Point::new(16_000, 8_000)],
            x: 0,
            y: 0,
        }),
    }];
    assert_eq!(load_tilemap(&map(1, 1), &tiles).err(), Some(TraceError::DegenerateLoop));
}

#[test]
fn a_loop_ends_where_it_began() {
    // Three tiles in an L: whatever edge the walk starts with, the corners
    // it returns are the six corners of the L, each once.
    for pick in 0..8 {
        let mut registry = SegmentRegistry::new();
        square(&mut registry, 0, 0);
        square(&mut registry, 16, 0);
        square(&mut registry, 0, 16);
        let starts = [
            (0, 0),
            (1600, 0),
            (3200, 0),
            (3200, 1600),
            (1600, 1600),
            (1600, 3200),
            (0, 3200),
            (0, 1600),
        ];
        let corners = registry.trace_loop(starts[pick]).unwrap();
        assert!(registry.is_empty());
        assert_eq!(
            canonical(&corners),
            vec![
                (0, 0),
                (32_000, 0),
                (32_000, 16_000),
                (16_000, 16_000),
                (16_000, 32_000),
                (0, 32_000),
            ],
            "start {}",
            pick
        );
    }
}
