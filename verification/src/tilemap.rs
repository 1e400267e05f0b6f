//! The tile map: its size, the wall mask of every tile, the collision shapes
//! of its tiles, and the way from those to the outlines of its walls.

use crate::boundary::{loops_view, trace_fails, traced, SegmentRegistry, TraceError};
use crate::direction::{
    E_SUBTILE_BITMASK, NE_SUBTILE_BITMASK, NW_SUBTILE_BITMASK, N_SUBTILE_BITMASK,
    SE_SUBTILE_BITMASK, SW_SUBTILE_BITMASK, S_SUBTILE_BITMASK, WALL_BITMASK, W_SUBTILE_BITMASK,
};
use crate::loops::closed_loops;
use crate::outline::{bevel, is_outline_of, WallOutline};
use crate::point::{clamp_coordinate, saturate, trunc_div, Point};
use crate::registry::{entered, no_entries, Cell};
use crate::segment::Segment;
use vstd::prelude::*;
use vstd::std_specs::ops::AddSpec;

verus! {

/// The wall mask of every tile, row by row. A tile with mask zero is open.
pub struct TileStorage(pub Vec<u8>);

impl View for TileStorage {
    type V = Seq<u8>;

    open spec fn view(&self) -> Seq<u8> {
        self.0@
    }
}

/// The largest number of corners a polygon may have.
pub const MAX_POLYGON_POINTS: usize = 0xFFFF_FFFF;

/// The size of a tile map.
#[derive(Clone, Copy, Debug, Default)]
pub struct Tilemap {
    /// width in number of tiles
    pub width: usize,
    /// height in number of tiles
    pub height: usize,
    /// width of a tile in whole units
    pub tile_width: u32,
    /// height of a tile in whole units
    pub tile_height: u32,
}

/// What part of a tile is solid.
#[derive(Clone, Copy, Debug, PartialEq, Eq, Structural)]
pub enum WallShape {
    /// Nothing: the tile can be walked on.
    Open,
    /// The whole tile.
    Full,
    /// The northern half.
    HalfNorth,
    /// The eastern half.
    HalfEast,
    /// The southern half.
    HalfSouth,
    /// The western half.
    HalfWest,
    /// The triangle in the north-western corner.
    CornerNorthWest,
    /// The triangle in the north-eastern corner.
    CornerNorthEast,
    /// The triangle in the south-western corner.
    CornerSouthWest,
    /// The triangle in the south-eastern corner.
    CornerSouthEast,
}

/// The collision shape attached to a tile, in thousandths of a unit.
#[derive(Debug)]
pub enum CollisionShape {
    /// A rectangle around the centre of the tile.
    Rect { width: i32, height: i32 },
    /// A polygon. Its points are given from the place `(x, y)` of the shape
    /// inside the tile, with the y axis pointing down.
    Polygon { points: Vec<Point>, x: i32, y: i32 },
    /// Any other shape.
    Unsupported,
}

/// What the level holds at one place of the grid.
#[derive(Debug)]
pub struct Tile {
    /// What part of the tile is solid.
    pub shape: WallShape,
    /// The collision shape of the tile, if it has one.
    pub collision: Option<CollisionShape>,
}

/// The wall shape of the tile with number `id` in the tile set of the game.
pub open spec fn shape_of_tile_id(id: u32) -> WallShape {
    if id == 19 {
        WallShape::CornerNorthWest
    } else if id == 18 {
        WallShape::CornerNorthEast
    } else if id == 4 {
        WallShape::CornerSouthWest
    } else if id == 3 {
        WallShape::CornerSouthEast
    } else if id == 31 {
        WallShape::HalfNorth
    } else if id == 15 {
        WallShape::HalfEast
    } else if id == 1 {
        WallShape::HalfSouth
    } else if id == 17 {
        WallShape::HalfWest
    } else if id == 16 {
        WallShape::Full
    } else {
        WallShape::Open
    }
}

/// The wall shape of the tile with number `id` in the tile set of the game.
pub fn wall_shape_of_tile(id: u32) -> (shape: WallShape)
    ensures
        shape == shape_of_tile_id(id),
{
    match id {
        19 => WallShape::CornerNorthWest,
        18 => WallShape::CornerNorthEast,
        4 => WallShape::CornerSouthWest,
        3 => WallShape::CornerSouthEast,
        31 => WallShape::HalfNorth,
        15 => WallShape::HalfEast,
        1 => WallShape::HalfSouth,
        17 => WallShape::HalfWest,
        16 => WallShape::Full,
        _ => WallShape::Open,
    }
}

/// The wall mask of a tile of shape `shape`: every bit for a full wall, the
/// three bits that face the solid side for a half wall or a corner, none for
/// an open tile.
pub open spec fn mask_of_shape(shape: WallShape) -> u8 {
    match shape {
        WallShape::Open => 0,
        WallShape::Full => WALL_BITMASK,
        WallShape::HalfNorth => N_SUBTILE_BITMASK,
        WallShape::HalfEast => E_SUBTILE_BITMASK,
        WallShape::HalfSouth => S_SUBTILE_BITMASK,
        WallShape::HalfWest => W_SUBTILE_BITMASK,
        WallShape::CornerNorthWest => NW_SUBTILE_BITMASK,
        WallShape::CornerNorthEast => NE_SUBTILE_BITMASK,
        WallShape::CornerSouthWest => SW_SUBTILE_BITMASK,
        WallShape::CornerSouthEast => SE_SUBTILE_BITMASK,
    }
}

/// The wall mask of a tile of shape `shape`.
pub fn subtile_bitmask(shape: WallShape) -> (mask: u8)
    ensures
        mask == mask_of_shape(shape),
{
    match shape {
        WallShape::Open => 0,
        WallShape::Full => WALL_BITMASK,
        WallShape::HalfNorth => N_SUBTILE_BITMASK,
        WallShape::HalfEast => E_SUBTILE_BITMASK,
        WallShape::HalfSouth => S_SUBTILE_BITMASK,
        WallShape::HalfWest => W_SUBTILE_BITMASK,
        WallShape::CornerNorthWest => NW_SUBTILE_BITMASK,
        WallShape::CornerNorthEast => NE_SUBTILE_BITMASK,
        WallShape::CornerSouthWest => SW_SUBTILE_BITMASK,
        WallShape::CornerSouthEast => SE_SUBTILE_BITMASK,
    }
}

/// The smaller of `v` and the largest `u64`.
pub open spec fn clamp_length(v: int) -> u64 {
    if v > u64::MAX {
        u64::MAX
    } else {
        v as u64
    }
}

/// `v` kept between `low` and `high`.
pub open spec fn clamp_between(v: int, low: int, high: int) -> int {
    if v < low {
        low
    } else if v > high {
        high
    } else {
        v
    }
}

impl Tilemap {
    /// The size fits the machine: neither side is longer than the largest
    /// tile coordinate, and the number of tiles can be counted.
    pub open spec fn wf(self) -> bool {
        self.width <= i32::MAX && self.height <= i32::MAX && self.width * self.height
            <= usize::MAX
    }

    /// The centre of the tile in column `col` and row `row`, in thousandths
    /// of a unit.
    pub open spec fn tile_centre(self, col: int, row: int) -> Point {
        Point {
            x: clamp_coordinate((col * 1000 + 500) * self.tile_width),
            y: clamp_coordinate((row * 1000 + 500) * self.tile_height),
        }
    }

    /// The place on the tile grid, in thousandths of a tile, of a place in
    /// the world: the coordinates divided by the size of a tile and kept on
    /// the grid.
    pub open spec fn tile_of_world(self, world: Point) -> Point {
        Point {
            x: clamp_coordinate(
                clamp_between(
                    trunc_div(world.x as int, self.tile_width as int),
                    0,
                    (self.width - 1) * 1000,
                ),
            ),
            y: clamp_coordinate(
                clamp_between(
                    trunc_div(world.y as int, self.tile_height as int),
                    0,
                    (self.height - 1) * 1000,
                ),
            ),
        }
    }

    /// Width of the map in whole units.
    pub fn get_physical_width(&self) -> (w: u64)
        ensures
            w == clamp_length(self.width * self.tile_width),
    {
        scaled_length(self.width, self.tile_width)
    }

    /// Height of the map in whole units.
    pub fn get_physical_height(&self) -> (h: u64)
        ensures
            h == clamp_length(self.height * self.tile_height),
    {
        scaled_length(self.height, self.tile_height)
    }

    /// The centre of a tile in the world, in thousandths of a unit.
    pub fn tile_to_world_coords(&self, tile_coords: (u32, u32)) -> (centre: Point)
        ensures
            centre == self.tile_centre(tile_coords.0 as int, tile_coords.1 as int),
    {
        Point::new(
            tile_middle(tile_coords.0, self.tile_width),
            tile_middle(tile_coords.1, self.tile_height),
        )
    }

    /// The place on the tile grid, in thousandths of a tile, of a place in
    /// the world given in thousandths of a unit.
    pub fn world_to_tile_coords(&self, world_coords: &Point) -> (tile: Point)
        requires
            self.width > 0,
            self.height > 0,
            self.tile_width > 0,
            self.tile_height > 0,
        ensures
            tile == self.tile_of_world(*world_coords),
    {
        Point::new(
            grid_coordinate(world_coords.x, self.tile_width, self.width),
            grid_coordinate(world_coords.y, self.tile_height, self.height),
        )
    }
}

/// `count` tiles of `size` units each, in units.
fn scaled_length(count: usize, size: u32) -> (length: u64)
    ensures
        length == clamp_length(count * size),
{
    proof {
        assert(0 <= count * size <= 0xFFFF_FFFF_FFFF_FFFF * 0xFFFF_FFFF) by (nonlinear_arith)
            requires
                0 <= count <= 0xFFFF_FFFF_FFFF_FFFF,
                0 <= size <= 0xFFFF_FFFF,
        ;
    }
    let length: u128 = count as u128 * size as u128;
    if length > u64::MAX as u128 {
        u64::MAX
    } else {
        length as u64
    }
}

/// The middle of tile number `index` along one axis, in thousandths of a
/// unit, for tiles of `size` units.
fn tile_middle(index: u32, size: u32) -> (middle: i32)
    ensures
        middle == clamp_coordinate((index * 1000 + 500) * size),
{
    proof {
        assert(0 <= (index * 1000 + 500) * size <= (0xFFFF_FFFF * 1000 + 500) * 0xFFFF_FFFF)
            by (nonlinear_arith)
            requires
                0 <= index <= 0xFFFF_FFFF,
                0 <= size <= 0xFFFF_FFFF,
        ;
    }
    let middle: i128 = (index as i128 * 1000 + 500) * size as i128;
    if middle > i32::MAX as i128 {
        i32::MAX
    } else {
        middle as i32
    }
}

/// One coordinate on the tile grid, in thousandths of a tile, of a place in
/// the world.
fn grid_coordinate(world: i32, size: u32, count: usize) -> (tile: i32)
    requires
        size > 0,
        count > 0,
    ensures
        tile == clamp_coordinate(
            clamp_between(trunc_div(world as int, size as int), 0, (count - 1) * 1000),
        ),
{
    if world < 0 {
        return 0;
    }
    let at: u64 = world as u64 / size as u64;
    let last: u128 = (count as u128 - 1) * 1000;
    if at as u128 > last {
        saturate_wide(last)
    } else {
        at as i32
    }
}

/// The coordinate nearest to `v`.
fn saturate_wide(v: u128) -> (c: i32)
    ensures
        c == clamp_coordinate(v as int),
{
    if v > i32::MAX as u128 {
        i32::MAX
    } else {
        v as i32
    }
}

/// The edges of a rectangle of `width` by `height` around `centre`, counter
/// clockwise from its top left corner.
pub open spec fn rect_edges(centre: Point, width: i32, height: i32) -> Seq<Segment> {
    let half_x = trunc_div(width as int, 2) as i32;
    let half_y = trunc_div(height as int, 2) as i32;
    let top_left = centre.add_spec(Point { x: (-half_x) as i32, y: half_y });
    let bottom_left = centre.add_spec(Point { x: (-half_x) as i32, y: (-half_y) as i32 });
    let bottom_right = centre.add_spec(Point { x: half_x, y: (-half_y) as i32 });
    let top_right = centre.add_spec(Point { x: half_x, y: half_y });
    seq![
        Segment { a: top_left, b: bottom_left },
        Segment { a: bottom_left, b: bottom_right },
        Segment { a: bottom_right, b: top_right },
        Segment { a: top_right, b: top_left },
    ]
}

/// The edges of a rectangle of `width` by `height` around `centre`, counter
/// clockwise from its top left corner.
pub fn rect_segments(centre: Point, width: i32, height: i32) -> (edges: Vec<Segment>)
    ensures
        edges@ == rect_edges(centre, width, height),
{
    let half_x: i32 = width / 2;
    let half_y: i32 = height / 2;
    let top_left: Point = centre + Point::new(-half_x, half_y);
    let bottom_left: Point = centre + Point::new(-half_x, -half_y);
    let bottom_right: Point = centre + Point::new(half_x, -half_y);
    let top_right: Point = centre + Point::new(half_x, half_y);
    let mut edges: Vec<Segment> = Vec::new();
    edges.push(Segment::new(top_left, bottom_left));
    edges.push(Segment::new(bottom_left, bottom_right));
    edges.push(Segment::new(bottom_right, top_right));
    edges.push(Segment::new(top_right, top_left));
    proof {
        assert(edges@ =~= rect_edges(centre, width, height));
    }
    edges
}

/// Where a point of a polygon lies in the world. The polygon is given from
/// the place `(x, y)` of its shape inside a tile of `tile_width` by
/// `tile_height` units around `centre`, with the y axis pointing down.
pub open spec fn polygon_point(
    centre: Point,
    p: Point,
    x: i32,
    y: i32,
    tile_width: u32,
    tile_height: u32,
) -> Point {
    centre.add_spec(
        Point {
            x: clamp_coordinate(p.x - x - tile_width * 500),
            y: clamp_coordinate(-p.y - y + tile_height * 500),
        },
    )
}

/// The corner after corner `i` of a polygon with `n` corners.
pub open spec fn successor(i: int, n: int) -> int {
    if i + 1 >= n {
        0
    } else {
        i + 1
    }
}

/// Twice the area that the first `k` edges of the polygon enclose, counted
/// positive where the edges run clockwise.
pub open spec fn winding(points: Seq<Point>, k: int) -> int
    decreases k,
{
    if k <= 0 {
        0
    } else {
        let here = points[k - 1];
        let next_point = points[successor(k - 1, points.len() as int)];
        winding(points, k - 1) + (next_point.x - here.x) * (next_point.y + here.y)
    }
}

/// The corners of the polygon in counter-clockwise order: reversed if they
/// were given clockwise.
pub open spec fn counter_clockwise(points: Seq<Point>) -> Seq<Point> {
    if winding(points, points.len() as int) > 0 {
        points.reverse()
    } else {
        points
    }
}

/// The edges that join each corner to the next, and the last to the first.
pub open spec fn ring_edges(points: Seq<Point>) -> Seq<Segment> {
    Seq::new(
        points.len(),
        |i: int| Segment { a: points[i], b: points[successor(i, points.len() as int)] },
    )
}

/// The edges of a polygon in the world, counter clockwise.
pub open spec fn polygon_edges(
    centre: Point,
    points: Seq<Point>,
    x: i32,
    y: i32,
    tile_width: u32,
    tile_height: u32,
) -> Seq<Segment> {
    ring_edges(
        counter_clockwise(
            Seq::new(
                points.len(),
                |i: int| polygon_point(centre, points[i], x, y, tile_width, tile_height),
            ),
        ),
    )
}

/// The edges of a polygon in the world, counter clockwise.
pub fn polygon_segments(
    centre: Point,
    points: &Vec<Point>,
    x: i32,
    y: i32,
    tile_width: u32,
    tile_height: u32,
) -> (edges: Vec<Segment>)
    requires
        points.len() <= MAX_POLYGON_POINTS,
    ensures
        edges@ == polygon_edges(centre, points@, x, y, tile_width, tile_height),
{
    let n: usize = points.len();
    let ghost placed: Seq<Point> = Seq::new(
        n as nat,
        |i: int| polygon_point(centre, points@[i], x, y, tile_width, tile_height),
    );
    let mut world: Vec<Point> = Vec::new();
    let mut i: usize = 0;
    while i < n
        invariant
            0 <= i <= n,
            n == points.len(),
            world@.len() == i,
            forall|j: int|
                0 <= j < i ==> #[trigger] world@[j] == polygon_point(
                    centre,
                    points@[j],
                    x,
                    y,
                    tile_width,
                    tile_height,
                ),
        decreases n - i,
    {
        let p: Point = points[i];
        let dx: i64 = p.x as i64 - x as i64 - tile_width as i64 * 500;
        let dy: i64 = -(p.y as i64) - y as i64 + tile_height as i64 * 500;
        world.push(centre + Point::new(saturate(dx), saturate(dy)));
        i += 1;
    }
    proof {
        assert(world@ =~= placed);
    }
    let mut sum: i128 = 0;
    let mut k: usize = 0;
    while k < n
        invariant
            0 <= k <= n,
            n == world.len(),
            n <= MAX_POLYGON_POINTS,
            sum == winding(world@, k as int),
            -k * 0x2_0000_0000_0000_0000 <= sum <= k * 0x2_0000_0000_0000_0000,
        decreases n - k,
    {
        let next: usize = if k + 1 >= n {
            0
        } else {
            k + 1
        };
        let here: Point = world[k];
        let next_point: Point = world[next];
        let run: i128 = next_point.x as i128 - here.x as i128;
        let rise: i128 = next_point.y as i128 + here.y as i128;
        proof {
            assert(-0x2_0000_0000_0000_0000 <= run * rise <= 0x2_0000_0000_0000_0000)
                by (nonlinear_arith)
                requires
                    -0x1_0000_0000 <= run <= 0x1_0000_0000,
                    -0x1_0000_0000 <= rise <= 0x1_0000_0000,
            ;
        }
        sum = sum + run * rise;
        k += 1;
    }
    let mut ordered: Vec<Point> = Vec::new();
    let mut m: usize = 0;
    while m < n
        invariant
            0 <= m <= n,
            n == world.len(),
            ordered@.len() == m,
            forall|j: int|
                0 <= j < m ==> #[trigger] ordered@[j] == counter_clockwise(world@)[j],
            sum == winding(world@, n as int),
        decreases n - m,
    {
        let p: Point = if sum > 0 {
            world[n - 1 - m]
        } else {
            world[m]
        };
        ordered.push(p);
        m += 1;
    }
    proof {
        assert(ordered@ =~= counter_clockwise(world@));
    }
    let mut edges: Vec<Segment> = Vec::new();
    let mut e: usize = 0;
    while e < n
        invariant
            0 <= e <= n,
            n == ordered.len(),
            edges@.len() == e,
            forall|j: int| 0 <= j < e ==> #[trigger] edges@[j] == ring_edges(ordered@)[j],
        decreases n - e,
    {
        let next: usize = if e + 1 >= n {
            0
        } else {
            e + 1
        };
        edges.push(Segment::new(ordered[e], ordered[next]));
        e += 1;
    }
    proof {
        assert(edges@ =~= ring_edges(ordered@));
    }
    edges
}

/// The edges that the collision shape of a tile around `centre` adds to the
/// registry: none for a tile without a shape, `None` for a shape that is
/// neither a rectangle nor a polygon of a size that can be handled.
pub open spec fn tile_edges(tilemap: Tilemap, tile: Tile, centre: Point) -> Option<Seq<Segment>> {
    match tile.collision {
        None => Some(Seq::empty()),
        Some(CollisionShape::Rect { width, height }) => Some(rect_edges(centre, width, height)),
        Some(CollisionShape::Polygon { points, x, y }) => if points@.len() <= MAX_POLYGON_POINTS {
            Some(polygon_edges(centre, points@, x, y, tilemap.tile_width, tilemap.tile_height))
        } else {
            None
        },
        Some(CollisionShape::Unsupported) => None,
    }
}

/// The entries after the first `k` of `edges` have been entered.
pub open spec fn entered_all(
    entries: Map<Cell, Seq<Segment>>,
    edges: Seq<Segment>,
    k: int,
) -> Map<Cell, Seq<Segment>>
    decreases k,
{
    if k <= 0 {
        entries
    } else {
        entered(entered_all(entries, edges, k - 1), edges[k - 1])
    }
}

/// The centre of tile number `i` of the map.
pub open spec fn centre_of(tilemap: Tilemap, i: int) -> Point {
    tilemap.tile_centre(i % (tilemap.width as int), i / (tilemap.width as int))
}

/// Every one of the first `k` tiles has a shape that can be handled.
pub open spec fn shapes_supported(tilemap: Tilemap, tiles: Seq<Tile>, k: int) -> bool {
    forall|i: int| 0 <= i < k ==> (#[trigger] tile_edges(tilemap, tiles[i], centre_of(tilemap, i)))
        is Some
}

/// The registry after the edges of the first `k` tiles have been entered,
/// tile by tile and edge by edge.
pub open spec fn registered(tilemap: Tilemap, tiles: Seq<Tile>, k: int) -> Map<Cell, Seq<Segment>>
    decreases k,
{
    if k <= 0 {
        no_entries()
    } else {
        let edges = tile_edges(tilemap, tiles[k - 1], centre_of(tilemap, k - 1)).unwrap();
        entered_all(registered(tilemap, tiles, k - 1), edges, edges.len() as int)
    }
}

/// The wall masks of the tiles.
pub open spec fn masks_of(tiles: Seq<Tile>) -> Seq<u8> {
    Seq::new(tiles.len(), |i: int| mask_of_shape(tiles[i].shape))
}

/// Each outline is the outline of the loop in its place.
pub open spec fn outlines_of(outlines: Seq<WallOutline>, loops: Seq<Seq<Point>>) -> bool {
    outlines.len() == loops.len() && forall|i: int|
        0 <= i < loops.len() ==> is_outline_of(#[trigger] outlines[i], loops[i])
}

/// `outlines` are the outlines of loops that can be traced, one after the
/// other and until no edge is left, from the registry of all tiles. The
/// loops are closed, have their corners where the slope changes, and share
/// out the edges of the registry between them.
pub open spec fn outlines_traced(
    tilemap: Tilemap,
    tiles: Seq<Tile>,
    outlines: Seq<WallOutline>,
) -> bool {
    exists|loops: Seq<Seq<Point>>|
        #![trigger outlines_of(outlines, loops)]
        traced(registered(tilemap, tiles, tiles.len() as int), loops, no_entries())
            && closed_loops(registered(tilemap, tiles, tiles.len() as int), loops, no_entries())
            && outlines_of(outlines, loops)
}

/// Tracing loops from the registry of all tiles can come to a point that no
/// edge leaves.
pub open spec fn walls_dangle(tilemap: Tilemap, tiles: Seq<Tile>) -> bool {
    exists|rest: Map<Cell, Seq<Segment>>| #[trigger]
        trace_fails(registered(tilemap, tiles, tiles.len() as int), rest)
}

/// Loops can be traced from the registry of all tiles until no edge is
/// left, and one of them has fewer than two corners.
pub open spec fn walls_degenerate(tilemap: Tilemap, tiles: Seq<Tile>) -> bool {
    exists|loops: Seq<Seq<Point>>, i: int|
        #![trigger loops[i]]
        traced(registered(tilemap, tiles, tiles.len() as int), loops, no_entries()) && 0 <= i
            < loops.len() && loops[i].len() < 2
}

/// Enters every one of `edges` into the registry.
pub fn register(registry: &mut SegmentRegistry, edges: &Vec<Segment>)
    requires
        old(registry).wf(),
    ensures
        final(registry).wf(),
        final(registry)@ == entered_all(old(registry)@, edges@, edges.len() as int),
{
    let mut k: usize = 0;
    while k < edges.len()
        invariant
            0 <= k <= edges.len(),
            registry.wf(),
            registry@ == entered_all(old(registry)@, edges@, k as int),
        decreases edges.len() - k,
    {
        registry.insert(edges[k]);
        k += 1;
    }
}

/// Builds the wall masks and the wall outlines of a level.
///
/// `tiles` holds the tiles row by row, the bottom row first. Every tile
/// gives its wall mask, and the edges of its collision shape are entered
/// into a registry, where edges shared by two tiles cancel. The loops traced
/// from what is left are beveled into outlines.
///
/// Fails with `UnsupportedShape` if a tile carries a shape that cannot be
/// handled, with `DanglingEndpoint` if a chain of edges does not close, and
/// with `DegenerateLoop` if a loop has fewer than two corners.
pub fn load_tilemap(tilemap: &Tilemap, tiles: &Vec<Tile>) -> (loaded: Result<
    (TileStorage, Vec<WallOutline>),
    TraceError,
>)
    requires
        tilemap.wf(),
        tiles.len() == tilemap.width * tilemap.height,
    ensures
        loaded matches Err(TraceError::UnsupportedShape) <==> !shapes_supported(
            *tilemap,
            tiles@,
            tiles.len() as int,
        ),
        loaded matches Ok(walls) ==> walls.0@ == masks_of(tiles@) && outlines_traced(
            *tilemap,
            tiles@,
            walls.1@,
        ),
        loaded matches Err(TraceError::DanglingEndpoint) ==> walls_dangle(*tilemap, tiles@),
        loaded matches Err(TraceError::DegenerateLoop) ==> walls_degenerate(*tilemap, tiles@),
{
    let n: usize = tiles.len();
    let mut registry: SegmentRegistry = SegmentRegistry::new();
    let mut masks: Vec<u8> = Vec::new();
    let mut i: usize = 0;
    while i < n
        invariant
            0 <= i <= n,
            n == tiles.len(),
            tilemap.wf(),
            n == tilemap.width * tilemap.height,
            registry.wf(),
            shapes_supported(*tilemap, tiles@, i as int),
            registry@ == registered(*tilemap, tiles@, i as int),
            masks@.len() == i,
            forall|j: int| 0 <= j < i ==> #[trigger] masks@[j] == mask_of_shape(tiles@[j].shape),
        decreases n - i,
    {
        proof {
            crate::grid::lemma_coords(tilemap.width as int, tilemap.height as int, i as int);
        }
        let col: usize = i % tilemap.width;
        let row: usize = i / tilemap.width;
        let centre: Point = tilemap.tile_to_world_coords((col as u32, row as u32));
        let tile: &Tile = &tiles[i];
        let edges: Vec<Segment> = match &tile.collision {
            None => Vec::new(),
            Some(CollisionShape::Rect { width, height }) => rect_segments(centre, *width, *height),
            Some(CollisionShape::Polygon { points, x, y }) => {
                if points.len() > MAX_POLYGON_POINTS {
                    return Err(TraceError::UnsupportedShape);
                }
                polygon_segments(centre, points, *x, *y, tilemap.tile_width, tilemap.tile_height)
            },
            Some(CollisionShape::Unsupported) => {
                return Err(TraceError::UnsupportedShape);
            },
        };
        proof {
            assert(tile_edges(*tilemap, tiles@[i as int], centre_of(*tilemap, i as int)) == Some(
                edges@,
            ));
        }
        register(&mut registry, &edges);
        masks.push(subtile_bitmask(tile.shape));
        i += 1;
    }
    proof {
        assert(masks@ =~= masks_of(tiles@));
    }
    let ghost start: Map<Cell, Seq<Segment>> = registry@;
    let loops: Vec<Vec<Point>> = match registry.trace() {
        Ok(loops) => loops,
        Err(error) => {
            return Err(error);
        },
    };
    let mut outlines: Vec<WallOutline> = Vec::new();
    let mut k: usize = 0;
    while k < loops.len()
        invariant
            0 <= k <= loops.len(),
            outlines@.len() == k,
            forall|j: int|
                0 <= j < k ==> is_outline_of(#[trigger] outlines@[j], loops_view(loops@)[j]),
            traced(start, loops_view(loops@), no_entries()),
            closed_loops(start, loops_view(loops@), no_entries()),
            start == registered(*tilemap, tiles@, tiles.len() as int),
            shapes_supported(*tilemap, tiles@, tiles.len() as int),
            masks@ == masks_of(tiles@),
        decreases loops.len() - k,
    {
        if loops[k].len() < 2 {
            proof {
                let all = loops_view(loops@);
                assert(all[k as int].len() < 2);
                assert(traced(start, all, no_entries()) && 0 <= k < all.len() && all[k as int].len()
                    < 2);
            }
            return Err(TraceError::DegenerateLoop);
        }
        outlines.push(bevel(&loops[k]));
        k += 1;
    }
    proof {
        assert(outlines_of(outlines@, loops_view(loops@)));
    }
    let walls: (TileStorage, Vec<WallOutline>) = (TileStorage(masks), outlines);
    proof {
        let all = loops_view(loops@);
        assert(traced(registered(*tilemap, tiles@, tiles.len() as int), all, no_entries())
            && closed_loops(registered(*tilemap, tiles@, tiles.len() as int), all, no_entries())
            && outlines_of(walls.1@, all));
    }
    Ok(walls)
}

} // verus!
