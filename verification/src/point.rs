//! Points of the plane in fixed-point coordinates.
//!
//! A coordinate counts thousandths of a unit. Two points are the same point
//! when they fall into the same cell of a grid whose cells are one hundredth
//! of a unit wide, so that corners that nearly coincide merge.

use vstd::prelude::*;
use vstd::std_specs::cmp::PartialEqSpec;

verus! {

/// Number of coordinate steps in one whole unit.
pub const UNIT: i32 = 1000;

/// Number of coordinate steps in one cell of the grid that decides equality:
/// a hundredth of a unit.
pub const PRECISION: i32 = 10;

/// Division that rounds towards zero, as integer division of machine
/// integers does.
pub open spec fn trunc_div(a: int, b: int) -> int {
    if a >= 0 {
        a / b
    } else {
        -((-a) / b)
    }
}

/// The value of `v` if it fits a coordinate, the nearest coordinate
/// otherwise.
pub open spec fn clamp_coordinate(v: int) -> i32 {
    if v < i32::MIN {
        i32::MIN
    } else if v > i32::MAX {
        i32::MAX
    } else {
        v as i32
    }
}

/// The value of `v` if it lies between `-max` and `max`, the nearer of the
/// two otherwise.
pub open spec fn clamp_axis(v: i32, max: i32) -> i32 {
    if v < -max {
        (-max) as i32
    } else if v > max {
        max
    } else {
        v
    }
}

/// The coordinate nearest to `v`.
pub fn saturate(v: i64) -> (c: i32)
    ensures
        c == clamp_coordinate(v as int),
{
    if v < i32::MIN as i64 {
        i32::MIN
    } else if v > i32::MAX as i64 {
        i32::MAX
    } else {
        v as i32
    }
}

/// Point in 2D space, in thousandths of a unit. Points that are close
/// together are considered equal and have the same hashable form.
#[derive(Clone, Copy, Debug)]
pub struct Point {
    pub x: i32,
    pub y: i32,
}

impl Point {
    pub fn new(x: i32, y: i32) -> (p: Point)
        ensures
            p.x == x,
            p.y == y,
    {
        Point { x, y }
    }

    /// The whole units of both coordinates, rounded towards zero.
    pub open spec fn whole(self) -> (i32, i32) {
        (
            trunc_div(self.x as int, UNIT as int) as i32,
            trunc_div(self.y as int, UNIT as int) as i32,
        )
    }

    /// The cell of the precision grid that holds the point: both coordinates
    /// in hundredths of a unit, rounded towards zero.
    pub open spec fn hashable(self) -> (i32, i32) {
        (
            trunc_div(self.x as int, PRECISION as int) as i32,
            trunc_div(self.y as int, PRECISION as int) as i32,
        )
    }

    /// The two points lie in the same cell of the precision grid.
    pub open spec fn same_cell(self, other: Point) -> bool {
        self.hashable() == other.hashable()
    }

    /// The whole units of both coordinates, rounded towards zero.
    pub fn as_ivec2(self) -> (v: (i32, i32))
        ensures
            v == self.whole(),
            v.0 == trunc_div(self.x as int, UNIT as int),
            v.1 == trunc_div(self.y as int, UNIT as int),
    {
        (self.x / UNIT, self.y / UNIT)
    }

    /// Clamps x and y values between `-max` and `+max`.
    pub fn clamp_axes(self, max: i32) -> (p: Point)
        requires
            max >= 0,
        ensures
            p.x == clamp_axis(self.x, max),
            p.y == clamp_axis(self.y, max),
    {
        let x: i32 = if self.x < -max {
            -max
        } else if self.x > max {
            max
        } else {
            self.x
        };
        let y: i32 = if self.y < -max {
            -max
        } else if self.y > max {
            max
        } else {
            self.y
        };
        Point { x, y }
    }

    /// Points that are close together have the same hashable form: the cell
    /// of the precision grid that holds them.
    pub fn get_hashable(self) -> (v: (i32, i32))
        ensures
            v == self.hashable(),
            v.0 == trunc_div(self.x as int, PRECISION as int),
            v.1 == trunc_div(self.y as int, PRECISION as int),
            -214748364 <= v.0 <= 214748364,
            -214748364 <= v.1 <= 214748364,
    {
        (self.x / PRECISION, self.y / PRECISION)
    }
}

impl PartialEq for Point {
    /// Points are equal when their hashable forms are.
    fn eq(&self, other: &Point) -> (r: bool) {
        let a: (i32, i32) = self.get_hashable();
        let b: (i32, i32) = other.get_hashable();
        a.0 == b.0 && a.1 == b.1
    }
}

impl vstd::std_specs::cmp::PartialEqSpecImpl for Point {
    open spec fn obeys_eq_spec() -> bool {
        true
    }

    open spec fn eq_spec(&self, other: &Point) -> bool {
        self.same_cell(*other)
    }
}

impl Eq for Point {

}

impl std::ops::Add<Point> for Point {
    type Output = Point;

    /// The sum, coordinate by coordinate; a coordinate that would leave the
    /// range stays at its end.
    fn add(self, rhs: Point) -> (r: Point) {
        Point {
            x: saturate(self.x as i64 + rhs.x as i64),
            y: saturate(self.y as i64 + rhs.y as i64),
        }
    }
}

impl vstd::std_specs::ops::AddSpecImpl<Point> for Point {
    open spec fn obeys_add_spec() -> bool {
        true
    }

    open spec fn add_req(self, rhs: Point) -> bool {
        true
    }

    open spec fn add_spec(self, rhs: Point) -> Point {
        Point { x: clamp_coordinate(self.x + rhs.x), y: clamp_coordinate(self.y + rhs.y) }
    }
}

impl std::ops::Sub<Point> for Point {
    type Output = Point;

    /// The difference, coordinate by coordinate; a coordinate that would
    /// leave the range stays at its end.
    fn sub(self, rhs: Point) -> (r: Point) {
        Point {
            x: saturate(self.x as i64 - rhs.x as i64),
            y: saturate(self.y as i64 - rhs.y as i64),
        }
    }
}

impl vstd::std_specs::ops::SubSpecImpl<Point> for Point {
    open spec fn obeys_sub_spec() -> bool {
        true
    }

    open spec fn sub_req(self, rhs: Point) -> bool {
        true
    }

    open spec fn sub_spec(self, rhs: Point) -> Point {
        Point { x: clamp_coordinate(self.x - rhs.x), y: clamp_coordinate(self.y - rhs.y) }
    }
}

/// Equality of points is reflexive.
pub proof fn lemma_point_eq_reflexive(a: Point)
    ensures
        a.eq_spec(&a),
{
}

/// Equality of points is symmetric.
pub proof fn lemma_point_eq_symmetric(a: Point, b: Point)
    requires
        a.eq_spec(&b),
    ensures
        b.eq_spec(&a),
{
}

/// Equality of points is transitive.
pub proof fn lemma_point_eq_transitive(a: Point, b: Point, c: Point)
    requires
        a.eq_spec(&b),
        b.eq_spec(&c),
    ensures
        a.eq_spec(&c),
{
}

/// Two points are equal exactly when both coordinates, cut to hundredths of
/// a unit, agree.
pub proof fn lemma_point_eq_is_same_cell(a: Point, b: Point)
    ensures
        a.eq_spec(&b) <==> trunc_div(a.x as int, 10) == trunc_div(b.x as int, 10) && trunc_div(
            a.y as int,
            10,
        ) == trunc_div(b.y as int, 10),
{
}

} // verus!
