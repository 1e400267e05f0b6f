//! Line segments between points, compared without regard to direction, and
//! the angles between them in exact integer arithmetic.

use crate::point::Point;
use vstd::prelude::*;
use vstd::std_specs::cmp::PartialEqSpec;

verus! {

/// A 2D line segment defined by its start and end points.
#[derive(Clone, Copy, Debug)]
pub struct Segment {
    /// Start point
    pub a: Point,
    /// End point
    pub b: Point,
}

/// The angle from one vector to another, held as the cross product `sin` and
/// the dot product `cos` of the two: the sine and the cosine of the angle,
/// both scaled by the lengths of the vectors. Where either vector has no
/// length both are zero and there is no angle.
#[derive(Clone, Copy, Debug, PartialEq, Eq, Structural)]
pub struct Angle {
    pub sin: i64,
    pub cos: i64,
}

impl Angle {
    /// Where the angle lies on a full counter-clockwise turn that starts at
    /// zero: 0 for no turn at all, 1 for less than a half turn, 2 for the
    /// half turn, 3 for more than a half turn, 4 where there is no angle.
    pub open spec fn sector(self) -> int {
        if self.sin > 0 {
            1
        } else if self.sin < 0 {
            3
        } else if self.cos > 0 {
            0
        } else if self.cos < 0 {
            2
        } else {
            4
        }
    }

    /// There is an angle: neither vector was of no length.
    pub open spec fn is_defined(self) -> bool {
        self.sin != 0 || self.cos != 0
    }

    /// The angle is a turn to the left by less than a half turn.
    pub open spec fn is_left_turn(self) -> bool {
        self.sin > 0
    }

    /// `self`, taken counter-clockwise from zero up to a full turn, is
    /// smaller than `other`. Within the same half turn the angle with the
    /// larger cotangent is the smaller one. Where either is no angle neither
    /// is smaller.
    pub open spec fn precedes(self, other: Angle) -> bool {
        self.is_defined() && other.is_defined() && (self.sector() < other.sector() || (
        self.sector() == other.sector() && self.sin != 0 && self.cos * other.sin > other.cos
            * self.sin))
    }

    pub fn defined(&self) -> (b: bool)
        ensures
            b == self.is_defined(),
    {
        self.sin != 0 || self.cos != 0
    }

    /// Whether the angle is a turn to the left by less than a half turn.
    pub fn left_turn(&self) -> (b: bool)
        ensures
            b == self.is_left_turn(),
    {
        self.sin > 0
    }

    fn sector_number(&self) -> (s: u8)
        ensures
            s == self.sector(),
    {
        if self.sin > 0 {
            1
        } else if self.sin < 0 {
            3
        } else if self.cos > 0 {
            0
        } else if self.cos < 0 {
            2
        } else {
            4
        }
    }

    /// Whether `self`, taken counter-clockwise from zero up to a full turn,
    /// is smaller than `other`.
    pub fn less_than(&self, other: &Angle) -> (b: bool)
        ensures
            b == self.precedes(*other),
    {
        if !self.defined() || !other.defined() {
            return false;
        }
        let mine: u8 = self.sector_number();
        let theirs: u8 = other.sector_number();
        if mine != theirs {
            return mine < theirs;
        }
        if self.sin == 0 {
            return false;
        }
        proof {
            lemma_wide_product(self.cos as int, other.sin as int);
            lemma_wide_product(other.cos as int, self.sin as int);
        }
        let left: i128 = self.cos as i128 * other.sin as i128;
        let right: i128 = other.cos as i128 * self.sin as i128;
        left > right
    }
}

/// A slope in hundredths, rounded towards zero and kept within the range of
/// `i32`. A segment that runs straight up has the largest slope, one that
/// runs straight down the smallest, and one without length the slope 0.
pub open spec fn slope_in_hundredths(dx: int, dy: int) -> int {
    if dx == 0 {
        if dy > 0 {
            i32::MAX as int
        } else if dy < 0 {
            i32::MIN as int
        } else {
            0
        }
    } else {
        let q = if (dy >= 0) == (dx > 0) {
            abs(dy * 100) / abs(dx)
        } else {
            -(abs(dy * 100) / abs(dx))
        };
        if q > i32::MAX {
            i32::MAX as int
        } else if q < i32::MIN {
            i32::MIN as int
        } else {
            q
        }
    }
}

pub open spec fn abs(v: int) -> int {
    if v >= 0 {
        v
    } else {
        -v
    }
}

impl Segment {
    pub fn new(a: Point, b: Point) -> (s: Segment)
        ensures
            s.a == a,
            s.b == b,
    {
        Segment { a, b }
    }

    /// The vector from start to end, in thousandths of a unit.
    pub open spec fn vector(self) -> (int, int) {
        (self.b.x - self.a.x, self.b.y - self.a.y)
    }

    /// The vector from the cell of the start point to the cell of the end
    /// point on the precision grid, in hundredths of a unit.
    pub open spec fn heading(self) -> (int, int) {
        (
            self.b.hashable().0 - self.a.hashable().0,
            self.b.hashable().1 - self.a.hashable().1,
        )
    }

    /// The segment with start and end exchanged.
    pub open spec fn reversed(self) -> Segment {
        Segment { a: self.b, b: self.a }
    }

    /// Rise over run in hundredths, cut off towards zero, so that similar
    /// slopes are the same slope.
    pub open spec fn slope_correlate(self) -> int {
        slope_in_hundredths(self.vector().0, self.vector().1)
    }

    /// The angle from the heading of `self` to the heading of `other`.
    pub open spec fn angle_to(self, other: Segment) -> Angle {
        Angle {
            sin: (self.heading().0 * other.heading().1 - self.heading().1
                * other.heading().0) as i64,
            cos: (self.heading().0 * other.heading().0 + self.heading().1
                * other.heading().1) as i64,
        }
    }

    /// What a segment is told apart by: the cells of its two end points on
    /// the precision grid, the one that comes first by x and then by y in
    /// front.
    pub open spec fn key(self) -> ((i32, i32), (i32, i32)) {
        let p = self.a.hashable();
        let q = self.b.hashable();
        if p.0 > q.0 || (p.0 == q.0 && p.1 > q.1) {
            (q, p)
        } else {
            (p, q)
        }
    }

    /// The two segments join the same two cells of the precision grid, in
    /// the same or in opposite directions.
    pub open spec fn overlaps(self, other: Segment) -> bool {
        (self.a.same_cell(other.a) && self.b.same_cell(other.b)) || (self.a.same_cell(other.b)
            && self.b.same_cell(other.a))
    }

    /// The vector from start to end, in thousandths of a unit.
    pub fn as_vec2(&self) -> (v: (i64, i64))
        ensures
            v.0 == self.vector().0,
            v.1 == self.vector().1,
    {
        (self.b.x as i64 - self.a.x as i64, self.b.y as i64 - self.a.y as i64)
    }

    /// Returns the angle between `self` and `other`, both anchored at the
    /// origin: the turn that takes the heading of `self` to the heading of
    /// `other`.
    pub fn angle_between(&self, other: &Segment) -> (angle: Angle)
        ensures
            angle == self.angle_to(*other),
            angle.sin == self.heading().0 * other.heading().1 - self.heading().1
                * other.heading().0,
            angle.cos == self.heading().0 * other.heading().0 + self.heading().1
                * other.heading().1,
    {
        let a: (i32, i32) = self.a.get_hashable();
        let b: (i32, i32) = self.b.get_hashable();
        let c: (i32, i32) = other.a.get_hashable();
        let d: (i32, i32) = other.b.get_hashable();
        let x1: i64 = b.0 as i64 - a.0 as i64;
        let y1: i64 = b.1 as i64 - a.1 as i64;
        let x2: i64 = d.0 as i64 - c.0 as i64;
        let y2: i64 = d.1 as i64 - c.1 as i64;
        proof {
            lemma_product_bound(x1 as int, y2 as int);
            lemma_product_bound(y1 as int, x2 as int);
            lemma_product_bound(x1 as int, x2 as int);
            lemma_product_bound(y1 as int, y2 as int);
        }
        Angle { sin: x1 * y2 - y1 * x2, cos: x1 * x2 + y1 * y2 }
    }

    /// Returns a segment with swapped start and end points.
    pub fn reverse(&self) -> (s: Segment)
        ensures
            s == self.reversed(),
    {
        Segment { a: self.b, b: self.a }
    }

    /// Limits precision so similar slopes are considered equal.
    pub fn get_slope_correlate(&self) -> (slope: i32)
        ensures
            slope == self.slope_correlate(),
    {
        let (dx, dy) = self.as_vec2();
        if dx == 0 {
            return if dy > 0 {
                i32::MAX
            } else if dy < 0 {
                i32::MIN
            } else {
                0
            };
        }
        let rise: i64 = dy * 100;
        let up: u64 = if rise >= 0 {
            rise as u64
        } else {
            (-rise) as u64
        };
        let along: u64 = if dx >= 0 {
            dx as u64
        } else {
            (-dx) as u64
        };
        let q: u64 = up / along;
        if (dy >= 0) == (dx > 0) {
            if q > i32::MAX as u64 {
                i32::MAX
            } else {
                q as i32
            }
        } else {
            if q > i32::MAX as u64 {
                i32::MIN
            } else {
                -(q as i32)
            }
        }
    }

    /// What the segment is told apart by; a segment and its reverse have the
    /// same key.
    pub fn get_hashable(&self) -> (k: ((i32, i32), (i32, i32)))
        ensures
            k == self.key(),
    {
        let p: (i32, i32) = self.a.get_hashable();
        let q: (i32, i32) = self.b.get_hashable();
        if p.0 > q.0 || (p.0 == q.0 && p.1 > q.1) {
            (q, p)
        } else {
            (p, q)
        }
    }
}

/// The product of two 64-bit numbers fits 128 bits.
proof fn lemma_wide_product(a: int, b: int)
    requires
        -0x8000_0000_0000_0000 <= a <= 0x8000_0000_0000_0000,
        -0x8000_0000_0000_0000 <= b <= 0x8000_0000_0000_0000,
    ensures
        -0x4000_0000_0000_0000_0000_0000_0000_0000 <= a * b
            <= 0x4000_0000_0000_0000_0000_0000_0000_0000,
{
    assert(-0x4000_0000_0000_0000_0000_0000_0000_0000 <= a * b
        <= 0x4000_0000_0000_0000_0000_0000_0000_0000) by (nonlinear_arith)
        requires
            -0x8000_0000_0000_0000 <= a <= 0x8000_0000_0000_0000,
            -0x8000_0000_0000_0000 <= b <= 0x8000_0000_0000_0000,
    ;
}

/// The product of two differences of coordinates on the precision grid
/// stays far inside the range of `i64`.
proof fn lemma_product_bound(a: int, b: int)
    requires
        -0x2000_0000 <= a <= 0x2000_0000,
        -0x2000_0000 <= b <= 0x2000_0000,
    ensures
        -0x400_0000_0000_0000 <= a * b <= 0x400_0000_0000_0000,
{
    assert(-0x400_0000_0000_0000 <= a * b <= 0x400_0000_0000_0000) by (nonlinear_arith)
        requires
            -0x2000_0000 <= a <= 0x2000_0000,
            -0x2000_0000 <= b <= 0x2000_0000,
    ;
}

impl PartialEq for Segment {
    /// Two segments are considered equal if they overlap completely (even if
    /// they are pointing in opposite directions).
    fn eq(&self, other: &Segment) -> (r: bool) {
        if self.a == other.a && self.b == other.b {
            return true;
        }
        self.a == other.b && self.b == other.a
    }
}

impl vstd::std_specs::cmp::PartialEqSpecImpl for Segment {
    open spec fn obeys_eq_spec() -> bool {
        true
    }

    open spec fn eq_spec(&self, other: &Segment) -> bool {
        self.overlaps(*other)
    }
}

impl Eq for Segment {

}

/// Equality of segments is reflexive.
pub proof fn lemma_segment_eq_reflexive(s: Segment)
    ensures
        s.eq_spec(&s),
{
}

/// Equality of segments is symmetric.
pub proof fn lemma_segment_eq_symmetric(s: Segment, t: Segment)
    requires
        s.eq_spec(&t),
    ensures
        t.eq_spec(&s),
{
}

/// Equality of segments is transitive.
pub proof fn lemma_segment_eq_transitive(s: Segment, t: Segment, u: Segment)
    requires
        s.eq_spec(&t),
        t.eq_spec(&u),
    ensures
        s.eq_spec(&u),
{
}

/// A segment equals its reverse, and the two have the same key.
pub proof fn lemma_segment_equals_reverse(s: Segment)
    ensures
        s.eq_spec(&s.reversed()),
        s.reversed().eq_spec(&s),
        s.key() == s.reversed().key(),
{
}

/// Two segments are equal exactly when they have the same key.
pub proof fn lemma_segment_eq_is_same_key(s: Segment, t: Segment)
    ensures
        s.eq_spec(&t) <==> s.key() == t.key(),
{
}

} // verus!
