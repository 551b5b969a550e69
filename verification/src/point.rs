//! Integer grid points, ordered row-major.

use core::cmp::Ordering;
use vstd::prelude::*;
use vstd::std_specs::cmp::PartialOrdSpecImpl;

verus! {

/// A cell position or offset. Points are ordered by `(y, x)`: a point
/// comes before another if it lies on an earlier row, or on the same row
/// further left.
#[derive(Clone, Copy, Debug, PartialEq, Eq, Structural)]
pub struct Point {
    pub x: i32,
    pub y: i32,
}

impl Point {
    /// Strict row-major order.
    pub open spec fn before(self, other: Point) -> bool {
        self.y < other.y || (self.y == other.y && self.x < other.x)
    }

    /// The three-way comparison that `before` induces.
    pub open spec fn order(self, other: Point) -> Ordering {
        if self.before(other) {
            Ordering::Less
        } else if other.before(self) {
            Ordering::Greater
        } else {
            Ordering::Equal
        }
    }

    /// Decides `before`.
    pub fn is_before(&self, other: &Point) -> (r: bool)
        ensures
            r == self.before(*other),
    {
        self.y < other.y || (self.y == other.y && self.x < other.x)
    }
}

impl PartialOrdSpecImpl for Point {
    open spec fn obeys_partial_cmp_spec() -> bool {
        true
    }

    open spec fn partial_cmp_spec(&self, other: &Point) -> Option<Ordering> {
        Some(self.order(*other))
    }
}

impl PartialOrd for Point {
    fn partial_cmp(&self, other: &Point) -> (r: Option<Ordering>) {
        if self.is_before(other) {
            Some(Ordering::Less)
        } else if other.is_before(self) {
            Some(Ordering::Greater)
        } else {
            Some(Ordering::Equal)
        }
    }
}

/// The order is strict and total: of two different points exactly one
/// comes before the other, and no point comes before itself.
pub proof fn lemma_before_total(a: Point, b: Point)
    ensures
        !a.before(a),
        a != b ==> (a.before(b) != b.before(a)),
        a == b ==> !a.before(b),
{
}

/// The order is transitive.
pub proof fn lemma_before_transitive(a: Point, b: Point, c: Point)
    requires
        a.before(b),
        b.before(c),
    ensures
        a.before(c),
{
}

} // verus!
