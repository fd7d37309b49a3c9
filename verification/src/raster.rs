//! The two decisions of triangle fill that are made on whole pixels: which
//! pixels are looked at, and when a pixel counts as covered. The weights
//! themselves are computed in single precision by the caller.

use vstd::prelude::*;
use vstd::arithmetic::power2::*;
use vstd::arithmetic::div_mod::*;
use crate::binary32::Binary32;
use crate::binary32::lemma_div_of_negated;
use crate::vector::Vector3;

verus! {

/// A rectangle of pixels, both corners included.
#[derive(Clone, Copy, Debug, PartialEq, Eq)]
pub struct BoundingBox {
    pub min_x: i32,
    pub min_y: i32,
    pub max_x: i32,
    pub max_y: i32,
}

impl BoundingBox {
    pub open spec fn contains(self, x: int, y: int) -> bool {
        self.min_x <= x <= self.max_x && self.min_y <= y <= self.max_y
    }
}

/// The least of three values rounded down; a NaN among them is passed over.
pub open spec fn lower_bound(a: Binary32, b: Binary32, c: Binary32) -> int {
    a.least(b).least(c).floored()
}

/// The greatest of three values rounded up; a NaN among them is passed over.
pub open spec fn upper_bound(a: Binary32, b: Binary32, c: Binary32) -> int {
    a.greatest(b).greatest(c).ceiled()
}

/// The pixels around a triangle on the screen: from its least coordinates
/// rounded down to its greatest rounded up.
pub open spec fn bounding_box_spec(a: Vector3, b: Vector3, c: Vector3) -> BoundingBox {
    BoundingBox {
        min_x: lower_bound(a.x, b.x, c.x) as i32,
        min_y: lower_bound(a.y, b.y, c.y) as i32,
        max_x: upper_bound(a.x, b.x, c.x) as i32,
        max_y: upper_bound(a.y, b.y, c.y) as i32,
    }
}

/// A pixel is covered when none of its three barycentric weights is below
/// zero, so a pixel on an edge is covered. A weight that is a NaN covers
/// nothing.
pub open spec fn covers_spec(w0: Binary32, w1: Binary32, w2: Binary32) -> bool {
    w0.at_least_zero_spec() && w1.at_least_zero_spec() && w2.at_least_zero_spec()
}

fn least_of(a: Binary32, b: Binary32) -> (r: Binary32)
    ensures
        r == a.least(b),
{
    if a.is_nan() {
        b
    } else if b.is_nan() {
        a
    } else if b.lt(a) {
        b
    } else {
        a
    }
}

fn greatest_of(a: Binary32, b: Binary32) -> (r: Binary32)
    ensures
        r == a.greatest(b),
{
    if a.is_nan() {
        b
    } else if b.is_nan() {
        a
    } else if a.lt(b) {
        b
    } else {
        a
    }
}

/// Computes [`bounding_box_spec`]. Only `x` and `y` of the three points are read.
#[verifier::when_used_as_spec(bounding_box_spec)]
pub fn bounding_box(a: Vector3, b: Vector3, c: Vector3) -> (bb: BoundingBox)
    ensures
        bb == bounding_box_spec(a, b, c),
{
    BoundingBox {
        min_x: least_of(least_of(a.x, b.x), c.x).floor_to_i32(),
        min_y: least_of(least_of(a.y, b.y), c.y).floor_to_i32(),
        max_x: greatest_of(greatest_of(a.x, b.x), c.x).ceil_to_i32(),
        max_y: greatest_of(greatest_of(a.y, b.y), c.y).ceil_to_i32(),
    }
}

/// Computes [`covers_spec`].
#[verifier::when_used_as_spec(covers_spec)]
pub fn covers(w0: Binary32, w1: Binary32, w2: Binary32) -> (r: bool)
    ensures
        r == covers_spec(w0, w1, w2),
{
    w0.at_least_zero() && w1.at_least_zero() && w2.at_least_zero()
}

/// Rounding down and rounding up keep the order of values, and rounding
/// down never ends above rounding up.
pub proof fn lemma_rounding_is_monotone(a: Binary32, b: Binary32)
    requires
        !a.is_nan_spec(),
        !b.is_nan_spec(),
        a.scaled() <= b.scaled(),
    ensures
        a.floored() <= b.floored(),
        a.ceiled() <= b.ceiled(),
        a.floored() <= a.ceiled(),
{
    let unit = pow2(149) as int;
    lemma_pow2_pos(149);
    lemma_div_is_ordered(a.scaled(), b.scaled(), unit);
    lemma_div_is_ordered(-b.scaled(), -a.scaled(), unit);
    if a.scaled() >= 0 {
        lemma_div_of_negated(a.scaled(), unit);
    } else {
        lemma_div_of_negated(-a.scaled(), unit);
    }
}

/// The bounds enclose each of the three values that is a number: its
/// rounding down and its rounding up, and so every whole number between.
pub proof fn lemma_bounds_enclose(a: Binary32, b: Binary32, c: Binary32, p: Binary32)
    requires
        p == a || p == b || p == c,
        !p.is_nan_spec(),
    ensures
        lower_bound(a, b, c) <= p.floored() <= p.ceiled() <= upper_bound(a, b, c),
{
    let lo = a.least(b).least(c);
    let hi = a.greatest(b).greatest(c);
    lemma_rounding_is_monotone(lo, p);
    lemma_rounding_is_monotone(p, hi);
}

/// The bounding box holds every pixel between the rounding down and the
/// rounding up of a vertex whose coordinates are numbers.
pub proof fn lemma_box_holds_vertices(a: Vector3, b: Vector3, c: Vector3, p: Vector3, x: int, y: int)
    requires
        p == a || p == b || p == c,
        !p.x.is_nan_spec(),
        !p.y.is_nan_spec(),
        p.x.floored() <= x <= p.x.ceiled(),
        p.y.floored() <= y <= p.y.ceiled(),
    ensures
        bounding_box_spec(a, b, c).contains(x, y),
{
    lemma_bounds_enclose(a.x, b.x, c.x, p.x);
    lemma_bounds_enclose(a.y, b.y, c.y, p.y);
    lemma_bounds_fit(a.x, b.x, c.x);
    lemma_bounds_fit(a.y, b.y, c.y);
}

/// Both bounds are within the range of `i32`.
pub proof fn lemma_bounds_fit(a: Binary32, b: Binary32, c: Binary32)
    ensures
        i32::MIN <= lower_bound(a, b, c) <= i32::MAX,
        i32::MIN <= upper_bound(a, b, c) <= i32::MAX,
{
}

} // verus!
