//! Distances and positions.
//!
//! A distance is a whole number of raw units, 1024 to the meter, as in
//! `umwelt::Fixed`. The conversions and the geometry are umwelt's own; each is
//! called here through one wrapper whose contract says what it computes.

use umwelt::{DistSq, Fixed};
use vstd::prelude::*;

verus! {

/// The largest number of whole meters that raw units can hold.
pub const MAX_METERS: i32 = 2_097_151;

/// A horizontal position, in raw units.
#[derive(Clone, Copy, Debug, PartialEq, Eq, Structural)]
pub struct Pos2 {
    /// East.
    pub x: i32,
    /// North.
    pub y: i32,
}

/// A position, in raw units.
#[derive(Clone, Copy, Debug, PartialEq, Eq, Structural)]
pub struct Pos3 {
    /// East.
    pub x: i32,
    /// North.
    pub y: i32,
    /// Up.
    pub z: i32,
}

/// Division that drops the remainder, as the machine divides.
pub open spec fn trunc_div(a: int, b: int) -> int {
    if a >= 0 {
        a / b
    } else {
        -((-a) / b)
    }
}

/// `v` held inside `lo..=hi`.
pub open spec fn clamped(v: int, lo: int, hi: int) -> int {
    if v < lo {
        lo
    } else if v > hi {
        hi
    } else {
        v
    }
}

/// The square of the distance between two positions.
pub open spec fn separation(a: Pos2, b: Pos2) -> int {
    (a.x - b.x) * (a.x - b.x) + (a.y - b.y) * (a.y - b.y)
}

/// `r` is the square root of `d`, rounded down.
pub open spec fn is_root(r: int, d: int) -> bool {
    &&& 0 <= r
    &&& r * r <= d
    &&& d < (r + 1) * (r + 1)
}

/// The square root of `d`, rounded down.
pub open spec fn root(d: int) -> int {
    choose|r: int| is_root(r, d)
}

/// Raw units in `m` whole meters: `Fixed::from_meters`, which multiplies by
/// 1024. It overflows past [`MAX_METERS`], so those are left out.
#[verifier::external_body]
pub(crate) fn meters(m: i32) -> (raw: i32)
    requires
        -MAX_METERS <= m <= MAX_METERS,
    ensures
        raw == m * 1024,
{
    Fixed::from_meters(m).raw()
}

/// Raw units in `m` meters and `mm` thousandths: `Fixed::from_millimeters`,
/// which scales the two apart and rounds the thousandths toward zero.
#[verifier::external_body]
pub(crate) fn millimeters(m: i32, mm: i32) -> (raw: i32)
    requires
        -1_000_000 <= m <= 1_000_000,
        -1_000_000 <= mm <= 1_000_000,
    ensures
        raw == m * 1024 + trunc_div(mm * 1024, 1000),
{
    Fixed::from_millimeters(m, mm).raw()
}

/// Whole meters in a raw distance, rounded down: `Fixed::floor_meters`, an
/// arithmetic shift by ten bits.
#[verifier::external_body]
pub(crate) fn floor_meters(raw: i32) -> (m: i32)
    ensures
        m == raw as int / 1024,
{
    Fixed::from_raw(raw).floor_meters()
}

/// The squared separation of two positions: `Pos2::dist_sq`. The squares are
/// summed in 64 signed bits, so a pair too far apart for that is left out.
#[verifier::external_body]
pub(crate) fn dist_sq(a: Pos2, b: Pos2) -> (d: u64)
    requires
        separation(a, b) <= i64::MAX,
    ensures
        d == separation(a, b),
{
    let from = umwelt::Pos2::new(Fixed::from_raw(a.x), Fixed::from_raw(a.y));
    let to = umwelt::Pos2::new(Fixed::from_raw(b.x), Fixed::from_raw(b.y));
    from.dist_sq(to).raw()
}

/// The square of a radius, to hold against a squared separation:
/// `DistSq::from_radius`.
#[verifier::external_body]
pub(crate) fn radius_sq(r: i32) -> (d: u64)
    ensures
        d == r * r,
{
    DistSq::from_radius(Fixed::from_raw(r)).raw()
}

/// The distance a squared separation stands for: `DistSq::sqrt_approx`, the
/// integer square root by Newton's method, rounded down. The root is narrowed to
/// 32 bits, so a square whose root does not fit is left out.
#[verifier::external_body]
pub(crate) fn sqrt_approx(d: u64) -> (r: i32)
    requires
        d < 0x4000_0000_0000_0000,
    ensures
        is_root(r as int, d as int),
{
    DistSq::from_raw(d).sqrt_approx().raw()
}

/// A square root, rounded down, is unique: whatever [`is_root`] accepts is
/// [`root`].
pub(crate) proof fn root_is_unique(r: int, d: int)
    requires
        is_root(r, d),
    ensures
        r == root(d),
{
    let s = root(d);
    assert(is_root(s, d));
    if r < s {
        assert((r + 1) * (r + 1) <= s * s) by (nonlinear_arith)
            requires
                0 <= r,
                r + 1 <= s,
        ;
    }
    if s < r {
        assert((s + 1) * (s + 1) <= r * r) by (nonlinear_arith)
            requires
                0 <= s,
                s + 1 <= r,
        ;
    }
}

/// Every number from zero up has a square root, rounded down.
pub(crate) proof fn a_root_exists(d: int)
    requires
        0 <= d,
    ensures
        is_root(root(d), d),
    decreases d,
{
    if d == 0 {
        assert(is_root(0, 0));
    } else {
        a_root_exists(d - 1);
        let r = root(d - 1);
        if d < (r + 1) * (r + 1) {
            assert(is_root(r, d));
        } else {
            assert((r + 2) * (r + 2) == (r + 1) * (r + 1) + 2 * r + 3) by (nonlinear_arith);
            assert(is_root(r + 1, d));
        }
    }
}

/// A share of a whole is no more than the whole, and neither is as many of the
/// shares as there are.
pub(crate) proof fn a_share_fits(whole: int, parts: int)
    requires
        0 <= whole,
        0 < parts,
    ensures
        0 <= whole / parts <= whole,
        0 <= (whole / parts) * parts <= whole,
{
    assert(0 <= whole / parts <= whole && 0 <= (whole / parts) * parts <= whole)
        by (nonlinear_arith)
        requires
            0 <= whole,
            0 < parts,
    ;
}

impl Pos2 {
    /// Lifts to a height.
    pub fn at_height(self, z: i32) -> (p: Pos3)
        ensures
            p == (Pos3 { x: self.x, y: self.y, z }),
    {
        Pos3 { x: self.x, y: self.y, z }
    }
}

} // verus!
