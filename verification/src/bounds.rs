//! Axis-aligned bounding boxes.
use crate::float64::{finite_doubles_compare_by_value, is_finite, Float64};
use vstd::prelude::*;

verus! {

#[derive(Debug, Clone, Copy, PartialEq, Eq, Structural)]
pub struct Bounds {
    pub min_x: Float64,
    pub min_y: Float64,
    pub min_z: Float64,
    pub max_x: Float64,
    pub max_y: Float64,
    pub max_z: Float64,
}

/// The bits of the largest finite double.
pub const LARGEST_BITS: u64 = 0x7fef_ffff_ffff_ffff;

/// The bits of the smallest finite double.
pub const SMALLEST_BITS: u64 = 0xffef_ffff_ffff_ffff;

/// `v` where it is below `least`, else `least`.
pub open spec fn lower(least: Float64, v: Float64) -> Float64 {
    if v.lt_spec(least) {
        v
    } else {
        least
    }
}

/// `v` where it is above `most`, else `most`.
pub open spec fn upper(most: Float64, v: Float64) -> Float64 {
    if most.lt_spec(v) {
        v
    } else {
        most
    }
}

fn take_lower(least: &mut Float64, v: Float64)
    ensures
        *final(least) == lower(*old(least), v),
{
    if v.lt(least) {
        *least = v;
    }
}

fn take_upper(most: &mut Float64, v: Float64)
    ensures
        *final(most) == upper(*old(most), v),
{
    if most.lt(&v) {
        *most = v;
    }
}

impl Bounds {
    /// The box that no point lies in: its lower corner is the largest double, its
    /// upper corner the smallest.
    pub open spec fn empty_spec() -> Bounds {
        Bounds {
            min_x: Float64 { bits: LARGEST_BITS },
            min_y: Float64 { bits: LARGEST_BITS },
            min_z: Float64 { bits: LARGEST_BITS },
            max_x: Float64 { bits: SMALLEST_BITS },
            max_y: Float64 { bits: SMALLEST_BITS },
            max_z: Float64 { bits: SMALLEST_BITS },
        }
    }

    pub open spec fn expanded(self, x: Float64, y: Float64, z: Float64) -> Bounds {
        Bounds {
            min_x: lower(self.min_x, x),
            min_y: lower(self.min_y, y),
            min_z: lower(self.min_z, z),
            max_x: upper(self.max_x, x),
            max_y: upper(self.max_y, y),
            max_z: upper(self.max_z, z),
        }
    }

    pub open spec fn merged(self, other: Bounds) -> Bounds {
        Bounds {
            min_x: lower(self.min_x, other.min_x),
            min_y: lower(self.min_y, other.min_y),
            min_z: lower(self.min_z, other.min_z),
            max_x: upper(self.max_x, other.max_x),
            max_y: upper(self.max_y, other.max_y),
            max_z: upper(self.max_z, other.max_z),
        }
    }

    /// Whether no coordinate of the point lies outside the box.
    pub open spec fn covers(self, x: Float64, y: Float64, z: Float64) -> bool {
        &&& !x.lt_spec(self.min_x) && !self.max_x.lt_spec(x)
        &&& !y.lt_spec(self.min_y) && !self.max_y.lt_spec(y)
        &&& !z.lt_spec(self.min_z) && !self.max_z.lt_spec(z)
    }

    /// Whether all six limits are numbers.
    pub open spec fn is_number(self) -> bool {
        &&& !self.min_x.is_nan() && !self.max_x.is_nan()
        &&& !self.min_y.is_nan() && !self.max_y.is_nan()
        &&& !self.min_z.is_nan() && !self.max_z.is_nan()
    }

    pub fn empty() -> (r: Bounds)
        ensures
            r == Bounds::empty_spec(),
    {
        Bounds {
            min_x: Float64 { bits: LARGEST_BITS },
            min_y: Float64 { bits: LARGEST_BITS },
            min_z: Float64 { bits: LARGEST_BITS },
            max_x: Float64 { bits: SMALLEST_BITS },
            max_y: Float64 { bits: SMALLEST_BITS },
            max_z: Float64 { bits: SMALLEST_BITS },
        }
    }

    pub fn expand_with(&mut self, x: Float64, y: Float64, z: Float64)
        ensures
            *final(self) == old(self).expanded(x, y, z),
    {
        take_lower(&mut self.min_x, x);
        take_lower(&mut self.min_y, y);
        take_lower(&mut self.min_z, z);
        take_upper(&mut self.max_x, x);
        take_upper(&mut self.max_y, y);
        take_upper(&mut self.max_z, z);
    }

    pub fn merge(&mut self, other: &Bounds)
        ensures
            *final(self) == old(self).merged(*other),
    {
        take_lower(&mut self.min_x, other.min_x);
        take_lower(&mut self.min_y, other.min_y);
        take_lower(&mut self.min_z, other.min_z);
        take_upper(&mut self.max_x, other.max_x);
        take_upper(&mut self.max_y, other.max_y);
        take_upper(&mut self.max_z, other.max_z);
    }
}

/// The empty box has numbers for its limits, and growing a box keeps it so.
pub proof fn limits_stay_numbers(b: Bounds, x: Float64, y: Float64, z: Float64, other: Bounds)
    requires
        b.is_number(),
    ensures
        Bounds::empty_spec().is_number(),
        b.expanded(x, y, z).is_number(),
        b.merged(other).is_number(),
{
}

/// A box that was expanded with a point covers it, and still covers whatever it
/// covered before.
pub proof fn expanded_covers(
    b: Bounds,
    x: Float64,
    y: Float64,
    z: Float64,
    px: Float64,
    py: Float64,
    pz: Float64,
)
    requires
        b.is_number(),
    ensures
        b.expanded(x, y, z).covers(x, y, z),
        b.covers(px, py, pz) ==> b.expanded(x, y, z).covers(px, py, pz),
{
}

/// A merged box covers whatever either of the two covers.
pub proof fn merged_covers(a: Bounds, b: Bounds, px: Float64, py: Float64, pz: Float64)
    requires
        a.is_number(),
        b.is_number(),
    ensures
        a.covers(px, py, pz) || b.covers(px, py, pz) ==> a.merged(b).covers(px, py, pz),
{
}

/// A box grows no further than it must: each limit of an expanded box is the former limit or
/// the point's coordinate, the latter exactly where the point lies outside on that side.
pub proof fn expanded_is_tight(b: Bounds, x: Float64, y: Float64, z: Float64)
    ensures
        ({
            let e = b.expanded(x, y, z);
            &&& e.min_x == if x.lt_spec(b.min_x) {
                x
            } else {
                b.min_x
            }
            &&& e.min_y == if y.lt_spec(b.min_y) {
                y
            } else {
                b.min_y
            }
            &&& e.min_z == if z.lt_spec(b.min_z) {
                z
            } else {
                b.min_z
            }
            &&& e.max_x == if b.max_x.lt_spec(x) {
                x
            } else {
                b.max_x
            }
            &&& e.max_y == if b.max_y.lt_spec(y) {
                y
            } else {
                b.max_y
            }
            &&& e.max_z == if b.max_z.lt_spec(z) {
                z
            } else {
                b.max_z
            }
        }),
{
}

/// Each limit of a merged box is that of one of the two, the other's exactly where it lies
/// further out.
pub proof fn merged_is_tight(a: Bounds, b: Bounds)
    ensures
        ({
            let e = a.merged(b);
            &&& e.min_x == if b.min_x.lt_spec(a.min_x) {
                b.min_x
            } else {
                a.min_x
            }
            &&& e.min_y == if b.min_y.lt_spec(a.min_y) {
                b.min_y
            } else {
                a.min_y
            }
            &&& e.min_z == if b.min_z.lt_spec(a.min_z) {
                b.min_z
            } else {
                a.min_z
            }
            &&& e.max_x == if a.max_x.lt_spec(b.max_x) {
                b.max_x
            } else {
                a.max_x
            }
            &&& e.max_y == if a.max_y.lt_spec(b.max_y) {
                b.max_y
            } else {
                a.max_y
            }
            &&& e.max_z == if a.max_z.lt_spec(b.max_z) {
                b.max_z
            } else {
                a.max_z
            }
        }),
{
}

/// The empty box expanded with one finite point is that point.
pub proof fn first_point_makes_the_box(x: Float64, y: Float64, z: Float64)
    requires
        is_finite(x),
        is_finite(y),
        is_finite(z),
    ensures
        ({
            let b = Bounds::empty_spec().expanded(x, y, z);
            &&& b.min_x == x && b.max_x == x
            &&& b.min_y == y && b.max_y == y
            &&& b.min_z == z && b.max_z == z
        }),
{
    finite_doubles_compare_by_value(x, y);
    finite_doubles_compare_by_value(z, x);
    finite_doubles_compare_by_value(y, x);
}

} // verus!
