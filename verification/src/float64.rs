//! Double-precision numbers held by their bit patterns.
use vstd::arithmetic::power2::{
    lemma2_to64, lemma_pow2_pos, lemma_pow2_strictly_increases, lemma_pow2_unfold, pow2,
};
use vstd::prelude::*;

verus! {

/// An IEEE 754 double, held as its bit pattern.
///
/// Two values are equal here when their bits are; [`Float64::lt`] and
/// [`Float64::ge`] compare them as numbers.
#[derive(Debug, Clone, Copy, PartialEq, Eq, Structural)]
pub struct Float64 {
    pub bits: u64,
}

/// The bits of positive infinity; a larger magnitude is a NaN.
pub const INFINITY_BITS: u64 = 0x7ff0_0000_0000_0000;

/// The sign bit.
pub const SIGN_BIT: u64 = 0x8000_0000_0000_0000;

impl Float64 {
    /// The bits without the sign.
    pub open spec fn magnitude(self) -> int {
        if self.bits >= SIGN_BIT {
            self.bits - SIGN_BIT
        } else {
            self.bits as int
        }
    }

    pub open spec fn is_nan(self) -> bool {
        self.magnitude() > INFINITY_BITS
    }

    /// A whole number that orders doubles as their values do: the magnitude bits of
    /// a positive number, their negation for a negative one. Both zeros have rank 0.
    pub open spec fn rank(self) -> int {
        if self.bits >= SIGN_BIT {
            -self.magnitude()
        } else {
            self.magnitude()
        }
    }

    /// `self < other` as numbers: false where either is a NaN.
    pub open spec fn lt_spec(self, other: Float64) -> bool {
        !self.is_nan() && !other.is_nan() && self.rank() < other.rank()
    }

    /// `self >= other` as numbers: false where either is a NaN.
    pub open spec fn ge_spec(self, other: Float64) -> bool {
        !self.is_nan() && !other.is_nan() && self.rank() >= other.rank()
    }

    fn is_not_a_number(&self) -> (r: bool)
        ensures
            r == self.is_nan(),
    {
        if self.bits >= SIGN_BIT {
            self.bits - SIGN_BIT > INFINITY_BITS
        } else {
            self.bits > INFINITY_BITS
        }
    }

    fn signed_rank(&self) -> (r: i64)
        ensures
            r == self.rank(),
    {
        if self.bits >= SIGN_BIT {
            -((self.bits - SIGN_BIT) as i64)
        } else {
            self.bits as i64
        }
    }

    pub fn lt(&self, other: &Float64) -> (r: bool)
        ensures
            r == self.lt_spec(*other),
    {
        !self.is_not_a_number() && !other.is_not_a_number() && self.signed_rank()
            < other.signed_rank()
    }

    pub fn ge(&self, other: &Float64) -> (r: bool)
        ensures
            r == self.ge_spec(*other),
    {
        !self.is_not_a_number() && !other.is_not_a_number() && self.signed_rank()
            >= other.signed_rank()
    }
}

/// The value of the finite double whose bits without the sign are `m`, in units of the
/// smallest positive double: the low 52 bits are the fraction, the others the exponent.
pub open spec fn unsigned_value(m: int) -> int {
    let exponent = m / 0x10_0000_0000_0000;
    let fraction = m % 0x10_0000_0000_0000;
    if exponent == 0 {
        fraction
    } else {
        (0x10_0000_0000_0000 + fraction) * pow2((exponent - 1) as nat)
    }
}

/// The value of a finite double, in units of the smallest positive double.
pub open spec fn value(v: Float64) -> int {
    if v.bits as int / 0x8000_0000_0000_0000 == 1 {
        -unsigned_value(v.bits as int % 0x8000_0000_0000_0000)
    } else {
        unsigned_value(v.bits as int)
    }
}

/// Whether the exponent of a double is not the largest, which stands for infinities and NaNs.
pub open spec fn is_finite(v: Float64) -> bool {
    v.bits as int % 0x8000_0000_0000_0000 < 0x7ff0_0000_0000_0000
}

proof fn lemma_value_increases(m: int, n: int)
    requires
        0 <= m < n < 0x7ff0_0000_0000_0000,
    ensures
        0 <= unsigned_value(m) < unsigned_value(n),
{
    let t: int = 0x10_0000_0000_0000;
    let e = m / t;
    let f = m % t;
    let g = n / t;
    let h = n % t;
    let u = unsigned_value(m);
    let v = unsigned_value(n);
    lemma2_to64();
    if e == g {
        if e > 0 {
            let k = pow2((e - 1) as nat);
            lemma_pow2_pos((e - 1) as nat);
            assert((t + f) * k < (t + h) * k) by (nonlinear_arith)
                requires
                    f < h,
                    k > 0,
            ;
            assert((t + f) * k >= 0) by (nonlinear_arith)
                requires
                    t + f >= 0,
                    k > 0,
            ;
        }
    } else {
        let k = pow2((g - 1) as nat);
        lemma_pow2_pos((g - 1) as nat);
        assert((t + h) * k >= t * k) by (nonlinear_arith)
            requires
                h >= 0,
                k > 0,
        ;
        assert(t * k >= t) by (nonlinear_arith)
            requires
                k >= 1,
                t > 0,
        ;
        if e > 0 {
            let j = pow2((e - 1) as nat);
            lemma_pow2_pos((e - 1) as nat);
            lemma_pow2_unfold(e as nat);
            if e < g - 1 {
                lemma_pow2_strictly_increases(e as nat, (g - 1) as nat);
            }
            assert(0 <= (t + f) * j < t * k) by (nonlinear_arith)
                requires
                    0 <= f < t,
                    t > 0,
                    j > 0,
                    2 * j <= k,
            ;
        }
    }
}

/// Finite doubles compare as their values do.
pub proof fn finite_doubles_compare_by_value(a: Float64, b: Float64)
    requires
        is_finite(a),
        is_finite(b),
    ensures
        a.lt_spec(b) <==> value(a) < value(b),
        a.ge_spec(b) <==> value(a) >= value(b),
        !a.is_nan(),
{
    let s: int = 0x8000_0000_0000_0000;
    let m = a.bits as int % s;
    let n = b.bits as int % s;
    assert(unsigned_value(0) == 0);
    if m < n {
        lemma_value_increases(m, n);
    }
    if n < m {
        lemma_value_increases(n, m);
    }
    if 0 < m {
        lemma_value_increases(0, m);
    }
    if 0 < n {
        lemma_value_increases(0, n);
    }
}

/// Infinities lie beyond all finite doubles, and a NaN compares with nothing.
pub proof fn infinities_and_nans_compare(a: Float64, b: Float64)
    requires
        is_finite(a),
        !is_finite(b),
    ensures
        b.bits == 0x7ff0_0000_0000_0000 ==> a.lt_spec(b) && !b.lt_spec(a) && b.ge_spec(a)
            && !a.ge_spec(b),
        b.bits == 0xfff0_0000_0000_0000 ==> b.lt_spec(a) && !a.lt_spec(b) && a.ge_spec(b)
            && !b.ge_spec(a),
        b.bits != 0x7ff0_0000_0000_0000 && b.bits != 0xfff0_0000_0000_0000 ==> b.is_nan()
            && forall|c: Float64|
            #![trigger b.lt_spec(c)]
            #![trigger c.lt_spec(b)]
            #![trigger b.ge_spec(c)]
            #![trigger c.ge_spec(b)]
            !b.lt_spec(c) && !c.lt_spec(b) && !b.ge_spec(c) && !c.ge_spec(b),
{
}

} // verus!
