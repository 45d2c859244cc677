//! Double-precision coordinates and parameters, held as their IEEE 754 bit
//! patterns. The library orders, compares and carries such values; it never
//! computes with them.
use vstd::prelude::*;

verus! {

pub const SIGN_BIT: u64 = 0x8000_0000_0000_0000;

/// The pattern of the number one.
pub const ONE_BITS: u64 = 0x3ff0_0000_0000_0000;

pub const INFINITY_BITS: u64 = 0x7ff0_0000_0000_0000;

/// A binary64 number, given by its bit pattern.
#[derive(Debug, Clone, Copy, PartialEq, Eq, Structural)]
pub struct Scalar {
    pub bits: u64,
}

impl Scalar {
    /// The pattern without its sign bit: it grows with the absolute value.
    pub open spec fn magnitude(self) -> int {
        if self.bits >= SIGN_BIT {
            self.bits - SIGN_BIT
        } else {
            self.bits as int
        }
    }

    pub open spec fn finite(self) -> bool {
        self.magnitude() < INFINITY_BITS
    }

    pub open spec fn nan(self) -> bool {
        self.magnitude() > INFINITY_BITS
    }

    /// Position on the number line; both zeros stand at 0.
    pub open spec fn rank(self) -> int {
        if self.bits >= SIGN_BIT {
            -self.magnitude()
        } else {
            self.magnitude()
        }
    }

    /// Position in the total order of all patterns: negative ones first, the
    /// negative zero just before the positive one.
    pub open spec fn total_rank(self) -> int {
        if self.bits >= SIGN_BIT {
            -1 - self.magnitude()
        } else {
            self.magnitude()
        }
    }

    pub open spec fn lt(self, other: Scalar) -> bool {
        !self.nan() && !other.nan() && self.rank() < other.rank()
    }

    pub open spec fn le(self, other: Scalar) -> bool {
        !self.nan() && !other.nan() && self.rank() <= other.rank()
    }

    pub open spec fn spec_zero() -> Scalar {
        Scalar { bits: 0 }
    }

    pub fn zero() -> (r: Scalar)
        ensures
            r == Scalar::spec_zero(),
    {
        Scalar { bits: 0 }
    }

    pub open spec fn spec_one() -> Scalar {
        Scalar { bits: ONE_BITS }
    }

    pub fn one() -> (r: Scalar)
        ensures
            r == Scalar::spec_one(),
    {
        Scalar { bits: ONE_BITS }
    }

    pub fn is_finite(&self) -> (r: bool)
        ensures
            r == self.finite(),
    {
        if self.bits >= SIGN_BIT {
            self.bits - SIGN_BIT < INFINITY_BITS
        } else {
            self.bits < INFINITY_BITS
        }
    }

    pub fn is_nan(&self) -> (r: bool)
        ensures
            r == self.nan(),
    {
        if self.bits >= SIGN_BIT {
            self.bits - SIGN_BIT > INFINITY_BITS
        } else {
            self.bits > INFINITY_BITS
        }
    }

    /// The absolute value: the same pattern without its sign.
    pub open spec fn spec_abs(self) -> Scalar {
        Scalar { bits: self.magnitude() as u64 }
    }

    pub fn abs(&self) -> (r: Scalar)
        ensures
            r == self.spec_abs(),
    {
        if self.bits >= SIGN_BIT {
            Scalar { bits: self.bits - SIGN_BIT }
        } else {
            Scalar { bits: self.bits }
        }
    }

    /// `self < other` on the number line; false when either is not a number.
    pub fn less(&self, other: &Scalar) -> (r: bool)
        ensures
            r == self.lt(*other),
    {
        if self.is_nan() || other.is_nan() {
            return false;
        }
        if self.bits >= SIGN_BIT {
            if other.bits >= SIGN_BIT {
                other.bits < self.bits
            } else {
                self.bits > SIGN_BIT || other.bits > 0
            }
        } else {
            other.bits < SIGN_BIT && self.bits < other.bits
        }
    }

    /// `self <= other` on the number line; false when either is not a number.
    pub fn at_most(&self, other: &Scalar) -> (r: bool)
        ensures
            r == self.le(*other),
    {
        if self.is_nan() || other.is_nan() {
            false
        } else {
            !other.less(self)
        }
    }

    /// The key by which the total order sorts.
    pub fn total_key(&self) -> (r: i64)
        ensures
            r == self.total_rank(),
    {
        if self.bits >= SIGN_BIT {
            -1 - ((self.bits - SIGN_BIT) as i64)
        } else {
            self.bits as i64
        }
    }
}

/// Finite and above zero.
pub open spec fn positive(value: Scalar) -> bool {
    value.finite() && Scalar::spec_zero().lt(value)
}

pub fn is_positive(value: &Scalar) -> (r: bool)
    ensures
        r == positive(*value),
{
    value.is_finite() && Scalar::zero().less(value)
}

/// The greatest value of a list, counting from zero; what is not a number is
/// passed over.
pub open spec fn greatest_from_zero(values: Seq<Scalar>) -> Scalar
    decreases values.len(),
{
    if values.len() == 0 {
        Scalar::spec_zero()
    } else {
        let rest = greatest_from_zero(values.drop_last());
        if rest.lt(values.last()) {
            values.last()
        } else {
            rest
        }
    }
}

pub fn greatest(values: &Vec<Scalar>) -> (r: Scalar)
    ensures
        r == greatest_from_zero(values@),
{
    let mut best = Scalar::zero();
    let mut k: usize = 0;
    while k < values.len()
        invariant
            k <= values.len(),
            best == greatest_from_zero(values@.take(k as int)),
        decreases values.len() - k,
    {
        if best.less(&values[k]) {
            best = values[k];
        }
        assert(values@.take(k + 1).drop_last() =~= values@.take(k as int));
        k += 1;
    }
    assert(values@.take(k as int) =~= values@);
    best
}

/// No value of the list lies above the greatest one.
pub proof fn greatest_bounds(values: Seq<Scalar>, k: int)
    requires
        0 <= k < values.len(),
    ensures
        !greatest_from_zero(values).lt(values[k]),
        !greatest_from_zero(values).nan(),
    decreases values.len(),
{
    if k < values.len() - 1 {
        greatest_bounds(values.drop_last(), k);
    } else if values.len() > 1 {
        greatest_bounds(values.drop_last(), 0);
    }
}

/// The total order tells distinct patterns apart.
pub proof fn total_rank_injective(a: Scalar, b: Scalar)
    ensures
        a.total_rank() == b.total_rank() <==> a == b,
{
}

/// On numbers, the total order refines the numeric one.
pub proof fn total_rank_refines(a: Scalar, b: Scalar)
    requires
        !a.nan(),
        !b.nan(),
    ensures
        a.lt(b) ==> a.total_rank() < b.total_rank(),
        a.total_rank() <= b.total_rank() ==> a.le(b),
{
}

/// Exactly one of three holds of two numbers: the one is less, the other is less, or each is
/// at most the other. Nothing holds of what is not a number.
pub proof fn numbers_compare(a: Scalar, b: Scalar)
    ensures
        a.nan() || b.nan() ==> !a.lt(b) && !a.le(b),
        !a.nan() && !b.nan() ==> (a.le(b) <==> !b.lt(a)),
        !a.nan() && !b.nan() ==> a.lt(b) || b.lt(a) || (a.le(b) && b.le(a)),
        a.lt(b) ==> a.le(b) && !b.le(a),
        !a.lt(a),
        a.le(a) <==> !a.nan(),
{
}

/// Comparisons run on from number to number.
pub proof fn comparisons_run_on(a: Scalar, b: Scalar, c: Scalar)
    ensures
        a.le(b) && b.le(c) ==> a.le(c),
        a.lt(b) && b.le(c) ==> a.lt(c),
        a.le(b) && b.lt(c) ==> a.lt(c),
{
}

/// Turning the sign round turns the order round.
pub proof fn signs_turn_the_order(a: Scalar, b: Scalar)
    requires
        a.bits < SIGN_BIT,
        b.bits < SIGN_BIT,
    ensures
        a.lt(b) <==> (Scalar { bits: (b.bits + SIGN_BIT) as u64 }).lt(Scalar { bits: (a.bits + SIGN_BIT) as u64 }),
        a.lt(b) && !b.nan() ==> a.bits < b.bits,
        !a.nan() ==> Scalar::spec_zero().le(a),
        !a.nan() ==> (Scalar { bits: (a.bits + SIGN_BIT) as u64 }).le(Scalar::spec_zero()),
{
}

/// Zero is below one, both are numbers, and infinity is above all finite ones.
pub proof fn zero_is_below_one(a: Scalar)
    requires
        a.finite(),
    ensures
        Scalar::spec_zero().lt(Scalar::spec_one()),
        Scalar::spec_one().finite(),
        !a.nan(),
        a.lt(Scalar { bits: INFINITY_BITS }),
        !(Scalar { bits: INFINITY_BITS }).finite() && !(Scalar { bits: INFINITY_BITS }).nan(),
        positive(a) <==> 0 < a.bits < SIGN_BIT,
{
}

/// The absolute value is not below zero. It is the number itself or the one of opposite
/// sign.
pub proof fn absolute_values_are_not_negative(a: Scalar)
    ensures
        a.spec_abs().bits < SIGN_BIT,
        a.spec_abs().bits == a.bits || a.spec_abs().bits + SIGN_BIT == a.bits,
        a.finite() == a.spec_abs().finite(),
        !a.nan() ==> a.le(a.spec_abs()) && Scalar::spec_zero().le(a.spec_abs()),
{
}

/// The greatest value is zero or one of the list.
pub proof fn greatest_is_listed(values: Seq<Scalar>)
    ensures
        greatest_from_zero(values) == Scalar::spec_zero() || values.contains(greatest_from_zero(values)),
        Scalar::spec_zero().le(greatest_from_zero(values)),
    decreases values.len(),
{
    if values.len() > 0 {
        greatest_is_listed(values.drop_last());
        let rest = greatest_from_zero(values.drop_last());
        if values.drop_last().contains(rest) {
            let k = choose|k: int| 0 <= k < values.drop_last().len() && values.drop_last()[k] == rest;
            assert(values[k] == rest);
        }
        assert(values.contains(values.last()));
    }
}

} // verus!
