//! IEEE 754 double-precision numbers, by their bits.
//!
//! Bounds of a schema are compared as doubles. The order of doubles is a short statement over
//! their bits: the sign bit and the magnitude of the rest.

use vstd::arithmetic::power2::*;
use vstd::prelude::*;

use crate::json_schema::numbers;

verus! {

/// A double, by its bits.
#[derive(Clone, Copy, PartialEq, Eq, Structural, Debug)]
pub struct Double {
    pub bits: u64,
}

/// Bit pattern of positive infinity; a larger magnitude is not a number.
pub const INFINITY_BITS: u64 = 0x7FF0_0000_0000_0000;

/// Weight of the sign bit.
pub const SIGN_BIT: u64 = 0x8000_0000_0000_0000;

impl Double {
    /// The bits below the sign.
    pub open spec fn magnitude(self) -> int {
        self.bits as int % (SIGN_BIT as int)
    }

    pub open spec fn nan(self) -> bool {
        self.magnitude() > INFINITY_BITS
    }

    /// Place in the order of doubles. Both zeros have place 0.
    pub open spec fn rank(self) -> int {
        if self.bits < SIGN_BIT {
            self.magnitude()
        } else {
            -self.magnitude()
        }
    }

    /// `self < other`; false where one of them is not a number.
    pub open spec fn lt(self, other: Double) -> bool {
        !self.nan() && !other.nan() && self.rank() < other.rank()
    }

    /// `self == other` as doubles.
    pub open spec fn same(self, other: Double) -> bool {
        !self.nan() && !other.nan() && self.rank() == other.rank()
    }

    pub open spec fn le(self, other: Double) -> bool {
        self.lt(other) || self.same(other)
    }

    pub fn is_nan(self) -> (r: bool)
        ensures
            r == self.nan(),
    {
        self.bits % SIGN_BIT > INFINITY_BITS
    }

    pub fn less(self, other: Double) -> (r: bool)
        ensures
            r == self.lt(other),
    {
        if self.is_nan() || other.is_nan() {
            return false;
        }
        let a: u64 = self.bits % SIGN_BIT;
        let b: u64 = other.bits % SIGN_BIT;
        if self.bits < SIGN_BIT {
            if other.bits < SIGN_BIT {
                a < b
            } else {
                false
            }
        } else if other.bits < SIGN_BIT {
            a != 0 || b != 0
        } else {
            b < a
        }
    }

    pub fn equals(self, other: Double) -> (r: bool)
        ensures
            r == self.same(other),
    {
        if self.is_nan() || other.is_nan() {
            return false;
        }
        let a: u64 = self.bits % SIGN_BIT;
        let b: u64 = other.bits % SIGN_BIT;
        if a == 0 && b == 0 {
            return true;
        }
        a == b && (self.bits < SIGN_BIT) == (other.bits < SIGN_BIT)
    }

    pub fn at_most(self, other: Double) -> (r: bool)
        ensures
            r == self.le(other),
    {
        self.less(other) || self.equals(other)
    }
}

/// The double that the decimal text `text` denotes, rounded to nearest; `None` where the text is
/// not a decimal number.
pub uninterp spec fn decimal_value(text: Seq<u8>) -> Option<Double>;

/// The double nearest to an integer.
pub uninterp spec fn int_value(i: i64) -> Option<Double>;

/// Parses a decimal number with `str::parse`.
///
/// Trusted: the result depends on the text alone, and every text of the JSON number grammar
/// denotes a double that is a number. What `Number::as_f64` gives first is thrown away: it only
/// makes `value` a double.
#[verifier::external_body]
pub(crate) fn parse_decimal(text: &Vec<u8>) -> (r: Option<Double>)
    ensures
        r == decimal_value(text@),
        numbers::number_text(text@) ==> r is Some && !r->0.nan(),
{
    let text = std::str::from_utf8(text).ok()?;
    let mut value = serde_json::Number::from(0u8).as_f64()?;
    value = text.parse().ok()?;
    Some(Double { bits: value.to_bits() })
}

/// The double nearest to `i`, by `serde_json::Number::as_f64`.
///
/// Trusted: the result depends on the integer alone, and is a number.
#[verifier::external_body]
pub(crate) fn int_double(i: i64) -> (r: Option<Double>)
    ensures
        r == int_value(i),
        r is Some && !r->0.nan(),
{
    serde_json::Number::from(i).as_f64().map(|value| Double { bits: value.to_bits() })
}


/// The number that the bits below the sign stand for, in units of the smallest positive double: a
/// fraction of 52 bits, and, where the exponent is not 0, a leading one, doubled for each further
/// step of the exponent.
pub open spec fn units(magnitude: int) -> int {
    let exponent = magnitude / 0x10_0000_0000_0000;
    let fraction = magnitude % 0x10_0000_0000_0000;
    if exponent == 0 {
        fraction
    } else {
        (0x10_0000_0000_0000 + fraction) * pow2((exponent - 1) as nat)
    }
}

/// The number that a finite double stands for, in units of the smallest positive one.
pub open spec fn number_of(d: Double) -> int {
    if d.bits < 0x8000_0000_0000_0000 {
        units(d.bits as int)
    } else {
        -units(d.bits - 0x8000_0000_0000_0000)
    }
}

proof fn lemma_units_grow(a: int, b: int)
    requires
        0 <= a < b,
    ensures
        0 <= units(a) < units(b),
{
    let one = 0x10_0000_0000_0000int;
    let (ea, fa) = (a / one, a % one);
    let (eb, fb) = (b / one, b % one);
    assert(ea <= eb);
    if ea > 0 {
        lemma_pow2_pos((ea - 1) as nat);
    }
    if eb > 0 {
        lemma_pow2_pos((eb - 1) as nat);
        let p = pow2((eb - 1) as nat) as int;
        assert(one <= (one + fb) * p) by (nonlinear_arith)
            requires
                one > 0,
                fb >= 0,
                p >= 1,
        ;
    }
    if ea == eb {
        assert(fa < fb);
        if ea > 0 {
            let p = pow2((ea - 1) as nat) as int;
            assert(0 <= (one + fa) * p < (one + fb) * p) by (nonlinear_arith)
                requires
                    one > 0,
                    0 <= fa < fb,
                    p >= 1,
            ;
        }
    } else if ea > 0 {
        let p = pow2((ea - 1) as nat) as int;
        let q = pow2((eb - 1) as nat) as int;
        lemma_pow2_adds((ea - 1) as nat, 1);
        lemma2_to64();
        assert(2 * p <= q) by {
            if ea < eb - 1 {
                lemma_pow2_strictly_increases(ea as nat, (eb - 1) as nat);
            }
        }
        assert(0 <= (one + fa) * p < one * (2 * p) <= (one + fb) * q) by (nonlinear_arith)
            requires
                one > 0,
                0 <= fa < one,
                0 <= fb,
                p >= 1,
                2 * p <= q,
        ;
    }
}

/// The order of doubles is the order of the numbers that they stand for.
pub proof fn law_doubles_compare_as_numbers(a: Double, b: Double)
    requires
        !a.nan(),
        !b.nan(),
    ensures
        a.lt(b) == (number_of(a) < number_of(b)),
        a.same(b) == (number_of(a) == number_of(b)),
        a.le(b) == (number_of(a) <= number_of(b)),
{
    let (x, y) = (a.magnitude(), b.magnitude());
    assert(a.bits >= SIGN_BIT ==> x == a.bits - SIGN_BIT);
    assert(b.bits >= SIGN_BIT ==> y == b.bits - SIGN_BIT);
    assert(units(0) == 0);
    if x > 0 {
        lemma_units_grow(0, x);
    }
    if y > 0 {
        lemma_units_grow(0, y);
    }
    if x < y {
        lemma_units_grow(x, y);
    } else if y < x {
        lemma_units_grow(y, x);
    }
}

/// What is not a number is neither below, above nor equal to anything.
pub proof fn law_what_is_no_number_does_not_compare(a: Double, b: Double)
    requires
        a.nan() || b.nan(),
    ensures
        !a.lt(b),
        !b.lt(a),
        !a.same(b),
        !a.le(b),
{
}

} // verus!
