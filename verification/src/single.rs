//! IEEE 754 single-precision numbers, by their bits.
//!
//! Request parameters are singles. What the scheduler asks of them is only how they compare with
//! fixed values, which is a statement over the bits.

use vstd::arithmetic::power2::*;
use vstd::prelude::*;

verus! {

/// A single, by its bits.
#[derive(Clone, Copy, PartialEq, Eq, Structural, Debug)]
pub struct Single {
    pub bits: u32,
}

/// Bit pattern of positive infinity; a larger magnitude is not a number.
pub const SINGLE_INFINITY: u32 = 0x7F80_0000;

/// Weight of the sign bit.
pub const SINGLE_SIGN: u32 = 0x8000_0000;

/// Bits of `1.0`.
pub const ONE_BITS: u32 = 0x3F80_0000;

/// Bits of the single nearest to `1e-6`.
pub const MICRO_BITS: u32 = 0x3586_37BD;

/// Bits of the single nearest to `3.55`.
pub const TAU_BITS: u32 = 0x4063_3333;

impl Single {
    /// The bits below the sign.
    pub open spec fn magnitude(self) -> int {
        self.bits as int % (SINGLE_SIGN as int)
    }

    pub open spec fn nan(self) -> bool {
        self.magnitude() > SINGLE_INFINITY
    }

    /// Place in the order of singles. Both zeros have place 0.
    pub open spec fn rank(self) -> int {
        if self.bits < SINGLE_SIGN {
            self.magnitude()
        } else {
            -self.magnitude()
        }
    }

    /// `self < other`; false where one of them is not a number.
    pub open spec fn lt(self, other: Single) -> bool {
        !self.nan() && !other.nan() && self.rank() < other.rank()
    }

    pub fn is_nan(self) -> (r: bool)
        ensures
            r == self.nan(),
    {
        self.bits % SINGLE_SIGN > SINGLE_INFINITY
    }

    pub fn less(self, other: Single) -> (r: bool)
        ensures
            r == self.lt(other),
    {
        if self.is_nan() || other.is_nan() {
            return false;
        }
        let a: u32 = self.bits % SINGLE_SIGN;
        let b: u32 = other.bits % SINGLE_SIGN;
        if self.bits < SINGLE_SIGN {
            if other.bits < SINGLE_SIGN {
                a < b
            } else {
                false
            }
        } else if other.bits < SINGLE_SIGN {
            a != 0 || b != 0
        } else {
            b < a
        }
    }
}

/// Weight of the lowest exponent bit: a fraction has 23 bits.
pub const FRACTION: u32 = 0x80_0000;

/// Exponent field of a number in `[0.5, 1)`.
pub const HALF_EXPONENT: u32 = 126;

impl Single {
    /// Size of a finite single, in units of the smallest positive one, which is two to the -149th.
    pub open spec fn units(self) -> int {
        let e = self.magnitude() / FRACTION as int;
        let f = self.magnitude() % FRACTION as int;
        if e == 0 {
            f
        } else {
            (FRACTION + f) * pow2((e - 1) as nat)
        }
    }
}

/// Bits of `v` over two to the 24th, scaled up until the leading bit stands where it belongs.
/// `e` is the exponent field that goes with `v`.
pub open spec fn scaled(v: int, e: int) -> int
    decreases e,
{
    if v >= FRACTION || e <= 1 {
        e * FRACTION + (v - FRACTION)
    } else {
        scaled(2 * v, e - 1)
    }
}

/// The single `m` over two to the 24th.
pub open spec fn unit_of(m: int) -> Single {
    if m == 0 {
        Single { bits: 0 }
    } else {
        Single { bits: scaled(m, HALF_EXPONENT as int) as u32 }
    }
}

/// Scaling keeps the value: the bits stand for `v` times two to the `e - 1`st power.
proof fn lemma_scaled(v: int, e: int)
    requires
        0 < v < 2 * FRACTION,
        103 <= e <= HALF_EXPONENT,
        v >= pow2((HALF_EXPONENT - e) as nat),
    ensures
        103 * FRACTION <= scaled(v, e) < 127 * FRACTION,
        (FRACTION + scaled(v, e) % (FRACTION as int)) * pow2(
            (scaled(v, e) / (FRACTION as int) - 1) as nat,
        ) == v * pow2((e - 1) as nat),
    decreases e,
{
    if v >= FRACTION {
        let b = scaled(v, e);
        let f = v - FRACTION;
        assert(b / (FRACTION as int) == e && b % (FRACTION as int) == f) by (nonlinear_arith)
            requires
                b == e * FRACTION + f,
                0 <= f < FRACTION,
        ;
        assert(103 * FRACTION <= b < 127 * FRACTION) by (nonlinear_arith)
            requires
                b == e * FRACTION + f,
                0 <= f < FRACTION,
                103 <= e <= 126,
        ;
    } else {
        lemma2_to64();
        assert(e != 103);
        lemma_pow2_unfold((HALF_EXPONENT - e + 1) as nat);
        lemma_pow2_unfold((e - 1) as nat);
        lemma_scaled(2 * v, e - 1);
        let p = pow2((e - 2) as nat) as int;
        assert((2 * v) * p == v * (2 * p)) by (nonlinear_arith);
    }
}

/// `m` over two to the 24th has the value that its name says: `m` times two to the 125th in units
/// of two to the -149th.
pub proof fn law_unit_is_exact(m: int)
    requires
        0 <= m < 2 * FRACTION,
    ensures
        unit_of(m).units() == m * pow2(125),
        !unit_of(m).nan(),
        unit_of(m).bits < SINGLE_SIGN,
{
    if m > 0 {
        lemma2_to64();
        lemma_scaled(m, HALF_EXPONENT as int);
        let b = scaled(m, HALF_EXPONENT as int);
        assert(b / (FRACTION as int) >= 103) by (nonlinear_arith)
            requires
                103 * FRACTION <= b,
        ;
    }
}

/// Positive finite singles are ordered by their values.
pub proof fn law_order_is_by_value(a: Single, b: Single)
    requires
        a.bits < SINGLE_INFINITY,
        b.bits < SINGLE_INFINITY,
    ensures
        a.lt(b) <==> a.units() < b.units(),
{
    if a.bits < b.bits {
        lemma_units_grow(a, b);
    } else if b.bits < a.bits {
        lemma_units_grow(b, a);
    }
}

proof fn lemma_units_grow(a: Single, b: Single)
    requires
        a.bits < b.bits < SINGLE_INFINITY,
    ensures
        a.units() < b.units(),
{
    let ea = a.magnitude() / (FRACTION as int);
    let eb = b.magnitude() / (FRACTION as int);
    let fa = a.magnitude() % (FRACTION as int);
    let fb = b.magnitude() % (FRACTION as int);
    lemma2_to64();
    if eb > 0 {
        lemma_pow2_pos((eb - 1) as nat);
    }
    if ea == eb {
        if ea > 0 {
            let p = pow2((ea - 1) as nat) as int;
            assert((FRACTION + fa) * p < (FRACTION + fb) * p) by (nonlinear_arith)
                requires
                    fa < fb,
                    p > 0,
            ;
        }
    } else {
        assert(ea < eb);
        let p = pow2((eb - 1) as nat) as int;
        assert((FRACTION + fb) * p >= FRACTION * p) by (nonlinear_arith)
            requires
                fb >= 0,
                p > 0,
        ;
        if ea == 0 {
            assert(FRACTION * p >= FRACTION) by (nonlinear_arith)
                requires
                    p > 0,
            ;
        } else {
            let q = pow2((ea - 1) as nat) as int;
            lemma_pow2_pos((ea - 1) as nat);
            lemma_pow2_unfold(ea as nat);
            if ea < eb - 1 {
                lemma_pow2_strictly_increases(ea as nat, (eb - 1) as nat);
            }
            assert((FRACTION + fa) * q < FRACTION * p) by (nonlinear_arith)
                requires
                    p >= 2 * q,
                    q > 0,
                    0 <= fa < FRACTION,
            ;
        }
    }
}

impl Single {
    /// `m` over two to the 24th.
    pub fn unit(m: u32) -> (r: Single)
        requires
            m < 2 * FRACTION,
        ensures
            r == unit_of(m as int),
    {
        if m == 0 {
            return Single { bits: 0 };
        }
        let mut v: u32 = m;
        let mut e: u32 = HALF_EXPONENT;
        proof {
            lemma2_to64();
            lemma_scaled(m as int, e as int);
        }
        while v < FRACTION
            invariant
                0 < v < 2 * FRACTION,
                103 <= e <= HALF_EXPONENT,
                v >= pow2((HALF_EXPONENT - e) as nat),
                scaled(v as int, e as int) == scaled(m as int, HALF_EXPONENT as int),
            decreases e,
        {
            proof {
                lemma2_to64();
                lemma_pow2_unfold((HALF_EXPONENT - e + 1) as nat);
            }
            v = 2 * v;
            e = e - 1;
        }
        Single { bits: e * FRACTION + (v - FRACTION) }
    }

    /// The smaller of the single and one; one where it is not a number.
    pub fn min_one(self) -> (r: Single)
        ensures
            r == self.at_most_one(),
    {
        if self.less(Single { bits: ONE_BITS }) {
            self
        } else {
            Single { bits: ONE_BITS }
        }
    }

    /// The smaller of the single and one; one where it is not a number.
    pub open spec fn at_most_one(self) -> Single {
        if self.lt(Single { bits: ONE_BITS }) {
            self
        } else {
            Single { bits: ONE_BITS }
        }
    }
}


/// The number that a finite single stands for, in units of the smallest positive one.
pub open spec fn number_of(s: Single) -> int {
    if s.bits < 0x8000_0000 {
        s.units()
    } else {
        -s.units()
    }
}

proof fn lemma_units_of_magnitude(s: Single)
    requires
        s.magnitude() < SINGLE_INFINITY,
    ensures
        s.units() == (Single { bits: s.magnitude() as u32 }).units(),
        s.units() >= 0,
        s.units() == 0 <==> s.magnitude() == 0,
{
    let m = Single { bits: s.magnitude() as u32 };
    assert(m.magnitude() == s.magnitude());
    let zero = Single { bits: 0 };
    assert(zero.units() == 0);
    if m.bits > 0 {
        lemma_units_grow(zero, m);
    }
}

/// Finite singles compare as the numbers that they stand for, whatever their signs.
pub proof fn law_singles_compare_as_numbers(a: Single, b: Single)
    requires
        a.magnitude() < SINGLE_INFINITY,
        b.magnitude() < SINGLE_INFINITY,
    ensures
        a.lt(b) == (number_of(a) < number_of(b)),
        !a.nan(),
        !b.nan(),
{
    lemma_units_of_magnitude(a);
    lemma_units_of_magnitude(b);
    let (x, y) = (Single { bits: a.magnitude() as u32 }, Single { bits: b.magnitude() as u32 });
    if x.bits < y.bits {
        lemma_units_grow(x, y);
    } else if y.bits < x.bits {
        lemma_units_grow(y, x);
    }
}

/// What is not a number is below nothing, and nothing is below it.
pub proof fn law_what_is_no_number_does_not_compare(a: Single, b: Single)
    requires
        a.nan() || b.nan(),
    ensures
        !a.lt(b),
        !b.lt(a),
{
}

/// The fixed values are what their names say, in units of two to the -149th.
pub proof fn law_fixed_values()
    ensures
        number_of(Single { bits: ONE_BITS }) == pow2(149),
        number_of(Single { bits: 0 }) == 0,
        1_000_000 * number_of(Single { bits: MICRO_BITS }) - pow2(149) < 1_000_000 * pow2(106),
        pow2(149) - 1_000_000 * number_of(Single { bits: MICRO_BITS }) < 1_000_000 * pow2(106),
        100 * number_of(Single { bits: TAU_BITS }) - 355 * pow2(149) < 100 * pow2(127),
        355 * pow2(149) - 100 * number_of(Single { bits: TAU_BITS }) < 100 * pow2(127),
{
    lemma2_to64();
    let one = Single { bits: ONE_BITS };
    let micro = Single { bits: MICRO_BITS };
    let tau = Single { bits: TAU_BITS };
    assert(one.units() == 0x80_0000 * pow2(126));
    lemma_pow2_adds(23, 126);
    assert(micro.units() == (0x80_0000 + 0x06_37BD) * pow2(106));
    assert(tau.units() == (0x80_0000 + 0x63_3333) * pow2(127));
    lemma_pow2_adds(43, 106);
    lemma_pow2_adds(22, 127);
    let p = pow2(106) as int;
    let q = pow2(127) as int;
    lemma_pow2_pos(106);
    lemma_pow2_pos(127);
    lemma_pow2_adds(21, 22);
    assert(pow2(22) == 0x40_0000);
    assert(1_000_000 * (0x86_37BD * p) - 0x800_0000_0000 * p < 1_000_000 * p && 0x800_0000_0000 * p
        - 1_000_000 * (0x86_37BD * p) < 1_000_000 * p) by (nonlinear_arith)
        requires
            p > 0,
    ;
    assert(100 * (0xE3_3333 * q) - 355 * (0x40_0000 * q) < 100 * q && 355 * (0x40_0000 * q) - 100 * (
    0xE3_3333 * q) < 100 * q) by (nonlinear_arith)
        requires
            q > 0,
    ;
}

/// The smaller of a number and one is at most either, and one of them.
pub proof fn law_at_most_one(a: Single)
    requires
        a.magnitude() < SINGLE_INFINITY,
    ensures
        number_of(a.at_most_one()) <= number_of(a),
        number_of(a.at_most_one()) <= pow2(149),
        a.at_most_one() == a || number_of(a.at_most_one()) == pow2(149),
{
    law_fixed_values();
    law_singles_compare_as_numbers(a, Single { bits: ONE_BITS });
}


/// `m` over two to the 24th is finite.
pub proof fn lemma_unit_is_finite(m: int)
    requires
        0 <= m < 2 * FRACTION,
    ensures
        unit_of(m).magnitude() < SINGLE_INFINITY,
{
    if m > 0 {
        lemma2_to64();
        lemma_scaled(m, HALF_EXPONENT as int);
    }
}

} // verus!
