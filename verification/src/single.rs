//! Numbers in IEEE 754 single precision, by their bits.
//!
//! The numbers come from outside: reading one from text and calculating with it is not done here.
//! What is done here is to compare such numbers and to take the whole part of a small one.
use vstd::arithmetic::div_mod::{lemma_basic_div, lemma_div_denominator, lemma_div_multiples_vanish};
use vstd::arithmetic::power2::{
    lemma2_to64, lemma_pow2_adds, lemma_pow2_pos, lemma_pow2_strictly_increases, lemma_pow2_unfold,
    pow2,
};
use vstd::prelude::*;

verus! {

/// A number in single precision.
#[derive(Debug, Clone, Copy, PartialEq, Eq, Structural)]
pub struct Single {
    pub bits: u32,
}

/// The size that the bits below the sign stand for, in units of `2^-149`.
pub open spec fn size(magnitude: int) -> int {
    let exponent = magnitude / 0x80_0000;
    let fraction = magnitude % 0x80_0000;
    if exponent == 0 {
        fraction
    } else {
        (0x80_0000 + fraction) * pow2((exponent - 1) as nat)
    }
}

/// A whole number, in units of `2^-149`.
pub open spec fn whole(n: int) -> int {
    n * pow2(149)
}

impl Single {
    /// The sign bit.
    pub open spec fn negative(self) -> bool {
        self.bits >= 0x8000_0000
    }

    /// The bits below the sign.
    pub open spec fn magnitude(self) -> int {
        self.bits as int % 0x8000_0000
    }

    pub open spec fn nan(self) -> bool {
        self.magnitude() > 0x7f80_0000
    }

    pub open spec fn finite(self) -> bool {
        self.magnitude() < 0x7f80_0000
    }

    /// The number, in units of `2^-149`. Infinities are beyond every finite number.
    pub open spec fn value(self) -> int {
        if self.negative() {
            -size(self.magnitude())
        } else {
            size(self.magnitude())
        }
    }

    /// Whether this number is greater than or equal to `other`. What is not a number never is.
    pub open spec fn reaches(self, other: Single) -> bool {
        !self.nan() && !other.nan() && self.value() >= other.value()
    }

    /// The place in the total order of the bit patterns, which tells the two zeros apart.
    pub open spec fn rank(self) -> int {
        if self.negative() {
            -1 - self.magnitude()
        } else {
            self.magnitude()
        }
    }

    /// The greater one; of one that is not a number, the other one.
    pub open spec fn larger(self, other: Single) -> Single {
        if self.nan() || (!other.nan() && other.value() > self.value()) {
            other
        } else {
            self
        }
    }

    /// Whether the number is one from 0 to 100.
    pub open spec fn within_hundred(self) -> bool {
        self.finite() && 0 <= self.value() <= whole(100)
    }
}

/// Sizes are in the order of their bits.
proof fn lemma_sizes_in_order(a: int, b: int)
    requires
        0 <= a < b,
    ensures
        0 <= size(a) < size(b),
{
    let ea = a / 0x80_0000;
    let fa = a % 0x80_0000;
    let eb = b / 0x80_0000;
    let fb = b % 0x80_0000;
    if ea > 0 {
        lemma_pow2_pos((ea - 1) as nat);
        let p = pow2((ea - 1) as nat) as int;
        assert((0x80_0000 + fa) * p >= 0) by (nonlinear_arith)
            requires
                fa >= 0,
                p > 0,
        ;
    }
    if ea == eb {
        if ea > 0 {
            let p = pow2((ea - 1) as nat) as int;
            assert((0x80_0000 + fa) * p < (0x80_0000 + fb) * p) by (nonlinear_arith)
                requires
                    fa < fb,
                    p > 0,
            ;
        }
    } else {
        assert(ea < eb);
        let q = pow2((eb - 1) as nat) as int;
        lemma_pow2_pos((eb - 1) as nat);
        assert((0x80_0000 + fb) * q >= 0x80_0000 * q) by (nonlinear_arith)
            requires
                fb >= 0,
                q > 0,
        ;
        if ea > 0 {
            let p = pow2((ea - 1) as nat) as int;
            lemma_pow2_unfold(ea as nat);
            if ea < eb - 1 {
                lemma_pow2_strictly_increases(ea as nat, (eb - 1) as nat);
            }
            assert((0x80_0000 + fa) * p < 0x80_0000 * (2 * p)) by (nonlinear_arith)
                requires
                    fa < 0x80_0000,
                    p > 0,
            ;
        }
    }
}

/// Bits and values are in one order.
proof fn lemma_order(a: Single, b: Single)
    ensures
        a.magnitude() < b.magnitude() ==> size(a.magnitude()) < size(b.magnitude()),
        b.magnitude() < a.magnitude() ==> size(b.magnitude()) < size(a.magnitude()),
        size(a.magnitude()) >= 0,
        size(b.magnitude()) >= 0,
        size(0) == 0,
        a.magnitude() > 0 ==> size(a.magnitude()) > 0,
        b.magnitude() > 0 ==> size(b.magnitude()) > 0,
{
    if a.magnitude() < b.magnitude() {
        lemma_sizes_in_order(a.magnitude(), b.magnitude());
    }
    if b.magnitude() < a.magnitude() {
        lemma_sizes_in_order(b.magnitude(), a.magnitude());
    }
    if a.magnitude() > 0 {
        lemma_sizes_in_order(0, a.magnitude());
    }
    if b.magnitude() > 0 {
        lemma_sizes_in_order(0, b.magnitude());
    }
}

/// The bits of a whole number.
pub proof fn lemma_whole_number(number: Single, n: int)
    requires
        127 <= number.bits / 0x80_0000 <= 150,
        0x80_0000 + number.bits % 0x80_0000 == n * pow2((150 - number.bits / 0x80_0000) as nat),
    ensures
        number.finite(),
        number.value() == whole(n),
{
    let exponent = number.bits / 0x80_0000;
    let low = pow2((exponent - 1) as nat);
    let high = pow2((150 - exponent) as nat);
    lemma_pow2_adds((150 - exponent) as nat, (exponent - 1) as nat);
    assert(n * high * low == n * (high * low)) by (nonlinear_arith);
}

/// The whole part of a whole number.
pub proof fn lemma_whole_quotient(n: int)
    ensures
        whole(n) / whole(1) == n,
{
    lemma_pow2_pos(149);
    lemma_div_multiples_vanish(n, whole(1));
}

/// The whole part of a number from 1 to 100, whose exponent is `exponent`.
proof fn lemma_whole_part(significand: int, exponent: int)
    requires
        127 <= exponent <= 150,
        0 <= significand,
    ensures
        significand * pow2((exponent - 1) as nat) / (pow2(149) as int) == significand / (pow2(
            (150 - exponent) as nat,
        ) as int),
{
    let low = pow2((exponent - 1) as nat) as int;
    let high = pow2((150 - exponent) as nat) as int;
    lemma_pow2_pos((exponent - 1) as nat);
    lemma_pow2_pos((150 - exponent) as nat);
    lemma_pow2_adds((exponent - 1) as nat, (150 - exponent) as nat);
    assert(pow2(149) == low * high);
    assert(significand * low >= 0) by (nonlinear_arith)
        requires
            significand >= 0,
            low > 0,
    ;
    lemma_div_denominator(significand * low, low, high);
    lemma_div_multiples_vanish(significand, low);
    assert(low * significand == significand * low) by (nonlinear_arith);
}

impl Single {
    /// The bits below the sign, with the sign.
    fn signed_magnitude(self) -> (r: i64)
        ensures
            r == (if self.negative() {
                -self.magnitude()
            } else {
                self.magnitude()
            }),
    {
        let magnitude = (self.bits % 0x8000_0000) as i64;
        if self.bits >= 0x8000_0000 {
            -magnitude
        } else {
            magnitude
        }
    }

    pub fn is_nan(self) -> (r: bool)
        ensures
            r == self.nan(),
    {
        self.bits % 0x8000_0000 > 0x7f80_0000
    }

    /// Whether this number is greater than or equal to `other`.
    pub fn at_least(self, other: Single) -> (r: bool)
        ensures
            r == self.reaches(other),
    {
        proof {
            lemma_order(self, other);
        }
        !self.is_nan() && !other.is_nan() && self.signed_magnitude() >= other.signed_magnitude()
    }

    /// The greater one; of one that is not a number, the other one.
    pub fn maximum(self, other: Single) -> (r: Single)
        ensures
            r == self.larger(other),
    {
        proof {
            lemma_order(self, other);
        }
        if self.is_nan() || (!other.is_nan() && other.signed_magnitude()
            > self.signed_magnitude()) {
            other
        } else {
            self
        }
    }

    /// Whether this number comes before `other` in the total order of the bit patterns.
    pub fn precedes(self, other: Single) -> (r: bool)
        ensures
            r == (self.rank() < other.rank()),
    {
        let own = self.bits % 0x8000_0000;
        let others = other.bits % 0x8000_0000;
        if self.bits >= 0x8000_0000 {
            other.bits < 0x8000_0000 || own > others
        } else {
            other.bits < 0x8000_0000 && own < others
        }
    }

    /// Whether the number is one from 0 to 100.
    pub fn is_within_hundred(self) -> (r: bool)
        ensures
            r == self.within_hundred(),
    {
        proof {
            lemma2_to64();
            lemma_whole_number(Single { bits: 0x42c8_0000 }, 100);
            lemma_order(self, Single { bits: 0x42c8_0000 });
        }
        self.bits <= 0x42c8_0000 || self.bits == 0x8000_0000
    }

    /// Whether the number is greater than zero.
    pub fn is_positive(self) -> (r: bool)
        ensures
            r == (self.value() > 0),
    {
        proof {
            lemma_order(self, self);
        }
        0 < self.bits && self.bits < 0x8000_0000
    }

    /// The whole part of a number from 0 to 100.
    pub fn whole_part(self) -> (r: u8)
        requires
            self.within_hundred(),
        ensures
            r == self.value() / whole(1),
            r <= 100,
    {
        proof {
            lemma2_to64();
            lemma_whole_number(Single { bits: 0x42c8_0000 }, 100);
            lemma_order(self, Single { bits: 0x42c8_0000 });
            lemma_pow2_pos(149);
        }
        if self.bits == 0x8000_0000 {
            return 0;
        }
        let exponent = self.bits / 0x80_0000;
        let significand = 0x80_0000 + self.bits % 0x80_0000;
        if exponent < 127 {
            proof {
                // One has the exponent 127.
                lemma_sizes_in_order(self.magnitude(), 0x3f80_0000);
                lemma_pow2_adds(23, 126);
                lemma2_to64();
                assert(size(0x3f80_0000) == pow2(149));
                lemma_basic_div(self.value(), whole(1));
            }
            return 0;
        }
        proof {
            lemma_whole_part(significand as int, exponent as int);
            lemma2_to64();
        }
        let divisor: u32 = if exponent == 127 {
            0x80_0000
        } else if exponent == 128 {
            0x40_0000
        } else if exponent == 129 {
            0x20_0000
        } else if exponent == 130 {
            0x10_0000
        } else if exponent == 131 {
            0x8_0000
        } else if exponent == 132 {
            0x4_0000
        } else {
            0x2_0000
        };
        (significand / divisor) as u8
    }
}

/// Of two numbers the first reaches the second exactly if it is not smaller; what is not a number
/// reaches nothing and is reached by nothing. Numbers without a sign are in the order of their
/// bits, those with one in the reverse order and below them.
pub proof fn law_order_of_numbers(a: Single, b: Single)
    ensures
        a.nan() || b.nan() ==> !a.reaches(b),
        !a.nan() && !b.nan() ==> a.reaches(b) || b.reaches(a),
        !a.nan() && !b.nan() && a.bits < 0x8000_0000 && b.bits < 0x8000_0000 ==> a.reaches(b) == (
        a.bits >= b.bits),
        !a.nan() && !b.nan() && a.bits > 0x8000_0000 && b.bits > 0x8000_0000 ==> a.reaches(b) == (
        a.bits <= b.bits),
        !a.nan() && !b.nan() && a.bits < 0x8000_0000 && b.bits > 0x8000_0000 ==> a.reaches(b)
            && !b.reaches(a),
        a.nan() <==> 0x7f80_0000 < a.bits < 0x8000_0000 || a.bits > 0xff80_0000,
        !a.nan() && !b.nan() && a.rank() < b.rank() ==> b.reaches(a),
{
    lemma_order(a, b);
}

/// The larger of two numbers is one of them, and reaches both; what is not a number gives way.
pub proof fn law_larger_of_two(a: Single, b: Single)
    ensures
        a.larger(b) == a || a.larger(b) == b,
        !a.nan() && !b.nan() ==> a.larger(b).reaches(a) && a.larger(b).reaches(b),
        a.nan() ==> a.larger(b) == b,
        b.nan() && !a.nan() ==> a.larger(b) == a,
{
}

/// The numbers from 0 to 100 are those between the bits of 0 and of 100, and the zero with a sign.
pub proof fn law_numbers_up_to_hundred(a: Single)
    ensures
        a.within_hundred() <==> a.bits <= 0x42c8_0000 || a.bits == 0x8000_0000,
        (Single { bits: 0x42c8_0000 }).value() == whole(100),
        (Single { bits: 0x3f80_0000 }).value() == whole(1),
        (Single { bits: 0x4120_0000 }).value() == whole(10),
        (Single { bits: 0 }).value() == 0,
{
    lemma2_to64();
    lemma_whole_number(Single { bits: 0x42c8_0000 }, 100);
    lemma_whole_number(Single { bits: 0x3f80_0000 }, 1);
    lemma_whole_number(Single { bits: 0x4120_0000 }, 10);
    lemma_order(a, Single { bits: 0x42c8_0000 });
}

/// Doubling the significand's weight doubles the number: one step of the exponent is a factor of
/// two.
pub proof fn law_exponent_doubles(a: Single)
    requires
        0x80_0000 <= a.bits < 0x7f00_0000,
    ensures
        (Single { bits: (a.bits + 0x80_0000) as u32 }).value() == 2 * a.value(),
{
    let e = a.bits as int / 0x80_0000;
    let f = a.bits as int % 0x80_0000;
    let next = Single { bits: (a.bits + 0x80_0000) as u32 };
    assert(next.magnitude() / 0x80_0000 == e + 1 && next.magnitude() % 0x80_0000 == f);
    lemma_pow2_unfold(e as nat);
    let p = pow2((e - 1) as nat) as int;
    assert((0x80_0000 + f) * (2 * p) == 2 * ((0x80_0000 + f) * p)) by (nonlinear_arith);
}

} // verus!
