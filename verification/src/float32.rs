//! Single-precision numbers.
//!
//! A [`Float32`] is an IEEE 754 binary32 number, held as its bit pattern. Every finite
//! one is a whole number of units, the unit being `2^-149`, and infinity stands at
//! `2^277` units. Arithmetic is exact arithmetic on units followed by one rounding to
//! 24 significant binary digits, as the standard has it for round-to-nearest.
use vstd::prelude::*;
use vstd::arithmetic::power2::{
    lemma_pow2_adds, lemma_pow2_pos, lemma_pow2_strictly_increases, lemma_pow2_unfold, pow2,
};
use crate::rounding::{
    brackets, lemma_brackets_exact, lemma_brackets_finer, lemma_nearest_zero, lemma_u128_shl_one,
    nearest, round_grains,
};

verus! {

/// An IEEE 754 binary32 number.
#[derive(Clone, Copy, Debug)]
pub struct Float32 {
    /// The bit pattern: sign, eight exponent bits, 23 fraction bits.
    pub bits: u32,
}

/// The number of units in one.
pub open spec fn one_units() -> nat {
    pow2(149)
}

/// The least number of units that no finite number reaches.
pub open spec fn infinite_units() -> nat {
    pow2(277)
}

impl Float32 {
    /// The bit pattern without its sign.
    pub open spec fn magnitude(self) -> nat {
        (self.bits % 0x8000_0000) as nat
    }

    pub open spec fn nan(self) -> bool {
        self.magnitude() > 0x7f80_0000
    }

    pub open spec fn infinite(self) -> bool {
        self.magnitude() == 0x7f80_0000
    }

    pub open spec fn finite(self) -> bool {
        self.magnitude() < 0x7f80_0000
    }

    pub open spec fn negative(self) -> bool {
        self.bits >= 0x8000_0000
    }

    /// The significant digits, as an integer.
    pub open spec fn digits(self) -> nat {
        let f = self.magnitude() % 0x80_0000;
        if self.magnitude() < 0x80_0000 {
            f
        } else {
            0x80_0000 + f
        }
    }

    /// The weight of the last digit is this power of two, in units.
    pub open spec fn exponent(self) -> nat {
        if self.magnitude() < 0x80_0000 {
            0
        } else {
            (self.magnitude() / 0x80_0000 - 1) as nat
        }
    }

    /// The absolute value, in units.
    pub open spec fn units(self) -> nat {
        self.digits() * pow2(self.exponent())
    }

    /// The value, in units.
    pub open spec fn value(self) -> int {
        if self.negative() {
            -(self.units() as int)
        } else {
            self.units() as int
        }
    }

    /// Whether the value is zero, of either sign.
    pub open spec fn zero(self) -> bool {
        self.magnitude() == 0
    }

    /// `self < other`; false where either is not a number.
    pub open spec fn below(self, other: Float32) -> bool {
        !self.nan() && !other.nan() && self.value() < other.value()
    }

    /// `self <= other`; false where either is not a number.
    pub open spec fn at_most(self, other: Float32) -> bool {
        !self.nan() && !other.nan() && self.value() <= other.value()
    }

    /// The place of the number in the total order of bit patterns: by value, with
    /// negative zero below zero and the patterns that are not numbers at the two ends.
    pub open spec fn rank(self) -> int {
        if self.negative() {
            -(self.magnitude() as int) - 1
        } else {
            self.magnitude() as int
        }
    }
}

/// What an operation without a numeric result returns.
pub open spec fn not_a_number() -> Float32 {
    Float32 { bits: 0x7fc0_0000 }
}

pub open spec fn infinity(negative: bool) -> Float32 {
    Float32 { bits: if negative { 0xff80_0000 } else { 0x7f80_0000 } }
}

/// The number with the given sign and the given absolute value in units, infinite where
/// that is out of the finite range.
pub open spec fn of_units(negative: bool, u: nat) -> Float32 {
    if u >= infinite_units() {
        infinity(negative)
    } else {
        choose|f: Float32| f.finite() && f.negative() == negative && #[trigger] f.units() == u
    }
}

/// The exact quotient `n / d`, in units, rounded to the nearest number.
pub open spec fn rounded(negative: bool, n: nat, d: nat) -> Float32 {
    of_units(negative, nearest(n, d, 24))
}

/// `a + b`.
pub open spec fn sum(a: Float32, b: Float32) -> Float32 {
    if a.nan() || b.nan() || (a.infinite() && b.infinite() && a.negative() != b.negative()) {
        not_a_number()
    } else if a.infinite() {
        a
    } else if b.infinite() {
        b
    } else {
        let v = a.value() + b.value();
        if v == 0 {
            of_units(a.negative() && b.negative(), 0)
        } else if v < 0 {
            rounded(true, (-v) as nat, 1)
        } else {
            rounded(false, v as nat, 1)
        }
    }
}

/// `a * b`.
pub open spec fn product(a: Float32, b: Float32) -> Float32 {
    let negative = a.negative() != b.negative();
    if a.nan() || b.nan() || (a.infinite() && b.zero()) || (a.zero() && b.infinite()) {
        not_a_number()
    } else if a.infinite() || b.infinite() {
        infinity(negative)
    } else {
        rounded(negative, a.units() * b.units(), one_units())
    }
}

/// `a / b`.
pub open spec fn quotient(a: Float32, b: Float32) -> Float32 {
    let negative = a.negative() != b.negative();
    if a.nan() || b.nan() || (a.infinite() && b.infinite()) || (a.zero() && b.zero()) {
        not_a_number()
    } else if a.infinite() || b.zero() {
        infinity(negative)
    } else if b.infinite() {
        of_units(negative, 0)
    } else {
        rounded(negative, a.units() * one_units(), b.units())
    }
}

/// The whole part of the square root of `n`.
pub open spec fn floor_root(n: nat) -> nat {
    choose|t: nat| #[trigger] (t * t) <= n < (t + 1) * (t + 1)
}

/// The square root of `a`.
///
/// Between two whole numbers of units the exact root is irrational, and rounds as any
/// other point between them does.
pub open spec fn square_root(a: Float32) -> Float32 {
    if a.nan() || (a.negative() && !a.zero()) {
        not_a_number()
    } else if a.zero() || a.infinite() {
        a
    } else {
        let n = a.units() * one_units();
        let t = floor_root(n);
        rounded(false, if t * t == n { 2 * t } else { 2 * t + 1 }, 2)
    }
}

/// The number nearest to the integer `v`.
pub open spec fn of_integer(v: nat) -> Float32 {
    rounded(false, v * one_units(), 1)
}

/// The larger of two numbers; where one of them is not a number, the other.
pub open spec fn larger(a: Float32, b: Float32) -> Float32 {
    if a.nan() || a.below(b) {
        b
    } else {
        a
    }
}

/// The smaller of two numbers; where one of them is not a number, the other.
pub open spec fn smaller(a: Float32, b: Float32) -> Float32 {
    if a.nan() || b.below(a) {
        b
    } else {
        a
    }
}

/// `a`, or the bound that it exceeds.
pub open spec fn clamped(a: Float32, lo: Float32, hi: Float32) -> Float32 {
    if a.below(lo) {
        lo
    } else if hi.below(a) {
        hi
    } else {
        a
    }
}

/// The integer part of a number, brought into the range of 64 bits; zero where the
/// argument is negative or not a number.
pub open spec fn truncated(a: Float32) -> nat {
    if a.nan() || a.negative() {
        0
    } else if a.units() / one_units() > u64::MAX {
        u64::MAX as nat
    } else {
        a.units() / one_units()
    }
}

/// The nearest integer, a half going up, brought into the range of 64 bits; zero where
/// the argument is negative or not a number.
pub open spec fn rounded_integer(a: Float32) -> nat {
    if a.nan() || a.negative() {
        0
    } else if (2 * a.units() + one_units()) / (2 * one_units()) > u64::MAX {
        u64::MAX as nat
    } else {
        (2 * a.units() + one_units()) / (2 * one_units())
    }
}

/// A larger bit pattern without sign is a larger absolute value.
pub proof fn lemma_units_increase(a: Float32, b: Float32)
    requires
        a.magnitude() < b.magnitude(),
    ensures
        a.units() < b.units(),
{
    let da = a.digits();
    let db = b.digits();
    let p = pow2(a.exponent());
    let q = pow2(b.exponent());
    lemma_pow2_pos(a.exponent());
    lemma_pow2_pos(b.exponent());
    if a.exponent() == b.exponent() {
        assert(da * p < db * p) by (nonlinear_arith)
            requires
                da < db,
                p > 0,
        ;
    } else {
        lemma_pow2_unfold(a.exponent() + 1);
        if a.exponent() + 1 < b.exponent() {
            lemma_pow2_strictly_increases(a.exponent() + 1, b.exponent());
        }
        assert(da * p < db * q) by (nonlinear_arith)
            requires
                da < 0x100_0000,
                db >= 0x80_0000,
                2 * p <= q,
                p > 0,
        ;
    }
}

/// Sign and absolute value determine a number.
pub proof fn lemma_units_injective(a: Float32, b: Float32)
    requires
        a.units() == b.units(),
        a.negative() == b.negative(),
    ensures
        a == b,
{
    if a.magnitude() < b.magnitude() {
        lemma_units_increase(a, b);
    } else if b.magnitude() < a.magnitude() {
        lemma_units_increase(b, a);
    }
    assert(a.bits == b.bits);
}

/// A finite number is the one that its sign and its absolute value describe.
proof fn lemma_of_units(f: Float32)
    requires
        f.finite(),
    ensures
        of_units(f.negative(), f.units()) == f,
        f.units() < infinite_units(),
{
    let inf = Float32 { bits: 0x7f80_0000 };
    lemma_units_increase(f, inf);
    lemma_infinite_units();
    let g = of_units(f.negative(), f.units());
    assert(g.finite() && g.negative() == f.negative() && g.units() == f.units());
    lemma_units_injective(f, g);
}

proof fn lemma_infinite_units()
    ensures
        (Float32 { bits: 0x7f80_0000 }).units() == infinite_units(),
        0x80_0000 == pow2(23),
        0x100_0000 == pow2(24),
{
    vstd::arithmetic::power2::lemma2_to64();
    lemma_pow2_adds(23, 254);
    let f = Float32 { bits: 0x7f80_0000 };
    assert(f.magnitude() == 0x7f80_0000);
    assert(f.magnitude() / 0x80_0000 == 255);
    assert(f.magnitude() % 0x80_0000 == 0);
}

impl Float32 {
    /// The number with the given bit pattern.
    pub fn from_bits(bits: u32) -> (r: Float32)
        ensures
            r.bits == bits,
    {
        Float32 { bits }
    }

    /// The bit pattern.
    pub fn to_bits(self) -> (r: u32)
        ensures
            r == self.bits,
    {
        self.bits
    }

    fn not_a_number() -> (r: Float32)
        ensures
            r == not_a_number(),
    {
        Float32 { bits: 0x7fc0_0000 }
    }

    fn infinity(negative: bool) -> (r: Float32)
        ensures
            r == infinity(negative),
    {
        Float32 { bits: if negative { 0xff80_0000 } else { 0x7f80_0000 } }
    }

    fn zero_of_sign(negative: bool) -> (r: Float32)
        ensures
            r == of_units(negative, 0),
    {
        let r = Float32 { bits: if negative { 0x8000_0000 } else { 0 } };
        proof {
            assert(r.digits() == 0);
            lemma_of_units(r);
        }
        r
    }

    fn mag(self) -> (r: u32)
        ensures
            r == self.magnitude(),
    {
        self.bits % 0x8000_0000
    }

    pub fn is_nan(self) -> (r: bool)
        ensures
            r == self.nan(),
    {
        self.mag() > 0x7f80_0000
    }

    fn is_infinite(self) -> (r: bool)
        ensures
            r == self.infinite(),
    {
        self.mag() == 0x7f80_0000
    }

    fn is_negative(self) -> (r: bool)
        ensures
            r == self.negative(),
    {
        self.bits >= 0x8000_0000
    }

    /// Whether the value is zero, of either sign.
    pub fn is_zero(self) -> (r: bool)
        ensures
            r == self.zero(),
            r == (self.units() == 0),
    {
        proof {
            let z = Float32 { bits: 0 };
            vstd::arithmetic::power2::lemma2_to64();
            assert(z.magnitude() == 0 && z.digits() == 0 && z.units() == 0);
            if self.magnitude() > 0 {
                lemma_units_increase(z, self);
            } else {
                assert(self.digits() == 0);
            }
        }
        self.mag() == 0
    }

    /// The digits and the exponent of the absolute value.
    fn split(self) -> (r: (u64, u32))
        ensures
            r.0 == self.digits(),
            r.1 == self.exponent(),
            r.0 < 0x100_0000,
            r.1 <= 254,
            self.finite() ==> r.1 <= 253,
            r.1 > 0 ==> r.0 >= 0x80_0000,
            r.0 == 0 <==> self.zero(),
    {
        let m: u32 = self.mag();
        let f: u32 = m % 0x80_0000;
        if m < 0x80_0000 {
            (f as u64, 0)
        } else {
            (0x80_0000 + f as u64, m / 0x80_0000 - 1)
        }
    }

    /// The number with digits `q` and exponent `e`.
    fn pack(negative: bool, q: u64, e: u32) -> (r: Float32)
        requires
            q <= 0x100_0000,
            e > 0 ==> q >= 0x80_0000,
            e <= 8000,
        ensures
            r == of_units(negative, (q * pow2(e as nat)) as nat),
    {
        let ghost u = (q * pow2(e as nat)) as nat;
        proof {
            vstd::arithmetic::power2::lemma2_to64();
            lemma_pow2_pos(e as nat);
            lemma_infinite_units();
        }
        let sign: u32 = if negative { 0x8000_0000 } else { 0 };
        if q < 0x80_0000 {
            let r = Float32 { bits: sign + q as u32 };
            proof {
                assert(r.magnitude() == q);
                assert(r.digits() == q && r.exponent() == 0 && e == 0);
                lemma_of_units(r);
            }
            r
        } else {
            let (q2, e2): (u64, u32) = if q == 0x100_0000 { (0x80_0000, e + 1) } else { (q, e) };
            let ghost p2 = pow2(e2 as nat);
            proof {
                lemma_pow2_unfold((e + 1) as nat);
                assert(q2 * p2 == u) by (nonlinear_arith)
                    requires
                        u == q * pow2(e as nat),
                        (q2 == q && p2 == pow2(e as nat)) || (q == 2 * q2 && p2 == 2 * pow2(
                            e as nat,
                        )),
                ;
            }
            if e2 >= 254 {
                proof {
                    lemma_pow2_adds(23, 254);
                    if e2 > 254 {
                        lemma_pow2_strictly_increases(254, e2 as nat);
                    }
                    assert(q2 * p2 >= pow2(23) * pow2(254)) by (nonlinear_arith)
                        requires
                            q2 >= pow2(23),
                            p2 >= pow2(254),
                    ;
                }
                Self::infinity(negative)
            } else {
                let r = Float32 { bits: sign + (e2 + 1) * 0x80_0000 + (q2 - 0x80_0000) as u32 };
                proof {
                    let mag = (e2 + 1) * 0x80_0000 + (q2 - 0x80_0000);
                    assert(r.magnitude() == mag);
                    assert(r.magnitude() / 0x80_0000 == e2 + 1);
                    assert(r.magnitude() % 0x80_0000 == q2 - 0x80_0000);
                    assert(r.digits() == q2 && r.exponent() == e2);
                    lemma_of_units(r);
                }
                r
            }
        }
    }

    /// The number nearest to the quotient that the grain count describes.
    fn from_grains(
        negative: bool,
        m: u128,
        s: i32,
        sticky: bool,
        Ghost(n): Ghost<nat>,
        Ghost(d): Ghost<nat>,
    ) -> (r: Float32)
        requires
            d > 0,
            m >= 0x100_0000,
            m < pow2(127),
            -4000 <= s <= 4000,
            brackets(m as nat, s as int, sticky, n, d),
        ensures
            r == rounded(negative, n, d),
    {
        proof {
            lemma_infinite_units();
        }
        let (q, e) = round_grains(m, s, sticky, 24, Ghost(n), Ghost(d));
        Self::pack(negative, q, e)
    }
}

/// The powers of two that the operations scale by.
proof fn lemma_small_powers()
    ensures
        pow2(0) == 1,
        pow2(24) == 0x100_0000,
        pow2(36) == 0x10_0000_0000,
        pow2(40) == 0x100_0000_0000,
        pow2(48) == 0x1_0000_0000_0000,
        pow2(56) == 0x100_0000_0000_0000,
        pow2(60) == 0x1000_0000_0000_0000,
        pow2(63) == 0x8000_0000_0000_0000,
        pow2(64) == 0x1_0000_0000_0000_0000,
        pow2(101) > 0,
{
    vstd::arithmetic::power2::lemma2_to64();
    vstd::arithmetic::power2::lemma2_to64_rest();
    lemma_pow2_pos(101);
}

/// The key by which numbers are ordered has the order of their values.
proof fn lemma_order(a: Float32, b: Float32)
    ensures
        a.value() < b.value() <==> signed_magnitude(a) < signed_magnitude(b),
{
    if a.magnitude() < b.magnitude() {
        lemma_units_increase(a, b);
    } else if b.magnitude() < a.magnitude() {
        lemma_units_increase(b, a);
    }
    let z = Float32 { bits: 0 };
    assert(z.digits() == 0);
    assert(z.units() == 0);
    if a.magnitude() > 0 {
        lemma_units_increase(z, a);
    } else {
        assert(a.digits() == 0);
    }
    if b.magnitude() > 0 {
        lemma_units_increase(z, b);
    } else {
        assert(b.digits() == 0);
    }
}

spec fn signed_magnitude(a: Float32) -> int {
    if a.negative() {
        -(a.magnitude() as int)
    } else {
        a.magnitude() as int
    }
}

/// Every number has a whole square root.
pub proof fn lemma_floor_root(n: nat)
    ensures
        floor_root(n) * floor_root(n) <= n < (floor_root(n) + 1) * (floor_root(n) + 1),
{
    lemma_has_root(n);
}

proof fn lemma_has_root(n: nat)
    ensures
        exists|t: nat| #[trigger] (t * t) <= n < (t + 1) * (t + 1),
    decreases n,
{
    if n == 0 {
        let t: nat = 0;
        assert(t * t == 0);
        assert((t + 1) * (t + 1) == 1) by (nonlinear_arith)
            requires
                t == 0,
        ;
        assert(t * t <= n < (t + 1) * (t + 1));
    } else {
        lemma_has_root((n - 1) as nat);
        let t = choose|t: nat| #[trigger] (t * t) <= n - 1 < (t + 1) * (t + 1);
        if n < (t + 1) * (t + 1) {
            assert(t * t <= n < (t + 1) * (t + 1));
        } else {
            let u = t + 1;
            assert(n < (u + 1) * (u + 1)) by (nonlinear_arith)
                requires
                    n <= u * u,
            ;
            assert(u * u <= n);
        }
    }
}

/// `2^j` of a number that has at most 24 digits.
fn scaled(m: u64, j: u32) -> (r: u128)
    requires
        m < 0x100_0000,
        j <= 101,
    ensures
        r == m * pow2(j as nat),
        r < pow2(125),
{
    let ju: u128 = j as u128;
    let unit: u128 = 1u128 << ju;
    proof {
        lemma_u128_shl_one(ju);
        lemma_small_powers();
        lemma_pow2_adds(24, 101);
        lemma_pow2_adds(64, 64);
        lemma_pow2_strictly_increases(125, 128);
        if j < 101 {
            lemma_pow2_strictly_increases(j as nat, 101);
        }
        assert(m * unit < pow2(125)) by (nonlinear_arith)
            requires
                m < pow2(24),
                unit <= pow2(101),
                pow2(24) * pow2(101) == pow2(125),
                pow2(101) > 0,
        ;
    }
    (m as u128) * unit
}

impl Float32 {
    fn signed_magnitude(self) -> (r: i64)
        ensures
            r == signed_magnitude(self),
    {
        let m: i64 = self.mag() as i64;
        if self.is_negative() {
            -m
        } else {
            m
        }
    }

    /// `self < other`.
    pub fn lt(self, other: Float32) -> (r: bool)
        ensures
            r == self.below(other),
    {
        proof {
            lemma_order(self, other);
        }
        !self.is_nan() && !other.is_nan() && self.signed_magnitude() < other.signed_magnitude()
    }

    /// `self >= other`.
    pub fn ge(self, other: Float32) -> (r: bool)
        ensures
            r == other.at_most(self),
    {
        proof {
            lemma_order(self, other);
        }
        !self.is_nan() && !other.is_nan() && self.signed_magnitude() >= other.signed_magnitude()
    }

    /// The place in the total order.
    pub fn total_rank(self) -> (r: i64)
        ensures
            r == self.rank(),
    {
        let m: i64 = self.mag() as i64;
        if self.is_negative() {
            -m - 1
        } else {
            m
        }
    }

    pub fn max(self, other: Float32) -> (r: Float32)
        ensures
            r == larger(self, other),
    {
        if self.is_nan() || self.lt(other) {
            other
        } else {
            self
        }
    }

    pub fn min(self, other: Float32) -> (r: Float32)
        ensures
            r == smaller(self, other),
    {
        if self.is_nan() || other.lt(self) {
            other
        } else {
            self
        }
    }

    pub fn clamp(self, lo: Float32, hi: Float32) -> (r: Float32)
        ensures
            r == clamped(self, lo, hi),
    {
        if self.lt(lo) {
            lo
        } else if hi.lt(self) {
            hi
        } else {
            self
        }
    }

    /// The nearest number to the exact value `m * 2^s` units.
    fn from_exact(
        negative: bool,
        m: u128,
        s: i32,
        j: u32,
        Ghost(n): Ghost<nat>,
        Ghost(d): Ghost<nat>,
    ) -> (r: Float32)
        requires
            d > 0,
            0 < m,
            24 <= j <= 100,
            m * pow2(j as nat) < pow2(127),
            -1000 <= s <= 1000,
            brackets(m as nat, s as int, false, n, d),
        ensures
            r == rounded(negative, n, d),
    {
        let ju: u128 = j as u128;
        proof {
            lemma_u128_shl_one(ju);
            lemma_brackets_finer(m as nat, s as int, j as nat, n, d);
            lemma_pow2_adds(64, 64);
            lemma_small_powers();
            lemma_pow2_strictly_increases(127, 128);
            if j > 24 {
                lemma_pow2_strictly_increases(24, j as nat);
            }
            assert(m * pow2(j as nat) >= pow2(j as nat)) by (nonlinear_arith)
                requires
                    m >= 1,
            ;
        }
        Self::from_grains(negative, m * (1u128 << ju), s - j as i32, false, Ghost(n), Ghost(d))
    }

    /// `self + other`.
    pub fn add(self, other: Float32) -> (r: Float32)
        ensures
            r == sum(self, other),
    {
        if self.is_nan() || other.is_nan() {
            Self::not_a_number()
        } else if self.is_infinite() {
            if other.is_infinite() && self.is_negative() != other.is_negative() {
                Self::not_a_number()
            } else {
                self
            }
        } else if other.is_infinite() {
            other
        } else {
            let (_, ea) = self.split();
            let (_, eb) = other.split();
            if ea >= eb {
                Self::add_finite(self, other)
            } else {
                Self::add_finite(other, self)
            }
        }
    }

    fn add_finite(a: Float32, b: Float32) -> (r: Float32)
        requires
            a.finite(),
            b.finite(),
            a.exponent() >= b.exponent(),
        ensures
            r == sum(a, b),
    {
        let (ma, sa) = a.split();
        let (mb, sb) = b.split();
        let na: bool = a.is_negative();
        let nb: bool = b.is_negative();
        let diff: u32 = sa - sb;
        let ghost ua = a.units();
        let ghost ub = b.units();
        proof {
            lemma_small_powers();
        }
        if diff <= 60 {
            let big: u128 = scaled(ma, diff);
            let small: u128 = mb as u128;
            let ghost ps = pow2(sb as nat);
            proof {
                lemma_pow2_adds(diff as nat, sb as nat);
                lemma_pow2_pos(sb as nat);
                lemma_pow2_adds(24, 60);
                lemma_pow2_adds(85, 40);
                lemma_pow2_adds(64, 21);
                lemma_pow2_strictly_increases(125, 127);
                if diff < 60 {
                    lemma_pow2_strictly_increases(diff as nat, 60);
                }
                assert(big < pow2(84)) by (nonlinear_arith)
                    requires
                        big == ma * pow2(diff as nat),
                        ma < pow2(24),
                        pow2(diff as nat) <= pow2(60),
                        pow2(60) > 0,
                        pow2(24) * pow2(60) == pow2(84),
                ;
                lemma_pow2_unfold(85);
                assert(ua == big * ps) by (nonlinear_arith)
                    requires
                        ua == ma * pow2(sa as nat),
                        big == ma * pow2(diff as nat),
                        pow2(sa as nat) == pow2(diff as nat) * ps,
                ;
                assert(ub == small * ps);
                assert((big + small) * ps == ua + ub && (big - small) * ps == ua - ub && (small
                    - big) * ps == ub - ua) by (nonlinear_arith)
                    requires
                        ua == big * ps,
                        ub == small * ps,
                ;
            }
            let (neg, m): (bool, u128) = if na == nb {
                (na, big + small)
            } else if big > small {
                (na, big - small)
            } else {
                (nb, small - big)
            };
            let ghost n = (m * ps) as nat;
            if m == 0 {
                proof {
                    assert(n == 0);
                    assert(a.value() + b.value() == 0);
                    if na == nb {
                        assert(ua == 0 && ub == 0) by (nonlinear_arith)
                            requires
                                big == 0,
                                small == 0,
                                ua == big * ps,
                                ub == small * ps,
                        ;
                    }
                }
                Self::zero_of_sign(na && nb)
            } else {
                proof {
                    lemma_brackets_exact(m as nat, sb as nat, 1);
                    assert(m * (1 * ps) == n);
                    assert(n > 0) by (nonlinear_arith)
                        requires
                            n == m * ps,
                            m > 0,
                            ps > 0,
                    ;
                    assert(m * pow2(40) < pow2(127)) by (nonlinear_arith)
                        requires
                            m < pow2(85),
                            pow2(85) * pow2(40) == pow2(125),
                            pow2(125) < pow2(127),
                            pow2(40) > 0,
                    ;
                }
                Self::from_exact(neg, m, sb as i32, 40, Ghost(n), Ghost(1))
            }
        } else {
            // the smaller one is less than one grain of 2^(sa - 36)
            let m0: u128 = scaled(ma, 36);
            let ghost g = pow2((sa - 36) as nat);
            proof {
                lemma_pow2_adds(36, (sa - 36) as nat);
                lemma_pow2_pos((sa - 36) as nat);
                assert(ua == m0 * g) by (nonlinear_arith)
                    requires
                        ua == ma * pow2(sa as nat),
                        m0 == ma * pow2(36),
                        pow2(36) * g == pow2(sa as nat),
                ;
                lemma_pow2_adds(24, sb as nat);
                lemma_pow2_pos(sb as nat);
                lemma_pow2_strictly_increases((24 + sb) as nat, (sa - 36) as nat);
                assert(ub < g) by (nonlinear_arith)
                    requires
                        ub == mb * pow2(sb as nat),
                        mb < pow2(24),
                        pow2(24) * pow2(sb as nat) < g,
                        pow2(sb as nat) > 0,
                ;
                assert(m0 >= pow2(24) + 1) by (nonlinear_arith)
                    requires
                        m0 == ma * pow2(36),
                        ma >= 0x80_0000,
                        pow2(36) == 0x10_0000_0000,
                        pow2(24) == 0x100_0000,
                ;
                lemma_pow2_strictly_increases(125, 127);
                if mb > 0 {
                    assert(ub > 0) by (nonlinear_arith)
                        requires
                            ub == mb * pow2(sb as nat),
                            mb > 0,
                            pow2(sb as nat) > 0,
                    ;
                } else {
                    assert(ub == 0) by (nonlinear_arith)
                        requires
                            ub == mb * pow2(sb as nat),
                            mb == 0,
                    ;
                }
                assert((m0 + 1) * g == m0 * g + g && (m0 - 1) * g == m0 * g - g) by (nonlinear_arith);
                assert(ua > g) by (nonlinear_arith)
                    requires
                        ua == m0 * g,
                        m0 > 1,
                        g > 0,
                ;
                assert(1 * g == g);
            }
            if na == nb || mb == 0 {
                Self::from_grains(
                    na,
                    m0,
                    sa as i32 - 36,
                    mb != 0,
                    Ghost((ua + ub) as nat),
                    Ghost(1),
                )
            } else {
                Self::from_grains(na, m0 - 1, sa as i32 - 36, true, Ghost((ua - ub) as nat), Ghost(1))
            }
        }
    }

    /// `self * other`.
    pub fn mul(self, other: Float32) -> (r: Float32)
        ensures
            r == product(self, other),
    {
        let negative: bool = self.is_negative() != other.is_negative();
        let (ma, sa) = self.split();
        let (mb, sb) = other.split();
        if self.is_nan() || other.is_nan() || (self.is_infinite() && mb == 0) || (ma == 0
            && other.is_infinite()) {
            Self::not_a_number()
        } else if self.is_infinite() || other.is_infinite() {
            Self::infinity(negative)
        } else {
            let ghost n = self.units() * other.units();
            let ghost d = one_units();
            proof {
                lemma_pow2_pos(149);
            }
            if ma == 0 || mb == 0 {
                proof {
                    assert(n == 0) by (nonlinear_arith)
                        requires
                            n == (ma * pow2(sa as nat)) * (mb * pow2(sb as nat)),
                            ma == 0 || mb == 0,
                    ;
                    lemma_nearest_zero(d, 24);
                }
                Self::zero_of_sign(negative)
            } else {
                proof {
                    assert(ma * mb < 0x1_0000_0000_0000) by (nonlinear_arith)
                        requires
                            ma < 0x100_0000,
                            mb < 0x100_0000,
                    ;
                    assert(ma * mb > 0) by (nonlinear_arith)
                        requires
                            ma > 0,
                            mb > 0,
                    ;
                }
                let m: u128 = (ma * mb) as u128;
                let s: i32 = sa as i32 + sb as i32 - 149;
                proof {
                    lemma_small_powers();
                    let t = (sa + sb) as nat;
                    lemma_pow2_adds(sa as nat, sb as nat);
                    let pt = pow2(t);
                    assert(n == m * pt) by (nonlinear_arith)
                        requires
                            n == (ma * pow2(sa as nat)) * (mb * pow2(sb as nat)),
                            m == ma * mb,
                            pt == pow2(sa as nat) * pow2(sb as nat),
                    ;
                    if s >= 0 {
                        lemma_pow2_adds(149, s as nat);
                        lemma_brackets_exact(m as nat, s as nat, d);
                        assert(m * (d * pow2(s as nat)) == n);
                    } else {
                        let c = pow2((-s) as nat);
                        lemma_pow2_adds(t, (-s) as nat);
                        assert(n * c == m * d) by (nonlinear_arith)
                            requires
                                n == m * pt,
                                pt * c == d,
                        ;
                        assert((m + 1) * d == m * d + d) by (nonlinear_arith);
                    }
                    lemma_pow2_adds(48, 60);
                    lemma_pow2_strictly_increases(108, 127);
                    assert(m * pow2(60) < pow2(127)) by (nonlinear_arith)
                        requires
                            m < pow2(48),
                            pow2(48) * pow2(60) == pow2(108),
                            pow2(108) < pow2(127),
                            pow2(60) > 0,
                    ;
                }
                Self::from_exact(negative, m, s, 60, Ghost(n), Ghost(d))
            }
        }
    }

    /// `self / other`.
    pub fn div(self, other: Float32) -> (r: Float32)
        ensures
            r == quotient(self, other),
    {
        let negative: bool = self.is_negative() != other.is_negative();
        let (ma, sa) = self.split();
        let (mb, sb) = other.split();
        if self.is_nan() || other.is_nan() || (self.is_infinite() && other.is_infinite()) || (ma
            == 0 && mb == 0) {
            Self::not_a_number()
        } else if self.is_infinite() || mb == 0 {
            Self::infinity(negative)
        } else if other.is_infinite() {
            Self::zero_of_sign(negative)
        } else {
            let ghost n = self.units() * one_units();
            let ghost d = other.units();
            proof {
                lemma_pow2_pos(149);
                lemma_pow2_pos(sb as nat);
                assert(d > 0) by (nonlinear_arith)
                    requires
                        d == mb * pow2(sb as nat),
                        mb > 0,
                        pow2(sb as nat) > 0,
                ;
            }
            if ma == 0 {
                proof {
                    assert(n == 0) by (nonlinear_arith)
                        requires
                            n == (ma * pow2(sa as nat)) * one_units(),
                            ma == 0,
                    ;
                    lemma_nearest_zero(d, 24);
                }
                Self::zero_of_sign(negative)
            } else {
                let big: u128 = scaled(ma, 80);
                let den: u128 = mb as u128;
                let q: u128 = big / den;
                let rem: u128 = big % den;
                let s: i32 = sa as i32 - sb as i32 + 69;
                proof {
                    lemma_small_powers();
                    vstd::arithmetic::div_mod::lemma_fundamental_div_mod(big as int, den as int);
                    assert(big == den * q + rem);
                    lemma_pow2_strictly_increases(125, 127);
                    assert(q <= big) by (nonlinear_arith)
                        requires
                            big == den * q + rem,
                            den >= 1,
                            rem >= 0,
                    ;
                    lemma_pow2_adds(24, 56);
                    assert(big >= pow2(80)) by (nonlinear_arith)
                        requires
                            big == ma * pow2(80),
                            ma >= 1,
                    ;
                    assert(q >= 0x100_0000) by (nonlinear_arith)
                        requires
                            big == den * q + rem,
                            rem < den,
                            den < pow2(24),
                            big >= pow2(80),
                            pow2(80) == pow2(24) * pow2(56),
                            pow2(24) == 0x100_0000,
                            pow2(56) > 0x200_0000,
                    ;
                    if s >= 0 {
                        let w = pow2((sa + 69) as nat);
                        lemma_pow2_pos((sa + 69) as nat);
                        lemma_pow2_adds(sb as nat, s as nat);
                        assert(d * pow2(s as nat) == den * w) by (nonlinear_arith)
                            requires
                                d == den * pow2(sb as nat),
                                pow2(sb as nat) * pow2(s as nat) == w,
                        ;
                        lemma_pow2_adds(80, (sa + 69) as nat);
                        lemma_pow2_adds(sa as nat, 149);
                        assert(n == big * w) by (nonlinear_arith)
                            requires
                                n == (ma * pow2(sa as nat)) * pow2(149),
                                big == ma * pow2(80),
                                pow2(80) * w == pow2(sa as nat) * pow2(149),
                        ;
                        lemma_division_brackets(big as nat, den as nat, q as nat, rem as nat, w);
                    } else {
                        let w = pow2(sb as nat);
                        let c = pow2((-s) as nat);
                        lemma_pow2_adds((sa + 149) as nat, (-s) as nat);
                        lemma_pow2_adds(80, sb as nat);
                        lemma_pow2_adds(sa as nat, 149);
                        assert(n * c == big * w) by (nonlinear_arith)
                            requires
                                n == (ma * pow2(sa as nat)) * pow2(149),
                                big == ma * pow2(80),
                                (pow2(sa as nat) * pow2(149)) * c == pow2(80) * w,
                        ;
                        lemma_division_brackets(big as nat, den as nat, q as nat, rem as nat, w);
                    }
                }
                Self::from_grains(negative, q, s, rem != 0, Ghost(n), Ghost(d))
            }
        }
    }

    /// The square root.
    pub fn sqrt(self) -> (r: Float32)
        ensures
            r == square_root(self),
    {
        let (ma, sa) = self.split();
        if self.is_nan() || (self.is_negative() && ma != 0) {
            Self::not_a_number()
        } else if ma == 0 || self.is_infinite() {
            self
        } else {
            let j: u32 = if sa % 2 == 0 { 101 } else { 100 };
            let big: u128 = scaled(ma, j);
            let h: u32 = (sa + 149 - j) / 2;
            let root: u64 = whole_root(big);
            let exact: bool = (root as u128) * (root as u128) == big;
            let ghost n = self.units() * one_units();
            let ghost t = floor_root(n);
            let ghost x = if t * t == n { 2 * t } else { 2 * t + 1 };
            proof {
                let w = pow2(h as nat);
                lemma_pow2_pos(h as nat);
                lemma_pow2_adds(h as nat, h as nat);
                lemma_pow2_adds(j as nat, (2 * h) as nat);
                lemma_pow2_adds(sa as nat, 149);
                assert(j + 2 * h == sa + 149);
                assert(n == big * (w * w)) by (nonlinear_arith)
                    requires
                        n == (ma * pow2(sa as nat)) * pow2(149),
                        big == ma * pow2(j as nat),
                        pow2(j as nat) * (w * w) == pow2(sa as nat) * pow2(149),
                ;
                lemma_floor_root(n);
                lemma_root_brackets(n, big as nat, root as nat, w, t);
                assert(pow2(100) >= 0x100_0000 * 0x100_0000) by {
                    lemma_small_powers();
                    lemma_pow2_strictly_increases(48, 100);
                }
                if j > 100 {
                    lemma_pow2_strictly_increases(100, j as nat);
                }
                assert(big >= pow2(100)) by (nonlinear_arith)
                    requires
                        big == ma * pow2(j as nat),
                        ma >= 1,
                        pow2(j as nat) >= pow2(100),
                ;
                assert(root >= 0x100_0000) by (nonlinear_arith)
                    requires
                        big < (root + 1) * (root + 1),
                        big >= 0x100_0000 * 0x100_0000,
                ;
                lemma_small_powers();
                lemma_pow2_strictly_increases(64, 127);
            }
            Self::from_grains(false, root as u128, h as i32, !exact, Ghost(x), Ghost(2))
        }
    }

    /// The number nearest to an integer.
    pub fn from_u64(v: u64) -> (r: Float32)
        ensures
            r == of_integer(v as nat),
    {
        proof {
            lemma_small_powers();
        }
        if v == 0 {
            proof {
                lemma_nearest_zero(1, 24);
                assert(0 * one_units() == 0);
            }
            Self::zero_of_sign(false)
        } else {
            let ghost n = v as nat * one_units();
            proof {
                lemma_brackets_exact(v as nat, 149, 1);
                assert(v as nat * (1 * pow2(149)) == n);
                lemma_pow2_adds(64, 60);
                lemma_pow2_strictly_increases(124, 127);
                assert(v * pow2(60) < pow2(127)) by (nonlinear_arith)
                    requires
                        v < pow2(64),
                        pow2(64) * pow2(60) == pow2(124),
                        pow2(124) < pow2(127),
                        pow2(60) > 0,
                ;
            }
            Self::from_exact(false, v as u128, 149, 60, Ghost(n), Ghost(1))
        }
    }
}

impl Float32 {
    /// The integer part.
    pub fn truncate(self) -> (r: u64)
        ensures
            r == truncated(self),
    {
        if self.is_nan() || self.is_negative() {
            return 0;
        }
        let (m, s) = self.split();
        proof {
            lemma_small_powers();
            lemma_pow2_pos(149);
        }
        if s >= 149 {
            proof {
                lemma_whole_units(m as nat, s as nat);
            }
            if s > 189 {
                proof {
                    lemma_large(m as nat, s as nat);
                }
                u64::MAX
            } else {
                small_shift_left(m, s - 149)
            }
        } else {
            let k: u32 = 149 - s;
            proof {
                lemma_fine_units(m as nat, s as nat);
            }
            if k >= 24 {
                proof {
                    if k > 24 {
                        lemma_pow2_strictly_increases(24, k as nat);
                    }
                    vstd::arithmetic::div_mod::lemma_basic_div(m as int, pow2(k as nat) as int);
                }
                0
            } else {
                let unit: u64 = small_shift_left(1, k);
                proof {
                    lemma_pow2_pos(k as nat);
                    assert(1 * pow2(k as nat) == pow2(k as nat));
                }
                m / unit
            }
        }
    }

    /// The nearest integer.
    pub fn round(self) -> (r: u64)
        ensures
            r == rounded_integer(self),
    {
        if self.is_nan() || self.is_negative() {
            return 0;
        }
        let (m, s) = self.split();
        proof {
            lemma_small_powers();
            lemma_pow2_pos(149);
        }
        if s >= 149 {
            proof {
                lemma_whole_units(m as nat, s as nat);
            }
            if s > 189 {
                proof {
                    lemma_large(m as nat, s as nat);
                }
                u64::MAX
            } else {
                small_shift_left(m, s - 149)
            }
        } else {
            let k: u32 = 149 - s;
            proof {
                lemma_fine_units(m as nat, s as nat);
                lemma_pow2_pos(k as nat);
            }
            if k >= 25 {
                proof {
                    lemma_pow2_unfold(25);
                    if k > 25 {
                        lemma_pow2_strictly_increases(25, k as nat);
                    }
                    vstd::arithmetic::div_mod::lemma_basic_div(
                        (2 * m + pow2(k as nat)) as int,
                        (2 * pow2(k as nat)) as int,
                    );
                }
                0
            } else {
                let unit: u64 = small_shift_left(1, k);
                proof {
                    assert(1 * pow2(k as nat) == pow2(k as nat));
                    if k < 24 {
                        lemma_pow2_strictly_increases(k as nat, 24);
                    }
                }
                (2 * m + unit) / (2 * unit)
            }
        }
    }
}

/// `m * 2^k`, for a shift that cannot lose a digit.
fn small_shift_left(m: u64, k: u32) -> (r: u64)
    requires
        m < 0x100_0000,
        k <= 40,
    ensures
        r == m * pow2(k as nat),
        r <= 0x100_0000 * pow2(k as nat),
{
    let r: u128 = scaled(m, k);
    proof {
        lemma_small_powers();
        lemma_pow2_adds(24, 40);
        lemma_pow2_pos(k as nat);
        if k < 40 {
            lemma_pow2_strictly_increases(k as nat, 40);
        }
        assert(r < pow2(64)) by (nonlinear_arith)
            requires
                r == m * pow2(k as nat),
                m < pow2(24),
                pow2(k as nat) <= pow2(40),
                pow2(24) * pow2(40) == pow2(64),
                pow2(40) > 0,
        ;
        assert(m * pow2(k as nat) <= 0x100_0000 * pow2(k as nat)) by (nonlinear_arith)
            requires
                m < 0x100_0000,
        ;
    }
    r as u64
}

/// A number whose last digit weighs at least one is an integer.
proof fn lemma_whole_units(m: nat, s: nat)
    requires
        s >= 149,
    ensures
        (m * pow2(s)) / one_units() == m * pow2((s - 149) as nat),
        (2 * (m * pow2(s)) + one_units()) / (2 * one_units()) == m * pow2((s - 149) as nat),
{
    let one = one_units();
    let v = m * pow2((s - 149) as nat);
    lemma_pow2_pos(149);
    lemma_pow2_adds((s - 149) as nat, 149);
    assert(m * pow2(s) == v * one) by (nonlinear_arith)
        requires
            v == m * pow2((s - 149) as nat),
            pow2(s) == pow2((s - 149) as nat) * one,
    ;
    vstd::arithmetic::div_mod::lemma_fundamental_div_mod_converse(
        (v * one) as int,
        one as int,
        v as int,
        0,
    );
    assert(2 * (v * one) + one == v * (2 * one) + one) by (nonlinear_arith);
    vstd::arithmetic::div_mod::lemma_fundamental_div_mod_converse(
        (2 * (v * one) + one) as int,
        (2 * one) as int,
        v as int,
        one as int,
    );
}

proof fn lemma_large(m: nat, s: nat)
    requires
        m >= 0x80_0000,
        s > 189,
    ensures
        m * pow2((s - 149) as nat) > u64::MAX,
{
    let p = pow2((s - 149) as nat);
    lemma_small_powers();
    lemma_pow2_unfold(41);
    if s > 190 {
        lemma_pow2_strictly_increases(41, (s - 149) as nat);
    }
    assert(m * p >= 0x80_0000 * 0x200_0000_0000) by (nonlinear_arith)
        requires
            m >= 0x80_0000,
            p >= 0x200_0000_0000,
    ;
}

/// The parts of a number whose last digit weighs less than one.
proof fn lemma_fine_units(m: nat, s: nat)
    requires
        s < 149,
    ensures
        (m * pow2(s)) / one_units() == m / pow2((149 - s) as nat),
        (2 * (m * pow2(s)) + one_units()) / (2 * one_units()) == (2 * m + pow2((149 - s) as nat))
            / (2 * pow2((149 - s) as nat)),
{
    let k = (149 - s) as nat;
    let ps = pow2(s);
    let pk = pow2(k);
    lemma_pow2_pos(s);
    lemma_pow2_pos(k);
    lemma_pow2_adds(k, s);
    lemma_scaled_division(m, pk, ps);
    lemma_scaled_division(2 * m + pk, 2 * pk, ps);
    assert((2 * m + pk) * ps == 2 * (m * ps) + pk * ps) by (nonlinear_arith);
    assert((2 * pk) * ps == 2 * (pk * ps)) by (nonlinear_arith);
}

pub(crate) proof fn lemma_scaled_division(a: nat, b: nat, c: nat)
    requires
        b > 0,
        c > 0,
    ensures
        (a * c) / (b * c) == a / b,
{
    vstd::arithmetic::div_mod::lemma_fundamental_div_mod(a as int, b as int);
    let q = a / b;
    let r = a % b;
    assert(a * c == q * (b * c) + r * c) by (nonlinear_arith)
        requires
            a == b * q + r,
    ;
    assert(0 <= r * c < b * c) by (nonlinear_arith)
        requires
            0 <= r < b,
            c > 0,
    ;
    vstd::arithmetic::div_mod::lemma_fundamental_div_mod_converse(
        (a * c) as int,
        (b * c) as int,
        q as int,
        (r * c) as int,
    );
}

pub(crate) proof fn lemma_division_brackets(big: nat, den: nat, q: nat, rem: nat, w: nat)
    requires
        big == den * q + rem,
        rem < den,
        w > 0,
    ensures
        q * (den * w) <= big * w < (q + 1) * (den * w),
        rem != 0 <==> q * (den * w) < big * w,
{
    assert(big * w == q * (den * w) + rem * w) by (nonlinear_arith)
        requires
            big == den * q + rem,
    ;
    assert((q + 1) * (den * w) == q * (den * w) + den * w) by (nonlinear_arith);
    assert(rem * w < den * w) by (nonlinear_arith)
        requires
            rem < den,
            w > 0,
    ;
    assert(rem != 0 <==> rem * w > 0) by (nonlinear_arith)
        requires
            w > 0,
            rem >= 0,
    ;
}

/// A whole root in coarse grains brackets the root in fine ones.
proof fn lemma_root_brackets(n: nat, big: nat, root: nat, w: nat, t: nat)
    requires
        w > 0,
        n == big * (w * w),
        root * root <= big < (root + 1) * (root + 1),
        t * t <= n < (t + 1) * (t + 1),
    ensures
        ({
            let x = if t * t == n { 2 * t } else { 2 * t + 1 };
            &&& root * (2 * w) <= x < (root + 1) * (2 * w)
            &&& root * root != big <==> root * (2 * w) < x
        }),
{
    let lo = root * w;
    let hi = (root + 1) * w;
    assert(lo * lo == (root * root) * (w * w)) by (nonlinear_arith)
        requires
            lo == root * w,
    ;
    assert(hi * hi == ((root + 1) * (root + 1)) * (w * w)) by (nonlinear_arith)
        requires
            hi == (root + 1) * w,
    ;
    assert(w * w > 0) by (nonlinear_arith)
        requires
            w > 0,
    ;
    assert(lo * lo <= n && (root * root < big ==> lo * lo < n)) by (nonlinear_arith)
        requires
            lo * lo == (root * root) * (w * w),
            n == big * (w * w),
            root * root <= big,
            w * w > 0,
    ;
    assert(n < hi * hi) by (nonlinear_arith)
        requires
            hi * hi == ((root + 1) * (root + 1)) * (w * w),
            n == big * (w * w),
            big < (root + 1) * (root + 1),
            w * w > 0,
    ;
    assert(lo <= t) by (nonlinear_arith)
        requires
            lo * lo <= n,
            n < (t + 1) * (t + 1),
            lo >= 0,
            t >= 0,
    ;
    assert(t < hi) by (nonlinear_arith)
        requires
            n < hi * hi,
            t * t <= n,
            hi >= 0,
            t >= 0,
    ;
    assert(root * (2 * w) == 2 * lo) by (nonlinear_arith)
        requires
            lo == root * w,
    ;
    assert((root + 1) * (2 * w) == 2 * hi) by (nonlinear_arith)
        requires
            hi == (root + 1) * w,
    ;
    if root * root == big {
        assert(lo * lo == n);
        assert(t <= lo) by (nonlinear_arith)
            requires
                t * t <= lo * lo,
                lo >= 0,
                t >= 0,
        ;
    } else if t * t == n {
        assert(lo != t);
    }
}

/// The whole part of the square root.
fn whole_root(m: u128) -> (r: u64)
    requires
        m < pow2(125),
    ensures
        r * r <= m < (r + 1) * (r + 1),
{
    let mut lo: u64 = 0;
    let mut hi: u64 = 0x8000_0000_0000_0000;
    proof {
        lemma_small_powers();
        lemma_pow2_adds(63, 63);
        lemma_pow2_strictly_increases(125, 126);
    }
    while hi - lo > 1
        invariant
            lo < hi <= 0x8000_0000_0000_0000,
            lo * lo <= m < hi * hi,
        decreases hi - lo,
    {
        let mid: u64 = lo + (hi - lo) / 2;
        proof {
            assert(mid * mid <= 0x8000_0000_0000_0000 * 0x8000_0000_0000_0000) by (nonlinear_arith)
                requires
                    mid <= 0x8000_0000_0000_0000,
            ;
        }
        if (mid as u128) * (mid as u128) <= m {
            lo = mid;
        } else {
            hi = mid;
        }
    }
    proof {
        assert(hi == lo + 1);
    }
    lo
}

} // verus!
