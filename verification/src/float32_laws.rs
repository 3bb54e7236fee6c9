//! What holds of arithmetic on single-precision numbers: where it is exact, and how far it
//! is off where it is not.
use vstd::prelude::*;
use vstd::arithmetic::div_mod::{lemma_fundamental_div_mod, lemma_fundamental_div_mod_converse};
use vstd::arithmetic::power2::{
    lemma2_to64, lemma_pow2_adds, lemma_pow2_pos, lemma_pow2_strictly_increases,
    lemma_pow2_unfold, pow2,
};
use crate::float32::{
    clamped, floor_root, infinite_units, larger, lemma_floor_root, lemma_units_increase,
    lemma_units_injective, of_integer, of_units, one_units, product, quotient, rounded_integer,
    smaller, square_root, sum, Float32,
};
use crate::rounding::{half_even, nearest};

verus! {

/// Every number of units that has at most 24 digits, and is not too large, is a number.
proof fn lemma_representable(q: nat, e: nat, negative: bool) -> (f: Float32)
    requires
        q <= 0x100_0000,
        q * pow2(e) < infinite_units(),
    ensures
        f.finite(),
        f.negative() == negative,
        f.units() == q * pow2(e),
    decreases 2 * e + (if q == 0x100_0000 {
        3nat
    } else {
        0
    }),
{
    lemma2_to64();
    lemma_pow2_pos(e);
    let sign: nat = if negative {
        0x8000_0000
    } else {
        0
    };
    if q == 0x100_0000 {
        lemma_pow2_unfold(e + 1);
        assert(0x80_0000 * pow2(e + 1) == q * pow2(e)) by (nonlinear_arith)
            requires
                pow2(e + 1) == 2 * pow2(e),
                q == 0x100_0000,
        ;
        lemma_representable(0x80_0000, e + 1, negative)
    } else if e == 0 {
        assert(pow2(0) == 1);
        let f = Float32 { bits: (sign + q) as u32 };
        assert(f.magnitude() == q);
        if q < 0x80_0000 {
            assert(f.digits() == q);
            assert(f.exponent() == 0);
        } else {
            assert(f.magnitude() % 0x80_0000 == q - 0x80_0000);
            assert(f.digits() == q);
            assert(f.magnitude() / 0x80_0000 == 1);
            assert(f.exponent() == 0);
        }
        assert(q * 1 == q);
        f
    } else if q < 0x80_0000 {
        lemma_pow2_unfold(e);
        let p = pow2((e - 1) as nat);
        assert((2 * q) * p == q * pow2(e)) by (nonlinear_arith)
            requires
                pow2(e) == 2 * p,
        ;
        lemma_representable(2 * q, (e - 1) as nat, negative)
    } else {
        assert(e < 254) by {
            if e >= 254 {
                lemma_pow2_adds(23, 254);
                if e > 254 {
                    lemma_pow2_strictly_increases(254, e);
                }
                assert(q * pow2(e) >= pow2(23) * pow2(254)) by (nonlinear_arith)
                    requires
                        q >= pow2(23),
                        pow2(e) >= pow2(254),
                        pow2(254) > 0,
                ;
            }
        }
        let m: nat = ((e + 1) * 0x80_0000 + (q - 0x80_0000)) as nat;
        assert(m < 0x7f80_0000);
        let f = Float32 { bits: (sign + m) as u32 };
        assert(f.magnitude() == m);
        lemma_fundamental_div_mod_converse(
            m as int,
            0x80_0000,
            (e + 1) as int,
            q - 0x80_0000,
        );
        assert(f.digits() == q);
        assert(f.exponent() == e);
        f
    }
}

/// Rounding leaves at most 24 digits.
proof fn lemma_nearest_digits(n: nat, d: nat) -> (r: (nat, nat))
    requires
        d > 0,
    ensures
        r.0 <= 0x100_0000,
        nearest(n, d, 24) == r.0 * pow2(r.1),
    decreases n - d,
{
    lemma2_to64();
    lemma_fundamental_div_mod(n as int, d as int);
    if n < d * pow2(24) {
        let q = n / d;
        assert(q < 0x100_0000) by (nonlinear_arith)
            requires
                n == d * q + n % d,
                n % d >= 0,
                n < d * 0x100_0000,
                d > 0,
        ;
        let h = half_even(n, d);
        assert(h * pow2(0) == h) by (nonlinear_arith)
            requires
                pow2(0) == 1,
        ;
        (h, 0)
    } else {
        assert(n >= 2 * d) by (nonlinear_arith)
            requires
                n >= d * 0x100_0000,
                d > 0,
        ;
        let (q, e) = lemma_nearest_digits(n, 2 * d);
        lemma_pow2_unfold(e + 1);
        assert(2 * (q * pow2(e)) == q * pow2(e + 1)) by (nonlinear_arith)
            requires
                pow2(e + 1) == 2 * pow2(e),
        ;
        (q, e + 1)
    }
}

/// Rounding an exact quotient gives a number with that many units.
proof fn lemma_rounded_units(negative: bool, n: nat, d: nat)
    requires
        d > 0,
        nearest(n, d, 24) < infinite_units(),
    ensures
        of_units(negative, nearest(n, d, 24)).finite(),
        of_units(negative, nearest(n, d, 24)).negative() == negative,
        of_units(negative, nearest(n, d, 24)).units() == nearest(n, d, 24),
{
    let (q, e) = lemma_nearest_digits(n, d);
    let f = lemma_representable(q, e, negative);
    assert(f.finite() && f.negative() == negative && f.units() == nearest(n, d, 24));
}

/// A quotient that is a number of at most 24 digits stays as it is.
proof fn lemma_nearest_exact(q: nat, e: nat, d: nat)
    requires
        d > 0,
        q <= 0x100_0000,
    ensures
        nearest(q * pow2(e) * d, d, 24) == q * pow2(e),
    decreases e,
{
    lemma2_to64();
    lemma_pow2_pos(e);
    let v = q * pow2(e);
    let n = v * d;
    if n < d * pow2(24) {
        lemma_fundamental_div_mod_converse(n as int, d as int, v as int, 0);
    } else {
        assert(v >= 0x100_0000) by (nonlinear_arith)
            requires
                n == v * d,
                n >= d * 0x100_0000,
                d > 0,
        ;
        // an even number of units
        if e == 0 {
            assert(v == q) by (nonlinear_arith)
                requires
                    v == q * pow2(e),
                    pow2(e) == 1,
            ;
            let h: nat = 0x80_0000;
            assert(n == h * (2 * d)) by (nonlinear_arith)
                requires
                    n == v * d,
                    v == 0x100_0000,
                    h == 0x80_0000,
            ;
            assert(n < (2 * d) * pow2(24)) by (nonlinear_arith)
                requires
                    n == h * (2 * d),
                    h == 0x80_0000,
                    pow2(24) == 0x100_0000,
                    d > 0,
            ;
            lemma_fundamental_div_mod_converse(n as int, (2 * d) as int, h as int, 0);
            assert(nearest(n, 2 * d, 24) == h);
        } else {
            lemma_pow2_unfold(e);
            let p = pow2((e - 1) as nat);
            let u = q * p;
            assert(v == 2 * u) by (nonlinear_arith)
                requires
                    v == q * pow2(e),
                    u == q * p,
                    pow2(e) == 2 * p,
            ;
            lemma_nearest_exact(q, (e - 1) as nat, 2 * d);
            assert(u * (2 * d) == n) by (nonlinear_arith)
                requires
                    n == v * d,
                    v == 2 * u,
            ;
        }
    }
}

/// Rounding is off by at most one part in `2^24`, where there are digits to lose.
proof fn lemma_nearest_error(n: nat, d: nat)
    requires
        d > 0,
        n >= d * 0x100_0000,
    ensures
        (nearest(n, d, 24) * d - n) * 0x100_0000 <= n,
        (n - nearest(n, d, 24) * d) * 0x100_0000 <= n,
    decreases n - d,
{
    lemma2_to64();
    let u = nearest(n, 2 * d, 24);
    assert(n >= 2 * d) by (nonlinear_arith)
        requires
            n >= d * 0x100_0000,
            d > 0,
    ;
    assert((2 * u) * d == u * (2 * d)) by (nonlinear_arith);
    if n < (2 * d) * pow2(24) {
        let g = 2 * d;
        lemma_fundamental_div_mod(n as int, g as int);
        let q = n / g;
        let r = n % g;
        assert((q + 1) * g == q * g + g && q * g == g * q) by (nonlinear_arith);
        assert(-(d as int) <= u * g - n <= d);
        assert((u * g - n) * 0x100_0000 <= n && (n - u * g) * 0x100_0000 <= n) by (nonlinear_arith)
            requires
                -(d as int) <= u * g - n <= d,
                n >= d * 0x100_0000,
        ;
    } else {
        assert(n >= (2 * d) * 0x100_0000);
        lemma_nearest_error(n, 2 * d);
    }
}

proof fn lemma_large_enough()
    ensures
        pow2(24) == 0x100_0000,
        one_units() >= 0x80_0000 * 0x100_0000,
        0x4_0000_0000 * one_units() < infinite_units(),
        one_units() == 2 * pow2(148),
{
    lemma2_to64();
    lemma_pow2_unfold(149);
    vstd::arithmetic::power2::lemma2_to64_rest();
    lemma_pow2_strictly_increases(47, 149);
    lemma_pow2_adds(34, 149);
    lemma_pow2_strictly_increases(183, 277);
}

/// Integers of at most 24 digits are numbers as they are.
pub proof fn law_small_integers_are_exact(v: nat)
    requires
        v <= 0x100_0000,
    ensures
        of_integer(v).finite(),
        !of_integer(v).negative(),
        of_integer(v).units() == v * one_units(),
{
    lemma_large_enough();
    lemma_nearest_exact(v, 149, 1);
    let u = v * one_units();
    assert(u * 1 == u) by (nonlinear_arith);
    assert(u < infinite_units()) by (nonlinear_arith)
        requires
            u == v * one_units(),
            v <= 0x100_0000,
            0x4_0000_0000 * one_units() < infinite_units(),
    ;
    lemma_rounded_units(false, u, 1);
}

/// Integers whose product has at most 24 digits are multiplied without loss.
pub proof fn law_small_products_are_exact(a: nat, b: nat)
    requires
        a <= 0x100_0000,
        b <= 0x100_0000,
        a * b <= 0x100_0000,
    ensures
        product(of_integer(a), of_integer(b)) == of_integer(a * b),
{
    lemma_large_enough();
    law_small_integers_are_exact(a);
    law_small_integers_are_exact(b);
    let one = one_units();
    let v = a * b;
    assert((a * one) * (b * one) == v * one * one) by (nonlinear_arith)
        requires
            v == a * b,
    ;
    lemma_nearest_exact(v, 149, one);
    lemma_nearest_exact(v, 149, 1);
    assert(v * one * 1 == v * one) by (nonlinear_arith);
}

/// A quotient of small integers, rounded to the nearest integer, is the exact quotient
/// rounded to the nearest integer, a half going up: that the quotient itself is rounded
/// to a single-precision number first does not show.
pub proof fn law_small_quotients_round_to_the_nearest(a: nat, b: nat)
    requires
        a < 0x80_0000,
        0 < b <= 0x80_0000,
    ensures
        rounded_integer(quotient(of_integer(a), of_integer(b))) == (2 * a + b) / (2 * b),
{
    lemma_large_enough();
    law_small_integers_are_exact(a);
    law_small_integers_are_exact(b);
    let one = one_units();
    let fa = of_integer(a);
    let fb = of_integer(b);
    assert(b * one > 0) by (nonlinear_arith)
        requires
            b > 0,
            one > 0,
    ;
    lemma_zero_units(fb);
    let n = (a * one) * one;
    let d = b * one;
    let goal = (2 * a + b) / (2 * b);
    lemma_fundamental_div_mod((2 * a + b) as int, (2 * b) as int);
    if a == 0 {
        assert(n == 0) by (nonlinear_arith)
            requires
                n == (a * one) * one,
                a == 0,
        ;
        assert(a * one == 0) by (nonlinear_arith)
            requires
                a == 0,
        ;
        lemma_nearest_exact(0, 0, d);
        assert(0 * pow2(0) * d == 0 && 0 * pow2(0) == 0) by (nonlinear_arith);
        lemma_rounded_units(false, n, d);
        lemma_fundamental_div_mod_converse(one as int, (2 * one) as int, 0, one as int);
        lemma_fundamental_div_mod_converse(b as int, (2 * b) as int, 0, b as int);
    } else {
        let u = nearest(n, d, 24);
        assert(n >= d * 0x100_0000) by (nonlinear_arith)
            requires
                n == (a * one) * one,
                d == b * one,
                a >= 1,
                b <= 0x80_0000,
                one >= 0x80_0000 * 0x100_0000,
        {
            assert(a * one >= b * 0x100_0000);
            assert((a * one) * one >= (b * 0x100_0000) * one);
        }
        lemma_nearest_error(n, d);
        // off by less than half a part
        assert(2 * (u * b) - 2 * (a * one) < one && 2 * (a * one) - 2 * (u * b) < one)
            by (nonlinear_arith)
            requires
                (u * d - n) * 0x100_0000 <= n,
                (n - u * d) * 0x100_0000 <= n,
                n == (a * one) * one,
                d == b * one,
                a < 0x80_0000,
                one > 0,
        {
            let x = u * b - a * one;
            assert(u * d - n == x * one);
            assert((x * one) * 0x100_0000 <= (a * one) * one);
            assert(x * 0x100_0000 <= a * one);
            assert((-x * one) * 0x100_0000 <= (a * one) * one);
            assert(-x * 0x100_0000 <= a * one);
            assert(a * one < 0x80_0000 * one);
        }
        assert(u < infinite_units()) by (nonlinear_arith)
            requires
                2 * (u * b) - 2 * (a * one) < one,
                a < 0x80_0000,
                b >= 1,
                0x4_0000_0000 * one < infinite_units(),
        {
            assert(u <= u * b);
            assert(a * one <= 0x80_0000 * one);
        }
        lemma_rounded_units(false, n, d);
        let q = quotient(fa, fb);
        assert(fa.units() > 0) by (nonlinear_arith)
            requires
                fa.units() == a * one,
                a > 0,
                one > 0,
        ;
        lemma_zero_units(fa);
        assert(q.units() == u && !q.negative());
        lemma_fundamental_div_mod((2 * u + one) as int, (2 * one) as int);
        let k = (2 * u + one) / (2 * one);
        let rest = (2 * u + one) % (2 * one);
        assert(2 * u + one == (2 * one) * k + rest);
        // k is the nearest integer to a / b
        assert(2 * (k * b) <= 2 * a + b) by (nonlinear_arith)
            requires
                2 * u + one == (2 * one) * k + rest,
                0 <= rest,
                2 * (u * b) - 2 * (a * one) < one,
                one > 0,
        {
            assert((2 * u + one) * b == ((2 * one) * k + rest) * b);
            assert((2 * u + one) * b == 2 * (u * b) + one * b);
            assert(((2 * one) * k + rest) * b == one * (2 * (k * b)) + rest * b);
            assert(rest * b >= 0);
            assert(one * (2 * (k * b)) < one * (2 * a + b + 1));
        }
        assert(2 * a + b < 2 * ((k + 1) * b)) by {
            assert(2 * a + b <= 2 * ((k + 1) * b)) by (nonlinear_arith)
                requires
                    2 * u + one == (2 * one) * k + rest,
                    rest < 2 * one,
                    2 * (a * one) - 2 * (u * b) < one,
                    one > 0,
                    b > 0,
            {
                assert((2 * u + one) * b == ((2 * one) * k + rest) * b);
                assert((2 * u + one) * b == 2 * (u * b) + one * b);
                assert(((2 * one) * k + rest) * b == one * (2 * (k * b)) + rest * b);
                assert(rest * b < (2 * one) * b);
                assert(one * (2 * a + b) < one * (2 * ((k + 1) * b) + 1));
            }
            if 2 * a + b == 2 * ((k + 1) * b) {
                // exactly a half: then the quotient is exact, and the half went up
                let h = 2 * k + 1;
                assert(2 * a == h * b) by (nonlinear_arith)
                    requires
                        2 * a + b == 2 * ((k + 1) * b),
                        h == 2 * k + 1,
                ;
                assert(h <= 0x100_0000) by (nonlinear_arith)
                    requires
                        2 * a == h * b,
                        a < 0x80_0000,
                        b >= 1,
                ;
                let half = pow2(148);
                lemma_nearest_exact(h, 148, d);
                assert(n == h * half * d) by (nonlinear_arith)
                    requires
                        n == (a * one) * one,
                        d == b * one,
                        2 * a == h * b,
                        one == 2 * half,
                {
                    assert(a * one == (2 * a) * half);
                    assert((h * b) * half == h * half * b);
                    assert((h * half * b) * one == h * half * (b * one));
                }
                assert(u == h * half);
                assert(2 * u + one == (2 * one) * (k + 1)) by (nonlinear_arith)
                    requires
                        u == h * half,
                        h == 2 * k + 1,
                        one == 2 * half,
                ;
                assert(false) by (nonlinear_arith)
                    requires
                        (2 * one) * (k + 1) == (2 * one) * k + rest,
                        rest < 2 * one,
                ;
            }
        }
        let r = 2 * a + b - 2 * (k * b);
        assert(2 * a + b == k * (2 * b) + r && 0 <= r < 2 * b) by (nonlinear_arith)
            requires
                r == 2 * a + b - 2 * (k * b),
                2 * (k * b) <= 2 * a + b,
                2 * a + b < 2 * ((k + 1) * b),
        ;
        lemma_fundamental_div_mod_converse(
            (2 * a + b) as int,
            (2 * b) as int,
            k as int,
            r as int,
        );
        assert(k <= u64::MAX) by (nonlinear_arith)
            requires
                2 * (k * b) <= 2 * a + b,
                a < 0x80_0000,
                b <= 0x80_0000,
                b >= 1,
        {
            assert(k <= k * b);
        }
    }
}

/// A number without units is zero.
pub proof fn lemma_zero_units(f: Float32)
    ensures
        f.zero() <==> f.units() == 0,
{
    let z = Float32 { bits: 0 };
    assert(z.digits() == 0);
    assert(z.units() == 0);
    if f.magnitude() > 0 {
        lemma_units_increase(z, f);
    } else {
        assert(f.digits() == 0);
        assert(0 * pow2(f.exponent()) == 0) by (nonlinear_arith);
    }
}

/// The order of the summands does not matter, nor does that of the factors.
pub proof fn law_sums_and_products_commute(a: Float32, b: Float32)
    ensures
        product(a, b) == product(b, a),
        !(a.infinite() && b.infinite()) ==> sum(a, b) == sum(b, a),
{
    assert(a.units() * b.units() == b.units() * a.units()) by (nonlinear_arith);
}

proof fn lemma_same_number(f: Float32, negative: bool, u: nat)
    requires
        f.finite(),
        f.negative() == negative,
        f.units() == u,
        u < infinite_units(),
    ensures
        of_units(negative, u) == f,
{
    let g = of_units(negative, u);
    assert(g.finite() && g.negative() == negative && g.units() == u);
    lemma_units_injective(f, g);
}

proof fn lemma_finite_units(f: Float32)
    requires
        f.finite(),
    ensures
        f.digits() < 0x100_0000,
        f.units() < infinite_units(),
{
    lemma2_to64();
    let inf = Float32 { bits: 0x7f80_0000 };
    assert(inf.magnitude() / 0x80_0000 == 255);
    assert(inf.magnitude() % 0x80_0000 == 0);
    lemma_pow2_adds(23, 254);
    lemma_units_increase(f, inf);
}

/// Adding zero changes nothing, and a number divided by itself is one.
pub proof fn law_zero_and_one(x: Float32)
    requires
        x.finite(),
        !x.zero(),
    ensures
        sum(Float32 { bits: 0 }, x) == x,
        quotient(x, x) == (Float32 { bits: 0x3f80_0000 }),
{
    lemma2_to64();
    lemma_large_enough();
    lemma_finite_units(x);
    lemma_zero_units(x);
    let u = x.units();
    let z = Float32 { bits: 0 };
    assert(z.digits() == 0);
    assert(0 * pow2(z.exponent()) == 0) by (nonlinear_arith);
    assert(z.value() == 0);
    lemma_nearest_exact(x.digits(), x.exponent(), 1);
    assert(u * 1 == u) by (nonlinear_arith);
    lemma_same_number(x, x.negative(), u);
    let one = Float32 { bits: 0x3f80_0000 };
    assert(one.magnitude() / 0x80_0000 == 127);
    assert(one.magnitude() % 0x80_0000 == 0);
    lemma_pow2_adds(23, 126);
    assert(one.units() == one_units());
    lemma_nearest_exact(1, 149, u);
    assert(1 * pow2(149) * u == u * one_units() && 1 * pow2(149) == one_units()) by (nonlinear_arith)
        requires
            one_units() == pow2(149),
    ;
    lemma_finite_units(one);
    lemma_same_number(one, false, one_units());
}

/// Integers whose sum has at most 24 digits are added without loss.
pub proof fn law_small_sums_are_exact(a: nat, b: nat)
    requires
        a + b <= 0x100_0000,
    ensures
        sum(of_integer(a), of_integer(b)) == of_integer(a + b),
{
    lemma2_to64();
    lemma_large_enough();
    law_small_integers_are_exact(a);
    law_small_integers_are_exact(b);
    law_small_integers_are_exact(a + b);
    let one = one_units();
    assert((a + b) * one == a * one + b * one) by (nonlinear_arith);
    let v = (a + b) * one;
    if v == 0 {
        lemma_same_number(of_integer(a + b), false, 0);
    } else {
        assert(v * 1 == v) by (nonlinear_arith);
    }
}

/// An integer divided by one of its factors is the other factor.
pub proof fn law_exact_quotients_are_exact(a: nat, b: nat)
    requires
        a <= 0x100_0000,
        0 < b <= 0x100_0000,
        a * b <= 0x100_0000,
    ensures
        quotient(of_integer(a * b), of_integer(b)) == of_integer(a),
{
    lemma_large_enough();
    law_small_integers_are_exact(a);
    law_small_integers_are_exact(b);
    law_small_integers_are_exact(a * b);
    let one = one_units();
    let d = b * one;
    assert(d > 0) by (nonlinear_arith)
        requires
            d == b * one,
            b > 0,
            one > 0,
    ;
    lemma_zero_units(of_integer(b));
    assert(((a * b) * one) * one == a * one * d) by (nonlinear_arith)
        requires
            d == b * one,
    ;
    lemma_nearest_exact(a, 149, d);
    lemma_nearest_exact(a, 149, 1);
    assert(a * one * 1 == a * one) by (nonlinear_arith);
}

/// The square root of the square of an integer is that integer.
pub proof fn law_exact_roots_are_exact(a: nat)
    requires
        0 < a,
        a * a <= 0x100_0000,
    ensures
        square_root(of_integer(a * a)) == of_integer(a),
{
    lemma_large_enough();
    assert(a <= a * a) by (nonlinear_arith)
        requires
            a > 0,
    ;
    law_small_integers_are_exact(a * a);
    law_small_integers_are_exact(a);
    let one = one_units();
    let f = of_integer(a * a);
    let n = f.units() * one;
    let r = a * one;
    assert(n == r * r) by (nonlinear_arith)
        requires
            n == ((a * a) * one) * one,
            r == a * one,
    ;
    assert(f.units() > 0) by (nonlinear_arith)
        requires
            f.units() == (a * a) * one,
            a * a >= 1,
            one > 0,
    ;
    lemma_zero_units(f);
    lemma_floor_root(n);
    let t = floor_root(n);
    assert(t == r) by (nonlinear_arith)
        requires
            t * t <= n < (t + 1) * (t + 1),
            n == r * r,
    ;
    lemma_nearest_exact(a, 149, 2);
    lemma_nearest_exact(a, 149, 1);
    assert(r * 2 == 2 * r && r * 1 == r) by (nonlinear_arith);
}

/// One times a number is that number, and the mean of two equal numbers, as half of their
/// sum, is that number.
pub proof fn law_one_and_two(x: Float32)
    requires
        x.finite(),
        2 * x.units() < infinite_units(),
    ensures
        product(x, Float32 { bits: 0x3f80_0000 }) == x,
        !x.zero() ==> quotient(sum(x, x), Float32 { bits: 0x4000_0000 }) == x,
{
    lemma2_to64();
    lemma_large_enough();
    lemma_finite_units(x);
    lemma_zero_units(x);
    let u = x.units();
    let one = Float32 { bits: 0x3f80_0000 };
    assert(one.magnitude() / 0x80_0000 == 127);
    assert(one.magnitude() % 0x80_0000 == 0);
    lemma_pow2_adds(23, 126);
    assert(one.units() == one_units());
    lemma_nearest_exact(x.digits(), x.exponent(), one_units());
    lemma_same_number(x, x.negative(), u);
    let two = Float32 { bits: 0x4000_0000 };
    assert(two.magnitude() / 0x80_0000 == 128);
    assert(two.magnitude() % 0x80_0000 == 0);
    lemma_pow2_adds(23, 127);
    lemma_pow2_unfold(150);
    assert(two.units() == 2 * one_units());
    if !x.zero() {
        lemma_pow2_unfold(x.exponent() + 1);
        let double = x.digits() * pow2(x.exponent() + 1);
        assert(double == 2 * u) by (nonlinear_arith)
            requires
                double == x.digits() * pow2(x.exponent() + 1),
                pow2(x.exponent() + 1) == 2 * pow2(x.exponent()),
                u == x.digits() * pow2(x.exponent()),
        ;
        lemma_nearest_exact(x.digits(), x.exponent() + 1, 1);
        assert(double * 1 == double) by (nonlinear_arith);
        lemma_rounded_units(x.negative(), double, 1);
        let s = sum(x, x);
        assert(s.units() == double && s.negative() == x.negative() && s.finite());
        lemma_zero_units(s);
        lemma_zero_units(two);
        lemma_nearest_exact(x.digits(), x.exponent(), 2 * one_units());
        assert(double * one_units() == u * (2 * one_units())) by (nonlinear_arith)
            requires
                double == 2 * u,
        ;
    }
}

/// The pattern of one.
pub proof fn lemma_one_is_one()
    ensures
        of_integer(1) == (Float32 { bits: 0x3f80_0000 }),
{
    lemma2_to64();
    law_small_integers_are_exact(1);
    let one = Float32 { bits: 0x3f80_0000 };
    assert(one.magnitude() / 0x80_0000 == 127);
    assert(one.magnitude() % 0x80_0000 == 0);
    lemma_pow2_adds(23, 126);
    assert(1 * one_units() == one_units()) by (nonlinear_arith);
    lemma_units_injective(of_integer(1), one);
}

/// The pattern of two.
pub proof fn lemma_two_is_two()
    ensures
        of_integer(2) == (Float32 { bits: 0x4000_0000 }),
{
    lemma2_to64();
    law_small_integers_are_exact(2);
    let two = Float32 { bits: 0x4000_0000 };
    assert(two.magnitude() / 0x80_0000 == 128);
    assert(two.magnitude() % 0x80_0000 == 0);
    lemma_pow2_adds(23, 127);
    lemma_pow2_unfold(150);
    lemma_units_injective(of_integer(2), two);
}

/// The pattern of zero.
pub proof fn lemma_zero_is_zero()
    ensures
        of_integer(0) == (Float32 { bits: 0 }),
{
    law_small_integers_are_exact(0);
    lemma_zero_units(of_integer(0));
    assert(0 * one_units() == 0) by (nonlinear_arith);
    assert(of_integer(0).bits == 0);
}

/// The pattern of four.
pub proof fn lemma_four_is_four()
    ensures
        of_integer(4) == (Float32 { bits: 0x4080_0000 }),
{
    lemma2_to64();
    law_small_integers_are_exact(4);
    let four = Float32 { bits: 0x4080_0000 };
    assert(four.magnitude() / 0x80_0000 == 129);
    assert(four.magnitude() % 0x80_0000 == 0);
    lemma_pow2_adds(23, 128);
    lemma_pow2_adds(2, 149);
    lemma_units_injective(of_integer(4), four);
}

/// The pattern of a thousand.
pub proof fn lemma_thousand()
    ensures
        of_integer(1000) == (Float32 { bits: 0x447a_0000 }),
{
    lemma2_to64();
    law_small_integers_are_exact(1000);
    let f = Float32 { bits: 0x447a_0000 };
    assert(f.magnitude() / 0x80_0000 == 136);
    assert(f.magnitude() % 0x80_0000 == 0x7a_0000);
    assert(f.digits() == 1000 * 0x4000);
    lemma_pow2_adds(14, 135);
    assert((1000 * 0x4000) * pow2(135) == 1000 * (0x4000 * pow2(135))) by (nonlinear_arith);
    lemma_units_injective(of_integer(1000), f);
}

/// The pattern of sixteen thousand.
pub proof fn lemma_sixteen_thousand()
    ensures
        of_integer(16000) == (Float32 { bits: 0x467a_0000 }),
{
    lemma2_to64();
    law_small_integers_are_exact(16000);
    let f = Float32 { bits: 0x467a_0000 };
    assert(f.magnitude() / 0x80_0000 == 140);
    assert(f.magnitude() % 0x80_0000 == 0x7a_0000);
    assert(f.digits() == 16000 * 0x400);
    lemma_pow2_adds(10, 139);
    assert((16000 * 0x400) * pow2(139) == 16000 * (0x400 * pow2(139))) by (nonlinear_arith);
    lemma_units_injective(of_integer(16000), f);
}

/// The larger of two numbers is one of them and is below neither, the smaller one is one of
/// them and neither is below it, and what is not a number gives way to what is.
pub proof fn law_larger_and_smaller(a: Float32, b: Float32)
    ensures
        larger(a, b) == a || larger(a, b) == b,
        smaller(a, b) == a || smaller(a, b) == b,
        !larger(a, b).below(a) && !larger(a, b).below(b),
        !a.below(smaller(a, b)) && !b.below(smaller(a, b)),
        a.nan() ==> larger(a, b) == b && smaller(a, b) == b,
        !a.nan() && b.nan() ==> larger(a, b) == a && smaller(a, b) == a,
{
}

/// A number brought between two bounds lies between them, and stays where it did so already.
pub proof fn law_clamped_lies_between(a: Float32, lo: Float32, hi: Float32)
    requires
        !a.nan(),
        lo.at_most(hi),
    ensures
        lo.at_most(clamped(a, lo, hi)),
        clamped(a, lo, hi).at_most(hi),
        lo.at_most(a) && a.at_most(hi) ==> clamped(a, lo, hi) == a,
        a.below(lo) ==> clamped(a, lo, hi) == lo,
        hi.below(a) ==> clamped(a, lo, hi) == hi,
{
}

/// By rank numbers stand in the order of their values.
pub proof fn law_rank_follows_the_value(a: Float32, b: Float32)
    ensures
        a.value() < b.value() ==> a.rank() < b.rank(),
        a.rank() == b.rank() ==> a == b,
{
    lemma_zero_units(a);
    lemma_zero_units(b);
    if a.magnitude() < b.magnitude() {
        lemma_units_increase(a, b);
    } else if b.magnitude() < a.magnitude() {
        lemma_units_increase(b, a);
    }
    if a.rank() == b.rank() {
        assert(a.bits == b.bits);
    }
}

/// Products, quotients and sums have the sign that they should have, and their absolute value
/// is off by at most one part in `2^24`, where it is finite and there are digits to lose.
pub proof fn law_operations_are_off_by_little(a: Float32, b: Float32)
    requires
        a.finite(),
        b.finite(),
    ensures
        ({
            let p = product(a, b);
            let n = a.units() * b.units();
            let one = one_units();
            p.finite() && n >= one * 0x100_0000 ==> p.negative() == (a.negative() != b.negative())
                && (p.units() * one - n) * 0x100_0000 <= n && (n - p.units() * one) * 0x100_0000
                <= n
        }),
        ({
            let q = quotient(a, b);
            let n = a.units() * one_units();
            let d = b.units();
            q.finite() && d > 0 && n >= d * 0x100_0000 ==> q.negative() == (a.negative()
                != b.negative()) && (q.units() * d - n) * 0x100_0000 <= n && (n - q.units() * d)
                * 0x100_0000 <= n
        }),
        ({
            let s = sum(a, b);
            let v = a.value() + b.value();
            let n = if v < 0 {
                -v
            } else {
                v
            };
            s.finite() && n >= 0x100_0000 ==> s.negative() == (v < 0) && (s.units() - n)
                * 0x100_0000 <= n && (n - s.units()) * 0x100_0000 <= n
        }),
{
    lemma_large_enough();
    let one = one_units();
    let negative = a.negative() != b.negative();
    lemma_zero_units(a);
    lemma_zero_units(b);
    let n = a.units() * b.units();
    if product(a, b).finite() && n >= one * 0x100_0000 {
        assert(nearest(n, one, 24) < infinite_units());
        lemma_rounded_units(negative, n, one);
        lemma_nearest_error(n, one);
    }
    let n = a.units() * one;
    let d = b.units();
    if quotient(a, b).finite() && d > 0 && n >= d * 0x100_0000 {
        assert(n > 0) by (nonlinear_arith)
            requires
                n >= d * 0x100_0000,
                d > 0,
        ;
        assert(nearest(n, d, 24) < infinite_units());
        lemma_rounded_units(negative, n, d);
        lemma_nearest_error(n, d);
    }
    let v = a.value() + b.value();
    let n = (if v < 0 {
        -v
    } else {
        v
    }) as nat;
    if sum(a, b).finite() && n >= 0x100_0000 {
        assert(nearest(n, 1, 24) < infinite_units());
        lemma_rounded_units(v < 0, n, 1);
        lemma_nearest_error(n, 1);
        let u = nearest(n, 1, 24);
        assert(u * 1 == u) by (nonlinear_arith);
    }
}

} // verus!
