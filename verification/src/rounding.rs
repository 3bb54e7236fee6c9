//! Rounding of exact quotients to a bounded number of binary digits.
//!
//! Quantities are whole numbers of some unit. An exact result is a quotient
//! `n / d` of such numbers, and [`nearest`] says what it becomes when only `p`
//! significant binary digits can be kept.
use vstd::prelude::*;
use vstd::arithmetic::div_mod::{lemma_fundamental_div_mod, lemma_fundamental_div_mod_converse};
use vstd::arithmetic::power2::{
    lemma_pow2_adds, lemma_pow2_pos, lemma_pow2_strictly_increases, lemma_pow2_unfold, pow2,
};
use vstd::bits::lemma_u128_shr_is_div;

verus! {

/// `n / d` rounded to the nearest integer, a half going to the even neighbour.
pub open spec fn half_even(n: nat, d: nat) -> nat {
    let q = n / d;
    let r = n % d;
    if 2 * r < d || (2 * r == d && q % 2 == 0) {
        q
    } else {
        q + 1
    }
}

/// `n / d` rounded to a whole number of at most `p` significant binary digits,
/// to the nearest one, a half going to the even neighbour.
pub open spec fn nearest(n: nat, d: nat, p: nat) -> nat
    decreases n - d,
{
    if d == 0 || p == 0 || n < d * pow2(p) {
        half_even(n, d)
    } else {
        proof {
            lemma_pow2_pos((p - 1) as nat);
            lemma_pow2_unfold(p);
            assert(n >= 2 * d) by (nonlinear_arith)
                requires
                    n >= d * pow2(p),
                    pow2(p) == 2 * pow2((p - 1) as nat),
                    pow2((p - 1) as nat) > 0,
                    d > 0,
            ;
        }
        2 * nearest(n, 2 * d, p)
    }
}

/// `m` counts the whole grains of size `2^s` in the quotient `n / d`, and `sticky`
/// tells whether anything is left over.
pub open spec fn brackets(m: nat, s: int, sticky: bool, n: nat, d: nat) -> bool {
    if s >= 0 {
        let g = d * pow2(s as nat);
        m * g <= n < (m + 1) * g && (sticky <==> m * g < n)
    } else {
        let c = n * pow2((-s) as nat);
        m * d <= c < (m + 1) * d && (sticky <==> m * d < c)
    }
}

/// A count without remainder can be taken in finer grains.
pub(crate) proof fn lemma_brackets_finer(m: nat, s: int, j: nat, n: nat, d: nat)
    requires
        d > 0,
        brackets(m, s, false, n, d),
    ensures
        brackets(m * pow2(j), s - j, false, n, d),
{
    let pj = pow2(j);
    lemma_pow2_pos(j);
    if s >= 0 {
        let ps = pow2(s as nat);
        lemma_pow2_pos(s as nat);
        assert(d * ps > 0) by (nonlinear_arith)
            requires
                d > 0,
                ps > 0,
        ;
        assert(n == m * (d * ps));
        if s >= j {
            let pr = pow2((s - j) as nat);
            lemma_pow2_pos((s - j) as nat);
            lemma_pow2_adds(j, (s - j) as nat);
            assert((m * pj) * (d * pr) == m * (d * ps)) by (nonlinear_arith)
                requires
                    pj * pr == ps,
            ;
            assert(d * pr > 0) by (nonlinear_arith)
                requires
                    d > 0,
                    pr > 0,
            ;
            lemma_next_grain(m * pj, d * pr);
        } else {
            let pr = pow2((j - s) as nat);
            lemma_pow2_adds(s as nat, (j - s) as nat);
            assert((m * pj) * d == n * pr) by (nonlinear_arith)
                requires
                    n == m * (d * ps),
                    ps * pr == pj,
            ;
            lemma_next_grain(m * pj, d);
        }
    } else {
        let ps = pow2((-s) as nat);
        let pr = pow2((j - s) as nat);
        lemma_pow2_adds((-s) as nat, j);
        assert((m * pj) * d == n * pr) by (nonlinear_arith)
            requires
                n * ps == m * d,
                ps * pj == pr,
        ;
        lemma_next_grain(m * pj, d);
    }
}

proof fn lemma_next_grain(m: nat, g: nat)
    requires
        g > 0,
    ensures
        m * g < (m + 1) * g,
{
    assert((m + 1) * g == m * g + g) by (nonlinear_arith);
}

/// A product without remainder counts its own grains.
pub(crate) proof fn lemma_brackets_exact(m: nat, s: nat, d: nat)
    requires
        d > 0,
    ensures
        brackets(m, s as int, false, m * (d * pow2(s)), d),
{
    lemma_pow2_pos(s);
    let g = d * pow2(s);
    assert(g > 0) by (nonlinear_arith)
        requires
            g == d * pow2(s),
            d > 0,
            pow2(s) > 0,
    ;
    lemma_next_grain(m, g);
}

/// Nothing rounds to nothing.
pub(crate) proof fn lemma_nearest_zero(d: nat, p: nat)
    requires
        d > 0,
        p > 0,
    ensures
        nearest(0, d, p) == 0,
{
    lemma_pow2_pos(p);
    assert(d * pow2(p) > 0) by (nonlinear_arith)
        requires
            d > 0,
            pow2(p) > 0,
    ;
    vstd::arithmetic::div_mod::lemma_small_mod(0, d);
    vstd::arithmetic::div_mod::lemma_basic_div(0, d as int);
}

/// Rounding an exact quotient by `2^k` grains needs the whole grains only, and
/// whether anything is left over.
proof fn lemma_half_even_grains(n: nat, g: nat, m: nat, k: nat)
    requires
        g > 0,
        k >= 1,
        m * g <= n < (m + 1) * g,
    ensures
        half_even(n, pow2(k) * g) == ({
            let h = pow2(k);
            if 2 * (m % h) > h || (2 * (m % h) == h && (n > m * g || (m / h) % 2 == 1)) {
                m / h + 1
            } else {
                m / h
            }
        }),
{
    let h = pow2(k);
    let h2 = pow2((k - 1) as nat);
    lemma_pow2_unfold(k);
    lemma_pow2_pos(k);
    let q = m / h;
    let r = m % h;
    let f = (n - m * g) as nat;
    lemma_fundamental_div_mod(m as int, h as int);
    assert(m == h * q + r);
    assert(f < g) by (nonlinear_arith)
        requires
            f == n - m * g,
            n < (m + 1) * g,
    ;
    let rest = r * g + f;
    assert(n == q * (h * g) + rest) by (nonlinear_arith)
        requires
            f == n - m * g,
            m == h * q + r,
            rest == r * g + f,
    ;
    assert(rest < h * g) by (nonlinear_arith)
        requires
            rest == r * g + f,
            f < g,
            r + 1 <= h,
    ;
    lemma_fundamental_div_mod_converse(n as int, (h * g) as int, q as int, rest as int);
    assert(h == 2 * h2);
    if r < h2 {
        assert(2 * rest < h * g) by (nonlinear_arith)
            requires
                rest == r * g + f,
                f < g,
                r + 1 <= h2,
                h == 2 * h2,
        ;
    } else if r == h2 {
        assert(2 * rest == h * g + 2 * f) by (nonlinear_arith)
            requires
                rest == r * g + f,
                r == h2,
                h == 2 * h2,
        ;
    } else {
        assert(2 * rest > h * g) by (nonlinear_arith)
            requires
                rest == r * g + f,
                g > 0,
                r >= h2 + 1,
                h == 2 * h2,
        ;
    }
}

/// A common factor of numerator and denominator does not change the rounding.
proof fn lemma_half_even_scales(n: nat, d: nat, c: nat)
    requires
        d > 0,
        c > 0,
    ensures
        half_even(n * c, d * c) == half_even(n, d),
{
    let q = n / d;
    let r = n % d;
    lemma_fundamental_div_mod(n as int, d as int);
    assert(n * c == q * (d * c) + r * c) by (nonlinear_arith)
        requires
            n == d * q + r,
    ;
    assert(0 <= r * c < d * c) by (nonlinear_arith)
        requires
            0 <= r < d,
            c > 0,
    ;
    lemma_fundamental_div_mod_converse((n * c) as int, (d * c) as int, q as int, (r * c) as int);
    assert(2 * (r * c) < d * c <==> 2 * r < d) by (nonlinear_arith)
        requires
            c > 0,
    ;
    assert(2 * (r * c) == d * c <==> 2 * r == d) by (nonlinear_arith)
        requires
            c > 0,
    ;
}

/// The last digit kept has weight `2^e`, for the least `e` that leaves at most `p` digits.
proof fn lemma_nearest_at(n: nat, d: nat, p: nat, e: nat)
    requires
        d > 0,
        p > 0,
        n < d * pow2(e) * pow2(p),
        e > 0 ==> n >= d * pow2((e - 1) as nat) * pow2(p),
    ensures
        nearest(n, d, p) == half_even(n, d * pow2(e)) * pow2(e),
    decreases e,
{
    lemma_pow2_pos(p);
    if e == 0 {
        assert(pow2(0) == 1) by {
            vstd::arithmetic::power2::lemma2_to64();
        }
        assert(d * pow2(0) == d);
        assert(half_even(n, d) * 1 == half_even(n, d));
    } else {
        let a = pow2((e - 1) as nat);
        lemma_pow2_pos((e - 1) as nat);
        lemma_pow2_unfold(e);
        assert(n >= d * pow2(p)) by (nonlinear_arith)
            requires
                n >= d * a * pow2(p),
                a >= 1,
        ;
        assert((2 * d) * a == d * pow2(e)) by (nonlinear_arith)
            requires
                pow2(e) == 2 * a,
        ;
        if e > 1 {
            let b = pow2((e - 2) as nat);
            lemma_pow2_unfold((e - 1) as nat);
            assert((2 * d) * b == d * a) by (nonlinear_arith)
                requires
                    a == 2 * b,
            ;
        }
        lemma_nearest_at(n, 2 * d, p, (e - 1) as nat);
        let x = half_even(n, d * pow2(e));
        assert(2 * (x * a) == x * pow2(e)) by (nonlinear_arith)
            requires
                pow2(e) == 2 * a,
        ;
    }
}

/// A grain count of bit length `l` puts the quotient between two powers of two, and
/// rounding it at weight `2^e` is rounding the grain count at weight `2^(e - s)`.
proof fn lemma_round_grains(m: nat, s: int, sticky: bool, n: nat, d: nat, l: nat, p: nat, e: nat)
    requires
        d > 0,
        p > 0,
        l > 0,
        brackets(m, s, sticky, n, d),
        pow2((l - 1) as nat) <= m < pow2(l),
        e - s >= 1,
        e as int == if l + s - p > 0 { l + s - p } else { 0 },
    ensures
        nearest(n, d, p) == ({
            let h = pow2((e - s) as nat);
            let q = if 2 * (m % h) > h || (2 * (m % h) == h && (sticky || (m / h) % 2 == 1)) {
                m / h + 1
            } else {
                m / h
            };
            q * pow2(e)
        }),
{
    let k = (e - s) as nat;
    let h = pow2(k);
    let pe = pow2(e);
    let pp = pow2(p);
    let pl = pow2(l);
    let pl1 = pow2((l - 1) as nat);
    lemma_pow2_pos(e);
    lemma_pow2_pos(p);
    lemma_pow2_pos(l);
    lemma_pow2_pos(k);
    lemma_pow2_adds(e, p);
    if s >= 0 {
        let ps = pow2(s as nat);
        let g = d * ps;
        lemma_pow2_pos(s as nat);
        lemma_pow2_adds(l, s as nat);
        lemma_pow2_adds(k, s as nat);
        assert(g > 0) by (nonlinear_arith)
            requires
                g == d * ps,
                d > 0,
                ps > 0,
        ;
        lemma_half_even_grains(n, g, m, k);
        assert(h * g == d * pe) by (nonlinear_arith)
            requires
                g == d * ps,
                h * ps == pe,
        ;
        // below the next power of two
        if l + s < e + p {
            lemma_pow2_strictly_increases((l + s) as nat, e + p);
        }
        assert(n < d * pe * pp) by (nonlinear_arith)
            requires
                n < (m + 1) * g,
                m + 1 <= pl,
                g == d * ps,
                pl * ps <= pe * pp,
                d > 0,
                ps > 0,
        ;
        if e > 0 {
            let pe1 = pow2((e - 1) as nat);
            lemma_pow2_adds((e - 1) as nat, p);
            lemma_pow2_adds((l - 1) as nat, s as nat);
            assert(e - 1 + p == l - 1 + s);
            assert(n >= d * pe1 * pp) by (nonlinear_arith)
                requires
                    n >= m * g,
                    m >= pl1,
                    g == d * ps,
                    pl1 * ps == pe1 * pp,
                    d > 0,
                    ps > 0,
            ;
        }
        lemma_nearest_at(n, d, p, e);
        assert(sticky <==> n > m * g);
    } else {
        let t = (-s) as nat;
        let pt = pow2(t);
        let c = n * pt;
        lemma_pow2_pos(t);
        lemma_pow2_adds(e, t);
        lemma_half_even_grains(c, d, m, k);
        assert(h * d == (d * pe) * pt) by (nonlinear_arith)
            requires
                h == pe * pt,
        ;
        assert(d * pe > 0) by (nonlinear_arith)
            requires
                d > 0,
                pe > 0,
        ;
        lemma_half_even_scales(n, d * pe, pt);
        lemma_pow2_adds(e + p, t);
        if l < e + p + t {
            lemma_pow2_strictly_increases(l, e + p + t);
        }
        assert(n < d * pe * pp) by (nonlinear_arith)
            requires
                n * pt < (m + 1) * d,
                m + 1 <= pl,
                pl <= (pe * pp) * pt,
                d > 0,
                pt > 0,
        ;
        if e > 0 {
            let pe1 = pow2((e - 1) as nat);
            lemma_pow2_adds((e - 1) as nat, p);
            lemma_pow2_adds((e - 1 + p) as nat, t);
            assert(e - 1 + p + t == l - 1);
            assert(n >= d * pe1 * pp) by (nonlinear_arith)
                requires
                    n * pt >= m * d,
                    m >= pl1,
                    pl1 == (pe1 * pp) * pt,
                    d > 0,
                    pt > 0,
            ;
        }
        lemma_nearest_at(n, d, p, e);
        assert(sticky <==> c > m * d);
    }
}

pub(crate) proof fn lemma_u128_shl_one(k: u128)
    requires
        k < 128,
    ensures
        (1u128 << k) == pow2(k as nat),
    decreases k,
{
    if k == 0 {
        assert(1u128 << 0u128 == 1) by (bit_vector);
        vstd::arithmetic::power2::lemma2_to64();
    } else {
        lemma_u128_shl_one((k - 1) as u128);
        let j = (k - 1) as u128;
        assert(1u128 << k == 2 * (1u128 << j)) by (bit_vector)
            requires
                1 <= k < 128,
                j == k - 1,
        ;
        lemma_pow2_unfold(k as nat);
    }
}

/// The number of binary digits of `m`.
fn bit_length(m: u128) -> (l: u32)
    requires
        m > 0,
    ensures
        1 <= l <= 128,
        pow2((l - 1) as nat) <= m < pow2(l as nat),
{
    let mut x: u128 = m;
    let mut l: u32 = 0;
    let mut step: u32 = 64;
    proof {
        vstd::arithmetic::power2::lemma2_to64();
        assert(pow2(128) == 0x1_0000_0000_0000_0000_0000_0000_0000_0000nat) by {
            lemma_pow2_adds(64, 64);
        }
        assert(x / 1 == x);
    }
    while step > 0
        invariant
            step == 64 || step == 32 || step == 16 || step == 8 || step == 4 || step == 2
                || step == 1 || step == 0,
            l + 2 * step <= 128,
            x > 0,
            x == m as nat / pow2(l as nat),
            step > 0 ==> x < pow2((2 * step) as nat),
            step == 0 ==> x < 2,
        decreases step,
    {
        let y: u128 = x >> (step as u128);
        proof {
            lemma_u128_shr_is_div(x, step as u128);
            lemma_pow2_pos(l as nat);
            lemma_pow2_pos(step as nat);
            lemma_pow2_adds(step as nat, step as nat);
            lemma_pow2_adds(l as nat, step as nat);
            vstd::arithmetic::div_mod::lemma_div_denominator(
                m as int,
                pow2(l as nat) as int,
                pow2(step as nat) as int,
            );
            lemma_fundamental_div_mod(x as int, pow2(step as nat) as int);
            let ps = pow2(step as nat);
            assert(y < ps) by (nonlinear_arith)
                requires
                    x == ps * y + x as nat % ps,
                    x < ps * ps,
                    ps > 0,
            ;
            if y == 0 {
                assert(ps * y == 0) by (nonlinear_arith)
                    requires
                        y == 0,
                ;
                assert(x < ps);
            }
            vstd::arithmetic::power2::lemma2_to64();
        }
        if y > 0 {
            x = y;
            l = l + step;
        }
        step = step / 2;
    }
    proof {
        lemma_pow2_pos(l as nat);
        lemma_fundamental_div_mod(m as int, pow2(l as nat) as int);
        assert(x == 1);
        lemma_pow2_unfold((l + 1) as nat);
        let pl = pow2(l as nat);
        assert(m == pl * 1 + m as nat % pl);
    }
    l + 1
}

/// Rounds a quotient to `p` digits from its grain count.
///
/// The result is `q * 2^e`, where `q` has `p` digits unless the quotient is too small
/// for that, or is `2^p` after a carry.
pub(crate) fn round_grains(
    m: u128,
    s: i32,
    sticky: bool,
    p: u32,
    Ghost(n): Ghost<nat>,
    Ghost(d): Ghost<nat>,
) -> (r: (u64, u32))
    requires
        d > 0,
        1 <= p <= 60,
        m >= pow2(p as nat),
        m < pow2(127),
        -4000 <= s <= 4000,
        brackets(m as nat, s as int, sticky, n, d),
    ensures
        nearest(n, d, p as nat) == r.0 * pow2(r.1 as nat),
        r.0 <= pow2(p as nat),
        r.1 > 0 ==> r.0 >= pow2((p - 1) as nat),
        r.1 <= 8000,
        r.1 == 0 || r.1 <= s + 127 - p,
{
    proof {
        lemma_pow2_pos(p as nat);
    }
    let l: u32 = bit_length(m);
    let t: i32 = l as i32 + s - p as i32;
    let e: i32 = if t > 0 { t } else { 0 };
    let k: i32 = e - s;
    proof {
        vstd::arithmetic::power2::lemma2_to64();
        vstd::arithmetic::power2::lemma2_to64_rest();
        if l <= p {
            if l < p {
                lemma_pow2_strictly_increases(l as nat, p as nat);
            }
            assert(false);
        }
        if l > 127 {
            assert(pow2(127) <= m);
            assert(false);
        }
        assert(k >= 1);
        lemma_round_grains(m as nat, s as int, sticky, n, d, l as nat, p as nat, e as nat);
        lemma_pow2_pos(p as nat);
    }
    let ghost h = pow2(k as nat);
    if k >= 128 {
        proof {
            lemma_pow2_strictly_increases(127, k as nat);
            lemma_pow2_unfold(k as nat);
            if k > 128 {
                lemma_pow2_strictly_increases(127, (k - 1) as nat);
            }
            assert(m < pow2((k - 1) as nat));
            vstd::arithmetic::div_mod::lemma_small_mod(m as nat, h);
            vstd::arithmetic::div_mod::lemma_basic_div(m as int, h as int);
            assert(e == 0);
            assert(0 * pow2(0) == 0);
        }
        (0, 0)
    } else {
        let ks: u128 = k as u128;
        let q: u128 = m >> ks;
        let unit: u128 = 1u128 << ks;
        proof {
            lemma_u128_shr_is_div(m, ks);
            lemma_u128_shl_one(ks);
            lemma_pow2_pos(k as nat);
            lemma_fundamental_div_mod(m as int, h as int);
            assert(q * h <= m) by (nonlinear_arith)
                requires
                    m == h * q + (m as nat % h),
            ;
        }
        let rem: u128 = m - q * unit;
        proof {
            assert(rem == m as nat % h) by (nonlinear_arith)
                requires
                    m == h * q + (m as nat % h),
                    rem == m - q * h,
            ;
            // the quotient has at most p digits
            lemma_pow2_adds(p as nat, k as nat);
            if l < p + k {
                lemma_pow2_strictly_increases(l as nat, (p + k) as nat);
            }
            assert(q < pow2(p as nat)) by (nonlinear_arith)
                requires
                    m == h * q + (m as nat % h),
                    m < pow2(p as nat) * h,
                    h > 0,
            ;
            if e > 0 {
                assert(p + k == l);
                lemma_pow2_adds((p - 1) as nat, k as nat);
                assert(q >= pow2((p - 1) as nat)) by (nonlinear_arith)
                    requires
                        m == h * q + (m as nat % h),
                        (m as nat % h) < h,
                        m >= pow2((p - 1) as nat) * h,
                        h > 0,
                ;
            }
            if p < 60 {
                lemma_pow2_strictly_increases(p as nat, 60);
            }
        }
        let half: u128 = unit / 2;
        proof {
            lemma_pow2_unfold(k as nat);
        }
        let up: bool = rem > half || (rem == half && (sticky || q % 2 == 1));
        let q64: u64 = q as u64;
        if up {
            (q64 + 1, e as u32)
        } else {
            (q64, e as u32)
        }
    }
}

} // verus!
