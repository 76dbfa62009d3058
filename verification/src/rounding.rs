//! What rounding to binary32 is for: no number lies closer.
//!
//! Numbers are compared as integers, in units of `2^-k` for a `k` large enough.
use crate::float::{
    bit_len, exponent, grid, half_even, is_nan, lemma_bit_len, lemma_nearest_finite, narrowed,
    nearest, negated, num, scaled, significand, truncated,
};
use vstd::arithmetic::power2::{
    lemma2_to64, lemma_pow2_adds, lemma_pow2_pos, lemma_pow2_unfold, pow2,
};
use vstd::prelude::*;

verus! {

/// The finite binary32 number with the pattern `p`, sign bit clear, in units of `2^-k`.
pub open spec fn units(p: nat, k: nat) -> nat {
    if p < 0x80_0000 {
        p * pow2((k - 149) as nat)
    } else {
        (0x80_0000 + p % 0x80_0000) * pow2((p / 0x80_0000 + k - 150) as nat)
    }
}

/// The distance between two numbers.
pub open spec fn distance(x: nat, y: nat) -> nat {
    if x <= y {
        (y - x) as nat
    } else {
        (x - y) as nat
    }
}

/// The number `p` is at least as close to `v` units as `q`, and even where another one is as
/// close.
pub open spec fn nearer(p: nat, q: nat, v: nat, k: nat) -> bool {
    let a = distance(v, units(p, k));
    let b = distance(v, units(q, k));
    a < b || (a == b && (units(p, k) == units(q, k) || p % 2 == 0))
}

/// `p` is the binary32 number that `s * 2^e` rounds to: no other lies closer, the even one
/// stands for halves, and infinity for what is half a unit or more beyond the largest.
pub open spec fn rounds_to(s: nat, e: int, p: nat) -> bool {
    &&& p <= 0x7f80_0000
    &&& forall|k: nat|
        k >= 149 && e + k >= 0 ==> {
            &&& p == 0x7f80_0000 <==> #[trigger] scale(s, e, k) >= 0x1ff_ffff * pow2(103 + k)
            &&& p < 0x7f80_0000 ==> forall|q: nat|
                q < 0x7f80_0000 ==> #[trigger] nearer(p, q, scale(s, e, k), k)
        }
}

/// `s * 2^e` in units of `2^-k`.
pub open spec fn scale(s: nat, e: int, k: nat) -> nat {
    s * pow2((e + k) as nat)
}

/// The significand that `s * 2^e` is rounded to.
spec fn mantissa(s: nat, e: int) -> nat {
    let g = grid(s, e);
    if g <= e {
        s * pow2((e - g) as nat)
    } else {
        half_even(s, (g - e) as nat)
    }
}

/// The rounded significand is within half of a unit, and even at exactly half.
proof fn lemma_half(s: nat, e: int, k: nat)
    requires
        s > 0,
        k >= 149,
        e + k >= 0,
    ensures
        ({
            let g = grid(s, e);
            let u = pow2((g + k) as nat);
            let m = mantissa(s, e);
            let v = scale(s, e, k);
            &&& u > 0
            &&& 2 * v <= (2 * m + 1) * u
            &&& (2 * m) * u <= 2 * v + u
            &&& 2 * v == (2 * m + 1) * u ==> m % 2 == 0
            &&& 2 * m * u == 2 * v + u ==> m % 2 == 0
        }),
{
    let g = grid(s, e);
    let u = pow2((g + k) as nat);
    let m = mantissa(s, e);
    let w = pow2((e + k) as nat);
    lemma_pow2_pos((g + k) as nat);
    lemma_pow2_pos((e + k) as nat);
    if g <= e {
        let f = pow2((e - g) as nat);
        lemma_pow2_adds((e - g) as nat, (g + k) as nat);
        assert(s * w == m * u) by (nonlinear_arith)
            requires
                w == f * u,
                m == s * f,
        ;
        let x = m * u;
        assert((2 * m + 1) * u == 2 * x + u && (2 * m) * u == 2 * x) by (nonlinear_arith)
            requires
                x == m * u,
        ;
    } else {
        let d = (g - e) as nat;
        let f = pow2(d);
        lemma_pow2_pos(d);
        lemma_pow2_adds(d, (e + k) as nat);
        let q = s / f;
        let r = s % f;
        vstd::arithmetic::div_mod::lemma_fundamental_div_mod(s as int, f as int);
        assert(f * q == q * f) by (nonlinear_arith);
        if m == q {
            assert(2 * r <= f && (2 * r == f ==> q % 2 == 0));
            assert(2 * (s * w) == 2 * (q * u) + (2 * r) * w && (2 * r) * w <= u && (2 * m) * u
                == 2 * (q * u) && (2 * m + 1) * u == 2 * (q * u) + u && ((2 * r) * w == u ==> 2 * r
                == f)) by (nonlinear_arith)
                requires
                    s == q * f + r,
                    u == f * w,
                    2 * r <= f,
                    m == q,
                    w > 0,
            ;
        } else {
            assert(m == q + 1);
            assert(2 * r >= f && (2 * r == f ==> q % 2 == 1));
            assert(r < f);
            assert(2 * (s * w) == 2 * (q * u) + (2 * r) * w && (2 * r) * w >= u && (2 * r) * w
                <= 2 * u && (2 * m) * u == 2 * (q * u) + 2 * u && (2 * m + 1) * u == 2 * (q * u)
                + 3 * u && ((2 * r) * w == u ==> 2 * r == f) && 0 < u) by (nonlinear_arith)
                requires
                    s == q * f + r,
                    u == f * w,
                    2 * r >= f,
                    r < f,
                    m == q + 1,
                    w > 0,
                    f > 0,
            ;
        }
    }
}

/// What is rounded has at most 24 digits on its grid, and no fewer above the lowest grid.
proof fn lemma_range(s: nat, e: int, k: nat)
    requires
        s > 0,
        k >= 149,
        e + k >= 0,
    ensures
        ({
            let g = grid(s, e);
            let u = pow2((g + k) as nat);
            let v = scale(s, e, k);
            let m = mantissa(s, e);
            &&& v < 0x100_0000 * u
            &&& g > -149 ==> 0x80_0000 * u <= v && 0x80_0000 <= m
            &&& m <= 0x100_0000
        }),
{
    let g = grid(s, e);
    let b = bit_len(s);
    let u = pow2((g + k) as nat);
    let w = pow2((e + k) as nat);
    let v = scale(s, e, k);
    let m = mantissa(s, e);
    lemma2_to64();
    lemma_bit_len(s);
    lemma_pow2_pos((e + k) as nat);
    lemma_pow2_pos((g + k) as nat);
    lemma_pow2_adds(b, (e + k) as nat);
    lemma_pow2_adds((b - 1) as nat, (e + k) as nat);
    lemma_pow2_adds(24, (g + k) as nat);
    let top = pow2(b);
    assert(s * w < top * w) by (nonlinear_arith)
        requires
            s < top,
            w > 0,
    ;
    if b + e + k < 24 + g + k {
        vstd::arithmetic::power2::lemma_pow2_strictly_increases(
            (b + e + k) as nat,
            (24 + g + k) as nat,
        );
    }
    assert(v < pow2(24) * u);
    if g > -149 {
        lemma_pow2_adds(23, (g + k) as nat);
        let low = pow2((b - 1) as nat);
        assert(low * w <= s * w) by (nonlinear_arith)
            requires
                low <= s,
        ;
        assert(pow2(23) * u <= v);
    }
    lemma_half(s, e, k);
    assert(m <= 0x100_0000) by (nonlinear_arith)
        requires
            (2 * m) * u <= 2 * v + u,
            v < 0x100_0000 * u,
            u > 0,
    ;
    if g > -149 {
        assert(0x80_0000 <= m) by (nonlinear_arith)
            requires
                2 * v <= (2 * m + 1) * u,
                0x80_0000 * u <= v,
                u > 0,
        ;
    }
}

/// The pattern made of a grid and a significand stands for their product.
proof fn lemma_pattern(g: int, m: nat, k: nat)
    requires
        g >= -149,
        k >= 149,
        m <= 0x100_0000,
        g > -149 ==> 0x80_0000 <= m,
    ensures
        units(((g + 149) * 0x80_0000 + m) as nat, k) == m * pow2((g + k) as nat),
        ((g + 149) * 0x80_0000 + m) % 2 == m as int % 2,
{
    let p = ((g + 149) * 0x80_0000 + m) as nat;
    let u = pow2((g + k) as nat);
    if p < 0x80_0000 {
    } else if m < 0x100_0000 {
        vstd::arithmetic::div_mod::lemma_fundamental_div_mod_converse(
            p as int,
            0x80_0000,
            g + 150,
            m - 0x80_0000,
        );
    } else {
        vstd::arithmetic::div_mod::lemma_fundamental_div_mod_converse(
            p as int,
            0x80_0000,
            g + 151,
            0,
        );
        lemma_pow2_unfold((g + k + 1) as nat);
        let w = pow2((g + k + 1) as nat);
        assert(0x80_0000 * w == 0x100_0000 * u);
    }
}

/// Among the multiples of a unit the rounded one is closest.
proof fn lemma_multiples(v: nat, m: nat, u: nat, n: nat)
    requires
        u > 0,
        2 * v <= (2 * m + 1) * u,
        (2 * m) * u <= 2 * v + u,
        2 * v == (2 * m + 1) * u ==> m % 2 == 0,
        2 * m * u == 2 * v + u ==> m % 2 == 0,
        n != m,
    ensures
        distance(v, m * u) <= distance(v, n * u),
        distance(v, m * u) == distance(v, n * u) ==> m % 2 == 0,
{
    let x = m * u;
    let y = n * u;
    assert((2 * m + 1) * u == 2 * x + u && (2 * m) * u == 2 * x) by (nonlinear_arith)
        requires
            x == m * u,
    ;
    if n < m {
        assert(y + u <= x) by (nonlinear_arith)
            requires
                n + 1 <= m,
                x == m * u,
                y == n * u,
        ;
    } else {
        assert(x + u <= y) by (nonlinear_arith)
            requires
                m + 1 <= n,
                x == m * u,
                y == n * u,
        ;
    }
}

/// A number as a multiple of a unit on its own grid.
proof fn lemma_other(q: nat, k: nat) -> (r: (nat, int))
    requires
        q < 0x7f80_0000,
        k >= 149,
    ensures
        r.0 < 0x100_0000,
        r.1 >= -149,
        units(q, k) == r.0 * pow2((r.1 + k) as nat),
{
    if q < 0x80_0000 {
        (q, -149)
    } else {
        (0x80_0000 + q % 0x80_0000, q / 0x80_0000 - 150)
    }
}

/// Rounding: [`nearest`] gives the binary32 number that no other lies closer than.
pub proof fn law_nearest(s: nat, e: int)
    ensures
        rounds_to(s, e, nearest(s, e)),
{
    let p = nearest(s, e);
    assert forall|k: nat| k >= 149 && e + k >= 0 implies {
        &&& p == 0x7f80_0000 <==> #[trigger] scale(s, e, k) >= 0x1ff_ffff * pow2(103 + k)
        &&& p < 0x7f80_0000 ==> forall|q: nat|
            q < 0x7f80_0000 ==> #[trigger] nearer(p, q, scale(s, e, k), k)
    } by {
        lemma_pow2_pos((103 + k) as nat);
        if s == 0 {
            assert(0 * pow2((e + k) as nat) == 0);
            assert(units(0, k) == 0) by {
                assert(0 * pow2((k - 149) as nat) == 0);
            }
        } else {
            lemma_overflow(s, e, k);
            if p < 0x7f80_0000 {
                assert forall|q: nat| q < 0x7f80_0000 implies #[trigger] nearer(
                    p,
                    q,
                    scale(s, e, k),
                    k,
                ) by {
                    lemma_nearer(s, e, k, q);
                }
            }
        }
    }
}

proof fn lemma_nearer(s: nat, e: int, k: nat, q: nat)
    requires
        s > 0,
        k >= 149,
        e + k >= 0,
        q < 0x7f80_0000,
        nearest(s, e) < 0x7f80_0000,
    ensures
        nearer(nearest(s, e), q, scale(s, e, k), k),
{
    let g = grid(s, e);
    let m = mantissa(s, e);
    let u = pow2((g + k) as nat);
    let v = scale(s, e, k);
    let p = nearest(s, e);
    lemma_half(s, e, k);
    lemma_range(s, e, k);
    lemma_pattern(g, m, k);
    assert(p == (g + 149) * 0x80_0000 + m);
    assert(units(p, k) == m * u);
    let (c, x) = lemma_other(q, k);
    if x >= g {
        let f = pow2((x - g) as nat);
        lemma_pow2_adds((x - g) as nat, (g + k) as nat);
        let n = c * f;
        assert(units(q, k) == n * u) by (nonlinear_arith)
            requires
                units(q, k) == c * (f * u),
                n == c * f,
        ;
        if n != m {
            lemma_multiples(v, m, u, n);
        }
    } else {
        let w = pow2((x + k) as nat);
        lemma_pow2_pos((x + k) as nat);
        let d = (g - x) as nat;
        lemma_pow2_adds(d, (x + k) as nat);
        lemma2_to64();
        if d > 1 {
            vstd::arithmetic::power2::lemma_pow2_strictly_increases(1, d);
        }
        let f = pow2(d);
        assert(units(q, k) < 0x80_0000 * u) by (nonlinear_arith)
            requires
                units(q, k) == c * w,
                c < 0x100_0000,
                u == f * w,
                f >= 2,
                w > 0,
        ;
        if m != 0x80_0000 {
            lemma_multiples(v, m, u, 0x80_0000);
        }
    }
}

proof fn lemma_overflow(s: nat, e: int, k: nat)
    requires
        s > 0,
        k >= 149,
        e + k >= 0,
    ensures
        nearest(s, e) <= 0x7f80_0000,
        nearest(s, e) == 0x7f80_0000 <==> scale(s, e, k) >= 0x1ff_ffff * pow2(103 + k),
{
    let g = grid(s, e);
    let m = mantissa(s, e);
    let u = pow2((g + k) as nat);
    let v = scale(s, e, k);
    let h = pow2(103 + k);
    lemma_half(s, e, k);
    lemma_range(s, e, k);
    lemma_pow2_pos(103 + k);
    if g >= 105 {
        lemma_pow2_adds((g - 103) as nat, 103 + k);
        lemma2_to64();
        if g > 105 {
            vstd::arithmetic::power2::lemma_pow2_strictly_increases(2, (g - 103) as nat);
        }
        let f = pow2((g - 103) as nat);
        assert(v >= 0x1ff_ffff * h) by (nonlinear_arith)
            requires
                v >= 0x80_0000 * u,
                u == f * h,
                f >= 4,
                h > 0,
        ;
    } else if g == 104 {
        lemma_pow2_unfold(104 + k);
        assert(u == 2 * h);
        assert(0x1ff_ffff * h <= v <==> m == 0x100_0000) by {
            let x = m * h;
            assert((2 * m + 1) * u == 4 * x + 2 * h && (2 * m) * u == 4 * x) by (nonlinear_arith)
                requires
                    x == m * h,
                    u == 2 * h,
            ;
            if m < 0x100_0000 {
                if m == 0xff_ffff {
                    assert(x == 0xff_ffff * h);
                    assert(m % 2 == 1);
                } else {
                    assert(x <= 0xff_fffe * h) by (nonlinear_arith)
                        requires
                            x == m * h,
                            m <= 0xff_fffe,
                            h > 0,
                    ;
                }
            } else {
                assert(x == 0x100_0000 * h);
            }
        }
    } else {
        lemma_pow2_adds((103 - g) as nat, (g + k) as nat);
        lemma_pow2_pos((103 - g) as nat);
        let f = pow2((103 - g) as nat);
        assert(v < 0x1ff_ffff * h) by (nonlinear_arith)
            requires
                v < 0x100_0000 * u,
                h == f * u,
                f >= 1,
                u > 0,
        ;
        assert((g + 149) * 0x80_0000 + m < 0x7f80_0000);
    }
}

/// Significand and exponent of a finite binary64 pattern `m`, sign bit clear: it stands for
/// their product with a power of two.
pub open spec fn wide(m: nat) -> (nat, int) {
    if m < 0x10_0000_0000_0000 {
        (m, -1074)
    } else {
        (0x10_0000_0000_0000 + m % 0x10_0000_0000_0000, m / 0x10_0000_0000_0000 - 1075)
    }
}

/// Narrowing keeps the sign and rounds the magnitude to the closest binary32 number;
/// infinities stay, and what is no number stays none.
pub proof fn law_narrowing(bits: u64)
    ensures
        ({
            let m = (bits % 0x8000_0000_0000_0000) as nat;
            let r = narrowed(bits);
            &&& m > 0x7ff0_0000_0000_0000 <==> r % 0x8000_0000 > 0x7f80_0000
            &&& m == 0x7ff0_0000_0000_0000 ==> r % 0x8000_0000 == 0x7f80_0000
            &&& m < 0x7ff0_0000_0000_0000 ==> rounds_to(
                wide(m).0,
                wide(m).1,
                (r % 0x8000_0000) as nat,
            )
            &&& m <= 0x7ff0_0000_0000_0000 ==> (r >= 0x8000_0000 <==> bits
                >= 0x8000_0000_0000_0000)
        }),
{
    let m = (bits % 0x8000_0000_0000_0000) as nat;
    if m < 0x7ff0_0000_0000_0000 {
        law_nearest(wide(m).0, wide(m).1);
        assert(nearest(wide(m).0, wide(m).1) <= 0x7f80_0000);
    }
}

/// Truncating drops the fraction: the result is the largest integer that is not above the
/// number, up to the limit.
pub proof fn law_truncation(p: nat, limit: nat)
    requires
        p <= 0x7f80_0000,
    ensures
        truncated(p, limit) <= limit,
        p == 0x7f80_0000 ==> truncated(p, limit) == limit,
        p < 0x7f80_0000 ==> truncated(p, limit) * pow2(149) <= units(p, 149),
        p < 0x7f80_0000 && truncated(p, limit) < limit ==> units(p, 149) < (truncated(p, limit) + 1)
            * pow2(149),
{
    let n = truncated(p, limit);
    if p < 0x7f80_0000 {
        let (c, x) = if p < 0x80_0000 {
            (p, -149int)
        } else {
            (0x80_0000 + p % 0x80_0000, p / 0x80_0000 - 150)
        };
        assert(significand(p) == c && exponent(p) == x);
        let one = pow2(149);
        lemma_pow2_pos(149);
        let w = pow2((x + 149) as nat);
        lemma_pow2_pos((x + 149) as nat);
        assert(units(p, 149) == c * w);
        if x >= 0 {
            let f = pow2(x as nat);
            lemma_pow2_adds(x as nat, 149);
            let whole = c * f;
            assert(c * w == whole * one) by (nonlinear_arith)
                requires
                    w == f * one,
                    whole == c * f,
            ;
            assert(n <= whole);
            assert(n * one <= whole * one && whole * one < (whole + 1) * one) by (nonlinear_arith)
                requires
                    n <= whole,
                    one > 0,
            ;
        } else {
            let f = pow2((-x) as nat);
            lemma_pow2_pos((-x) as nat);
            lemma_pow2_adds((-x) as nat, (x + 149) as nat);
            let whole = c / f;
            vstd::arithmetic::div_mod::lemma_fundamental_div_mod(c as int, f as int);
            vstd::arithmetic::div_mod::lemma_mod_bound(c as int, f as int);
            let r = c % f;
            assert(n <= whole);
            assert(n * one <= c * w && c * w < (whole + 1) * one) by (nonlinear_arith)
                requires
                    one == f * w,
                    c == f * whole + r,
                    0 <= r < f,
                    n <= whole,
                    w > 0,
            ;
        }
    }
}

/// Scaling a width: the width and its product with the factor are rounded to binary32, one
/// after the other, and the fraction is dropped. A factor below zero or none at all leaves
/// nothing; an infinite one leaves nothing of nothing and the limit of everything else.
pub proof fn law_scaling(n: nat, factor: u32, limit: nat)
    requires
        n <= 0xffff_ffff_ffff_ffff,
    ensures
        factor > 0x7f80_0000 ==> scaled(n, factor, limit) == 0,
        factor == 0x7f80_0000 ==> scaled(n, factor, limit) == if n == 0 {
            0
        } else {
            limit
        },
        factor < 0x7f80_0000 ==> exists|a: nat, s: nat, e: int, r: nat|
            {
                &&& #[trigger] rounds_to(n, 0, a)
                &&& a < 0x7f80_0000
                &&& e >= -298
                &&& #[trigger] scale(s, e, 298) == units(a, 149) * units(factor as nat, 149)
                &&& #[trigger] rounds_to(s, e, r)
                &&& scaled(n, factor, limit) <= limit
                &&& r == 0x7f80_0000 ==> scaled(n, factor, limit) == limit
                &&& r < 0x7f80_0000 ==> scaled(n, factor, limit) * pow2(149) <= units(r, 149)
                &&& r < 0x7f80_0000 && scaled(n, factor, limit) < limit ==> units(r, 149) < (
                scaled(n, factor, limit) + 1) * pow2(149)
            },
{
    if factor < 0x7f80_0000 {
        let a = nearest(n, 0);
        law_nearest(n, 0);
        lemma_nearest_finite(n);
        let f = factor as nat;
        let s = significand(a) * significand(f);
        let e = exponent(a) + exponent(f);
        let r = nearest(s, e);
        law_nearest(s, e);
        law_truncation(r, limit);
        let x = pow2((exponent(a) + 149) as nat);
        let y = pow2((exponent(f) + 149) as nat);
        lemma_pow2_adds((exponent(a) + 149) as nat, (exponent(f) + 149) as nat);
        assert(units(a, 149) == significand(a) * x);
        assert(units(f, 149) == significand(f) * y);
        let (c, d) = (significand(a), significand(f));
        assert((c * d) * (x * y) == (c * x) * (d * y)) by (nonlinear_arith);
        assert(rounds_to(n, 0, a) && scale(s, e, 298) == units(a, 149) * units(f, 149)
            && rounds_to(s, e, r));
    }
}

/// A pattern stands for itself, but for those that are no number: they stand for one and
/// the same.
pub proof fn law_patterns(x: u32, y: u32)
    ensures
        num(x) == num(y) <==> x == y || (x % 0x8000_0000 > 0x7f80_0000 && y % 0x8000_0000
            > 0x7f80_0000),
        num(x) == x || (x % 0x8000_0000 > 0x7f80_0000 && num(x) % 0x8000_0000 > 0x7f80_0000),
{
}

/// Negation flips the sign and nothing else; done twice it changes nothing.
pub proof fn law_negation(x: u32)
    ensures
        is_nan(x) ==> is_nan(negated(x)),
        !is_nan(x) ==> negated(x) % 0x8000_0000 == x % 0x8000_0000,
        !is_nan(x) ==> (negated(x) >= 0x8000_0000 <==> x < 0x8000_0000),
        !is_nan(x) ==> negated(negated(x)) == x,
        is_nan(x) <==> x % 0x8000_0000 > 0x7f80_0000,
{
}

} // verus!
