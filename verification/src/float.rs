//! Floating-point numbers as bit patterns, and the roundings between them.
//!
//! A binary32 or binary64 number is carried as the integer that holds its bits.
//! What a pattern stands for is defined here over the integers; so is rounding to
//! the nearest binary32 number, which narrowing a binary64 number and scaling a
//! width by a binary32 factor both come down to.
use vstd::arithmetic::power2::{lemma_pow2_adds, lemma_pow2_pos, lemma_pow2_unfold, pow2};
use vstd::prelude::*;

verus! {

/// A binary32 number, by its bits.
#[derive(Clone, Copy, Debug, PartialEq, Eq, Structural)]
pub struct F32 {
    pub bits: u32,
}

/// A binary64 number, by its bits.
#[derive(Clone, Copy, Debug, PartialEq, Eq, Structural)]
pub struct F64 {
    pub bits: u64,
}

/// Weight of the sign bit of a binary32 pattern.
pub const SIGN_32: u32 = 0x8000_0000;

/// Pattern of positive infinity in binary32.
pub const INF_32: u32 = 0x7f80_0000;

/// The pattern that stands for every binary32 NaN.
pub const NAN_32: u32 = 0x7fc0_0000;

/// Weight of the lowest exponent bit of a binary32 pattern.
pub const HIDDEN_32: u32 = 0x0080_0000;

/// Weight of the sign bit of a binary64 pattern.
pub const SIGN_64: u64 = 0x8000_0000_0000_0000;

/// Pattern of positive infinity in binary64.
pub const INF_64: u64 = 0x7ff0_0000_0000_0000;

/// Weight of the lowest exponent bit of a binary64 pattern.
pub const HIDDEN_64: u64 = 0x0010_0000_0000_0000;

/// `1.0` in binary32.
pub const ONE_32: u32 = 0x3f80_0000;

/// Whether a binary32 pattern is a NaN.
pub open spec fn is_nan(bits: u32) -> bool {
    bits % SIGN_32 > INF_32
}

/// The number that a binary32 pattern stands for: the pattern itself, except that
/// all NaN patterns stand for one and the same value.
pub open spec fn num(bits: u32) -> u32 {
    if is_nan(bits) {
        NAN_32
    } else {
        bits
    }
}

/// The number with the opposite sign.
pub open spec fn negated(x: u32) -> u32 {
    if is_nan(x) {
        NAN_32
    } else if x < SIGN_32 {
        (x + SIGN_32) as u32
    } else {
        (x - SIGN_32) as u32
    }
}

/// Flips the sign of a binary32 pattern.
pub fn negate(bits: u32) -> (r: u32)
    ensures
        num(r) == negated(num(bits)),
{
    if bits < SIGN_32 {
        bits + SIGN_32
    } else {
        bits - SIGN_32
    }
}

/// Number of binary digits of `s`.
pub open spec fn bit_len(s: nat) -> nat
    decreases s,
{
    if s == 0 {
        0
    } else {
        1 + bit_len(s / 2)
    }
}

/// `s / 2^k`, rounded to the nearest integer, halves to the even one.
pub open spec fn half_even(s: nat, k: nat) -> nat {
    let q = s / pow2(k);
    let r = s % pow2(k);
    if 2 * r > pow2(k) || (2 * r == pow2(k) && q % 2 == 1) {
        q + 1
    } else {
        q
    }
}

/// Exponent of the binary32 numbers among which `s * 2^e` is rounded: 24 significant
/// digits where the exponent range allows them.
pub open spec fn grid(s: nat, e: int) -> int {
    if bit_len(s) + e - 24 > -149 {
        bit_len(s) + e - 24
    } else {
        -149
    }
}

/// Pattern of the binary32 number nearest to `s * 2^e`, ties to even; infinity beyond
/// the largest one.
pub open spec fn nearest(s: nat, e: int) -> nat {
    if s == 0 {
        0
    } else {
        let g = grid(s, e);
        let m = if g <= e {
            s * pow2((e - g) as nat)
        } else {
            half_even(s, (g - e) as nat)
        };
        let p = (g + 149) * HIDDEN_32 + m;
        if p < INF_32 {
            p as nat
        } else {
            INF_32 as nat
        }
    }
}

/// Integer significand of a finite non-negative binary32 pattern.
pub open spec fn significand(p: nat) -> nat {
    if p < HIDDEN_32 {
        p
    } else {
        HIDDEN_32 as nat + p % (HIDDEN_32 as nat)
    }
}

/// Exponent of a finite non-negative binary32 pattern: it stands for
/// `significand(p) * 2^exponent(p)`.
pub open spec fn exponent(p: nat) -> int {
    if p < HIDDEN_32 {
        -149
    } else {
        p / (HIDDEN_32 as nat) - 150
    }
}

/// The binary32 number nearest to a binary64 one.
pub open spec fn narrowed(bits: u64) -> u32 {
    let mag = (bits % SIGN_64) as nat;
    let sign = if bits < SIGN_64 {
        0
    } else {
        SIGN_32 as nat
    };
    if mag > INF_64 {
        NAN_32
    } else if mag == INF_64 {
        (sign + INF_32) as u32
    } else if mag < HIDDEN_64 {
        (sign + nearest(mag, -1074)) as u32
    } else {
        (sign + nearest(
            HIDDEN_64 as nat + mag % (HIDDEN_64 as nat),
            mag / (HIDDEN_64 as nat) - 1075,
        )) as u32
    }
}

/// Whether a binary64 pattern stands for a number above zero.
pub open spec fn is_positive(bits: u64) -> bool {
    0 < bits <= INF_64
}

/// Integer part of a non-negative binary32 number, at most `limit`.
pub open spec fn truncated(p: nat, limit: nat) -> nat {
    let e = exponent(p);
    let whole = if e >= 0 {
        significand(p) * pow2(e as nat)
    } else {
        significand(p) / pow2((-e) as nat)
    };
    if p >= INF_32 || whole > limit {
        limit
    } else {
        whole
    }
}

/// `n * factor` in binary32 arithmetic, cut to an unsigned integer of at most `limit`:
/// zero where the product is negative or no number.
pub open spec fn scaled(n: nat, factor: u32, limit: nat) -> nat {
    let a = nearest(n, 0);
    if factor > INF_32 || (factor == INF_32 && n == 0) {
        0
    } else if factor == INF_32 {
        limit
    } else {
        truncated(
            nearest(
                significand(a) * significand(factor as nat),
                exponent(a) + exponent(factor as nat),
            ),
            limit,
        )
    }
}

pub(crate) proof fn lemma_bit_len(s: nat)
    requires
        s > 0,
    ensures
        pow2((bit_len(s) - 1) as nat) <= s < pow2(bit_len(s)),
        bit_len(s) >= 1,
    decreases s,
{
    let n = bit_len(s);
    lemma_pow2_unfold(n);
    if s == 1 {
        assert(bit_len(0) == 0);
        vstd::arithmetic::power2::lemma2_to64();
    } else {
        lemma_bit_len(s / 2);
        lemma_pow2_unfold((n - 1) as nat);
    }
}

proof fn lemma_bit_len_below(s: nat, n: nat)
    requires
        s < pow2(n),
    ensures
        bit_len(s) <= n,
{
    if s > 0 && bit_len(s) > n {
        lemma_bit_len(s);
        vstd::arithmetic::power2::lemma_pow2_strictly_increases(n, bit_len(s));
        if bit_len(s) - 1 > n {
            vstd::arithmetic::power2::lemma_pow2_strictly_increases(n, (bit_len(s) - 1) as nat);
        }
    }
}

fn power_of_two(k: u32) -> (r: u128)
    requires
        k <= 127,
    ensures
        r == pow2(k as nat),
{
    let mut r: u128 = 1;
    let mut i: u32 = 0;
    proof {
        vstd::arithmetic::power2::lemma2_to64();
    }
    while i < k
        invariant
            i <= k <= 127,
            r == pow2(i as nat),
        decreases k - i,
    {
        proof {
            lemma_pow2_unfold((i + 1) as nat);
            lemma_pow2_127((i + 1) as nat);
        }
        r = r * 2;
        i = i + 1;
    }
    r
}

proof fn lemma_pow2_127(n: nat)
    requires
        n <= 127,
    ensures
        pow2(n) <= 0x8000_0000_0000_0000_0000_0000_0000_0000,
{
    vstd::arithmetic::power2::lemma2_to64_rest();
    lemma_pow2_adds(64, 63);
    if n < 127 {
        vstd::arithmetic::power2::lemma_pow2_strictly_increases(n, 127);
    }
}

fn digits(s: u64) -> (n: u32)
    ensures
        n == bit_len(s as nat),
        n <= 64,
{
    let mut t = s;
    let mut n: u32 = 0;
    proof {
        vstd::arithmetic::power2::lemma2_to64_rest();
        lemma_bit_len_below(s as nat, 64);
    }
    while t > 0
        invariant
            n + bit_len(t as nat) == bit_len(s as nat),
            bit_len(s as nat) <= 64,
        decreases t,
    {
        t = t / 2;
        n = n + 1;
    }
    n
}

fn round_half_even(s: u64, k: u32) -> (m: u64)
    requires
        k >= 1,
    ensures
        m == half_even(s as nat, k as nat),
{
    proof {
        vstd::arithmetic::power2::lemma2_to64_rest();
    }
    if k > 65 {
        proof {
            vstd::arithmetic::power2::lemma_pow2_strictly_increases(65, k as nat);
            lemma_pow2_unfold(65);
            vstd::arithmetic::div_mod::lemma_small_mod(s as nat, pow2(k as nat));
            vstd::arithmetic::div_mod::lemma_basic_div(s as int, pow2(k as nat) as int);
        }
        return 0;
    }
    let p = power_of_two(k);
    proof {
        lemma_pow2_pos(k as nat);
    }
    let wide = s as u128;
    let q = wide / p;
    let r = wide % p;
    proof {
        lemma_pow2_unfold(k as nat);
        lemma_pow2_pos((k - 1) as nat);
        assert(p >= 2);
        vstd::arithmetic::div_mod::lemma_div_is_ordered_by_denominator(s as int, 2, p as int);
        lemma_pow2_unfold(65);
        if k < 65 {
            vstd::arithmetic::power2::lemma_pow2_strictly_increases(k as nat, 65);
        }
        vstd::arithmetic::div_mod::lemma_mod_bound(s as int, p as int);
    }
    if 2 * r > p || (2 * r == p && q % 2 == 1) {
        (q + 1) as u64
    } else {
        q as u64
    }
}

/// Pattern of the binary32 number nearest to `s * 2^e`.
fn round_to_nearest(s: u64, e: i32) -> (p: u32)
    requires
        -4000 <= e <= 4000,
    ensures
        p == nearest(s as nat, e as int),
        p <= INF_32,
{
    if s == 0 {
        return 0;
    }
    let n = digits(s);
    let g: i32 = if n as i32 + e - 24 > -149 {
        n as i32 + e - 24
    } else {
        -149
    };
    let m: u64 = if g <= e {
        proof {
            lemma_bit_len(s as nat);
            let k = (e - g) as nat;
            lemma_pow2_adds(n as nat, k);
            vstd::arithmetic::power2::lemma2_to64();
            if n as nat + k < 24 {
                vstd::arithmetic::power2::lemma_pow2_strictly_increases(n as nat + k, 24);
            }
            lemma_pow2_pos(k);
            assert(s * pow2(k) < pow2(n as nat) * pow2(k)) by (nonlinear_arith)
                requires
                    s < pow2(n as nat),
                    pow2(k) > 0,
            ;
            assert(pow2(k) <= s * pow2(k)) by (nonlinear_arith)
                requires
                    s >= 1,
                    pow2(k) > 0,
            ;
        }
        (s as u128 * power_of_two((e - g) as u32)) as u64
    } else {
        round_half_even(s, (g - e) as u32)
    };
    let p: i128 = (g as i128 + 149) * (HIDDEN_32 as i128) + m as i128;
    if p < INF_32 as i128 {
        p as u32
    } else {
        INF_32
    }
}

/// Rounds a binary64 number to binary32.
pub fn narrow(x: F64) -> (r: F32)
    ensures
        r.bits == narrowed(x.bits),
        num(r.bits) == r.bits,
{
    let mag = x.bits % SIGN_64;
    let sign: u32 = if x.bits < SIGN_64 {
        0
    } else {
        SIGN_32
    };
    if mag > INF_64 {
        F32 { bits: NAN_32 }
    } else if mag == INF_64 {
        F32 { bits: sign + INF_32 }
    } else if mag < HIDDEN_64 {
        F32 { bits: sign + round_to_nearest(mag, -1074) }
    } else {
        let e = (mag / HIDDEN_64) as i32 - 1075;
        F32 { bits: sign + round_to_nearest(HIDDEN_64 + mag % HIDDEN_64, e) }
    }
}

/// Tests a binary64 number against zero: true above it, false at or below it and for a
/// NaN.
pub fn above_zero(x: F64) -> (r: bool)
    ensures
        r == is_positive(x.bits),
{
    0 < x.bits && x.bits <= INF_64
}

fn split(p: u32) -> (r: (u64, i32))
    requires
        p < INF_32,
    ensures
        r.0 == significand(p as nat),
        r.1 == exponent(p as nat),
        r.0 < 0x0100_0000,
        -149 <= r.1 <= 104,
{
    if p < HIDDEN_32 {
        (p as u64, -149)
    } else {
        ((HIDDEN_32 + p % HIDDEN_32) as u64, (p / HIDDEN_32) as i32 - 150)
    }
}

fn truncate(p: u32) -> (n: usize)
    requires
        p <= INF_32,
    ensures
        n == truncated(p as nat, usize::MAX as nat),
{
    if p == INF_32 {
        return usize::MAX;
    }
    let (s, e) = split(p);
    proof {
        vstd::arithmetic::power2::lemma2_to64();
        lemma_pow2_pos(24);
    }
    if e >= 0 {
        proof {
            lemma_pow2_adds(24, e as nat);
            lemma_pow2_pos(e as nat);
            assert(s * pow2(e as nat) < pow2(24) * pow2(e as nat)) by (nonlinear_arith)
                requires
                    s < pow2(24),
                    pow2(e as nat) > 0,
            ;
            lemma_pow2_127((23 + e) as nat);
            lemma_pow2_unfold((24 + e) as nat);
        }
        let whole = (s as u128) * power_of_two(e as u32);
        if whole > usize::MAX as u128 {
            usize::MAX
        } else {
            whole as usize
        }
    } else {
        let k = (-e) as u32;
        if k > 64 {
            proof {
                vstd::arithmetic::power2::lemma_pow2_strictly_increases(24, k as nat);
                vstd::arithmetic::div_mod::lemma_basic_div(s as int, pow2(k as nat) as int);
            }
            0
        } else {
            let p2 = power_of_two(k);
            proof {
                lemma_pow2_pos(k as nat);
                vstd::arithmetic::div_mod::lemma_div_is_ordered_by_denominator(s as int, 1, p2 as int);
            }
            ((s as u128) / p2) as usize
        }
    }
}

/// Scales a width by a binary32 factor in binary32 arithmetic and drops the fraction.
pub fn scale_width(n: usize, factor: F32) -> (r: usize)
    ensures
        r == scaled(n as nat, factor.bits, usize::MAX as nat),
{
    if factor.bits > INF_32 {
        return 0;
    }
    if factor.bits == INF_32 {
        return if n == 0 {
            0
        } else {
            usize::MAX
        };
    }
    let a = round_to_nearest(n as u64, 0);
    proof {
        lemma_nearest_finite(n as nat);
    }
    let (s1, e1) = split(a);
    let (s2, e2) = split(factor.bits);
    assert(s1 * s2 < 0x0001_0000_0000_0000) by (nonlinear_arith)
        requires
            s1 < 0x0100_0000,
            s2 < 0x0100_0000,
    ;
    truncate(round_to_nearest(s1 * s2, e1 + e2))
}

pub(crate) proof fn lemma_nearest_finite(n: nat)
    requires
        n <= 0xffff_ffff_ffff_ffff,
    ensures
        nearest(n, 0) < INF_32,
{
    if n > 0 {
        vstd::arithmetic::power2::lemma2_to64_rest();
        vstd::arithmetic::power2::lemma2_to64();
        lemma_bit_len_below(n, 64);
        lemma_bit_len(n);
        let b = bit_len(n);
        let g = grid(n, 0);
        if g <= 0 {
            let k = (0 - g) as nat;
            lemma_pow2_adds(b, k);
            assert(n * pow2(k) <= pow2(b) * pow2(k)) by (nonlinear_arith)
                requires
                    n <= pow2(b),
            ;
        } else {
            let k = g as nat;
            lemma_pow2_pos(k);
            lemma_pow2_adds(24, k);
            assert(pow2(b) == pow2(24) * pow2(k));
            vstd::arithmetic::div_mod::lemma_div_is_ordered(
                n as int,
                (pow2(24) * pow2(k)) as int,
                pow2(k) as int,
            );
            vstd::arithmetic::div_mod::lemma_div_multiples_vanish(
                pow2(24) as int,
                pow2(k) as int,
            );
        }
    }
}

/// Numbers below `2^24` are binary32 numbers: what such a number rounds to.
proof fn lemma_nearest_small(n: nat)
    requires
        0 < n < 0x100_0000,
    ensures
        1 <= bit_len(n) <= 24,
        HIDDEN_32 <= n * pow2((24 - bit_len(n)) as nat) < 2 * HIDDEN_32,
        nearest(n, 0) == (bit_len(n) + 125) * HIDDEN_32 + n * pow2((24 - bit_len(n)) as nat),
        significand(nearest(n, 0)) == n * pow2((24 - bit_len(n)) as nat),
        exponent(nearest(n, 0)) == bit_len(n) - 24,
{
    vstd::arithmetic::power2::lemma2_to64();
    lemma_bit_len(n);
    lemma_bit_len_below(n, 24);
    let b = bit_len(n);
    let z = pow2((24 - b) as nat);
    vstd::arithmetic::power2::lemma_pow2_adds((b - 1) as nat, (24 - b) as nat);
    vstd::arithmetic::power2::lemma_pow2_adds(b, (24 - b) as nat);
    vstd::arithmetic::power2::lemma_pow2_pos((24 - b) as nat);
    assert(pow2((b - 1) as nat) * z <= n * z < pow2(b) * z) by (nonlinear_arith)
        requires
            pow2((b - 1) as nat) <= n < pow2(b),
            z > 0,
    ;
    let m = n * z;
    vstd::arithmetic::div_mod::lemma_fundamental_div_mod_converse(
        (b + 125) * HIDDEN_32 + m,
        HIDDEN_32 as int,
        b as int + 126,
        m - HIDDEN_32,
    );
}

/// Widths below `2^24` stay as they are under a factor of one.
pub proof fn law_unit_factor(n: nat, limit: nat)
    requires
        n < 0x100_0000,
        n <= limit,
    ensures
        scaled(n, ONE_32, limit) == n,
{
    vstd::arithmetic::power2::lemma2_to64();
    vstd::arithmetic::power2::lemma2_to64_rest();
    assert(significand(ONE_32 as nat) == HIDDEN_32 && exponent(ONE_32 as nat) == -23);
    if n == 0 {
        assert(nearest(0, 0) == 0 && significand(0) == 0 && exponent(0) == -149);
        assert(nearest((0nat * HIDDEN_32 as nat) as nat, -172) == 0);
        vstd::arithmetic::power2::lemma_pow2_pos(149);
        assert(0nat / pow2(149) == 0) by {
            vstd::arithmetic::div_mod::lemma_div_basics(pow2(149) as int);
        }
        assert(truncated(0, limit) == 0);
    } else {
        lemma_nearest_small(n);
        let b = bit_len(n);
        let z = pow2((24 - b) as nat);
        let m = n * z;
        let s = m * HIDDEN_32 as nat;
        vstd::arithmetic::power2::lemma_pow2_pos((24 - b) as nat);
        assert(pow2(46) <= s < pow2(47));
        lemma_bit_len(s);
        lemma_bit_len_below(s, 47);
        if bit_len(s) < 47 {
            if bit_len(s) < 46 {
                vstd::arithmetic::power2::lemma_pow2_strictly_increases(bit_len(s), 46);
            }
        }
        vstd::arithmetic::div_mod::lemma_fundamental_div_mod_converse(
            s as int,
            HIDDEN_32 as int,
            m as int,
            0,
        );
        assert(nearest(s, b - 47) == nearest(n, 0));
        vstd::arithmetic::div_mod::lemma_fundamental_div_mod_converse(
            m as int,
            z as int,
            n as int,
            0,
        );
        let p = nearest(n, 0);
        if b == 24 {
            assert(m == n) by (nonlinear_arith)
                requires
                    z == 1,
                    m == n * z,
            ;
            assert(m * pow2(0) == m) by (nonlinear_arith)
                requires
                    pow2(0) == 1,
            ;
        } else {
            assert(m / z == n);
        }
        assert(p < INF_32);
    }
}

/// A power of two has one digit more than its exponent.
proof fn lemma_bit_len_power(n: nat)
    ensures
        bit_len(pow2(n)) == n + 1,
    decreases n,
{
    lemma_pow2_pos(n);
    if n == 0 {
        vstd::arithmetic::power2::lemma2_to64();
        assert(bit_len(0) == 0);
    } else {
        lemma_bit_len_power((n - 1) as nat);
        lemma_pow2_unfold(n);
    }
}

/// One is one in both formats.
pub proof fn law_one()
    ensures
        narrowed(0x3ff0_0000_0000_0000) == ONE_32,
{
    vstd::arithmetic::power2::lemma2_to64();
    vstd::arithmetic::power2::lemma2_to64_rest();
    lemma_bit_len_power(52);
    lemma_pow2_adds(23, 29);
    let s = HIDDEN_64 as nat;
    assert(s == pow2(52));
    assert(grid(s, -52) == -23);
    vstd::arithmetic::div_mod::lemma_fundamental_div_mod_converse(
        s as int,
        pow2(29) as int,
        pow2(23) as int,
        0,
    );
    assert(half_even(s, 29) == pow2(23));
    assert(nearest(s, -52) == ONE_32);
}

} // verus!
