//! Small floating-point formats, on their bit patterns: half precision, bfloat16 and
//! the 8-bit format with three mantissa bits.
//!
//! The value of a finite 32-bit float is a whole number of units of 2^-149; so is the
//! value of every code of the smaller formats. Rounding is to the nearest value, ties
//! to the even code.

use vstd::arithmetic::power2::lemma_pow2_adds;
use vstd::arithmetic::power2::lemma_pow2_pos;
use vstd::arithmetic::power2::lemma_pow2_unfold;
use vstd::arithmetic::power2::pow2;
use vstd::bits::lemma_u32_pow2_no_overflow;
use vstd::bits::lemma_u32_shl_is_mul;
use vstd::prelude::*;

verus! {

/// The value of a finite magnitude of a 32-bit float, in units of 2^-149.
pub open spec fn mag32(b: nat) -> nat {
    let e = b / 0x80_0000;
    let m = b % 0x80_0000;
    if e == 0 {
        m
    } else {
        (m + 0x80_0000) * pow2((e - 1) as nat)
    }
}

/// The value of a code with `p` mantissa bits and an exponent bias, in units of its
/// smallest value.
pub open spec fn steps(h: nat, p: nat) -> nat {
    let e = h / pow2(p);
    let m = h % pow2(p);
    if e == 0 {
        m
    } else {
        (m + pow2(p)) * pow2((e - 1) as nat)
    }
}

/// The value of a code in units of 2^-149.
pub open spec fn mini(h: nat, p: nat, bias: nat) -> nat {
    steps(h, p) * pow2((150 - bias - p) as nat)
}

/// `h` is the code nearest to `x`, the even one of two that are equally near. Codes
/// above the highest finite one count as if the format went on.
pub open spec fn is_rounded(x: nat, h: nat, p: nat, bias: nat) -> bool {
    let up = mini(h, p, bias) + mini(h + 1, p, bias);
    &&& 2 * x < up || (2 * x == up && h % 2 == 0)
    &&& h > 0 ==> {
        let down = mini((h - 1) as nat, p, bias) + mini(h, p, bias);
        2 * x > down || (2 * x == down && h % 2 == 0)
    }
}

/// The formats with `p` mantissa bits and a bias.
pub open spec fn known_format(p: nat, bias: nat) -> bool {
    (p == 10 && bias == 15) || (p == 3 && bias == 7)
}

/// The next code is one step up.
proof fn lemma_step(h: nat, p: nat)
    requires
        p >= 1,
    ensures
        ({
            let e = h / pow2(p);
            steps(h + 1, p) == steps(h, p) + if e == 0 {
                1
            } else {
                pow2((e - 1) as nat)
            }
        }),
        steps(h + 1, p) > steps(h, p),
{
    let n = pow2(p);
    lemma_pow2_pos(p);
    let e = h / n;
    let m = h % n;
    vstd::arithmetic::div_mod::lemma_fundamental_div_mod(h as int, n as int);
    assert(h == n * e + m);
    assert(0 <= m < n) by {
        vstd::arithmetic::div_mod::lemma_mod_bound(h as int, n as int);
    }
    if e > 0 {
        lemma_pow2_pos((e - 1) as nat);
    }
    if m + 1 < n {
        assert((h + 1) / n == e && (h + 1) % n == m + 1) by {
            vstd::arithmetic::div_mod::lemma_fundamental_div_mod_converse(
                (h + 1) as int,
                n as int,
                e as int,
                (m + 1) as int,
            );
        }
        if e > 0 {
            let u = pow2((e - 1) as nat);
            assert((m + 1 + n) * u == (m + n) * u + u) by (nonlinear_arith);
        }
    } else {
        assert(m == n - 1);
        assert(h + 1 == (e + 1) * n + 0) by (nonlinear_arith)
            requires
                h == n * e + m,
                m == n - 1,
        ;
        assert((h + 1) / n == e + 1 && (h + 1) % n == 0) by {
            vstd::arithmetic::div_mod::lemma_fundamental_div_mod_converse(
                (h + 1) as int,
                n as int,
                (e + 1) as int,
                0,
            );
        }
        if e > 0 {
            let u = pow2((e - 1) as nat);
            lemma_pow2_unfold(e);
            assert(pow2(e) == 2 * u);
            assert((0 + n) * (2 * u) == (n - 1 + n) * u + u) by (nonlinear_arith);
        } else {
            assert(pow2(0) == 1) by {
                vstd::arithmetic::power2::lemma2_to64();
            }
            assert((0 + n) * 1 == n);
        }
    }
}

/// Higher codes have higher values.
pub proof fn lemma_mini_rises(a: nat, b: nat, p: nat, bias: nat)
    requires
        known_format(p, bias),
        a < b,
    ensures
        mini(a, p, bias) < mini(b, p, bias),
    decreases b,
{
    let c = (b - 1) as nat;
    if a < c {
        lemma_mini_rises(a, c, p, bias);
    }
    lemma_step(c, p);
    let u = pow2((150 - bias - p) as nat);
    lemma_pow2_pos((150 - bias - p) as nat);
    assert(steps(c, p) * u < steps(b, p) * u) by (nonlinear_arith)
        requires
            steps(c, p) < steps(b, p),
            u > 0,
    ;
}

/// Higher magnitudes of floats have higher values.
pub proof fn lemma_mag_rises(a: nat, b: nat)
    requires
        a < b,
    ensures
        mag32(a) < mag32(b),
    decreases b,
{
    vstd::arithmetic::power2::lemma2_to64();
    assert(pow2(23) == 0x80_0000);
    let c = (b - 1) as nat;
    if a < c {
        lemma_mag_rises(a, c);
    }
    assert(mag32(c) == steps(c, 23) && mag32(b) == steps(b, 23));
    lemma_step(c, 23);
}

/// Rounding leaves nothing open.
pub proof fn lemma_rounded_is_unique(x: nat, a: nat, b: nat, p: nat, bias: nat)
    requires
        known_format(p, bias),
        is_rounded(x, a, p, bias),
        is_rounded(x, b, p, bias),
    ensures
        a == b,
{
    lemma_order(x, a, b, p, bias);
    lemma_order(x, b, a, p, bias);
}

proof fn lemma_order(x: nat, a: nat, b: nat, p: nat, bias: nat)
    requires
        known_format(p, bias),
        is_rounded(x, a, p, bias),
        is_rounded(x, b, p, bias),
    ensures
        a >= b,
{
    if a < b {
        lemma_mini_rises(a, a + 1, p, bias);
        let c = (b - 1) as nat;
        if a < c {
            lemma_mini_rises(a, c, p, bias);
            lemma_mini_rises(a + 1, b, p, bias);
        }
    }
}

/// The code that a value rounds to.
pub open spec fn rounded(x: nat, p: nat, bias: nat) -> nat {
    choose|h: nat| is_rounded(x, h, p, bias)
}

proof fn lemma_mini_grows(h: nat, p: nat, bias: nat)
    requires
        known_format(p, bias),
    ensures
        mini(h, p, bias) >= h,
    decreases h,
{
    if h > 0 {
        lemma_mini_grows((h - 1) as nat, p, bias);
        lemma_mini_rises((h - 1) as nat, h, p, bias);
    }
}

/// A value that is not below the reach of code `h` rounds to that code or a higher one.
proof fn lemma_rounds_from(x: nat, h: nat, p: nat, bias: nat)
    requires
        known_format(p, bias),
        h > 0 ==> {
            let down = mini((h - 1) as nat, p, bias) + mini(h, p, bias);
            2 * x > down || (2 * x == down && h % 2 == 0)
        },
        h <= x + 1,
    ensures
        is_rounded(x, rounded(x, p, bias), p, bias),
    decreases x + 1 - h,
{
    let up = mini(h, p, bias) + mini(h + 1, p, bias);
    if 2 * x < up || (2 * x == up && h % 2 == 0) {
        assert(is_rounded(x, h, p, bias));
    } else {
        lemma_mini_grows(h, p, bias);
        lemma_mini_grows(h + 1, p, bias);
        lemma_rounds_from(x, h + 1, p, bias);
    }
}

/// Every value rounds to a code, and to no other: what is rounded is the nearest code, the
/// even one of two.
pub proof fn law_every_value_is_rounded(x: nat, p: nat, bias: nat, h: nat)
    requires
        known_format(p, bias),
    ensures
        is_rounded(x, rounded(x, p, bias), p, bias),
        is_rounded(x, h, p, bias) ==> h == rounded(x, p, bias),
{
    lemma_rounds_from(x, 0, p, bias);
    if is_rounded(x, h, p, bias) {
        lemma_rounded_is_unique(x, rounded(x, p, bias), h, p, bias);
    }
}

/// A code rounds to itself.
pub proof fn law_codes_round_to_themselves(h: nat, p: nat, bias: nat)
    requires
        known_format(p, bias),
    ensures
        is_rounded(mini(h, p, bias), h, p, bias),
        rounded(mini(h, p, bias), p, bias) == h,
{
    lemma_mini_rises(h, h + 1, p, bias);
    if h > 0 {
        lemma_mini_rises((h - 1) as nat, h, p, bias);
    }
    assert(is_rounded(mini(h, p, bias), h, p, bias));
    lemma_rounded_is_unique(
        mini(h, p, bias),
        rounded(mini(h, p, bias), p, bias),
        h,
        p,
        bias,
    );
}

/// Rounding the quotient of `m` by the step `g`, where code `h` stands for the whole
/// quotient.
proof fn lemma_round(m: nat, g: nat, u: nat, h: nat, p: nat, bias: nat, up: bool)
    requires
        known_format(p, bias),
        g > 0,
        u > 0,
        mini(h, p, bias) == (m / g) * g * u,
        mini(h + 1, p, bias) == (m / g + 1) * g * u,
        h % 2 == (m / g) % 2,
        up == (2 * (m % g) > g || (2 * (m % g) == g && (m / g) % 2 == 1)),
    ensures
        is_rounded(
            m * u,
            if up {
                h + 1
            } else {
                h
            },
            p,
            bias,
        ),
{
    let q = m / g;
    let r = m % g;
    vstd::arithmetic::div_mod::lemma_fundamental_div_mod(m as int, g as int);
    assert(0 <= r < g) by {
        vstd::arithmetic::div_mod::lemma_mod_bound(m as int, g as int);
    }
    let lo = mini(h, p, bias);
    let hi = mini(h + 1, p, bias);
    let x = m * u;
    assert(x == lo + r * u) by (nonlinear_arith)
        requires
            m == g * q + r,
            x == m * u,
            lo == q * g * u,
    ;
    assert(hi == lo + g * u) by (nonlinear_arith)
        requires
            lo == q * g * u,
            hi == (q + 1) * g * u,
    ;
    let two_r = 2 * r;
    assert((two_r > g ==> two_r * u > g * u) && (two_r == g ==> two_r * u == g * u) && (two_r < g
        ==> two_r * u < g * u)) by (nonlinear_arith)
        requires
            u > 0,
    ;
    assert(two_r * u == 2 * (r * u)) by (nonlinear_arith)
        requires
            two_r == 2 * r,
    ;
    assert(r * u < g * u) by (nonlinear_arith)
        requires
            r < g,
            u > 0,
    ;
    lemma_mini_rises(h + 1, h + 2, p, bias);
    if h > 0 {
        lemma_mini_rises((h - 1) as nat, h, p, bias);
    }
    assert(0 <= r * u) by (nonlinear_arith)
        requires
            r >= 0,
            u > 0,
    ;
}

/// The lowest codes stand for themselves.
proof fn lemma_low_steps(h: nat, p: nat)
    requires
        h < pow2(p),
    ensures
        steps(h, p) == h,
{
    lemma_pow2_pos(p);
    vstd::arithmetic::div_mod::lemma_fundamental_div_mod_converse(
        h as int,
        pow2(p) as int,
        0,
        h as int,
    );
}

/// A code in the octave of `e` stands for its leading digits, shifted.
proof fn lemma_octave_steps(e: nat, q: nat, p: nat)
    requires
        e >= 1,
        pow2(p) <= q < 2 * pow2(p),
    ensures
        steps(((e - 1) * pow2(p) + q) as nat, p) == q * pow2((e - 1) as nat),
        (((e - 1) * pow2(p) + q) as nat) / pow2(p) == e,
{
    let n = pow2(p);
    lemma_pow2_pos(p);
    let h = ((e - 1) * n + q) as nat;
    assert(h >= 0 && h == e * n + (q - n)) by (nonlinear_arith)
        requires
            h == (e - 1) * n + q,
            e >= 1,
            n > 0,
    ;
    vstd::arithmetic::div_mod::lemma_fundamental_div_mod_converse(
        h as int,
        n as int,
        e as int,
        (q - n) as int,
    );
}

proof fn lemma_small_pow2()
    ensures
        pow2(0) == 1,
        pow2(3) == 8,
        pow2(10) == 1024,
        pow2(13) == 0x2000,
        pow2(20) == 0x10_0000,
        pow2(24) == 0x100_0000,
        pow2(25) == 0x200_0000,
{
    vstd::arithmetic::power2::lemma2_to64();
}

proof fn lemma_below_half_step(m: nat, u: nat, v: nat, p: nat, bias: nat)
    requires
        known_format(p, bias),
        v == pow2((150 - bias - p) as nat),
        2 * (m * u) < v,
    ensures
        is_rounded(m * u, 0, p, bias),
{
    lemma_small_pow2();
    lemma_low_steps(0, p);
    lemma_low_steps(1, p);
    assert(mini(0, p, bias) == 0 * v);
    assert(0 * v == 0) by (nonlinear_arith);
    assert(mini(1, p, bias) == 1 * v);
    assert(1 * v == v) by (nonlinear_arith);
}

/// Rounds a magnitude of 24 digits in the octaves of the smaller format.
fn round_high(m: u32, e8: u32, p: u32, bias: u32) -> (out: u32)
    requires
        known_format(p as nat, bias as nat),
        0x80_0000 <= m < 0x100_0000,
        1 <= e8 < 255,
        e8 + bias >= 128,
    ensures
        is_rounded(m as nat * pow2((e8 - 1) as nat), out as nat, p as nat, bias as nat),
{
    let ghost gp = p as nat;
    let ghost gb = bias as nat;
    let ghost u = pow2((e8 - 1) as nat);
    let ghost v = pow2((150 - bias - p) as nat);
    proof {
        lemma_small_pow2();
        lemma_pow2_pos((e8 - 1) as nat);
    }
    let e: u32 = e8 + bias - 127;
    let s: u32 = 23 - p;
    let n: u32 = if p == 10 {
        1024
    } else {
        8
    };
    let g: u32 = if p == 10 {
        0x2000
    } else {
        0x10_0000
    };
    let q: u32 = m / g;
    let r: u32 = m % g;
    let h: u32 = (e - 1) * n + q;
    let up: bool = 2 * r > g || (2 * r == g && q % 2 == 1);
    proof {
        assert(pow2(gp) == n && pow2(s as nat) == g);
        lemma_octave_steps(e as nat, q as nat, gp);
        lemma_step(h as nat, gp);
        let t = pow2((e - 1) as nat);
        lemma_pow2_adds((e - 1) as nat, (150 - bias - p) as nat);
        lemma_pow2_adds(s as nat, (e8 - 1) as nat);
        assert(t * v == g * u);
        assert(mini(h as nat, gp, gb) == q * g * u) by (nonlinear_arith)
            requires
                mini(h as nat, gp, gb) == (q * t) * v,
                t * v == g * u,
        ;
        assert(mini((h + 1) as nat, gp, gb) == (q + 1) * g * u) by (nonlinear_arith)
            requires
                mini((h + 1) as nat, gp, gb) == (q * t + t) * v,
                t * v == g * u,
        ;
        lemma_round(m as nat, g as nat, u, h as nat, gp, gb, up);
    }
    if up {
        h + 1
    } else {
        h
    }
}

/// Rounds a magnitude of 24 digits below the octaves of the smaller format.
fn round_low(m: u32, e8: u32, p: u32, bias: u32) -> (out: u32)
    requires
        known_format(p as nat, bias as nat),
        0x80_0000 <= m < 0x100_0000,
        1 <= e8 < 255,
        e8 + bias < 128,
    ensures
        is_rounded(m as nat * pow2((e8 - 1) as nat), out as nat, p as nat, bias as nat),
{
    let ghost gp = p as nat;
    let ghost gb = bias as nat;
    let ghost u = pow2((e8 - 1) as nat);
    let ghost v = pow2((150 - bias - p) as nat);
    proof {
        lemma_small_pow2();
        lemma_pow2_pos((e8 - 1) as nat);
    }
    let s: u32 = 151 - p - bias - e8;
    proof {
        lemma_pow2_adds(s as nat, (e8 - 1) as nat);
        assert(v == pow2(s as nat) * u);
    }
    if s >= 25 {
        proof {
            lemma_pow2_adds(25, (s - 25) as nat);
            lemma_pow2_pos((s - 25) as nat);
            let w = pow2((s - 25) as nat);
            assert(2 * (m * u) < v) by (nonlinear_arith)
                requires
                    v == (0x200_0000 * w) * u,
                    w >= 1,
                    u >= 1,
                    m < 0x100_0000,
            ;
            lemma_below_half_step(m as nat, u, v, gp, gb);
        }
        return 0;
    }
    proof {
        lemma_u32_pow2_no_overflow(s as nat);
        lemma_u32_shl_is_mul(1, s);
    }
    let g: u32 = 1u32 << s;
    let q: u32 = m / g;
    let r: u32 = m % g;
    let up: bool = 2 * (r as u64) > g as u64 || (2 * (r as u64) == g as u64 && q % 2 == 1);
    proof {
        assert(g == pow2(s as nat));
        lemma_pow2_adds((24 - p) as nat, (s - (24 - p)) as nat);
        lemma_pow2_pos((s - (24 - p)) as nat);
        lemma_pow2_adds(gp, (24 - p) as nat);
        let w = pow2((s - (24 - p)) as nat);
        let a = pow2((24 - p) as nat);
        assert(m < pow2(gp) * g) by (nonlinear_arith)
            requires
                m < 0x100_0000,
                pow2(gp) * a == 0x100_0000,
                g == a * w,
                w >= 1,
        ;
        assert(q < pow2(gp)) by (nonlinear_arith)
            requires
                q == m / g,
                m < pow2(gp) * g,
                g > 0,
        ;
        lemma_low_steps(q as nat, gp);
        lemma_step(q as nat, gp);
        assert((q as nat) / pow2(gp) == 0) by {
            vstd::arithmetic::div_mod::lemma_fundamental_div_mod_converse(
                q as int,
                pow2(gp) as int,
                0,
                q as int,
            );
        }
        assert(mini(q as nat, gp, gb) == q * g * u) by (nonlinear_arith)
            requires
                mini(q as nat, gp, gb) == q * v,
                v == g * u,
        ;
        assert(mini((q + 1) as nat, gp, gb) == (q + 1) * g * u) by (nonlinear_arith)
            requires
                mini((q + 1) as nat, gp, gb) == (q + 1) * v,
                v == g * u,
        ;
        lemma_round(m as nat, g as nat, u, q as nat, gp, gb, up);
    }
    if up {
        q + 1
    } else {
        q
    }
}

/// A magnitude without an octave of its own is below half a step of the smaller formats.
proof fn lemma_tiny(man: nat, p: nat, bias: nat)
    requires
        known_format(p, bias),
        man < 0x80_0000,
    ensures
        is_rounded(man, 0, p, bias),
{
    let v = pow2((150 - bias - p) as nat);
    let w = pow2((125 - bias - p) as nat);
    lemma_small_pow2();
    lemma_pow2_adds(25, (125 - bias - p) as nat);
    lemma_pow2_pos((125 - bias - p) as nat);
    assert(v >= 0x200_0000) by (nonlinear_arith)
        requires
            v == 0x200_0000 * w,
            w >= 1,
    ;
    assert(man * 1 == man);
    lemma_below_half_step(man, 1, v, p, bias);
}

/// Rounds a finite magnitude to a code of a smaller format.
pub fn round_mag(b: u32, p: u32, bias: u32) -> (h: u32)
    requires
        known_format(p as nat, bias as nat),
        b < 0x7f80_0000,
    ensures
        is_rounded(mag32(b as nat), h as nat, p as nat, bias as nat),
        h == rounded(mag32(b as nat), p as nat, bias as nat),
{
    let e8: u32 = b / 0x80_0000;
    let man: u32 = b % 0x80_0000;
    let out: u32 = if e8 == 0 {
        proof {
            lemma_tiny(man as nat, p as nat, bias as nat);
        }
        0
    } else if e8 + bias >= 128 {
        round_high(man + 0x80_0000, e8, p, bias)
    } else {
        round_low(man + 0x80_0000, e8, p, bias)
    };
    proof {
        law_every_value_is_rounded(mag32(b as nat), p as nat, bias as nat, out as nat);
    }
    out
}

/// Widens a code of a smaller format to the bits of the same magnitude.
pub fn widen_mag(h: u32, p: u32, bias: u32) -> (b: u32)
    requires
        known_format(p as nat, bias as nat),
        p == 10 ==> h < 0x7c00,
        p == 3 ==> h < 0x80,
    ensures
        mag32(b as nat) == mini(h as nat, p as nat, bias as nat),
        b < 0x7f80_0000,
{
    let ghost gp = p as nat;
    let ghost gb = bias as nat;
    let n: u32 = if p == 10 {
        1024
    } else {
        8
    };
    let f: u32 = if p == 10 {
        0x2000
    } else {
        0x10_0000
    };
    let ghost k = (150 - bias - p) as nat;
    proof {
        lemma_small_pow2();
        assert(pow2(gp) == n && pow2((23 - p) as nat) == f);
    }
    let e: u32 = h / n;
    let man: u32 = h % n;
    if e > 0 {
        let top: u32 = e + 127 - bias;
        let b: u32 = top * 0x80_0000 + man * f;
        proof {
            assert(man * f < 0x80_0000);
            assert((b as nat) / 0x80_0000 == top && (b as nat) % 0x80_0000 == man * f);
            let t = pow2((e - 1) as nat);
            let w = pow2((top - 1) as nat);
            lemma_pow2_adds((e - 1) as nat, k);
            lemma_pow2_adds((23 - p) as nat, (top - 1) as nat);
            assert(t * pow2(k) == f * w);
            assert((man * f + 0x80_0000) * w == (man + n) * t * pow2(k)) by (nonlinear_arith)
                requires
                    t * pow2(k) == f * w,
                    n * f == 0x80_0000,
            ;
        }
        return b;
    }
    if man == 0 {
        proof {
            assert(0 * pow2(k) == 0) by (nonlinear_arith);
        }
        return 0;
    }
    let mut m: u32 = man;
    let mut top: u32 = 128 - bias;
    proof {
        assert(man * 1 == man);
    }
    while m < n
        invariant
            known_format(gp, gb),
            gp == p && gb == bias,
            n == if p == 10 {
                1024
            } else {
                8int
            },
            0 < man < n,
            man <= m < 2 * n,
            118 - bias <= top <= 128 - bias,
            m == man * pow2((128 - bias - top) as nat),
            pow2(0) == 1,
        decreases 2 * n - m,
    {
        proof {
            let d = (128 - bias - top) as nat;
            lemma_pow2_unfold(d + 1);
            assert(2 * m == man * pow2(d + 1)) by (nonlinear_arith)
                requires
                    m == man * pow2(d),
                    pow2(d + 1) == 2 * pow2(d),
            ;
            if d >= 10 {
                lemma_small_pow2();
                lemma_pow2_adds(10, (d - 10) as nat);
                lemma_pow2_pos((d - 10) as nat);
                let w = pow2((d - 10) as nat);
                assert(m >= 1024) by (nonlinear_arith)
                    requires
                        m == man * (1024 * w),
                        man >= 1,
                        w >= 1,
                ;
            }
        }
        m = m * 2;
        top = top - 1;
    }
    let b: u32 = top * 0x80_0000 + (m - n) * f;
    proof {
        assert((m - n) * f < 0x80_0000);
        assert((b as nat) / 0x80_0000 == top && (b as nat) % 0x80_0000 == (m - n) * f);
        let d = (128 - bias - top) as nat;
        let w = pow2((top - 1) as nat);
        lemma_pow2_adds((23 - p) as nat, (top - 1) as nat);
        lemma_pow2_adds(d, ((23 - p) + (top - 1)) as nat);
        assert(d + (23 - p) + (top - 1) == k);
        assert(pow2(d) * (f * w) == pow2(k));
        assert(((m - n) * f + 0x80_0000) * w == man * pow2(k)) by (nonlinear_arith)
            requires
                m == man * pow2(d),
                pow2(d) * (f * w) == pow2(k),
                n * f == 0x80_0000,
        ;
    }
    b
}

proof fn lemma_pow2_grows(a: nat, b: nat)
    requires
        a <= b,
    ensures
        pow2(a) <= pow2(b),
{
    lemma_pow2_adds(a, (b - a) as nat);
    lemma_pow2_pos((b - a) as nat);
    let x = pow2(a);
    let y = pow2((b - a) as nat);
    assert(x <= x * y) by (nonlinear_arith)
        requires
            y >= 1,
    ;
}

/// The bits of `n * 2^k` units of 2^-149, an infinity above the range.
pub fn pack_units(n: u32, k: u32) -> (bits: u32)
    requires
        n < 0x100_0000,
        k <= 300,
    ensures
        if n * pow2(k as nat) >= pow2(277) {
            bits == 0x7f80_0000
        } else {
            bits < 0x7f80_0000 && mag32(bits as nat) == n * pow2(k as nat)
        },
{
    proof {
        vstd::arithmetic::power2::lemma2_to64();
        lemma_pow2_pos(277);
    }
    if n == 0 {
        proof {
            assert(0 * pow2(k as nat) == 0) by (nonlinear_arith);
        }
        return 0;
    }
    let mut m: u32 = n;
    let mut left: u32 = k;
    let ghost value = n * pow2(k as nat);
    while m < 0x80_0000 && left > 0
        invariant
            0 < m < 0x100_0000,
            left <= k <= 300,
            value == m * pow2(left as nat),
        decreases left,
    {
        proof {
            lemma_pow2_unfold(left as nat);
            let w = pow2((left - 1) as nat);
            assert(m * (2 * w) == (2 * m) * w) by (nonlinear_arith);
        }
        m = m * 2;
        left = left - 1;
    }
    if m < 0x80_0000 {
        proof {
            assert(pow2(0) == 1);
            assert(m * 1 == m);
            lemma_pow2_grows(24, 277);
        }
        return m;
    }
    let field: u32 = left + 1;
    if field >= 255 {
        proof {
            lemma_pow2_adds(23, left as nat);
            lemma_pow2_grows(277, (23 + left) as nat);
            let w = pow2(left as nat);
            assert(m * w >= 0x80_0000 * w) by (nonlinear_arith)
                requires
                    m >= 0x80_0000,
            ;
        }
        return 0x7f80_0000;
    }
    let bits: u32 = field * 0x80_0000 + (m - 0x80_0000);
    proof {
        assert((bits as nat) / 0x80_0000 == field && (bits as nat) % 0x80_0000 == m - 0x80_0000);
        lemma_pow2_adds(24, left as nat);
        lemma_pow2_grows((24 + left) as nat, 277);
        let w = pow2(left as nat);
        lemma_pow2_pos(left as nat);
        assert(m * w < 0x100_0000 * w) by (nonlinear_arith)
            requires
                m < 0x100_0000,
                w > 0,
        ;
    }
    bits
}

/// The sign of a 32-bit float.
pub open spec fn is_negative(bits: u32) -> bool {
    bits >= 0x8000_0000
}

/// The magnitude bits of a 32-bit float.
pub open spec fn magnitude(bits: u32) -> nat {
    (bits % 0x8000_0000) as nat
}

/// The half-precision bits of a float: rounded, infinite above the range.
pub open spec fn half_of(bits: u32) -> nat {
    let sign: nat = if is_negative(bits) {
        0x8000
    } else {
        0
    };
    let m = magnitude(bits);
    if m > 0x7f80_0000 {
        sign + 0x7e00
    } else if m == 0x7f80_0000 {
        sign + 0x7c00
    } else {
        let h = rounded(mag32(m), 10, 15);
        sign + if h < 0x7c00 {
            h
        } else {
            0x7c00
        }
    }
}

/// Converts the bits of a float to half precision, to the nearest value, ties to even.
pub fn f32_to_f16(bits: u32) -> (h: u16)
    ensures
        h == half_of(bits),
{
    let sign: u16 = if bits >= 0x8000_0000 {
        0x8000
    } else {
        0
    };
    let m: u32 = bits % 0x8000_0000;
    if m > 0x7f80_0000 {
        return sign + 0x7e00;
    }
    if m == 0x7f80_0000 {
        return sign + 0x7c00;
    }
    let h: u32 = round_mag(m, 10, 15);
    if h < 0x7c00 {
        sign + h as u16
    } else {
        sign + 0x7c00
    }
}

/// `bits` are those of the float with the value of a half-precision number.
pub open spec fn widens_half(h: u16, bits: u32) -> bool {
    let m = (h % 0x8000) as nat;
    &&& is_negative(bits) == (h >= 0x8000)
    &&& if m < 0x7c00 {
        magnitude(bits) < 0x7f80_0000 && mag32(magnitude(bits)) == mini(m, 10, 15)
    } else {
        magnitude(bits) == 0x7f80_0000 + (m - 0x7c00) * 0x2000
    }
}

/// Converts half precision to the bits of a float; the value does not change.
pub fn f16_to_f32(h: u16) -> (bits: u32)
    ensures
        widens_half(h, bits),
{
    let sign: u32 = if h >= 0x8000 {
        0x8000_0000
    } else {
        0
    };
    let m: u32 = (h % 0x8000) as u32;
    if m < 0x7c00 {
        let b: u32 = widen_mag(m, 10, 15);
        sign + b
    } else {
        sign + 0x7f80_0000 + (m - 0x7c00) * 0x2000
    }
}

/// Every half-precision number but a NaN survives the way to a float and back.
pub proof fn law_halves_survive(h: u16, bits: u32)
    requires
        widens_half(h, bits),
        h % 0x8000 <= 0x7c00,
    ensures
        half_of(bits) == h,
{
    let m = (h % 0x8000) as nat;
    if m < 0x7c00 {
        law_codes_round_to_themselves(m, 10, 15);
    }
}

/// The 8-bit code of a float: rounded, the highest finite code above the range.
pub open spec fn e4m3_of(bits: u32) -> nat {
    let sign: nat = if is_negative(bits) {
        0x80
    } else {
        0
    };
    let m = magnitude(bits);
    if m > 0x7f80_0000 {
        0x7f
    } else if m == 0x7f80_0000 {
        sign + 0x7e
    } else {
        let h = rounded(mag32(m), 3, 7);
        sign + if h < 0x7e {
            h
        } else {
            0x7e
        }
    }
}

/// Converts the bits of a float to the nearest 8-bit code, ties to even, at most the
/// highest finite one.
pub fn f32_to_e4m3(bits: u32) -> (b: u8)
    ensures
        b == e4m3_of(bits),
{
    let sign: u8 = if bits >= 0x8000_0000 {
        0x80
    } else {
        0
    };
    let m: u32 = bits % 0x8000_0000;
    if m > 0x7f80_0000 {
        return 0x7f;
    }
    if m == 0x7f80_0000 {
        return sign + 0x7e;
    }
    let h: u32 = round_mag(m, 3, 7);
    if h < 0x7e {
        sign + h as u8
    } else {
        sign + 0x7e
    }
}

/// `bits` are those of the float with the value of an 8-bit code.
pub open spec fn widens_e4m3(b: u8, bits: u32) -> bool {
    let m = (b % 0x80) as nat;
    if m == 0x7f {
        bits == 0x7fc0_0000
    } else {
        &&& is_negative(bits) == (b >= 0x80)
        &&& magnitude(bits) < 0x7f80_0000
        &&& mag32(magnitude(bits)) == mini(m, 3, 7)
    }
}

/// Converts an 8-bit code to the bits of a float; the value does not change.
pub fn e4m3_to_f32(b: u8) -> (bits: u32)
    ensures
        widens_e4m3(b, bits),
{
    let m: u32 = (b % 0x80) as u32;
    if m == 0x7f {
        return 0x7fc0_0000;
    }
    let sign: u32 = if b >= 0x80 {
        0x8000_0000
    } else {
        0
    };
    let w: u32 = widen_mag(m, 3, 7);
    sign + w
}

/// Every finite 8-bit code survives the way to a float and back.
pub proof fn law_codes_survive(b: u8, bits: u32)
    requires
        widens_e4m3(b, bits),
        b % 0x80 != 0x7f,
    ensures
        e4m3_of(bits) == b,
{
    law_codes_round_to_themselves((b % 0x80) as nat, 3, 7);
}

/// Converts a bfloat16 number to the bits of a float: the upper half of them.
pub fn bf16_to_f32(h: u16) -> (bits: u32)
    ensures
        bits == h * 0x1_0000,
{
    (h as u32) * 0x1_0000
}

/// Converts little-endian bfloat16 numbers to the bits of floats.
pub fn bf16_slice_to_f32(raw: &[u8]) -> (out: Vec<u32>)
    ensures
        out@.len() == raw@.len() / 2,
        forall|i: int|
            0 <= i < out@.len() ==> #[trigger] out@[i] == (raw@[2 * i] + 256 * raw@[2 * i + 1])
                * 0x1_0000,
{
    let total: usize = raw.len();
    let n: usize = total / 2;
    let mut out: Vec<u32> = Vec::new();
    for i in 0..n
        invariant
            total == raw@.len(),
            n == total / 2,
            out@.len() == i,
            forall|k: int|
                0 <= k < i ==> #[trigger] out@[k] == (raw@[2 * k] + 256 * raw@[2 * k + 1])
                    * 0x1_0000,
    {
        let h: u16 = raw[2 * i] as u16 + 256 * (raw[2 * i + 1] as u16);
        out.push(bf16_to_f32(h));
    }
    out
}

} // verus!
