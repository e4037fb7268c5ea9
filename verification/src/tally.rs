//! How often a token has followed a string: counts that halve every `DECAY_HALFLIFE` tokens.
//!
//! A count is a single-precision number. It is faded when it is read or raised, by the
//! number of tokens fed since it was last raised. Here it is the integer that it is in units
//! of its smallest step, and its products and sums are rounded as single precision rounds.

use crate::roots::lemma_roots;
use crate::roots::ROOTS;
use crate::suffix::ends_in;
use crate::suffix::factor;
use crate::suffix::lemma_ends_in_len;
use crate::suffix::lemma_ends_in_push;
use crate::suffix::lemma_occurs_at_end;
use crate::suffix::lemma_occurs_grown;
use crate::suffix::occurs;
use crate::suffix::same_ends;
use vstd::arithmetic::power2::pow2;
use vstd::prelude::*;

verus! {

/// Half-life of a count, in fed tokens.
pub const DECAY_HALFLIFE: u64 = 256;

/// The count of one occurrence; counts are in units of `2^-23`.
pub const ONE: u64 = 0x80_0000;

/// A successor whose count has faded below a quarter is not trusted; faded counts are in
/// units of `2^-79`.
pub const MIN_SCORE: u128 = 0x2000_0000_0000_0000_0000;

/// No count is greater.
pub const MOST: u64 = 0x1_0000_0000;

/// How many binary digits a number has beyond 24.
pub open spec fn spare(n: nat) -> nat
    decreases n,
{
    if n < 0x100_0000 {
        0
    } else {
        1 + spare(n / 2)
    }
}

/// The nearest number with 24 significant binary digits, of two the even one.
pub open spec fn rounded(n: nat) -> nat {
    let unit = pow2(spare(n));
    let q = n / unit;
    let r = n % unit;
    (if 2 * r > unit || (2 * r == unit && q % 2 == 1) {
        q + 1
    } else {
        q
    }) * unit
}

/// The product of a count and the part of a half-life that has passed, in units of `2^-47`
/// and as many halvings as half-lives have passed.
pub open spec fn product(count: nat, age: nat) -> nat {
    rounded(count * ROOTS@[(age % 256) as int] as nat)
}

/// What is left of a count after `age` tokens, in units of `2^-79`. After more than 32
/// half-lives it is nothing: far below what is trusted.
pub open spec fn faded(count: nat, age: nat) -> nat {
    if age / 256 > 32 {
        0
    } else {
        product(count, age) * pow2((32 - age / 256) as nat)
    }
}

/// A count that is raised by one after `age` tokens. After more than 40 half-lives the sum
/// is one.
pub open spec fn raised_count(count: nat, age: nat) -> nat {
    let halvings = age / 256;
    if halvings > 40 {
        ONE as nat
    } else {
        rounded(product(count, age) + pow2(47 + halvings)) / pow2(24 + halvings)
    }
}

/// A count with one more occurrence, at token `now`.
pub open spec fn raised(entry: Option<(nat, nat)>, now: nat) -> (nat, nat) {
    match entry {
        None => (ONE as nat, now),
        Some((count, stamp)) => (raised_count(count, (now - stamp) as nat), now),
    }
}

/// How often token `c` has followed `x` in the text, and the number of the token that last
/// did; nothing if it never has.
pub open spec fn tally(w: Seq<u32>, x: Seq<u32>, c: u32) -> Option<(nat, nat)>
    decreases w.len(),
{
    if w.len() == 0 {
        None
    } else if w.last() == c && ends_in(w.drop_last(), x) {
        Some(raised(tally(w.drop_last(), x, c), w.len()))
    } else {
        tally(w.drop_last(), x, c)
    }
}

/// What is left of the count of `c` behind `x` at the end of the text.
pub open spec fn score(w: Seq<u32>, x: Seq<u32>, c: u32) -> nat {
    match tally(w, x, c) {
        None => 0,
        Some((count, stamp)) => faded(count, (w.len() - stamp) as nat),
    }
}

/// `c` is the trusted successor of `x` with the greatest count, the smallest of equal ones.
pub open spec fn is_best(w: Seq<u32>, x: Seq<u32>, c: u32) -> bool {
    &&& score(w, x, c) >= MIN_SCORE
    &&& forall|d: u32|
        (#[trigger] score(w, x, d)) < score(w, x, c) || (score(w, x, d) == score(w, x, c) && c
            <= d)
}

/// The trusted successor of `x` with the greatest count.
pub open spec fn best(w: Seq<u32>, x: Seq<u32>) -> Option<u32> {
    if exists|c: u32| is_best(w, x, c) {
        Some(choose|c: u32| is_best(w, x, c))
    } else {
        None
    }
}

proof fn lemma_spare(n: nat)
    ensures
        pow2(spare(n)) > 0,
        n / pow2(spare(n)) < 0x100_0000,
        spare(n) > 0 ==> n / pow2(spare(n)) >= 0x80_0000,
    decreases n,
{
    vstd::arithmetic::power2::lemma_pow2_pos(spare(n));
    vstd::arithmetic::power2::lemma2_to64();
    if n >= 0x100_0000 {
        let s = spare(n / 2);
        lemma_spare(n / 2);
        vstd::arithmetic::power2::lemma_pow2_unfold(s + 1);
        vstd::arithmetic::div_mod::lemma_div_denominator(n as int, 2, pow2(s) as int);
    }
}

/// Rounding is off by no more than one part in `2^24`.
proof fn lemma_rounded(n: nat)
    ensures
        rounded(n) * 0x100_0000 <= n * 0x100_0001,
        n < 0x100_0000 ==> rounded(n) == n,
{
    lemma_spare(n);
    vstd::arithmetic::power2::lemma2_to64();
    let u = pow2(spare(n));
    let q = n / u;
    let r = n % u;
    vstd::arithmetic::div_mod::lemma_fundamental_div_mod(n as int, u as int);
    assert(u * q == q * u) by (nonlinear_arith);
    assert((q + 1) * u == q * u + u) by (nonlinear_arith);
    if spare(n) > 0 {
        assert(q * u >= 0x80_0000 * u) by (nonlinear_arith)
            requires
                q >= 0x80_0000,
                u > 0,
        ;
    } else {
        assert(u == 1);
        assert(r == 0);
    }
}

/// A count that has aged by a token or more and is raised stays below `MOST`.
proof fn lemma_raised_count(count: nat, age: nat)
    requires
        count <= MOST,
        age > 0,
    ensures
        raised_count(count, age) <= MOST,
        product(count, age) <= 0x100_0001_0000_0000,
        age / 256 <= 40 ==> product(count, age) + pow2(47 + age / 256) <= 0x1_0000_0000_0000_0000_0000_0000,
{
    let r = (age % 256) as int;
    let h = age / 256;
    let m = ROOTS@[r] as nat;
    let p = count * m;
    let pr = rounded(p);
    lemma_roots(r);
    lemma_rounded(p);
    assert(p <= 0x1_0000_0000 * m) by (nonlinear_arith)
        requires
            p == count * m,
            count <= 0x1_0000_0000,
            m >= 0,
    ;
    if h <= 40 {
        let t = pow2(h);
        vstd::arithmetic::power2::lemma2_to64();
        vstd::arithmetic::power2::lemma2_to64_rest();
        vstd::arithmetic::power2::lemma_pow2_adds(47, h);
        vstd::arithmetic::power2::lemma_pow2_adds(24, h);
        vstd::arithmetic::power2::lemma_pow2_pos(h);
        if h < 40 {
            vstd::arithmetic::power2::lemma_pow2_strictly_increases(h, 40);
        }
        let sum = pr + pow2(47 + h);
        lemma_rounded(sum);
        if h > 0 {
            vstd::arithmetic::power2::lemma_pow2_unfold(h);
            vstd::arithmetic::power2::lemma_pow2_pos((h - 1) as nat);
            assert(t >= 2);
        }
        assert(rounded(sum) <= 0x1_0000_0000 * pow2(24 + h));
        assert(rounded(sum) / pow2(24 + h) <= 0x1_0000_0000) by {
            vstd::arithmetic::div_mod::lemma_div_is_ordered(
                rounded(sum) as int,
                (0x1_0000_0000 * pow2(24 + h)) as int,
                pow2(24 + h) as int,
            );
            vstd::arithmetic::div_mod::lemma_div_by_multiple(0x1_0000_0000, pow2(24 + h) as int);
        }
    }
}

/// Counts stay below `MOST`, and their stamps within the text.
pub proof fn lemma_tally_bounds(w: Seq<u32>, x: Seq<u32>, c: u32)
    ensures
        tally(w, x, c) matches Some((count, stamp)) ==> count <= MOST && 1 <= stamp <= w.len(),
    decreases w.len(),
{
    if w.len() > 0 {
        lemma_tally_bounds(w.drop_last(), x, c);
        match tally(w.drop_last(), x, c) {
            Some((count, stamp)) => {
                lemma_raised_count(count, (w.len() - stamp) as nat);
            },
            None => {},
        }
    }
}

/// What one more token changes.
pub proof fn lemma_tally_grown(w: Seq<u32>, c: u32, x: Seq<u32>, d: u32)
    ensures
        tally(w.push(c), x, d) == if c == d && ends_in(w, x) {
            Some(raised(tally(w, x, d), w.len() + 1))
        } else {
            tally(w, x, d)
        },
{
    assert(w.push(c).drop_last() =~= w);
}

/// Strings that end at the same places have the same successors.
pub proof fn lemma_same_tally(w: Seq<u32>, x: Seq<u32>, y: Seq<u32>, c: u32)
    requires
        same_ends(w, x, y),
    ensures
        tally(w, x, c) == tally(w, y, c),
    decreases w.len(),
{
    if w.len() > 0 {
        let u = w.drop_last();
        assert(w =~= u.push(w.last()));
        assert forall|e: int| occurs(u, x, e) == occurs(u, y, e) by {
            lemma_occurs_grown(u, w.last(), x, e);
            lemma_occurs_grown(u, w.last(), y, e);
            assert(occurs(w, x, e) == occurs(w, y, e));
        }
        lemma_occurs_at_end(u, x);
        lemma_occurs_at_end(u, y);
        assert(occurs(u, x, u.len() as int) == occurs(u, y, u.len() as int));
        lemma_same_tally(u, x, y, c);
    }
}

pub proof fn lemma_same_best(w: Seq<u32>, x: Seq<u32>, y: Seq<u32>)
    requires
        same_ends(w, x, y),
    ensures
        best(w, x) == best(w, y),
{
    assert forall|c: u32| #[trigger] score(w, x, c) == score(w, y, c) by {
        lemma_same_tally(w, x, y, c);
    }
    assert forall|c: u32| #[trigger] score(w, y, c) == score(w, x, c) by {}
    assert forall|c: u32| #[trigger] is_best(w, x, c) == is_best(w, y, c) by {
        assert(score(w, x, c) == score(w, y, c));
    }
    assert forall|c: u32| #[trigger] is_best(w, y, c) == is_best(w, x, c) by {}
    if exists|c: u32| is_best(w, x, c) {
        let a = choose|c: u32| is_best(w, x, c);
        let b = choose|c: u32| is_best(w, y, c);
        assert(is_best(w, y, a));
        lemma_best(w, x, a);
        lemma_best(w, x, b);
    } else if exists|c: u32| is_best(w, y, c) {
        let b = choose|c: u32| is_best(w, y, c);
        assert(is_best(w, x, b));
    }
}

/// There is one best successor at most.
pub proof fn lemma_best(w: Seq<u32>, x: Seq<u32>, c: u32)
    requires
        is_best(w, x, c),
    ensures
        best(w, x) == Some(c),
{
    let d = choose|d: u32| is_best(w, x, d);
    assert(is_best(w, x, d));
    assert(score(w, x, d) <= score(w, x, c));
    assert(score(w, x, c) <= score(w, x, d));
}

/// A trusted successor has followed.
pub proof fn lemma_tallied_occurs(w: Seq<u32>, x: Seq<u32>, c: u32)
    requires
        tally(w, x, c) is Some,
    ensures
        factor(w, x.push(c)),
    decreases w.len(),
{
    let u = w.drop_last();
    assert(w =~= u.push(w.last()));
    if w.last() == c && ends_in(u, x) {
        lemma_ends_in_push(u, x, c, c);
        lemma_occurs_at_end(w, x.push(c));
    } else {
        lemma_tallied_occurs(u, x, c);
        let e = choose|e: int| occurs(u, x.push(c), e);
        lemma_occurs_grown(u, w.last(), x.push(c), e);
        assert(occurs(w, x.push(c), e));
    }
}

/// Nothing has followed what is as long as the text.
pub proof fn lemma_nothing_follows(w: Seq<u32>, x: Seq<u32>, c: u32)
    requires
        x.len() >= w.len(),
    ensures
        tally(w, x, c) is None,
    decreases w.len(),
{
    if w.len() > 0 {
        if ends_in(w.drop_last(), x) {
            lemma_ends_in_len(w.drop_last(), x);
        }
        lemma_nothing_follows(w.drop_last(), x, c);
    }
}

/// A count halves with every half-life.
pub proof fn law_counts_halve(count: nat, age: nat)
    requires
        age < 32 * DECAY_HALFLIFE,
    ensures
        2 * faded(count, age + DECAY_HALFLIFE as nat) == faded(count, age),
{
    let h = age / 256;
    assert((age + 256) % 256 == age % 256);
    assert((age + 256) / 256 == h + 1);
    vstd::arithmetic::power2::lemma_pow2_unfold((32 - h) as nat);
    let (p, u) = (product(count, age), pow2((31 - h) as nat));
    assert(2 * (p * u) == p * (2 * u)) by (nonlinear_arith);
}

proof fn lemma_spare_scaled(m: nat, k: nat)
    requires
        0x80_0000 <= m < 0x100_0000,
    ensures
        spare(m * pow2(k)) == k,
    decreases k,
{
    vstd::arithmetic::power2::lemma2_to64();
    if k > 0 {
        let u = pow2((k - 1) as nat);
        vstd::arithmetic::power2::lemma_pow2_unfold(k);
        vstd::arithmetic::power2::lemma_pow2_pos((k - 1) as nat);
        lemma_spare_scaled(m, (k - 1) as nat);
        assert(m * (2 * u) == 2 * (m * u) && m * u >= m) by (nonlinear_arith)
            requires
                u >= 1,
                m >= 0,
        ;
        assert(m * pow2(k) == 2 * (m * u));
        assert((m * pow2(k)) / 2 == m * u);
    } else {
        assert(m * pow2(0) == m);
    }
}

/// A number of 24 digits is not rounded.
proof fn lemma_exact(m: nat, k: nat)
    requires
        0x80_0000 <= m < 0x100_0000,
    ensures
        rounded(m * pow2(k)) == m * pow2(k),
{
    lemma_spare_scaled(m, k);
    vstd::arithmetic::power2::lemma_pow2_pos(k);
    vstd::arithmetic::div_mod::lemma_div_by_multiple(m as int, pow2(k) as int);
    vstd::arithmetic::div_mod::lemma_mod_multiples_basic(m as int, pow2(k) as int);
}

/// A single count is faded without rounding.
proof fn lemma_single_product(age: nat)
    ensures
        product(ONE as nat, age) == 0x80_0000 * ROOTS@[(age % 256) as int],
{
    let m = ROOTS@[(age % 256) as int] as nat;
    lemma_roots((age % 256) as int);
    vstd::arithmetic::power2::lemma2_to64();
    if m < 0x100_0000 {
        lemma_exact(m, 23);
        assert(m * pow2(23) == ONE as nat * m);
    } else {
        lemma_exact(0x80_0000, 24);
        assert(0x80_0000 * pow2(24) == ONE as nat * m);
    }
}

/// What was seen once is trusted for two half-lives and no longer.
pub proof fn law_single_count_is_trusted(age: nat)
    ensures
        faded(ONE as nat, age) >= MIN_SCORE <==> age <= 2 * DECAY_HALFLIFE,
{
    let h = age / 256;
    let p = product(ONE as nat, age);
    lemma_single_product(age);
    lemma_roots((age % 256) as int);
    assert(age % 256 == 0 ==> p == 0x8000_0000_0000);
    assert(age % 256 > 0 ==> 0x4000_0000_0000 < p < 0x8000_0000_0000);
    vstd::arithmetic::power2::lemma2_to64();
    if h <= 32 {
        let u = pow2((32 - h) as nat);
        if h >= 3 {
            if h > 3 {
                vstd::arithmetic::power2::lemma_pow2_strictly_increases((32 - h) as nat, 29);
            }
            assert(p * u <= 0x8000_0000_0000 * 0x2000_0000) by (nonlinear_arith)
                requires
                    p <= 0x8000_0000_0000,
                    u <= 0x2000_0000,
            ;
            assert(age > 512);
        } else if h == 2 {
            assert(u == 0x4000_0000);
            assert(faded(ONE as nat, age) == p * 0x4000_0000);
        } else if h == 1 {
            assert(u == 0x8000_0000);
            assert(faded(ONE as nat, age) == p * 0x8000_0000);
        } else {
            assert(u == 0x1_0000_0000);
            assert(faded(ONE as nat, age) == p * 0x1_0000_0000);
        }
    }
}

/// Rounding keeps the order.
proof fn lemma_rounded_in_order(a: nat, b: nat)
    requires
        a <= b,
    ensures
        rounded(a) <= rounded(b),
{
    lemma_spare(a);
    lemma_spare(b);
    lemma_spare_in_order(a, b);
    let (u, v) = (pow2(spare(a)), pow2(spare(b)));
    let (p, q) = (a / u, b / v);
    vstd::arithmetic::div_mod::lemma_fundamental_div_mod(a as int, u as int);
    vstd::arithmetic::div_mod::lemma_fundamental_div_mod(b as int, v as int);
    if spare(a) == spare(b) {
        vstd::arithmetic::div_mod::lemma_div_is_ordered(a as int, b as int, u as int);
        if p < q {
            assert((p + 1) * u <= q * u && q * u <= (q + 1) * u && p * u <= (p + 1) * u)
                by (nonlinear_arith)
                requires
                    p + 1 <= q,
                    u >= 0,
            ;
        } else {
            assert(p * u <= (p + 1) * u) by (nonlinear_arith)
                requires
                    u >= 0,
            ;
        }
    } else {
        let s = spare(a);
        vstd::arithmetic::power2::lemma_pow2_unfold(s + 1);
        if s + 1 < spare(b) {
            vstd::arithmetic::power2::lemma_pow2_strictly_increases(s + 1, spare(b));
        }
        assert(v >= 2 * u);
        assert((p + 1) * u <= 0x100_0000 * u && p * u <= (p + 1) * u && 0x80_0000 * v <= q * v
            && q * v <= (q + 1) * v && 0x100_0000 * u <= 0x80_0000 * v) by (nonlinear_arith)
            requires
                p + 1 <= 0x100_0000,
                q >= 0x80_0000,
                v >= 2 * u,
                u >= 0,
        ;
    }
}

proof fn lemma_spare_in_order(a: nat, b: nat)
    requires
        a <= b,
    ensures
        spare(a) <= spare(b),
    decreases b,
{
    if a >= 0x100_0000 {
        lemma_spare_in_order(a / 2, b / 2);
    }
}

/// Fading keeps the order of counts: the more frequent of two successors stays so as they
/// age together.
pub proof fn law_fading_keeps_the_order(a: nat, b: nat, age: nat)
    requires
        a <= b,
    ensures
        faded(a, age) <= faded(b, age),
{
    let m = ROOTS@[(age % 256) as int] as nat;
    vstd::arithmetic::mul::lemma_mul_inequality(a as int, b as int, m as int);
    lemma_rounded_in_order(a * m, b * m);
    if age / 256 <= 32 {
        vstd::arithmetic::mul::lemma_mul_inequality(
            product(a, age) as int,
            product(b, age) as int,
            pow2((32 - age / 256) as nat) as int,
        );
    }
}

/// Rounds to 24 significant binary digits.
fn round24(n: u128) -> (out: u128)
    requires
        n <= 0x1_0000_0000_0000_0000_0000_0000,
    ensures
        out == rounded(n as nat),
{
    let mut top: u128 = n;
    let mut unit: u128 = 1;
    let ghost mut s: nat = 0;
    proof {
        vstd::arithmetic::power2::lemma2_to64();
    }
    while top >= 0x100_0000
        invariant
            n <= 0x1_0000_0000_0000_0000_0000_0000,
            unit == pow2(s),
            unit >= 1,
            top == n as int / unit as int,
            unit <= n || s == 0,
            spare(n as nat) == s + spare(top as nat),
        decreases top,
    {
        proof {
            vstd::arithmetic::power2::lemma_pow2_unfold(s + 1);
            vstd::arithmetic::div_mod::lemma_div_denominator(n as int, unit as int, 2);
            vstd::arithmetic::div_mod::lemma_fundamental_div_mod(n as int, unit as int);
            let (t, u) = (top as int, unit as int);
            assert(u * t >= 2 * u) by (nonlinear_arith)
                requires
                    t >= 2,
                    u >= 1,
            ;
            s = s + 1;
        }
        top = top / 2;
        unit = unit * 2;
    }
    let r: u128 = n % unit;
    proof {
        assert(spare(top as nat) == 0);
        assert(s == spare(n as nat));
        vstd::arithmetic::div_mod::lemma_fundamental_div_mod(n as int, unit as int);
        let (t, u) = (top as int, unit as int);
        assert((t + 1) * u == u * t + u && t * u == u * t) by (nonlinear_arith);
    }
    if 2 * r > unit || (2 * r == unit && top % 2 == 1) {
        (top + 1) * unit
    } else {
        top * unit
    }
}

/// `2^k`.
fn power_of_two(k: u64) -> (p: u128)
    requires
        k <= 90,
    ensures
        p == pow2(k as nat),
        p <= 0x1_0000_0000_0000_0000_0000_0000,
{
    let mut p: u128 = 1;
    proof {
        vstd::arithmetic::power2::lemma2_to64();
        vstd::arithmetic::power2::lemma2_to64_rest();
        vstd::arithmetic::power2::lemma_pow2_adds(45, 45);
    }
    let ghost most = pow2(90);
    for i in 0..k
        invariant
            k <= 90,
            p == pow2(i as nat),
            most == pow2(90),
            most <= 0x1_0000_0000_0000_0000_0000_0000,
    {
        proof {
            vstd::arithmetic::power2::lemma_pow2_unfold((i + 1) as nat);
            vstd::arithmetic::power2::lemma_pow2_strictly_increases(i as nat, 90);
        }
        p = p * 2;
    }
    proof {
        if k < 90 {
            vstd::arithmetic::power2::lemma_pow2_strictly_increases(k as nat, 90);
        }
    }
    p
}

fn multiply(count: u64, age: u64) -> (p: u128)
    requires
        count <= MOST,
    ensures
        p == product(count as nat, age as nat),
        p <= 0x100_0001_0000_0000,
{
    let m: u64 = ROOTS[(age % 256) as usize] as u64;
    proof {
        lemma_roots((age % 256) as int);
        let (c, k) = (count as int, m as int);
        assert(0 <= c * k <= 0x100_0000_0000_0000) by (nonlinear_arith)
            requires
                0 <= c <= 0x1_0000_0000,
                0 <= k <= 0x100_0000,
        ;
        lemma_rounded((c * k) as nat);
    }
    round24(count as u128 * m as u128)
}

/// What is left of a count after `age` tokens.
pub fn fade(count: u64, age: u64) -> (rest: u128)
    requires
        count <= MOST,
    ensures
        rest == faded(count as nat, age as nat),
{
    let halvings: u64 = age / 256;
    if halvings > 32 {
        return 0;
    }
    let p: u128 = multiply(count, age);
    let unit: u128 = power_of_two(32 - halvings);
    proof {
        vstd::arithmetic::power2::lemma2_to64();
        if halvings > 0 {
            vstd::arithmetic::power2::lemma_pow2_strictly_increases((32 - halvings) as nat, 32);
        }
        let (a, b) = (p as int, unit as int);
        assert(0 <= a * b <= 0x100_0001_0000_0000 * 0x1_0000_0000) by (nonlinear_arith)
            requires
                0 <= a <= 0x100_0001_0000_0000,
                0 <= b <= 0x1_0000_0000,
        ;
    }
    p * unit
}

/// A count raised by one after `age` tokens.
pub fn raise(count: u64, age: u64) -> (new: u64)
    requires
        count <= MOST,
        age > 0,
    ensures
        new == raised_count(count as nat, age as nat),
        new <= MOST,
{
    let halvings: u64 = age / 256;
    proof {
        lemma_raised_count(count as nat, age as nat);
    }
    if halvings > 40 {
        return ONE;
    }
    let sum: u128 = multiply(count, age) + power_of_two(47 + halvings);
    let unit: u128 = power_of_two(24 + halvings);
    proof {
        vstd::arithmetic::power2::lemma_pow2_pos((24 + halvings) as nat);
    }
    (round24(sum) / unit) as u64
}

/// A token that followed, how often, and the number of the token that last did.
#[derive(Debug, Clone, Copy)]
pub struct Successor {
    pub token: u32,
    pub count: u64,
    pub stamp: u64,
}

/// `c` is in the list.
pub open spec fn listed(list: Seq<Successor>, c: u32) -> bool {
    exists|i: int| 0 <= i < list.len() && (#[trigger] list[i]).token == c
}

/// The list holds the successors of `x`, none twice.
pub open spec fn records(list: Seq<Successor>, w: Seq<u32>, x: Seq<u32>) -> bool {
    &&& forall|i: int, j: int|
        0 <= i < j < list.len() ==> (#[trigger] list[i]).token != (#[trigger] list[j]).token
    &&& forall|i: int|
        0 <= i < list.len() ==> tally(w, x, (#[trigger] list[i]).token) == Some(
            (list[i].count as nat, list[i].stamp as nat),
        )
    &&& forall|c: u32| (#[trigger] tally(w, x, c)) is Some ==> listed(list, c)
}

/// Counts the token `c` that follows `x` at the end of the text.
pub(crate) fn count_in(
    list: &mut Vec<Successor>,
    c: u32,
    now: u64,
    Ghost(w): Ghost<Seq<u32>>,
    Ghost(x): Ghost<Seq<u32>>,
)
    requires
        records(old(list)@, w, x),
        ends_in(w, x),
        now == w.len() + 1,
    ensures
        records(final(list)@, w.push(c), x),
{
    let n: usize = list.len();
    let mut i: usize = 0;
    while i < n && list[i].token != c
        invariant
            i <= n == list@.len(),
            forall|j: int| 0 <= j < i ==> (#[trigger] list@[j]).token != c,
        decreases n - i,
    {
        i += 1;
    }
    let ghost before = list@;
    proof {
        assert forall|d: u32| #[trigger] tally(w.push(c), x, d) == if c == d {
            Some(raised(tally(w, x, d), w.len() + 1))
        } else {
            tally(w, x, d)
        } by {
            lemma_tally_grown(w, c, x, d);
        }
        lemma_tally_bounds(w, x, c);
    }
    if i < n {
        let e: Successor = list[i];
        proof {
            assert(before[i as int].token == c);
        }
        list.set(i, Successor { token: c, count: raise(e.count, now - e.stamp), stamp: now });
        proof {
            assert forall|d: u32| (#[trigger] tally(w.push(c), x, d)) is Some implies listed(
                list@,
                d,
            ) by {
                if d == c {
                    assert(list@[i as int].token == d);
                } else {
                    assert(listed(before, d));
                    let j = choose|j: int| 0 <= j < before.len() && (#[trigger] before[j]).token == d;
                    assert(list@[j].token == d);
                }
            }
        }
    } else {
        list.push(Successor { token: c, count: ONE, stamp: now });
        proof {
            if tally(w, x, c) is Some {
                assert(listed(before, c));
            }
            assert forall|d: u32| (#[trigger] tally(w.push(c), x, d)) is Some implies listed(
                list@,
                d,
            ) by {
                if d == c {
                    assert(list@[n as int].token == d);
                } else {
                    assert(listed(before, d));
                    let j = choose|j: int| 0 <= j < before.len() && (#[trigger] before[j]).token == d;
                    assert(list@[j].token == d);
                }
            }
        }
    }
}

/// The best successor of a list.
pub(crate) fn best_in(
    list: &Vec<Successor>,
    now: u64,
    Ghost(w): Ghost<Seq<u32>>,
    Ghost(x): Ghost<Seq<u32>>,
) -> (c: Option<u32>)
    requires
        records(list@, w, x),
        now == w.len(),
    ensures
        c == best(w, x),
        c matches Some(t) ==> tally(w, x, t) is Some,
{
    let mut top: Option<(u32, u128)> = None;
    let n: usize = list.len();
    let mut i: usize = 0;
    while i < n
        invariant
            i <= n == list@.len(),
            records(list@, w, x),
            now == w.len(),
            match top {
                None => forall|j: int|
                    0 <= j < i ==> score(w, x, (#[trigger] list@[j]).token) < MIN_SCORE,
                Some((t, s)) => s >= MIN_SCORE && s == score(w, x, t) && forall|j: int|
                    0 <= j < i ==> score(w, x, (#[trigger] list@[j]).token) < s || (score(
                        w,
                        x,
                        list@[j].token,
                    ) == s && t <= list@[j].token),
            },
        decreases n - i,
    {
        let e: Successor = list[i];
        proof {
            lemma_tally_bounds(w, x, e.token);
        }
        let s: u128 = fade(e.count, now - e.stamp);
        let better: bool = match top {
            None => s >= MIN_SCORE,
            Some((t, m)) => s > m || (s == m && e.token < t),
        };
        if better {
            top = Some((e.token, s));
        }
        i += 1;
    }
    proof {
        assert forall|d: u32| tally(w, x, d) is Some implies exists|j: int|
            0 <= j < n && (#[trigger] list@[j]).token == d by {
            assert(listed(list@, d));
        }
        match top {
            None => {
                assert forall|d: u32| !is_best(w, x, d) by {
                    if tally(w, x, d) is Some {
                        let j = choose|j: int| 0 <= j < n && (#[trigger] list@[j]).token == d;
                        assert(score(w, x, list@[j].token) < MIN_SCORE);
                    }
                }
            },
            Some((t, s)) => {
                assert forall|d: u32|
                    (#[trigger] score(w, x, d)) < score(w, x, t) || (score(w, x, d) == score(
                        w,
                        x,
                        t,
                    ) && t <= d) by {
                    if tally(w, x, d) is Some {
                        let j = choose|j: int| 0 <= j < n && (#[trigger] list@[j]).token == d;
                        assert(list@[j].token == d);
                    }
                }
                assert(is_best(w, x, t));
                lemma_best(w, x, t);
            },
        }
    }
    match top {
        Some((t, _)) => Some(t),
        None => None,
    }
}

/// A copy of a list.
pub(crate) fn copy_list(list: &Vec<Successor>) -> (copy: Vec<Successor>)
    ensures
        copy@ == list@,
{
    let mut copy: Vec<Successor> = Vec::new();
    let n: usize = list.len();
    let mut i: usize = 0;
    while i < n
        invariant
            i <= n == list@.len(),
            copy@ == list@.take(i as int),
        decreases n - i,
    {
        copy.push(list[i]);
        proof {
            assert(list@.take(i as int).push(list@[i as int]) =~= list@.take(i + 1));
        }
        i += 1;
    }
    proof {
        assert(list@.take(n as int) =~= list@);
    }
    copy
}

/// Rounding goes to the nearest number of 24 bits, to an even one where two are as near: what
/// has no more than 24 bits stays, and the error is at most half of a last place.
pub proof fn law_rounding_is_to_the_nearest(n: nat)
    ensures
        ({
            let unit = pow2(spare(n));
            let r = rounded(n);
            &&& n < 0x100_0000 ==> r == n
            &&& unit > 0 && n / unit < 0x100_0000
            &&& n >= 0x100_0000 ==> n / unit >= 0x80_0000
            &&& r % unit == 0
            &&& 2 * n - unit <= 2 * r <= 2 * n + unit
            &&& 2 * r == 2 * n + unit || 2 * r == 2 * n - unit ==> (r / unit) % 2 == 0
        }),
{
    lemma_spare(n);
    let unit = pow2(spare(n));
    let (q, r) = (n / unit, n % unit);
    vstd::arithmetic::div_mod::lemma_fundamental_div_mod(n as int, unit as int);
    let up = if 2 * r > unit || (2 * r == unit && q % 2 == 1) {
        q + 1
    } else {
        q
    };
    assert(rounded(n) == up * unit);
    assert(unit * q == q * unit) by (nonlinear_arith);
    assert((q + 1) * unit == q * unit + unit) by (nonlinear_arith);
    vstd::arithmetic::div_mod::lemma_mod_multiples_basic(up as int, unit as int);
    vstd::arithmetic::div_mod::lemma_div_multiples_vanish(up as int, unit as int);
    if n < 0x100_0000 {
        assert(unit == 1) by {
            vstd::arithmetic::power2::lemma2_to64();
        }
        assert(n % 1 == 0);
        assert(n / 1 == n);
        assert(n * 1 == n);
    }
    assert(up * unit == unit * up) by (nonlinear_arith);
}

/// The token that is proposed behind a string is the one whose faded count is greatest, the
/// lowest of several; and one is proposed exactly where some count is still a quarter.
pub proof fn law_best_successor_counts_most(w: Seq<u32>, x: Seq<u32>, d: u32)
    ensures
        match best(w, x) {
            Some(c) => {
                &&& score(w, x, c) >= 0x2000_0000_0000_0000_0000
                &&& score(w, x, d) <= score(w, x, c)
                &&& score(w, x, d) == score(w, x, c) ==> c <= d
            },
            None => score(w, x, d) < 0x2000_0000_0000_0000_0000,
        },
{
    if exists|c: u32| is_best(w, x, c) {
        let c = choose|c: u32| is_best(w, x, c);
        assert(is_best(w, x, c));
    } else if score(w, x, d) >= MIN_SCORE {
        lemma_some_best(w, x, d, 0);
    }
}

/// A count that is trusted has a greatest above it: `c` has the greatest among the tokens
/// below `n`.
proof fn lemma_some_best(w: Seq<u32>, x: Seq<u32>, c: u32, n: int)
    requires
        0 <= n <= 0x1_0000_0000,
        score(w, x, c) >= MIN_SCORE,
        forall|e: u32|
            e < n ==> (#[trigger] score(w, x, e)) < score(w, x, c) || (score(w, x, e) == score(
                w,
                x,
                c,
            ) && c <= e),
    ensures
        exists|b: u32| is_best(w, x, b),
    decreases 0x1_0000_0000 - n,
{
    if n == 0x1_0000_0000 {
        assert(is_best(w, x, c));
    } else {
        let e = n as u32;
        if score(w, x, e) > score(w, x, c) || (score(w, x, e) == score(w, x, c) && e < c) {
            lemma_some_best(w, x, e, n + 1);
        } else {
            lemma_some_best(w, x, c, n + 1);
        }
    }
}

} // verus!
