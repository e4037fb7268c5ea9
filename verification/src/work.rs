//! Splitting work over a pool of workers.

use vstd::prelude::*;

verus! {

/// Contiguous, non-empty ranges that make up `0..items` in order.
pub open spec fn partitions(out: Seq<(usize, usize)>, items: int) -> bool {
    &&& items == 0 <==> out.len() == 0
    &&& out.len() > 0 ==> out[0].0 == 0 && out.last().1 == items
    &&& forall|i: int| 0 <= i < out.len() ==> (#[trigger] out[i]).0 < out[i].1
    &&& forall|i: int| 0 < i < out.len() ==> (#[trigger] out[i]).0 == out[i - 1].1
}

/// Range `w` of `per` items each.
pub open spec fn even_range(items: int, per: int, w: int) -> (int, int) {
    (w * per, if (w + 1) * per < items { (w + 1) * per } else { items })
}

/// Items per worker, rounded up.
pub open spec fn per_worker(items: int, workers: int) -> int {
    let n = if workers < 1 { 1 } else { workers };
    (items + n - 1) / n
}

/// The number of workers that get a range.
pub open spec fn busy(items: int, workers: int) -> int {
    let per = per_worker(items, workers);
    if items == 0 || workers == 0 {
        0
    } else {
        (items + per - 1) / per
    }
}

/// The number of workers for a number of items: those of the pool, but no more than
/// items and at least one.
pub fn prefill_workers(pool_workers: usize, items: usize) -> (n: usize)
    ensures
        n == (if (if items < 1 { 1 } else { items as int }) < (if pool_workers < 1 {
            1
        } else {
            pool_workers as int
        }) {
            if items < 1 { 1 } else { items as int }
        } else {
            if pool_workers < 1 { 1 } else { pool_workers as int }
        }),
{
    let p: usize = if pool_workers < 1 { 1 } else { pool_workers };
    let i: usize = if items < 1 { 1 } else { items };
    if i < p {
        i
    } else {
        p
    }
}

proof fn lemma_per_worker(items: int, workers: int)
    requires
        items >= 1,
        workers >= 1,
    ensures
        1 <= per_worker(items, workers) <= items,
        workers * per_worker(items, workers) >= items,
        (workers - 1) * per_worker(items, workers) < items + workers,
{
    let per = (items + workers - 1) / workers;
    assert(1 <= per <= items && workers * per >= items && (workers - 1) * per < items + workers)
        by (nonlinear_arith)
        requires
            items >= 1,
            workers >= 1,
            per == (items + workers - 1) / workers,
    ;
}

proof fn lemma_busy(items: int, workers: int)
    requires
        items >= 1,
        workers >= 1,
    ensures
        1 <= busy(items, workers) <= workers,
        (busy(items, workers) - 1) * per_worker(items, workers) < items,
        busy(items, workers) * per_worker(items, workers) >= items,
{
    lemma_per_worker(items, workers);
    let per = per_worker(items, workers);
    let b = (items + per - 1) / per;
    assert(1 <= b && (b - 1) * per < items && b * per >= items) by (nonlinear_arith)
        requires
            per >= 1,
            items >= 1,
            b == (items + per - 1) / per,
    ;
    if b > workers {
        assert((b - 1) * per >= workers * per) by (nonlinear_arith)
            requires
                b - 1 >= workers,
                per >= 1,
        ;
    }
}

/// Splits items into contiguous ranges of equal size, one per worker, the last ones
/// shorter or missing.
pub fn ranges(items: usize, workers: usize) -> (out: Vec<(usize, usize)>)
    ensures
        out@.len() == busy(items as int, workers as int),
        forall|w: int|
            0 <= w < out@.len() ==> {
                let (a, b) = even_range(
                    items as int,
                    per_worker(items as int, workers as int),
                    w,
                );
                (#[trigger] out@[w]) == (a as usize, b as usize)
            },
        workers > 0 ==> partitions(out@, items as int),
{
    let mut out: Vec<(usize, usize)> = Vec::new();
    if items == 0 || workers == 0 {
        return out;
    }
    let over: usize = if items % workers > 0 { 1 } else { 0 };
    proof {
        let (n, w) = (items as int, workers as int);
        assert(n / w <= n && (n % w > 0 ==> n / w < n && (n + w - 1) / w == n / w + 1) && (n % w
            == 0 ==> (n + w - 1) / w == n / w)) by (nonlinear_arith)
            requires
                n >= 1,
                w >= 1,
        ;
    }
    let per: usize = items / workers + over;
    let ghost p = per_worker(items as int, workers as int);
    let ghost b = busy(items as int, workers as int);
    proof {
        lemma_per_worker(items as int, workers as int);
        lemma_busy(items as int, workers as int);
        assert(per == p);
    }
    let mut start: usize = 0;
    while start < items
        invariant
            1 <= per <= items,
            per == p,
            p == per_worker(items as int, workers as int),
            b == busy(items as int, workers as int),
            1 <= b,
            (b - 1) * p < items,
            b * p >= items,
            out@.len() <= b,
            start == (if out@.len() < b { out@.len() * p } else { items as int }),
            forall|w: int|
                0 <= w < out@.len() ==> {
                    let (x, y) = even_range(items as int, p, w);
                    (#[trigger] out@[w]) == (x as usize, y as usize) && x < y <= items
                },
        decreases items - start,
    {
        let ghost w = out@.len() as int;
        let end: usize = if items - start < per { items } else { start + per };
        proof {
            assert(w < b);
            assert((w + 1) * p == w * p + p) by (nonlinear_arith);
            assert(end == even_range(items as int, p, w).1);
            if w + 1 < b {
                assert((w + 1) * p <= (b - 1) * p) by (nonlinear_arith)
                    requires
                        w + 1 <= b - 1,
                        p >= 1,
                ;
            } else {
                assert(w + 1 == b);
            }
        }
        out.push((start, end));
        start = end;
    }
    proof {
        assert(out@.len() == b) by {
            if out@.len() < b {
                assert(out@.len() * p <= (b - 1) * p) by (nonlinear_arith)
                    requires
                        out@.len() <= b - 1,
                        p >= 1,
                ;
            }
        }
        assert forall|i: int| 0 < i < out@.len() implies (#[trigger] out@[i]).0 == out@[i - 1].1 by {
            assert(out@[i - 1] == (
                even_range(items as int, p, i - 1).0 as usize,
                even_range(items as int, p, i - 1).1 as usize,
            ));
            assert((i - 1 + 1) * p == i * p);
            assert(i * p <= (b - 1) * p) by (nonlinear_arith)
                requires
                    i <= b - 1,
                    p >= 1,
            ;
        }
        assert(out@[0] == (
            even_range(items as int, p, 0).0 as usize,
            even_range(items as int, p, 0).1 as usize,
        ));
        assert(0 * p == 0);
        assert(out@[b - 1] == (
            even_range(items as int, p, b - 1).0 as usize,
            even_range(items as int, p, b - 1).1 as usize,
        ));
        assert((b - 1 + 1) * p == b * p);
    }
    out
}

/// The causal cost of the first `n` tokens: token `t` attends over `base + t + 1`
/// positions.
pub open spec fn causal_cost(base: int, n: int) -> int
    decreases n,
{
    if n <= 0 {
        0
    } else {
        causal_cost(base, n - 1) + base + n
    }
}

/// The cuts of a causal split, for the first `n` tokens: a cut falls behind the first
/// token at which the cost so far reaches the next equal share, while more than one
/// worker is left.
pub open spec fn causal_cuts(items: int, workers: int, base: int, n: int) -> Seq<int>
    decreases n,
{
    if n <= 0 {
        Seq::empty()
    } else {
        let cuts = causal_cuts(items, workers, base, n - 1);
        if cuts.len() + 1 < workers && causal_cost(base, n) * workers >= causal_cost(base, items) * (
        cuts.len() + 1) {
            cuts.push(n)
        } else {
            cuts
        }
    }
}

/// The ranges between the cuts.
pub open spec fn causal_split(items: int, workers: int, base: int) -> Seq<(usize, usize)> {
    let cuts = causal_cuts(items, workers, base, items);
    let ends = if cuts.len() > 0 && cuts.last() == items || items == 0 {
        cuts
    } else {
        cuts.push(items)
    };
    Seq::new(
        ends.len(),
        |i: int| (if i == 0 { 0 } else { ends[i - 1] as usize }, ends[i] as usize),
    )
}

proof fn lemma_causal_cost(base: int, n: int, m: int)
    requires
        0 <= n <= m,
        base >= 0,
    ensures
        0 <= causal_cost(base, n) <= causal_cost(base, m) <= m * (base + m),
    decreases m,
{
    if m > 0 {
        let k = if n < m { n } else { n - 1 };
        lemma_causal_cost(base, k, m - 1);
        assert((m - 1) * (base + m - 1) + base + m <= m * (base + m)) by (nonlinear_arith)
            requires
                m >= 1,
                base >= 0,
        ;
    }
}

proof fn lemma_causal_cuts(items: int, workers: int, base: int, n: int)
    requires
        0 <= n,
    ensures
        causal_cuts(items, workers, base, n).len() <= n,
        workers >= 1 ==> causal_cuts(items, workers, base, n).len() < workers,
        forall|i: int|
            0 <= i < causal_cuts(items, workers, base, n).len() ==> 0 < (#[trigger] causal_cuts(
                items,
                workers,
                base,
                n,
            )[i]) <= n,
        forall|i: int, j: int|
            0 <= i < j < causal_cuts(items, workers, base, n).len() ==> (#[trigger] causal_cuts(
                items,
                workers,
                base,
                n,
            )[i]) < (#[trigger] causal_cuts(items, workers, base, n)[j]),
    decreases n,
{
    if n > 0 {
        lemma_causal_cuts(items, workers, base, n - 1);
    }
}

/// The causal split covers the items, in at most as many ranges as there are workers.
pub proof fn law_causal_split_partitions(items: int, workers: int, base: int)
    requires
        0 <= items <= usize::MAX,
        1 <= workers,
    ensures
        partitions(causal_split(items, workers, base), items),
        causal_split(items, workers, base).len() <= workers,
{
    lemma_causal_cuts(items, workers, base, items);
    let cuts = causal_cuts(items, workers, base, items);
    let out = causal_split(items, workers, base);
    if items > 0 {
        if cuts.len() > 0 && cuts.last() == items {
            assert(out.last().1 == items);
        }
        assert forall|i: int| 0 <= i < out.len() implies (#[trigger] out[i]).0 < out[i].1 by {
            if 0 < i && i < cuts.len() {
                assert(cuts[i - 1] < cuts[i]);
            }
            if i == cuts.len() && i > 0 {
                assert(cuts[i - 1] == cuts.last());
            }
        }
    }
}

/// Where the cuts fall: each behind the first token at which its share is reached, or right
/// behind the cut before it.
proof fn lemma_cuts_fall(items: int, workers: int, base: int, n: int)
    requires
        0 <= n,
        1 <= workers,
    ensures
        ({
            let cuts = causal_cuts(items, workers, base, n);
            let total = causal_cost(base, items);
            let last = if cuts.len() == 0 { 0 } else { cuts.last() };
            &&& last <= n
            &&& forall|i: int|
                0 <= i < cuts.len() ==> causal_cost(base, #[trigger] cuts[i]) * workers >= total
                    * (i + 1)
            &&& forall|i: int|
                0 <= i < cuts.len() ==> (#[trigger] cuts[i]) == (if i == 0 { 0 } else {
                    cuts[i - 1]
                }) + 1 || causal_cost(base, cuts[i] - 1) * workers < total * (i + 1)
            &&& n > last && cuts.len() + 1 < workers ==> causal_cost(base, n) * workers < total * (
            cuts.len() + 1)
        }),
    decreases n,
{
    if n > 0 {
        lemma_cuts_fall(items, workers, base, n - 1);
        let before = causal_cuts(items, workers, base, n - 1);
        let cuts = causal_cuts(items, workers, base, n);
        let total = causal_cost(base, items);
        if cuts.len() > before.len() {
            assert(cuts == before.push(n));
            assert forall|i: int| 0 <= i < cuts.len() implies causal_cost(
                base,
                #[trigger] cuts[i],
            ) * workers >= total * (i + 1) by {
                if i < before.len() {
                    assert(cuts[i] == before[i]);
                }
            }
            assert forall|i: int| 0 <= i < cuts.len() implies (#[trigger] cuts[i]) == (if i == 0 {
                0
            } else {
                cuts[i - 1]
            }) + 1 || causal_cost(base, cuts[i] - 1) * workers < total * (i + 1) by {
                if i < before.len() {
                    assert(cuts[i] == before[i]);
                }
            }
        }
    }
}

proof fn lemma_quotient(z: int, total: int, workers: int)
    requires
        z * workers <= total,
        0 <= total,
        workers >= 1,
    ensures
        z <= total / workers,
{
    if z < 0 {
        vstd::arithmetic::div_mod::lemma_div_pos_is_pos(total, workers);
    } else {
        vstd::arithmetic::div_mod::lemma_div_is_ordered(z * workers, total, workers);
        vstd::arithmetic::div_mod::lemma_div_by_multiple(z, workers);
    }
}

/// The cut before range `i`, 0 for the first.
spec fn cut_before(items: int, workers: int, base: int, i: int) -> int {
    if i == 0 {
        0
    } else {
        causal_cuts(items, workers, base, items)[i - 1]
    }
}

/// What is spent before range `i` is at least the shares of the ranges before it.
proof fn lemma_spent(items: int, workers: int, base: int, i: int)
    requires
        0 <= items,
        1 <= workers,
        0 <= i <= causal_cuts(items, workers, base, items).len(),
    ensures
        causal_cost(base, cut_before(items, workers, base, i)) * workers >= causal_cost(base, items)
            * i,
{
    lemma_cuts_fall(items, workers, base, items);
    let cuts = causal_cuts(items, workers, base, items);
    if i > 0 {
        assert(causal_cost(base, cuts[i - 1]) * workers >= causal_cost(base, items) * (i - 1 + 1));
    } else {
        let x = causal_cost(base, 0);
        assert(x * workers == 0) by (nonlinear_arith)
            requires
                x == 0,
        ;
    }
}

/// A range that ends in a cut costs no more than a share and its last token.
proof fn lemma_cut_range(items: int, workers: int, base: int, i: int)
    requires
        0 <= items,
        1 <= workers,
        0 <= base,
        0 <= i < causal_cuts(items, workers, base, items).len(),
    ensures
        causal_cost(base, causal_cuts(items, workers, base, items)[i]) - causal_cost(
            base,
            cut_before(items, workers, base, i),
        ) <= causal_cost(base, items) / workers + base + items,
{
    lemma_cuts_fall(items, workers, base, items);
    lemma_causal_cuts(items, workers, base, items);
    lemma_spent(items, workers, base, i);
    lemma_causal_cost(base, items, items);
    let b = causal_cuts(items, workers, base, items)[i];
    let total = causal_cost(base, items);
    let x = causal_cost(base, cut_before(items, workers, base, i));
    let y = causal_cost(base, b - 1);
    assert(causal_cost(base, b) == y + base + b);
    if b == cut_before(items, workers, base, i) + 1 {
        lemma_quotient(0, total, workers);
    } else {
        assert(y * workers < total * (i + 1));
        lemma_difference(x, y, total, workers, i);
    }
}

proof fn lemma_difference(x: int, y: int, total: int, workers: int, i: int)
    requires
        y * workers <= total * (i + 1),
        x * workers >= total * i,
        0 <= total,
        workers >= 1,
    ensures
        y - x <= total / workers,
{
    assert((y - x) * workers == y * workers - x * workers) by (nonlinear_arith);
    assert(total * (i + 1) == total * i + total) by (nonlinear_arith);
    lemma_quotient(y - x, total, workers);
}

/// Where the cuts stop before the end, all workers but one have got a range.
proof fn lemma_last_range(items: int, workers: int, base: int)
    requires
        0 < items,
        1 <= workers,
        0 <= base,
        ({
            let cuts = causal_cuts(items, workers, base, items);
            cuts.len() == 0 || cuts.last() != items
        }),
    ensures
        causal_cuts(items, workers, base, items).len() == workers - 1,
{
    lemma_cuts_fall(items, workers, base, items);
    lemma_causal_cuts(items, workers, base, items);
    lemma_causal_cost(base, items, items);
    let n = causal_cuts(items, workers, base, items).len() as int;
    let total = causal_cost(base, items);
    if n + 1 < workers {
        assert(total * workers < total * (n + 1));
        assert(total * (n + 1) <= total * workers) by (nonlinear_arith)
            requires
                total >= 0,
                n + 1 <= workers,
        ;
    }
}

/// Every range of the causal split costs about its share: no more than an equal part of the
/// whole and one token.
pub proof fn law_causal_split_is_even(items: int, workers: int, base: int, i: int)
    requires
        0 <= items <= usize::MAX,
        1 <= workers,
        0 <= base,
        0 <= i < causal_split(items, workers, base).len(),
    ensures
        causal_cost(base, causal_split(items, workers, base)[i].1 as int) - causal_cost(
            base,
            causal_split(items, workers, base)[i].0 as int,
        ) <= causal_cost(base, items) / workers + base + items,
{
    let cuts = causal_cuts(items, workers, base, items);
    let total = causal_cost(base, items);
    let out = causal_split(items, workers, base);
    lemma_causal_cuts(items, workers, base, items);
    lemma_causal_cost(base, items, items);
    assert(out[i].0 == cut_before(items, workers, base, i));
    if i < cuts.len() {
        assert(out[i].1 == cuts[i]);
        lemma_cut_range(items, workers, base, i);
    } else {
        assert(out[i].1 == items);
        lemma_last_range(items, workers, base);
        lemma_spent(items, workers, base, i);
        assert(i + 1 == workers);
        lemma_difference(
            causal_cost(base, cut_before(items, workers, base, i)),
            total,
            total,
            workers,
            i,
        );
    }
}

/// The cost at which cut `k` of a split falls: its share of the whole, rounded up.
fn share_of(total: u128, k: u64, workers: u64) -> (share: u128)
    requires
        0 < k < workers,
    ensures
        forall|cost: int| #![trigger cost * workers]
            cost * workers >= total * k <==> cost >= share,
{
    let w: u128 = workers as u128;
    let q: u128 = total / w;
    let r: u128 = total % w;
    proof {
        let (qi, ri, wi, ki, ti) = (q as int, r as int, workers as int, k as int, total as int);
        assert(qi * wi + ri == ti && 0 <= ri < wi) by (nonlinear_arith)
            requires
                wi > 0,
                qi == ti / wi,
                ri == ti % wi,
        ;
        assert(0 <= ri * ki && ri * ki + wi - 1 <= wi * (wi - 1)) by (nonlinear_arith)
            requires
                0 <= ri <= wi - 1,
                0 < ki <= wi - 1,
        ;
        assert(wi * (wi - 1) <= 0xffff_ffff_ffff_ffff * 0xffff_ffff_ffff_ffff) by (nonlinear_arith)
            requires
                0 < wi <= 0xffff_ffff_ffff_ffff,
        ;
        assert(0 <= qi * ki <= qi * wi) by (nonlinear_arith)
            requires
                0 <= qi,
                0 < ki <= wi,
        ;
        let up = (ri * ki + wi - 1) / wi;
        assert(ri * ki <= up * wi < ri * ki + wi && up >= 0) by (nonlinear_arith)
            requires
                wi > 0,
                0 <= ri * ki,
                up == (ri * ki + wi - 1) / wi,
        ;
        let s = qi * ki + up;
        assert(s * wi == qi * ki * wi + up * wi) by (nonlinear_arith)
            requires
                s == qi * ki + up,
        ;
        assert(qi * ki * wi + ri * ki == ti * ki) by (nonlinear_arith)
            requires
                qi * wi + ri == ti,
        ;
        assert(ti * ki <= s * wi < ti * ki + wi);
        assert(ti * ki <= ti * (wi - 1) && ti * (wi - 1) + wi <= ti * wi + wi) by (nonlinear_arith)
            requires
                0 <= ti,
                0 < ki <= wi - 1,
        ;
        assert(s <= ti) by (nonlinear_arith)
            requires
                s * wi < ti * ki + wi,
                ti * ki <= ti * (wi - 1),
                0 <= ti,
                wi > 0,
        ;
        assert forall|cost: int| #![trigger cost * workers]
            cost * workers >= total * k <==> cost >= s by {
            assert(cost >= s ==> cost * wi >= s * wi) by (nonlinear_arith)
                requires
                    wi > 0,
            ;
            assert(cost < s ==> cost * wi <= s * wi - wi) by (nonlinear_arith)
                requires
                    wi > 0,
            ;
        }
    }
    q * (k as u128) + (r * (k as u128) + (w - 1)) / w
}

proof fn lemma_cost_fits(base: int, n: int, items: int)
    requires
        0 <= base,
        0 <= n <= items,
        base + items <= usize::MAX,
    ensures
        0 <= causal_cost(base, n) <= causal_cost(base, items) <= u128::MAX,
{
    lemma_causal_cost(base, n, items);
    assert(items * (base + items) <= 0xffff_ffff_ffff_ffff * 0xffff_ffff_ffff_ffff)
        by (nonlinear_arith)
        requires
            0 <= items <= 0xffff_ffff_ffff_ffff,
            0 <= base + items <= 0xffff_ffff_ffff_ffff,
    ;
}

/// Splits items into contiguous ranges of about equal causal cost.
pub fn causal_ranges(items: usize, workers: usize, base: usize) -> (out: Vec<(usize, usize)>)
    requires
        base + items <= usize::MAX,
    ensures
        ({
            let w = if workers < 1 { 1 } else { workers as int };
            let n = if items < 1 { 1 } else { items as int };
            out@ == causal_split(items as int, if w < n { w } else { n }, base as int)
        }),
        partitions(out@, items as int),
{
    let w1: usize = if workers < 1 { 1 } else { workers };
    let n1: usize = if items < 1 { 1 } else { items };
    let w: usize = if w1 < n1 { w1 } else { n1 };
    let mut total: u128 = 0;
    for t in 0..items
        invariant
            base + items <= usize::MAX,
            total == causal_cost(base as int, t as int),
    {
        proof {
            lemma_cost_fits(base as int, t + 1, items as int);
        }
        total = total + (base as u128 + t as u128 + 1);
    }
    let mut out: Vec<(usize, usize)> = Vec::new();
    let mut start: usize = 0;
    let mut acc: u128 = 0;
    for t in 0..items
        invariant
            base + items <= usize::MAX,
            1 <= w,
            total == causal_cost(base as int, items as int),
            acc == causal_cost(base as int, t as int),
            out@.len() < w,
            out@.len() == causal_cuts(items as int, w as int, base as int, t as int).len(),
            start == (if out@.len() == 0 { 0 } else { out@.last().1 as int }),
            start <= t,
            forall|i: int|
                0 <= i < out@.len() ==> (#[trigger] out@[i]).1 == causal_cuts(
                    items as int,
                    w as int,
                    base as int,
                    t as int,
                )[i] && out@[i].0 == (if i == 0 {
                    0
                } else {
                    causal_cuts(items as int, w as int, base as int, t as int)[i - 1]
                }),
    {
        proof {
            lemma_cost_fits(base as int, t + 1, items as int);
        }
        acc = acc + (base as u128 + t as u128 + 1);
        if out.len() + 1 < w {
            let k: u64 = out.len() as u64 + 1;
            let share: u128 = share_of(total, k, w as u64);
            proof {
                assert(acc * w >= total * k <==> acc >= share);
            }
            if acc >= share {
                out.push((start, t + 1));
                start = t + 1;
            }
        }
    }
    if start < items {
        out.push((start, items));
    }
    proof {
        lemma_causal_cuts(items as int, w as int, base as int, items as int);
        assert(out@ =~= causal_split(items as int, w as int, base as int));
        law_causal_split_partitions(items as int, w as int, base as int);
    }
    out
}

/// Shares are even: no worker has more than the next whole number above an equal share, and
/// one item fewer for each would not do.
pub proof fn law_shares_are_even(items: int, workers: int)
    requires
        items > 0,
        workers > 0,
    ensures
        workers * (per_worker(items, workers) - 1) < items <= workers * per_worker(items, workers),
{
    let per = per_worker(items, workers);
    vstd::arithmetic::div_mod::lemma_fundamental_div_mod(items + workers - 1, workers);
    let r = (items + workers - 1) % workers;
    assert(0 <= r < workers);
    assert(workers * (per - 1) == workers * per - workers) by (nonlinear_arith);
}

} // verus!
