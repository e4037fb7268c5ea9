//! The decoder's decisions: which copy of the weights it runs on, which tokens it takes
//! in, which blocks of an MLP it may leave out and which token it drafts.
//!
//! Floats are compared by their 64-bit patterns; a 32-bit float is widened first, which
//! changes no order.

use crate::names::same_text;
use crate::qwentok::QWEN_ENDOFTEXT;
use crate::rank::any_nan;
use crate::rank::better;
use crate::rank::is_nan;
use crate::rank::is_ranking;
use crate::rank::key_of;
use crate::rank::ranked;
use crate::rank::score_key;
use crate::rank::sign_magnitude;
use crate::unicode::chars_of;
use vstd::prelude::*;

verus! {

/// A switch is on where its variable holds "1".
pub open spec fn switched_on(value: Option<&str>) -> bool {
    match value {
        Some(v) => v@ == "1"@,
        None => false,
    }
}

/// Whether the switch with this value is on.
pub fn switch_on(value: Option<&str>) -> (on: bool)
    ensures
        on == switched_on(value),
{
    match value {
        Some(v) => {
            let t: Vec<char> = chars_of(v);
            same_text(t.as_slice(), "1")
        },
        None => false,
    }
}

/// How the spine is held: in four bits (`Some(true)`), which wins where both switches
/// are on, in eight (`Some(false)`), or as it is.
pub fn spine_mode(fp4: Option<&str>, q8: Option<&str>) -> (mode: Option<bool>)
    ensures
        mode == if switched_on(fp4) {
            Some(true)
        } else if switched_on(q8) {
            Some(false)
        } else {
            None::<bool>
        },
{
    if switch_on(fp4) {
        Some(true)
    } else if switch_on(q8) {
        Some(false)
    } else {
        None
    }
}

/// How a turn is decoded.
#[derive(Debug, Clone, Copy, PartialEq, Eq, Structural)]
pub enum Turn {
    /// One token at a time.
    Plain,
    /// One token at a time: drafts were asked for, and the model has no head for them.
    NoDraftHead,
    /// One token at a time: drafts were asked for, and the choice of tokens is random.
    NotGreedy,
    /// Drafted and verified.
    Speculative,
}

/// How a turn is decoded, and whether the caches are emptied before it. A turn that
/// goes on from restored logits keeps the caches and is never drafted.
pub fn turn_of(mtp: bool, resumed: bool, has_mtp: bool, random: bool) -> (r: (Turn, bool))
    ensures
        r.1 == !resumed,
        r.0 is Speculative <==> mtp && !resumed && has_mtp && !random,
        r.0 is NoDraftHead <==> mtp && !resumed && !has_mtp,
        r.0 is NotGreedy <==> mtp && !resumed && has_mtp && random,
{
    let turn = if !mtp || resumed {
        Turn::Plain
    } else if !has_mtp {
        Turn::NoDraftHead
    } else if random {
        Turn::NotGreedy
    } else {
        Turn::Speculative
    };
    (turn, !resumed)
}

/// Why a batch of tokens is not taken in.
#[derive(Debug, Clone, Copy, PartialEq, Eq, Structural)]
pub enum PrefillError {
    /// There is no token.
    NoTokens,
    /// The first token that the vocabulary does not hold.
    OutsideVocabulary(u32),
}

/// `at` is the first token that the vocabulary does not hold.
pub open spec fn first_outside(tokens: Seq<u32>, vocab: int, at: int) -> bool {
    &&& 0 <= at < tokens.len()
    &&& tokens[at] >= vocab
    &&& forall|i: int| 0 <= i < at ==> #[trigger] tokens[i] < vocab
}

/// The rows of a table of width `d` that tokens name, one behind the other.
pub open spec fn rows_of<T>(table: Seq<T>, tokens: Seq<u32>, d: int) -> Seq<T>
    decreases tokens.len(),
{
    if tokens.len() == 0 {
        Seq::empty()
    } else {
        rows_of(table, tokens.drop_last(), d) + table.subrange(
            tokens.last() * d,
            tokens.last() * d + d,
        )
    }
}

/// Each token's row stands at its place.
pub proof fn law_rows_stand_in_order<T>(table: Seq<T>, tokens: Seq<u32>, d: int, t: int, j: int)
    requires
        d >= 0,
        forall|i: int| 0 <= i < tokens.len() ==> (#[trigger] tokens[i] + 1) * d <= table.len(),
        0 <= t < tokens.len(),
        0 <= j < d,
    ensures
        rows_of(table, tokens, d).len() == tokens.len() * d,
        t * d + j < tokens.len() * d,
        rows_of(table, tokens, d)[t * d + j] == table[tokens[t] * d + j],
    decreases tokens.len(),
{
    lemma_rows_len(table, tokens, d);
    let n = tokens.len() as int;
    assert(t * d + j < n * d) by (nonlinear_arith)
        requires
            0 <= t < n,
            0 <= j < d,
    ;
    let before = tokens.drop_last();
    lemma_rows_len(table, before, d);
    assert((n - 1) * d + d == n * d) by (nonlinear_arith);
    assert(tokens[n - 1] * d + d == (tokens[n - 1] + 1) * d) by (nonlinear_arith);
    assert(tokens[n - 1] * d >= 0) by (nonlinear_arith)
        requires
            d >= 0,
            tokens[n - 1] >= 0,
    ;
    if t < n - 1 {
        assert(forall|i: int| 0 <= i < before.len() ==> before[i] == tokens[i]);
        law_rows_stand_in_order(table, before, d, t, j);
    }
}

proof fn lemma_rows_len<T>(table: Seq<T>, tokens: Seq<u32>, d: int)
    requires
        d >= 0,
        forall|i: int| 0 <= i < tokens.len() ==> (#[trigger] tokens[i] + 1) * d <= table.len(),
    ensures
        rows_of(table, tokens, d).len() == tokens.len() * d,
    decreases tokens.len(),
{
    if tokens.len() > 0 {
        let n = tokens.len() as int;
        let before = tokens.drop_last();
        assert(forall|i: int| 0 <= i < before.len() ==> before[i] == tokens[i]);
        lemma_rows_len(table, before, d);
        assert((n - 1) * d + d == n * d) by (nonlinear_arith);
        assert(tokens[n - 1] * d + d == (tokens[n - 1] + 1) * d) by (nonlinear_arith);
        assert(tokens[n - 1] * d >= 0) by (nonlinear_arith)
            requires
                d >= 0,
                tokens[n - 1] >= 0,
        ;
    }
}

/// The embeddings of a batch of tokens, one behind the other.
pub fn embed_rows<T: Copy>(embed: &[T], tokens: &[u32], vocab: usize, d: usize) -> (r: Result<
    Vec<T>,
    PrefillError,
>)
    requires
        embed@.len() == vocab * d,
    ensures
        match r {
            Ok(hidden) => {
                &&& tokens@.len() > 0
                &&& forall|i: int| 0 <= i < tokens@.len() ==> #[trigger] tokens@[i] < vocab
                &&& hidden@ == rows_of(embed@, tokens@, d as int)
            },
            Err(PrefillError::NoTokens) => tokens@.len() == 0,
            Err(PrefillError::OutsideVocabulary(token)) => exists|at: int|
                first_outside(tokens@, vocab as int, at) && token == tokens@[at],
        },
{
    let n: usize = tokens.len();
    if n == 0 {
        return Err(PrefillError::NoTokens);
    }
    let mut i: usize = 0;
    while i < n
        invariant
            i <= n == tokens@.len(),
            forall|k: int| 0 <= k < i ==> #[trigger] tokens@[k] < vocab,
        decreases n - i,
    {
        if tokens[i] as usize >= vocab {
            proof {
                assert(first_outside(tokens@, vocab as int, i as int));
            }
            return Err(PrefillError::OutsideVocabulary(tokens[i]));
        }
        i += 1;
    }
    let mut hidden: Vec<T> = Vec::new();
    proof {
        assert(tokens@.take(0) =~= Seq::<u32>::empty());
    }
    let total: usize = embed.len();
    for t in 0..n
        invariant
            n == tokens@.len(),
            embed@.len() == total == vocab * d,
            forall|k: int| 0 <= k < n ==> #[trigger] tokens@[k] < vocab,
            hidden@ == rows_of(embed@, tokens@.take(t as int), d as int),
    {
        let token: usize = tokens[t] as usize;
        proof {
            assert((token + 1) * d <= vocab * d) by (nonlinear_arith)
                requires
                    token + 1 <= vocab,
            ;
            assert(token * d + d == (token + 1) * d) by (nonlinear_arith);
            assert(token * d >= 0) by (nonlinear_arith);
            assert(tokens@.take(t + 1).drop_last() =~= tokens@.take(t as int));
        }
        let from: usize = token * d;
        let row: &[T] = vstd::slice::slice_subrange(embed, from, from + d);
        crate::cache::append(&mut hidden, row);
    }
    proof {
        assert(tokens@.take(n as int) =~= tokens@);
    }
    Ok(hidden)
}

/// The positions of a batch that are scored: all of them, or the last.
pub open spec fn scored(all: bool, n: nat) -> Seq<usize> {
    if all {
        Seq::new(n, |i: int| i as usize)
    } else if n == 0 {
        Seq::empty()
    } else {
        seq![(n - 1) as usize]
    }
}

/// The positions of a batch that are scored.
pub fn scored_positions(all: bool, n: usize) -> (out: Vec<usize>)
    ensures
        out@ == scored(all, n as nat),
{
    let mut out: Vec<usize> = Vec::new();
    if all {
        for i in 0..n
            invariant
                out@ == scored(true, i as nat),
        {
            out.push(i);
            proof {
                assert(out@ =~= scored(true, (i + 1) as nat));
            }
        }
    } else if n > 0 {
        out.push(n - 1);
        proof {
            assert(out@ =~= scored(false, n as nat));
        }
    }
    out
}

/// Float `a` is greater than float `b`; with a NaN neither is.
pub open spec fn above(a: u64, b: u64) -> bool {
    !is_nan(a) && !is_nan(b) && sign_magnitude(a) > sign_magnitude(b)
}

/// Whether a float is a NaN.
pub fn not_a_number(bits: u64) -> (yes: bool)
    ensures
        yes == is_nan(bits),
{
    if bits >= 0x8000_0000_0000_0000 {
        bits - 0x8000_0000_0000_0000 > 0x7ff0_0000_0000_0000
    } else {
        bits > 0x7ff0_0000_0000_0000
    }
}

/// Whether float `a` is greater than float `b`.
pub fn exceeds(a: u64, b: u64) -> (yes: bool)
    ensures
        yes == above(a, b),
{
    !not_a_number(a) && !not_a_number(b) && key_of(a) > key_of(b)
}

/// The keys by which the smallest bound comes first.
pub open spec fn cheap_keys(bounds: Seq<u64>) -> Seq<u64> {
    Seq::new(bounds.len(), |i: int| (u64::MAX - score_key(bounds[i])) as u64)
}

/// The order of blocks by their bounds, the smallest first and of equal ones the earlier;
/// nothing where a bound is a NaN.
pub fn cheapest_first(bounds: &[u64]) -> (order: Option<Vec<usize>>)
    ensures
        match order {
            Some(v) => !any_nan(bounds@) && is_ranking(cheap_keys(bounds@), v@),
            None => any_nan(bounds@),
        },
{
    let mut keys: Vec<u64> = Vec::with_capacity(bounds.len());
    for i in 0..bounds.len()
        invariant
            keys@ == cheap_keys(bounds@.take(i as int)),
            forall|k: int| 0 <= k < i ==> !is_nan(#[trigger] bounds@[k]),
    {
        if not_a_number(bounds[i]) {
            return None;
        }
        keys.push(u64::MAX - key_of(bounds[i]));
        proof {
            assert(keys@ =~= cheap_keys(bounds@.take(i + 1)));
        }
    }
    proof {
        assert(bounds@.take(bounds@.len() as int) =~= bounds@);
    }
    Some(ranked(keys.as_slice()))
}

/// In the order of `cheapest_first` no block stands before one with a smaller bound.
pub proof fn law_cheapest_come_first(bounds: Seq<u64>, order: Seq<usize>, i: int, j: int)
    requires
        is_ranking(cheap_keys(bounds), order),
        !any_nan(bounds),
        0 <= i < j < order.len(),
    ensures
        order[i] < bounds.len(),
        order[j] < bounds.len(),
        !above(bounds[order[i] as int], bounds[order[j] as int]),
{
    assert(better(cheap_keys(bounds), order[i] as int, order[j] as int));
}

/// How many blocks of an order are left out: as many as keep the running sum of bounds
/// from exceeding the budget.
pub open spec fn affordable(sums: Seq<u64>, budget: u64) -> int
    decreases sums.len(),
{
    if sums.len() == 0 {
        0
    } else {
        let n = affordable(sums.drop_last(), budget);
        if n == sums.len() - 1 && !above(sums.last(), budget) {
            n + 1
        } else {
            n
        }
    }
}

/// What is left out stays within the budget, and the next block would not.
pub proof fn law_budget_is_kept(sums: Seq<u64>, budget: u64)
    ensures
        0 <= affordable(sums, budget) <= sums.len(),
        forall|i: int|
            0 <= i < affordable(sums, budget) ==> !above(#[trigger] sums[i], budget),
        affordable(sums, budget) < sums.len() ==> above(sums[affordable(sums, budget)], budget),
    decreases sums.len(),
{
    if sums.len() > 0 {
        law_budget_is_kept(sums.drop_last(), budget);
        assert(forall|i: int| 0 <= i < sums.len() - 1 ==> sums.drop_last()[i] == sums[i]);
    }
}

proof fn lemma_affordable_stays(sums: Seq<u64>, budget: u64, i: int)
    requires
        0 <= i <= sums.len(),
        affordable(sums.take(i), budget) < i,
    ensures
        affordable(sums, budget) == affordable(sums.take(i), budget),
    decreases sums.len(),
{
    if i < sums.len() {
        assert(sums.drop_last().take(i) =~= sums.take(i));
        lemma_affordable_stays(sums.drop_last(), budget, i);
        law_budget_is_kept(sums.take(i), budget);
    } else {
        assert(sums.take(i) =~= sums);
    }
}

/// Block `b` stays in unless it is among the first `n` of the order.
pub open spec fn stays(order: Seq<usize>, n: int, b: int) -> bool {
    forall|i: int| 0 <= i < n ==> #[trigger] order[i] != b
}

/// Which blocks stay in. `sums[i]` is the sum of the bounds of `order[0..=i]`; a budget
/// of zero or less keeps every block.
pub fn keep_mask(order: &[usize], sums: &[u64], budget: u64) -> (keep: Vec<bool>)
    requires
        sums@.len() == order@.len(),
        forall|i: int| 0 <= i < order@.len() ==> #[trigger] order@[i] < order@.len(),
    ensures
        keep@.len() == order@.len(),
        forall|b: int|
            0 <= b < keep@.len() ==> #[trigger] keep@[b] == ((!is_nan(budget) && sign_magnitude(
                budget,
            ) <= 0) || stays(order@, affordable(sums@, budget), b)),
{
    let n: usize = order.len();
    let mut keep: Vec<bool> = crate::cache::filled(true, n);
    if !not_a_number(budget) && key_of(budget) <= 0x8000_0000_0000_0000 {
        return keep;
    }
    proof {
        assert(sums@.take(0) =~= Seq::<u64>::empty());
        assert(forall|b: int| 0 <= b < n ==> stays(order@, 0, b));
    }
    let mut i: usize = 0;
    while i < n && !exceeds(sums[i], budget)
        invariant
            i <= n == order@.len() == sums@.len(),
            keep@.len() == n,
            forall|k: int| 0 <= k < n ==> #[trigger] order@[k] < n,
            affordable(sums@.take(i as int), budget) == i,
            forall|b: int| 0 <= b < n ==> #[trigger] keep@[b] == stays(order@, i as int, b),
        decreases n - i,
    {
        let ghost was = keep@;
        keep.set(order[i], false);
        proof {
            assert(sums@.take(i + 1).drop_last() =~= sums@.take(i as int));
            assert forall|b: int| 0 <= b < n implies #[trigger] keep@[b] == stays(
                order@,
                i + 1,
                b,
            ) by {
                assert(was[b] == stays(order@, i as int, b));
                assert(order@[i as int] == order[i as int]);
                if stays(order@, i as int, b) && order@[i as int] != b {
                    assert forall|k: int| 0 <= k < i + 1 implies #[trigger] order@[k] != b by {}
                }
            }
        }
        i += 1;
    }
    proof {
        if i < n {
            assert(sums@.take(i + 1).drop_last() =~= sums@.take(i as int));
            lemma_affordable_stays(sums@, budget, i + 1);
        } else {
            assert(sums@.take(n as int) =~= sums@);
        }
    }
    keep
}

/// The numbers of the blocks that a mask keeps, ascending.
pub open spec fn kept(keep: Seq<bool>) -> Seq<usize>
    decreases keep.len(),
{
    if keep.len() == 0 {
        Seq::empty()
    } else if keep.last() {
        kept(keep.drop_last()).push((keep.len() - 1) as usize)
    } else {
        kept(keep.drop_last())
    }
}

/// The MLP blocks seen and left out so far; the counts wrap.
#[derive(Debug, Clone, Copy)]
pub struct SkipStats {
    pub skipped: u64,
    pub total: u64,
}

impl SkipStats {
    /// Nothing seen yet.
    pub fn new() -> (s: SkipStats)
        ensures
            s.skipped == 0,
            s.total == 0,
    {
        SkipStats { skipped: 0, total: 0 }
    }

    /// Counts the blocks of one mask, and gives those that it keeps.
    pub fn record(&mut self, keep: &[bool]) -> (out: Vec<usize>)
        ensures
            out@ == kept(keep@),
            out@.len() <= keep@.len(),
            final(self).total == old(self).total.wrapping_add(keep@.len() as u64),
            final(self).skipped == old(self).skipped.wrapping_add(
                (keep@.len() - kept(keep@).len()) as u64,
            ),
    {
        let n: usize = keep.len();
        let mut out: Vec<usize> = Vec::new();
        proof {
            assert(keep@.take(0) =~= Seq::<bool>::empty());
        }
        for b in 0..n
            invariant
                n == keep@.len(),
                out@ == kept(keep@.take(b as int)),
                out@.len() <= b,
        {
            proof {
                assert(keep@.take(b + 1).drop_last() =~= keep@.take(b as int));
            }
            if keep[b] {
                out.push(b);
            }
        }
        proof {
            assert(keep@.take(n as int) =~= keep@);
        }
        self.total = self.total.wrapping_add(n as u64);
        self.skipped = self.skipped.wrapping_add((n - out.len()) as u64);
        out
    }

    /// The blocks left out and the blocks seen.
    pub fn mlp_skip_stats(&self) -> (r: (u64, u64))
        ensures
            r == (self.skipped, self.total),
    {
        (self.skipped, self.total)
    }
}

/// A head over the first `rows` rows of the output matrix drafts in place of the whole
/// one where it is smaller and its rows make whole blocks. It also scores the special
/// tokens, which begin at the result.
pub fn draft_rows(rows: usize, vocab: usize, d: usize) -> (specials_start: Option<usize>)
    ensures
        specials_start == if rows == 0 || rows >= vocab || d % 32 != 0 {
            None
        } else if vocab > QWEN_ENDOFTEXT {
            Some(QWEN_ENDOFTEXT as usize)
        } else {
            Some(vocab)
        },
{
    if rows == 0 || rows >= vocab || d % 32 != 0 {
        return None;
    }
    if vocab > QWEN_ENDOFTEXT as usize {
        Some(QWEN_ENDOFTEXT as usize)
    } else {
        Some(vocab)
    }
}

/// The first of the greatest scores.
pub open spec fn best_of(scores: Seq<u64>) -> int
    decreases scores.len(),
{
    if scores.len() <= 1 {
        0
    } else {
        let b = best_of(scores.drop_last());
        if above(scores.last(), scores[b]) {
            scores.len() - 1
        } else {
            b
        }
    }
}

/// The token with the greatest score, given the best so far and the scores of the special
/// tokens from `start` on.
pub open spec fn best_with(id: int, score: u64, specials: Seq<u64>, start: int) -> (int, u64)
    decreases specials.len(),
{
    if specials.len() == 0 {
        (id, score)
    } else {
        let (i, s) = best_with(id, score, specials.drop_last(), start);
        if above(specials.last(), s) {
            (start + specials.len() - 1, specials.last())
        } else {
            (i, s)
        }
    }
}

/// The best score is no smaller than any, and greater than every earlier one.
pub proof fn law_best_is_the_first_maximum(scores: Seq<u64>, i: int)
    requires
        !any_nan(scores),
        0 <= i < scores.len(),
    ensures
        0 <= best_of(scores) < scores.len(),
        !above(scores[i], scores[best_of(scores)]),
        i < best_of(scores) ==> above(scores[best_of(scores)], scores[i]),
    decreases scores.len(),
{
    if scores.len() > 1 {
        let before = scores.drop_last();
        assert forall|k: int| 0 <= k < before.len() implies !is_nan(#[trigger] before[k]) by {
            assert(!is_nan(scores[k]));
        }
        law_best_is_the_first_maximum(before, 0);
        if i < scores.len() - 1 {
            law_best_is_the_first_maximum(before, i);
        }
        assert(!is_nan(scores.last()));
        assert(!is_nan(scores[best_of(before)]));
        assert(!is_nan(scores[i]));
    } else {
        assert(!is_nan(scores[0]));
    }
}

/// The token that a draft head picks: the first of the greatest among the scores of its
/// rows and of the special tokens.
pub fn argmax(scores: &[u64], specials: &[u64], specials_start: usize) -> (id: u32)
    requires
        0 < scores@.len() <= u32::MAX,
        specials_start + specials@.len() <= u32::MAX,
    ensures
        id == best_with(
            best_of(scores@),
            scores@[best_of(scores@)],
            specials@,
            specials_start as int,
        ).0,
{
    let mut best: usize = 0;
    proof {
        assert(scores@.take(1).len() == 1);
    }
    let n: usize = scores.len();
    let mut i: usize = 1;
    while i < n
        invariant
            1 <= i <= n == scores@.len(),
            best < i,
            best == best_of(scores@.take(i as int)),
        decreases n - i,
    {
        proof {
            assert(scores@.take(i + 1).drop_last() =~= scores@.take(i as int));
        }
        if exceeds(scores[i], scores[best]) {
            best = i;
        }
        i += 1;
    }
    proof {
        assert(scores@.take(n as int) =~= scores@);
    }
    let mut best_id: u32 = best as u32;
    let mut best_score: u64 = scores[best];
    let ghost first = (best_id as int, best_score);
    proof {
        assert(specials@.take(0) =~= Seq::<u64>::empty());
    }
    let m: usize = specials.len();
    for k in 0..m
        invariant
            m == specials@.len(),
            specials_start + m <= u32::MAX,
            (best_id as int, best_score) == best_with(
                first.0,
                first.1,
                specials@.take(k as int),
                specials_start as int,
            ),
    {
        proof {
            assert(specials@.take(k + 1).drop_last() =~= specials@.take(k as int));
        }
        if exceeds(specials[k], best_score) {
            best_score = specials[k];
            best_id = (specials_start + k) as u32;
        }
    }
    proof {
        assert(specials@.take(m as int) =~= specials@);
    }
    best_id
}

/// What is kept is what is marked, in order.
pub proof fn law_kept_are_the_marked(keep: Seq<bool>, b: usize)
    requires
        keep.len() <= usize::MAX,
    ensures
        kept(keep).contains(b) <==> b < keep.len() && keep[b as int],
        forall|i: int, j: int|
            0 <= i < j < kept(keep).len() ==> #[trigger] kept(keep)[i] < #[trigger] kept(keep)[j],
        forall|i: int| 0 <= i < kept(keep).len() ==> (#[trigger] kept(keep)[i]) < keep.len(),
    decreases keep.len(),
{
    if keep.len() > 0 {
        law_kept_are_the_marked(keep.drop_last(), b);
        let p = kept(keep.drop_last());
        let q = kept(keep);
        let last = (keep.len() - 1) as usize;
        if keep.last() {
            assert(q =~= p.push(last));
            if p.contains(b) {
                let k = choose|k: int| 0 <= k < p.len() && p[k] == b;
                assert(q[k] == b);
            }
            if b == last {
                assert(q[p.len() as int] == b);
            }
            if q.contains(b) {
                let k = choose|k: int| 0 <= k < q.len() && q[k] == b;
                if k < p.len() {
                    assert(p[k] == b);
                }
            }
        }
    }
}

/// A draft head picks no worse than any of its rows and any special token, and a special
/// token only where it is better than all the rows.
pub proof fn law_pick_is_no_worse(scores: Seq<u64>, specials: Seq<u64>, start: int, i: int, k: int)
    requires
        !any_nan(scores),
        !any_nan(specials),
        0 <= i < scores.len(),
        0 <= k < specials.len(),
    ensures
        ({
            let b = best_of(scores);
            let (id, score) = best_with(b, scores[b], specials, start);
            &&& !above(scores[i], score)
            &&& !above(specials[k], score)
            &&& (id == b && score == scores[b]) || (start <= id < start + specials.len() && score
                == specials[id - start] && above(score, scores[b]))
        }),
{
    law_best_is_the_first_maximum(scores, i);
    let b = best_of(scores);
    assert(!is_nan(scores[b]));
    lemma_best_with(b, scores[b], specials, start, k);
    assert(!is_nan(scores[i]));
}

proof fn lemma_best_with(id: int, score: u64, specials: Seq<u64>, start: int, k: int)
    requires
        !is_nan(score),
        !any_nan(specials),
    ensures
        ({
            let (i, s) = best_with(id, score, specials, start);
            &&& !is_nan(s)
            &&& !above(score, s)
            &&& 0 <= k < specials.len() ==> !above(specials[k], s)
            &&& (i == id && s == score) || (start <= i < start + specials.len() && s
                == specials[i - start] && above(s, score))
        }),
    decreases specials.len(),
{
    if specials.len() > 0 {
        let front = specials.drop_last();
        assert forall|j: int| 0 <= j < front.len() implies !is_nan(#[trigger] front[j]) by {
            assert(!is_nan(specials[j]));
        }
        lemma_best_with(id, score, front, start, k);
        assert(!is_nan(specials[specials.len() - 1]));
        if 0 <= k < front.len() {
            assert(front[k] == specials[k]);
            assert(!is_nan(specials[k]));
        }
    }
}

/// Either every position is scored or the last one is.
pub proof fn law_last_position_is_scored(all: bool, n: nat, i: usize)
    requires
        n <= usize::MAX,
    ensures
        scored(all, n).contains(i) <==> i < n && (all || i == n - 1),
{
    let s = scored(all, n);
    if all && i < n {
        assert(s[i as int] == i);
    }
    if !all && n > 0 {
        assert(s[0] == n - 1);
    }
}

} // verus!
