//! Greedy self-speculative decoding: which drafts are asked for, how many of them
//! a verification pass commits, and what is emitted.
//!
//! The loop that runs the model asks this state what to do next and hands back
//! the drafts and the trunk's selections.

use vstd::prelude::*;

verus! {

/// The number of passes without drafts after which one draft is tried again.
pub const COLD_PROBE: usize = 16;

/// One decoding run.
pub struct Speculation {
    /// The emitted tokens.
    pub generated: Vec<u32>,
    /// Verification passes so far.
    pub passes: usize,
    /// Drafts accepted so far.
    pub accepted: usize,
    /// The last emitted token has not been through the trunk yet.
    pub pending: bool,
    /// The longest chain of drafts.
    pub depth: usize,
    /// The current chain length.
    pub cur_depth: usize,
    /// Passes without drafts since the chain length fell to zero.
    pub cold_passes: usize,
    /// Tokens to emit at most.
    pub max_new: usize,
    /// The token that ends the run and is not emitted.
    pub stop_id: u32,
}

/// What one verification pass settled.
pub struct Commit {
    /// Tokens of the batch that stand, the pending token included.
    pub committed: usize,
    /// Part of the batch was refused: the trunk must be rolled back and the
    /// committed tokens ingested again.
    pub rolled_back: bool,
}

/// How many tokens of a batch stand: the pending token, and the drafts as long as
/// each is what the trunk selected before it.
pub open spec fn committed_len(batch: Seq<u32>, selected: Seq<u32>, from: int) -> int
    decreases batch.len() - from,
{
    if from < batch.len() && selected[from - 1] == batch[from] {
        committed_len(batch, selected, from + 1)
    } else {
        from
    }
}

/// The tokens emitted after a pass, and whether the last of them is pending: the
/// accepted drafts, then the trunk's own selection behind them unless the run is
/// full or that selection ends it.
pub open spec fn after_pass(
    generated: Seq<u32>,
    batch: Seq<u32>,
    selected: Seq<u32>,
    max_new: int,
    stop_id: u32,
) -> (Seq<u32>, bool) {
    let c = committed_len(batch, selected, 1);
    let emitted = generated + batch.subrange(1, c);
    if emitted.len() >= max_new || selected[c - 1] == stop_id {
        (emitted, false)
    } else {
        (emitted.push(selected[c - 1]), true)
    }
}

/// The chain length for the next pass: a fully accepted chain grows it, one that
/// was refused at its first draft shrinks it.
pub open spec fn next_depth(cur: int, depth: int, drafted: int, committed: int) -> int {
    if drafted > 0 && committed - 1 == drafted {
        if cur + 1 < depth { cur + 1 } else { depth }
    } else if drafted > 0 && committed == 1 && cur > 0 {
        cur - 1
    } else {
        cur
    }
}

impl Speculation {
    /// The counters hold together.
    pub open spec fn wf(&self) -> bool {
        &&& 1 <= self.depth
        &&& self.cur_depth <= self.depth
        &&& self.cold_passes < COLD_PROBE
        &&& self.passes <= self.generated@.len()
        &&& self.pending ==> self.passes < self.generated@.len()
        &&& self.accepted <= self.generated@.len()
        &&& self.accepted <= self.passes * self.depth
    }

    /// Another verification pass is due.
    pub open spec fn wants_pass(&self) -> bool {
        self.pending && self.generated@.len() < self.max_new
    }

    /// Starts a run with the trunk's selection behind the prompt.
    pub fn start(first: u32, mtp_depth: usize, max_new: usize, stop_id: u32) -> (s: Speculation)
        ensures
            s.wf(),
            s.generated@ == (if first == stop_id {
                Seq::<u32>::empty()
            } else {
                seq![first]
            }),
            s.pending == (first != stop_id),
            s.passes == 0 && s.accepted == 0 && s.cold_passes == 0,
            s.depth == (if mtp_depth == 0 { 1 } else { mtp_depth as int }),
            s.cur_depth == s.depth,
            s.max_new == max_new && s.stop_id == stop_id,
    {
        let depth: usize = if mtp_depth == 0 {
            1
        } else {
            mtp_depth
        };
        let mut generated: Vec<u32> = Vec::new();
        if first != stop_id {
            generated.push(first);
        }
        proof {
            assert(0 <= 0 * depth) by (nonlinear_arith);
            assert(first != stop_id ==> generated@ =~= seq![first]);
        }
        Speculation {
            generated,
            passes: 0,
            accepted: 0,
            pending: first != stop_id,
            depth,
            cur_depth: depth,
            cold_passes: 0,
            max_new,
            stop_id,
        }
    }

    /// Whether another verification pass is due.
    pub fn pass_due(&self) -> (due: bool)
        ensures
            due == self.wants_pass(),
    {
        self.pending && self.generated.len() < self.max_new
    }

    /// Opens a pass: the batch that starts with the pending token. With the chain
    /// length at zero no draft is asked for, but for one every so many passes.
    pub fn open_pass(&mut self) -> (batch: Vec<u32>)
        requires
            old(self).wf(),
            old(self).wants_pass(),
        ensures
            final(self).wf(),
            final(self).wants_pass(),
            batch@ == seq![old(self).generated@.last()],
            final(self).generated == old(self).generated,
            final(self).passes == old(self).passes,
            final(self).accepted == old(self).accepted,
            final(self).pending == old(self).pending,
            final(self).depth == old(self).depth,
            final(self).max_new == old(self).max_new,
            final(self).stop_id == old(self).stop_id,
            final(self).cur_depth == (if old(self).cur_depth == 0 && old(self).cold_passes + 1
                >= COLD_PROBE {
                1
            } else {
                old(self).cur_depth as int
            }),
            final(self).cold_passes == (if old(self).cur_depth > 0 {
                old(self).cold_passes as int
            } else if old(self).cold_passes + 1 >= COLD_PROBE {
                0
            } else {
                old(self).cold_passes + 1
            }),
    {
        if self.cur_depth == 0 {
            self.cold_passes = self.cold_passes + 1;
            if self.cold_passes >= COLD_PROBE {
                self.cur_depth = 1;
                self.cold_passes = 0;
            }
        }
        let last: u32 = self.generated[self.generated.len() - 1];
        let mut batch: Vec<u32> = Vec::new();
        batch.push(last);
        proof {
            assert(batch@ =~= seq![self.generated@.last()]);
        }
        batch
    }

    /// A draft may be asked for: the chain is not full and neither is the run.
    pub open spec fn draft_wanted(&self, batch: Seq<u32>) -> bool {
        batch.len() <= self.cur_depth && self.generated@.len() + batch.len() <= self.max_new
    }

    /// Whether a draft behind the last token of the batch is asked for.
    pub fn wants_draft(&self, batch: &Vec<u32>) -> (wanted: bool)
        ensures
            wanted == self.draft_wanted(batch@),
    {
        batch.len() <= self.cur_depth && self.generated.len() <= self.max_new && batch.len()
            <= self.max_new - self.generated.len()
    }

    /// Takes a draft: the stop token is never drafted and ends the chain.
    pub fn take_draft(&self, batch: &mut Vec<u32>, draft: u32) -> (taken: bool)
        ensures
            taken == (draft != self.stop_id),
            final(batch)@ == (if taken {
                old(batch)@.push(draft)
            } else {
                old(batch)@
            }),
    {
        if draft == self.stop_id {
            return false;
        }
        batch.push(draft);
        true
    }

    /// A batch that the draft rules allow.
    pub open spec fn batch_ok(&self, batch: Seq<u32>) -> bool {
        &&& 1 <= batch.len() <= self.cur_depth + 1
        &&& self.generated@.len() > 0 && batch[0] == self.generated@.last()
        &&& batch.len() == 1 || self.generated@.len() + batch.len() <= self.max_new + 1
    }

    /// Settles a pass. `selected[i]` is the trunk's selection behind the emitted
    /// tokens and the drafts up to position `i` of the batch.
    pub fn settle(&mut self, batch: &Vec<u32>, selected: &Vec<u32>) -> (c: Commit)
        requires
            old(self).wf(),
            old(self).wants_pass(),
            old(self).batch_ok(batch@),
            selected@.len() == batch@.len(),
        ensures
            final(self).wf(),
            c.committed == committed_len(batch@, selected@, 1),
            1 <= c.committed <= batch@.len(),
            c.rolled_back == (c.committed < batch@.len()),
            (final(self).generated@, final(self).pending) == after_pass(
                old(self).generated@,
                batch@,
                selected@,
                old(self).max_new as int,
                old(self).stop_id,
            ),
            final(self).passes == old(self).passes + 1,
            final(self).accepted == old(self).accepted + c.committed - 1,
            final(self).cur_depth == next_depth(
                old(self).cur_depth as int,
                old(self).depth as int,
                batch@.len() - 1,
                c.committed as int,
            ),
            final(self).cold_passes == old(self).cold_passes,
            final(self).depth == old(self).depth,
            final(self).max_new == old(self).max_new,
            final(self).stop_id == old(self).stop_id,
    {
        let ghost before = *self;
        let n: usize = batch.len();
        let mut committed: usize = 1;
        while committed < n && selected[committed - 1] == batch[committed]
            invariant
                1 <= committed <= n == batch@.len() == selected@.len(),
                committed_len(batch@, selected@, 1) == committed_len(
                    batch@,
                    selected@,
                    committed as int,
                ),
            decreases n - committed,
        {
            committed += 1;
        }
        proof {
            let (p, d) = (before.passes as int, before.depth as int);
            assert((p + 1) * d == p * d + d) by (nonlinear_arith);
        }
        self.passes = self.passes + 1;
        if n > 1 {
            if committed == n {
                if self.cur_depth < self.depth {
                    self.cur_depth = self.cur_depth + 1;
                }
            } else if committed == 1 && self.cur_depth > 0 {
                self.cur_depth = self.cur_depth - 1;
            }
        }
        let mut j: usize = 1;
        let ghost start = self.generated@;
        proof {
            assert(start =~= start + batch@.subrange(1, 1));
        }
        while j < committed
            invariant
                1 <= j <= committed <= batch@.len(),
                self.generated@ == start + batch@.subrange(1, j as int),
                self.passes == before.passes + 1,
                self.accepted == before.accepted,
                self.depth == before.depth,
                self.cur_depth == next_depth(
                    before.cur_depth as int,
                    before.depth as int,
                    batch@.len() - 1,
                    committed as int,
                ),
                self.cold_passes == before.cold_passes,
                self.max_new == before.max_new,
                self.stop_id == before.stop_id,
            decreases committed - j,
        {
            self.generated.push(batch[j]);
            proof {
                assert(start + batch@.subrange(1, j + 1) =~= (start + batch@.subrange(
                    1,
                    j as int,
                )).push(batch@[j as int]));
            }
            j += 1;
        }
        let total: usize = self.generated.len();
        proof {
            assert(total == before.generated@.len() + committed - 1);
        }
        self.accepted = self.accepted + (committed - 1);
        self.pending = false;
        let next: u32 = selected[committed - 1];
        if self.generated.len() < self.max_new && next != self.stop_id {
            self.generated.push(next);
            self.pending = true;
        }
        Commit { committed, rolled_back: committed < n }
    }

    /// The trailing token that was emitted but not verified through the trunk: it
    /// is still to be ingested when the run ends.
    pub fn trailing(&self) -> (token: Option<u32>)
        requires
            self.wf(),
        ensures
            token == (if self.pending {
                Some(self.generated@.last())
            } else {
                None::<u32>
            }),
    {
        if self.pending {
            Some(self.generated[self.generated.len() - 1])
        } else {
            None
        }
    }
}

/// Plain greedy decoding from the tokens `g` on, where `next` is the trunk's
/// selection behind the emitted tokens.
pub open spec fn greedy(
    next: spec_fn(Seq<u32>) -> u32,
    max_new: int,
    stop_id: u32,
    g: Seq<u32>,
) -> Seq<u32>
    decreases max_new - g.len(),
{
    if g.len() >= max_new || next(g) == stop_id {
        g
    } else {
        greedy(next, max_new, stop_id, g.push(next(g)))
    }
}

/// One step of plain greedy decoding: the selected token is emitted unless it stops the run
/// or the limit is reached.
pub fn greedy_step(generated: &mut Vec<u32>, next: u32, max_new: usize, stop_id: u32) -> (more: bool)
    ensures
        more == (old(generated)@.len() < max_new && next != stop_id),
        final(generated)@ == (if more {
            old(generated)@.push(next)
        } else {
            old(generated)@
        }),
        forall|select: spec_fn(Seq<u32>) -> u32|
            #![trigger greedy(select, max_new as int, stop_id, old(generated)@)]
            select(old(generated)@) == next ==> greedy(
                select,
                max_new as int,
                stop_id,
                old(generated)@,
            ) == (if more {
                greedy(select, max_new as int, stop_id, final(generated)@)
            } else {
                final(generated)@
            }),
{
    if generated.len() >= max_new || next == stop_id {
        return false;
    }
    generated.push(next);
    true
}

/// The trunk's selections over a batch behind the emitted tokens.
pub open spec fn selections(
    next: spec_fn(Seq<u32>) -> u32,
    generated: Seq<u32>,
    batch: Seq<u32>,
) -> Seq<u32> {
    Seq::new(batch.len(), |i: int| next(generated + batch.subrange(1, i + 1)))
}

/// The state of a run after its first selection and the given passes, each with the
/// drafts that were offered: the emitted tokens and whether the last is pending. A
/// pass runs only where one is due.
pub open spec fn run_passes(
    next: spec_fn(Seq<u32>) -> u32,
    max_new: int,
    stop_id: u32,
    drafts: Seq<Seq<u32>>,
) -> (Seq<u32>, bool)
    decreases drafts.len(),
{
    if drafts.len() == 0 {
        let first = next(Seq::empty());
        if first == stop_id {
            (Seq::empty(), false)
        } else {
            (seq![first], true)
        }
    } else {
        let (g, pending) = run_passes(next, max_new, stop_id, drafts.drop_last());
        if !pending || g.len() >= max_new {
            (g, pending)
        } else {
            let batch = seq![g.last()] + drafts.last();
            after_pass(g, batch, selections(next, g, batch), max_new, stop_id)
        }
    }
}

/// The drafts respect the rules: none is the stop token, and no chain runs past the
/// number of tokens to emit.
pub open spec fn drafts_ok(
    next: spec_fn(Seq<u32>) -> u32,
    max_new: int,
    stop_id: u32,
    drafts: Seq<Seq<u32>>,
) -> bool {
    forall|p: int|
        0 <= p < drafts.len() ==> {
            &&& !(#[trigger] drafts[p]).contains(stop_id)
            &&& drafts[p].len() == 0 || run_passes(next, max_new, stop_id, drafts.take(p)).0.len()
                + drafts[p].len() <= max_new
        }
}

proof fn lemma_committed_len(batch: Seq<u32>, selected: Seq<u32>, from: int)
    requires
        1 <= from <= batch.len(),
    ensures
        from <= committed_len(batch, selected, from) <= batch.len(),
        forall|j: int|
            from <= j < committed_len(batch, selected, from) ==> selected[j - 1]
                == #[trigger] batch[j],
    decreases batch.len() - from,
{
    if from < batch.len() && selected[from - 1] == batch[from] {
        lemma_committed_len(batch, selected, from + 1);
    }
}

/// Emitting accepted drafts stays on the greedy path.
proof fn lemma_accepted_on_path(
    next: spec_fn(Seq<u32>) -> u32,
    max_new: int,
    stop_id: u32,
    g: Seq<u32>,
    batch: Seq<u32>,
    c: int,
)
    requires
        1 <= c <= batch.len(),
        !batch.skip(1).contains(stop_id),
        g.len() + c - 1 <= max_new,
        forall|j: int| 1 <= j < c ==> next(g + batch.subrange(1, j)) == #[trigger] batch[j],
    ensures
        greedy(next, max_new, stop_id, g) == greedy(
            next,
            max_new,
            stop_id,
            g + batch.subrange(1, c),
        ),
    decreases c,
{
    if c == 1 {
        assert(g + batch.subrange(1, 1) =~= g);
    } else {
        lemma_accepted_on_path(next, max_new, stop_id, g, batch, c - 1);
        let h = g + batch.subrange(1, c - 1);
        assert(next(h) == batch[c - 1]);
        assert(batch.skip(1)[c - 2] == batch[c - 1]);
        assert(batch[c - 1] != stop_id);
        assert(h.push(batch[c - 1]) =~= g + batch.subrange(1, c));
    }
}

/// A pass stays on the greedy path, and where it ends the run nothing is left to
/// emit.
pub proof fn lemma_pass_on_path(
    next: spec_fn(Seq<u32>) -> u32,
    max_new: int,
    stop_id: u32,
    g: Seq<u32>,
    batch: Seq<u32>,
)
    requires
        batch.len() >= 1,
        !batch.skip(1).contains(stop_id),
        batch.len() == 1 || g.len() + batch.len() <= max_new + 1,
        g.len() < max_new,
    ensures
        ({
            let (h, pending) = after_pass(g, batch, selections(next, g, batch), max_new, stop_id);
            &&& greedy(next, max_new, stop_id, h) == greedy(next, max_new, stop_id, g)
            &&& !pending ==> h == greedy(next, max_new, stop_id, g)
            &&& h.len() <= max_new
            &&& pending ==> h.len() > g.len()
        }),
{
    let selected = selections(next, g, batch);
    lemma_committed_len(batch, selected, 1);
    let c = committed_len(batch, selected, 1);
    assert forall|j: int| 1 <= j < c implies next(g + batch.subrange(1, j)) == #[trigger] batch[j] by {
        assert(selected[j - 1] == batch[j]);
    }
    lemma_accepted_on_path(next, max_new, stop_id, g, batch, c);
    let e = g + batch.subrange(1, c);
    assert(selected[c - 1] == next(e));
}

proof fn lemma_run_on_path(
    next: spec_fn(Seq<u32>) -> u32,
    max_new: int,
    stop_id: u32,
    drafts: Seq<Seq<u32>>,
)
    requires
        max_new >= 1,
        drafts_ok(next, max_new, stop_id, drafts),
    ensures
        ({
            let (g, pending) = run_passes(next, max_new, stop_id, drafts);
            let all = greedy(next, max_new, stop_id, Seq::empty());
            &&& greedy(next, max_new, stop_id, g) == all
            &&& !pending ==> g == all
            &&& g.len() <= max_new
            &&& pending ==> g.len() > 0
        }),
    decreases drafts.len(),
{
    let none = Seq::<u32>::empty();
    if drafts.len() == 0 {
        let first = next(none);
        if first != stop_id {
            assert(none.push(first) =~= seq![first]);
        }
    } else {
        let earlier = drafts.drop_last();
        assert(drafts_ok(next, max_new, stop_id, earlier)) by {
            assert forall|p: int| 0 <= p < earlier.len() implies {
                &&& !(#[trigger] earlier[p]).contains(stop_id)
                &&& earlier[p].len() == 0 || run_passes(
                    next,
                    max_new,
                    stop_id,
                    earlier.take(p),
                ).0.len() + earlier[p].len() <= max_new
            } by {
                assert(earlier[p] == drafts[p]);
                assert(earlier.take(p) =~= drafts.take(p));
            }
        }
        lemma_run_on_path(next, max_new, stop_id, earlier);
        let (g, pending) = run_passes(next, max_new, stop_id, earlier);
        if pending && g.len() < max_new {
            let k = drafts.len() - 1;
            assert(drafts[k] == drafts.last());
            assert(drafts.take(k) =~= earlier);
            let batch = seq![g.last()] + drafts.last();
            assert(batch.skip(1) =~= drafts.last());
            lemma_pass_on_path(next, max_new, stop_id, g, batch);
        }
    }
}

/// Speculation does not change the output: whatever the draft head offers and
/// however long its chains are, a finished run has emitted exactly what plain greedy
/// decoding emits.
pub proof fn law_speculation_is_greedy(
    next: spec_fn(Seq<u32>) -> u32,
    max_new: int,
    stop_id: u32,
    drafts: Seq<Seq<u32>>,
)
    requires
        max_new >= 1,
        drafts_ok(next, max_new, stop_id, drafts),
        !run_passes(next, max_new, stop_id, drafts).1 || run_passes(
            next,
            max_new,
            stop_id,
            drafts,
        ).0.len() >= max_new,
    ensures
        run_passes(next, max_new, stop_id, drafts).0 == greedy(
            next,
            max_new,
            stop_id,
            Seq::empty(),
        ),
{
    lemma_run_on_path(next, max_new, stop_id, drafts);
}

/// Every pass makes progress: it emits a token or ends the run.
pub proof fn law_every_pass_advances(
    next: spec_fn(Seq<u32>) -> u32,
    max_new: int,
    stop_id: u32,
    g: Seq<u32>,
    batch: Seq<u32>,
)
    requires
        batch.len() >= 1,
        !batch.skip(1).contains(stop_id),
        batch.len() == 1 || g.len() + batch.len() <= max_new + 1,
        g.len() < max_new,
    ensures
        ({
            let (h, pending) = after_pass(g, batch, selections(next, g, batch), max_new, stop_id);
            pending ==> g.len() < h.len()
        }),
{
    lemma_pass_on_path(next, max_new, stop_id, g, batch);
}

/// A pass commits as much as it can: every draft that the model would have chosen itself, up
/// to the first that it would not.
pub proof fn law_longest_agreement_is_committed(batch: Seq<u32>, selected: Seq<u32>)
    requires
        batch.len() >= 1,
        selected.len() == batch.len(),
    ensures
        ({
            let c = committed_len(batch, selected, 1);
            &&& 1 <= c <= batch.len()
            &&& forall|i: int| 1 <= i < c ==> selected[i - 1] == #[trigger] batch[i]
            &&& c < batch.len() ==> selected[c - 1] != batch[c]
        }),
{
    lemma_agreement(batch, selected, 1);
}

proof fn lemma_agreement(batch: Seq<u32>, selected: Seq<u32>, from: int)
    requires
        1 <= from <= batch.len(),
    ensures
        ({
            let c = committed_len(batch, selected, from);
            &&& from <= c <= batch.len()
            &&& forall|i: int| from <= i < c ==> selected[i - 1] == #[trigger] batch[i]
            &&& c < batch.len() ==> selected[c - 1] != batch[c]
        }),
    decreases batch.len() - from,
{
    if from < batch.len() && selected[from - 1] == batch[from] {
        lemma_agreement(batch, selected, from + 1);
    }
}

/// The chain of drafts lengthens by one where all of it was accepted and shortens by one
/// where none of it was, within its bounds; without drafts, or where some were accepted, it
/// stays.
pub proof fn law_chain_follows_its_success(cur: int, depth: int, drafted: int, committed: int)
    requires
        0 <= cur <= depth,
        0 <= drafted,
        1 <= committed <= drafted + 1,
    ensures
        0 <= next_depth(cur, depth, drafted, committed) <= depth,
        drafted == 0 ==> next_depth(cur, depth, drafted, committed) == cur,
        drafted > 0 && committed == drafted + 1 && cur < depth ==> next_depth(
            cur,
            depth,
            drafted,
            committed,
        ) == cur + 1,
        drafted > 0 && committed == 1 && cur > 0 ==> next_depth(cur, depth, drafted, committed)
            == cur - 1,
        1 < committed < drafted + 1 ==> next_depth(cur, depth, drafted, committed) == cur,
{
}

} // verus!
