//! An online proposer of continuations: the suffix automaton of the tokens fed so far.
//!
//! Each state keeps the tokens that followed its strings, with counts that halve every
//! `DECAY_HALFLIFE` tokens. A proposal is the trusted successor with the greatest count of
//! the longest suffix of the context that has one, and the chain goes on from there along
//! the transitions.

use crate::suffix::ends_in;
use crate::suffix::factor;
use crate::suffix::lemma_ends_in_both;
use crate::suffix::lemma_ends_in_len;
use crate::suffix::lemma_ends_in_push;
use crate::suffix::lemma_ends_in_self;
use crate::suffix::lemma_ends_in_trans;
use crate::suffix::lemma_factor_len;
use crate::suffix::lemma_factor_suffix;
use crate::suffix::lemma_occurs_at_end;
use crate::suffix::lemma_same_ends_factor;
use crate::suffix::lemma_same_ends_push;
use crate::suffix::occurs;
use crate::suffix::same_ends;
use crate::suffix::Dawg;
use crate::suffix_grow::fork;
use crate::suffix_grow::grown;
use crate::suffix_grow::lemma_grown_represents;
use crate::suffix_grow::next_one;
use crate::suffix_grow::next_two;
use crate::suffix_grow::ready;
use crate::suffix_grow::splits;
use crate::suffix_grow::target;
use crate::tally::best;
use crate::tally::best_in;
use crate::tally::copy_list;
use crate::tally::count_in;
use crate::tally::is_best;
use crate::tally::lemma_nothing_follows;
use crate::tally::lemma_same_best;
use crate::tally::lemma_same_tally;
use crate::tally::lemma_tallied_occurs;
use crate::tally::lemma_tally_grown;
use crate::tally::records;
use crate::tally::tally;
use crate::tally::Successor;
use std::collections::HashMap;
use vstd::prelude::*;

verus! {

broadcast use vstd::std_specs::hash::group_hash_axioms;

/// The state of the empty string.
pub const ROOT: usize = 0;

/// The link of the root.
pub const NONE: usize = usize::MAX;

/// A class of strings that end at the same places of the text.
#[derive(Debug)]
pub struct State {
    /// Token to state.
    pub next: HashMap<u32, usize>,
    /// The class of the longest suffix that ends at more places.
    pub link: usize,
    /// The length of the longest string of the class.
    pub len: usize,
    /// The tokens that followed the strings of the class. The root, which is no context,
    /// keeps none.
    pub succ: Vec<Successor>,
}

/// The suffix automaton of the tokens fed so far.
pub struct SuffixAutomaton {
    pub st: Vec<State>,
    pub last: usize,
    /// Tokens fed so far.
    pub epoch: u64,
    /// The longest string of each class.
    pub words: Ghost<Seq<Seq<u32>>>,
}

impl SuffixAutomaton {
    /// The states, with their words.
    pub open spec fn dawg(&self) -> Dawg {
        Dawg {
            next: Seq::new(self.st@.len(), |v: int| self.st@[v].next@),
            link: Seq::new(self.st@.len(), |v: int| self.st@[v].link),
            words: self.words@,
        }
    }

    /// The tokens fed so far.
    pub open spec fn text(&self) -> Seq<u32> {
        self.words@[self.last as int]
    }

    /// The automaton is that of the text, and each state but the root knows what followed
    /// its word.
    pub open spec fn wf(&self) -> bool {
        &&& self.st@.len() == self.words@.len()
        &&& self.last < self.st@.len()
        &&& self.epoch == self.text().len()
        &&& self.st@.len() <= 2 * self.epoch + 1
        &&& self.dawg().represents(self.text())
        &&& forall|v: int|
            0 <= v < self.st@.len() ==> (#[trigger] self.st@[v]).len == self.words@[v].len()
        &&& forall|v: int|
            0 < v < self.st@.len() ==> records(
                (#[trigger] self.st@[v]).succ@,
                self.text(),
                self.words@[v],
            )
    }

    /// The automaton of no tokens.
    pub fn new() -> (a: SuffixAutomaton)
        ensures
            a.wf(),
            a.text() == Seq::<u32>::empty(),
    {
        let mut st: Vec<State> = Vec::new();
        st.push(State { next: HashMap::new(), link: NONE, len: 0, succ: Vec::new() });
        let words: Ghost<Seq<Seq<u32>>> = Ghost(Seq::<Seq<u32>>::empty().push(Seq::<u32>::empty()));
        let a = SuffixAutomaton { st, last: ROOT, epoch: 0, words };
        proof {
            assert(a.dawg().link =~= seq![usize::MAX]);
            lemma_empty(a.dawg());
        }
        a
    }
}

proof fn lemma_empty(d: Dawg)
    requires
        d.words == seq![Seq::<u32>::empty()],
        d.next.len() == 1,
        d.next[0] == Map::<u32, usize>::empty(),
        d.link == seq![usize::MAX],
    ensures
        d.represents(Seq::empty()),
{
    let w = Seq::<u32>::empty();
    lemma_ends_in_self(w);
    lemma_occurs_at_end(w, w);
    assert forall|x: Seq<u32>| #[trigger] factor(w, x) implies x == w by {
        lemma_factor_len(w, x);
        assert(x =~= w);
    }
    assert forall|v: int, x: Seq<u32>| 0 <= v < d.size() && #[trigger] d.member(v, x) implies x
        == w by {
        lemma_ends_in_len(w, x);
    }
    reveal(Dawg::occurring);
    reveal(Dawg::uniform);
    reveal(Dawg::complete);
    reveal(Dawg::unique);
    reveal(Dawg::separated);
    reveal(Dawg::steps);
    assert(d.member(0, w));
    assert forall|v: int, a: u32| 0 <= v < d.size() implies #[trigger] d.stepping(w, v, a) by {
        if factor(w, w.push(a)) {
            lemma_factor_len(w, w.push(a));
        }
    }
}

/// State `v` lies above `p` on the way from the tip along the links.
pub open spec fn above(d: Dawg, p: usize, v: int) -> bool {
    p == NONE || d.words[v].len() > d.words[p as int].len()
}

/// Of the states whose words end the text the one below `p` is its link.
proof fn lemma_chain(d: Dawg, w: Seq<u32>, p: int, v: int)
    requires
        d.represents(w),
        0 <= p < d.size(),
        0 <= v < d.size(),
        ends_in(w, d.words[p]),
        ends_in(w, d.words[v]),
        d.words[v].len() <= d.words[p].len(),
        d.words[v].len() > d.floor(p),
    ensures
        v == p,
{
    lemma_ends_in_both(w, d.words[p], d.words[v]);
    d.lemma_own(v);
    d.lemma_unique(v, p, d.words[v]);
}

/// What follows the word of a state follows the words below it.
proof fn lemma_below(d: Dawg, w: Seq<u32>, c: u32, p: int, v: int)
    requires
        d.represents(w),
        0 <= p < d.size(),
        0 <= v < d.size(),
        ends_in(w, d.words[p]),
        ends_in(w, d.words[v]),
        d.words[v].len() <= d.words[p].len(),
        d.next[p].contains_key(c),
    ensures
        d.next[v].contains_key(c),
        ends_in(d.words[p].push(c), d.words[v].push(c)),
{
    d.lemma_stepping(w, p, c);
    d.lemma_stepping(w, v, c);
    lemma_ends_in_both(w, d.words[p], d.words[v]);
    lemma_ends_in_push(d.words[p], d.words[v], c, c);
    lemma_factor_suffix(w, d.words[p].push(c), d.words[v].push(c));
}

/// Where a state on the way does not lead to the state that is split, none below it does.
proof fn lemma_redirected(d: Dawg, w: Seq<u32>, c: u32, p: int, at: int, v: int)
    requires
        ready(d, w, c, p),
        p != -1,
        0 <= at < d.size(),
        0 <= v < d.size(),
        ends_in(w, d.words[at]),
        ends_in(w, d.words[v]),
        d.words[v].len() <= d.words[at].len() <= d.words[p].len(),
        d.next[v].contains_key(c),
        d.next[v][c] == target(d, c, p),
    ensures
        d.next[at].contains_key(c),
        d.next[at][c] == target(d, c, p),
{
    let q = target(d, c, p);
    lemma_below(d, w, c, p, at);
    d.lemma_stepping(w, v, c);
    d.lemma_stepping(w, at, c);
    d.lemma_stepping(w, p, c);
    lemma_ends_in_trans(d.words[q], d.words[p].push(c), d.words[at].push(c));
    d.lemma_unique(q, d.next[at][c] as int, d.words[at].push(c));
}

impl SuffixAutomaton {
    /// Where token `c` leads from a state.
    fn step(&self, v: usize, c: u32) -> (t: Option<usize>)
        requires
            v < self.st@.len(),
        ensures
            match t {
                Some(u) => self.st@[v as int].next@.contains_key(c) && self.st@[v as int].next@[c]
                    == u,
                None => !self.st@[v as int].next@.contains_key(c),
            },
    {
        match self.st[v].next.get(&c) {
            Some(u) => Some(*u),
            None => None,
        }
    }

    /// Makes token `c` lead from state `v` to state `t`.
    fn set_step(&mut self, v: usize, c: u32, t: usize)
        requires
            v < old(self).st@.len(),
        ensures
            final(self).st@.len() == old(self).st@.len(),
            forall|u: int|
                0 <= u < old(self).st@.len() && u != v ==> #[trigger] final(self).st@[u] == old(
                    self,
                ).st@[u],
            final(self).st@[v as int].next@ == old(self).st@[v as int].next@.insert(c, t),
            final(self).st@[v as int].link == old(self).st@[v as int].link,
            final(self).st@[v as int].len == old(self).st@[v as int].len,
            final(self).st@[v as int].succ == old(self).st@[v as int].succ,
            final(self).last == old(self).last,
            final(self).epoch == old(self).epoch,
            final(self).words == old(self).words,
    {
        self.st[v].next.insert(c, t);
    }
}

/// The states during the growth: what holds of the old ones but for their transitions.
pub open spec fn kept(old: Seq<State>, now: Seq<State>) -> bool {
    forall|v: int|
        0 <= v < old.len() ==> (#[trigger] now[v]).link == old[v].link && now[v].len == old[v].len
            && now[v].succ == old[v].succ
}

/// The transitions while those to the new state are made, down to `p`.
pub open spec fn filling(d: Dawg, w: Seq<u32>, c: u32, p: usize, now: Seq<State>) -> bool {
    forall|v: int|
        0 <= v < d.size() ==> (#[trigger] now[v]).next@ == if ends_in(w, d.words[v]) && above(
            d,
            p,
            v,
        ) {
            d.next[v].insert(c, d.size() as usize)
        } else {
            d.next[v]
        }
}

/// The transitions while those to the split-off state are made, down to `p`.
pub open spec fn redirecting(
    d: Dawg,
    w: Seq<u32>,
    c: u32,
    fork_at: int,
    p: usize,
    now: Seq<State>,
) -> bool {
    forall|v: int|
        0 <= v < d.size() ==> (#[trigger] now[v]).next@ == if above(d, p, v) {
            next_two(d, w, c, fork_at, v)
        } else {
            next_one(d, w, c, v)
        }
}

/// The words of the state that is split and of the split-off state have the same
/// successors in the grown text.
proof fn lemma_split_records(d: Dawg, w: Seq<u32>, c: u32, p: int, list: Seq<Successor>)
    requires
        ready(d, w, c, p),
        p != -1,
        records(list, w.push(c), d.words[target(d, c, p)]),
    ensures
        records(list, w.push(c), d.words[p].push(c)),
{
    let q = target(d, c, p);
    let pc = d.words[p].push(c);
    d.lemma_stepping(w, p, c);
    d.lemma_uniform(w, q, pc);
    lemma_occurs_at_end(w, pc);
    lemma_occurs_at_end(w, d.words[q]);
    assert(occurs(w, pc, w.len() as int) == occurs(w, d.words[q], w.len() as int));
    assert forall|e: u32| #[trigger] tally(w.push(c), pc, e) == tally(
        w.push(c),
        d.words[q],
        e,
    ) by {
        lemma_same_tally(w, pc, d.words[q], e);
        lemma_tally_grown(w, c, pc, e);
        lemma_tally_grown(w, c, d.words[q], e);
    }
}

impl SuffixAutomaton {
    /// Counts the token `c` behind the text on every suffix of the text.
    fn count_tip(&mut self, c: u32)
        requires
            old(self).wf(),
            old(self).text().len() < u64::MAX,
        ensures
            final(self).st@.len() == old(self).st@.len(),
            final(self).dawg() == old(self).dawg(),
            final(self).last == old(self).last,
            final(self).epoch == old(self).epoch,
            forall|v: int|
                0 <= v < old(self).st@.len() ==> (#[trigger] final(self).st@[v]).len == old(
                    self,
                ).st@[v].len,
            forall|v: int|
                0 < v < old(self).st@.len() ==> records(
                    (#[trigger] final(self).st@[v]).succ@,
                    old(self).text().push(c),
                    old(self).words@[v],
                ),
    {
        let ghost d = self.dawg();
        let ghost w = self.text();
        let ghost was = self.st@;
        let now: u64 = self.epoch + 1;
        let mut at: usize = self.last;
        proof {
            lemma_ends_in_self(w);
            assert forall|v: int| 0 <= v < d.size() && ends_in(w, #[trigger] d.words[v]) implies !above(
                d,
                at,
                v,
            ) by {
                lemma_ends_in_len(w, d.words[v]);
            }
        }
        while at != ROOT
            invariant
                d.represents(w),
                d == self.dawg(),
                self.st@.len() == was.len() == d.size(),
                now == w.len() + 1,
                self.last == old(self).last,
                self.epoch == old(self).epoch,
                self.words == old(self).words,
                at < d.size(),
                ends_in(w, d.words[at as int]),
                forall|v: int| 0 <= v < was.len() ==> (#[trigger] self.st@[v]).len == was[v].len,
                forall|v: int|
                    0 < v < was.len() ==> records(
                        (#[trigger] self.st@[v]).succ@,
                        if ends_in(w, d.words[v]) && above(d, at, v) {
                            w.push(c)
                        } else {
                            w
                        },
                        d.words[v],
                    ),
            decreases d.words[at as int].len(),
        {
            let ghost from = at;
            let ghost before = self.st@;
            proof {
                assert(d.linked(at as int));
                lemma_ends_in_trans(w, d.words[at as int], d.words[d.link[at as int] as int]);
                assert(records(before[at as int].succ@, w, d.words[at as int]));
            }
            count_in(&mut self.st[at].succ, c, now, Ghost(w), Ghost(d.words[at as int]));
            at = self.st[at].link;
            proof {
                assert(self.dawg().next =~= d.next);
                assert(self.dawg().link =~= d.link);
                assert forall|v: int| 0 < v < was.len() implies records(
                    (#[trigger] self.st@[v]).succ@,
                    if ends_in(w, d.words[v]) && above(d, at, v) {
                        w.push(c)
                    } else {
                        w
                    },
                    d.words[v],
                ) by {
                    if v != from {
                        assert(self.st@[v] == before[v]);
                        if ends_in(w, d.words[v]) && above(d, at, v) && !above(d, from, v) {
                            lemma_chain(d, w, from as int, v);
                        }
                    }
                }
            }
        }
        proof {
            assert forall|v: int| 0 < v < was.len() implies records(
                (#[trigger] self.st@[v]).succ@,
                w.push(c),
                d.words[v],
            ) by {
                assert(d.linked(v));
                if !ends_in(w, d.words[v]) {
                    lemma_records_grown(self.st@[v].succ@, w, c, d.words[v]);
                }
            }
        }
    }
}

/// A token that does not follow `x` changes nothing of what followed it.
proof fn lemma_records_grown(list: Seq<Successor>, w: Seq<u32>, c: u32, x: Seq<u32>)
    requires
        records(list, w, x),
        !ends_in(w, x),
    ensures
        records(list, w.push(c), x),
{
    assert forall|e: u32| #[trigger] tally(w.push(c), x, e) == tally(w, x, e) by {
        lemma_tally_grown(w, c, x, e);
    }
}

impl SuffixAutomaton {
    /// Takes in one more token.
    pub fn feed(&mut self, c: u32)
        requires
            old(self).wf(),
            2 * old(self).text().len() + 3 <= usize::MAX,
            old(self).text().len() < u64::MAX,
        ensures
            final(self).wf(),
            final(self).text() == old(self).text().push(c),
    {
        let ghost d = self.dawg();
        let ghost w = self.text();
        self.count_tip(c);
        let ghost was = self.st@;
        proof {
            assert forall|v: int| 0 <= v < was.len() implies (#[trigger] was[v]).len
                == d.words[v].len() by {
                assert(old(self).st@[v].len == d.words[v].len());
            }
            assert forall|v: int| 0 <= v < was.len() implies d.link[v] == (#[trigger] was[v]).link
                && d.next[v] == was[v].next@ by {
                assert(self.dawg().link[v] == was[v].link);
                assert(self.dawg().next[v] == was[v].next@);
            }
        }
        let prev_last: usize = self.last;
        self.epoch = self.epoch + 1;
        let cur: usize = self.st.len();
        let len: usize = self.st[prev_last].len + 1;
        self.st.push(State { next: HashMap::new(), link: ROOT, len, succ: Vec::new() });
        let mut p: usize = prev_last;
        proof {
            lemma_ends_in_self(w);
            assert forall|v: int| 0 <= v < d.size() && ends_in(w, #[trigger] d.words[v]) implies !above(
                d,
                p,
                v,
            ) by {
                lemma_ends_in_len(w, d.words[v]);
            }
        }
        while p != NONE && self.step(p, c).is_none()
            invariant
                d.represents(w),
                d.size() == cur == was.len(),
                cur + 2 <= usize::MAX,
                d.link.len() == cur,
                forall|v: int| 0 <= v < cur ==> d.link[v] == (#[trigger] was[v]).link,
                self.st@.len() == cur + 1,
                self.st@[cur as int].next@ == Map::<u32, usize>::empty(),
                self.st@[cur as int].link == ROOT,
                self.st@[cur as int].len == len,
                self.st@[cur as int].succ@.len() == 0,
                self.last == prev_last,
                self.words@ == d.words,
                self.epoch == old(self).epoch + 1,
                kept(was, self.st@),
                p == NONE || (p < cur && ends_in(w, d.words[p as int])),
                filling(d, w, c, p, self.st@),
                forall|v: int|
                    0 <= v < cur && ends_in(w, #[trigger] d.words[v]) && above(d, p, v)
                        ==> !d.next[v].contains_key(c),
            decreases (if p == NONE { 0 } else { d.words[p as int].len() + 1 }),
        {
            let ghost at = p;
            let ghost before = self.st@;
            proof {
                assert(before[at as int].next@ == d.next[at as int]);
                if at > 0 {
                    assert(d.linked(at as int));
                    lemma_ends_in_trans(
                        w,
                        d.words[at as int],
                        d.words[d.link[at as int] as int],
                    );
                }
                assert(was[at as int].link == d.link[at as int]);
            }
            self.set_step(p, c, cur);
            p = self.st[p].link;
            proof {
                assert forall|v: int|
                    0 <= v < d.size() && ends_in(w, #[trigger] d.words[v]) && above(d, p, v)
                        && !above(d, at, v) implies v == at by {
                    lemma_chain(d, w, at as int, v);
                }
                assert forall|v: int| 0 <= v < d.size() implies (#[trigger] self.st@[v]).next@ == if ends_in(
                    w,
                    d.words[v],
                ) && above(d, p, v) {
                    d.next[v].insert(c, d.size() as usize)
                } else {
                    d.next[v]
                } by {
                    assert(before[v].next@ == if ends_in(w, d.words[v]) && above(d, at, v) {
                        d.next[v].insert(c, d.size() as usize)
                    } else {
                        d.next[v]
                    });
                }
            }
        }
        let ghost fork_at: int = if p == NONE { -1 } else { p as int };
        proof {
            if p != NONE {
                assert(self.st@[p as int].next@ == d.next[p as int]);
            }
            assert(fork(d, w, c, fork_at));
            assert(ready(d, w, c, fork_at));
            assert forall|v: int| 0 <= v < d.size() implies (#[trigger] self.st@[v]).next@
                == next_one(d, w, c, v) by {
                if ends_in(w, d.words[v]) && !above(d, p, v) {
                    lemma_below(d, w, c, fork_at, v);
                }
            }
        }
        if p == NONE {
            self.st[cur].link = ROOT;
        } else {
            let q: usize = match self.step(p, c) {
                Some(u) => u,
                None => ROOT,
            };
            proof {
                d.lemma_stepping(w, fork_at, c);
                assert(was[p as int].len == d.words[p as int].len());
                assert(was[q as int].len == d.words[q as int].len());
            }
            if self.st[p].len + 1 == self.st[q].len {
                self.st[cur].link = q;
            } else {
                let clone: usize = self.st.len();
                let qnext: HashMap<u32, usize> = self.st[q].next.clone();
                let qlink: usize = self.st[q].link;
                let qsucc: Vec<Successor> = copy_list(&self.st[q].succ);
                let clen: usize = self.st[p].len + 1;
                self.st.push(State { next: qnext, link: qlink, len: clen, succ: qsucc });
                proof {
                    assert forall|v: int|
                        0 <= v < d.size() && above(d, p, v) implies next_two(
                        d,
                        w,
                        c,
                        fork_at,
                        v,
                    ) == #[trigger] next_one(d, w, c, v) by {
                        if ends_in(w, d.words[v]) {
                            assert(!d.next[v].contains_key(c));
                        }
                    }
                }
                while p != NONE && self.step(p, c) == Some(q)
                    invariant
                        ready(d, w, c, fork_at),
                        fork_at != -1,
                        q == target(d, c, fork_at),
                        splits(d, c, fork_at),
                        d.size() == cur == was.len(),
                        cur + 2 <= usize::MAX,
                        clone == cur + 1,
                        d.link.len() == cur,
                        forall|v: int| 0 <= v < cur ==> d.link[v] == (#[trigger] was[v]).link,
                        self.st@.len() == cur + 2,
                        self.st@[cur as int].next@ == Map::<u32, usize>::empty(),
                        self.st@[cur as int].len == len,
                        self.st@[cur as int].succ@.len() == 0,
                        self.st@[clone as int].next@ == next_one(d, w, c, q as int),
                        self.st@[clone as int].link == d.link[q as int],
                        self.st@[clone as int].len == clen,
                        self.st@[clone as int].succ@ == was[q as int].succ@,
                        self.last == prev_last,
                        self.words@ == d.words,
                        self.epoch == old(self).epoch + 1,
                        kept(was, self.st@),
                        p == NONE || (p < cur && ends_in(w, d.words[p as int])
                            && d.words[p as int].len() <= d.words[fork_at].len()),
                        redirecting(d, w, c, fork_at, p, self.st@),
                    decreases (if p == NONE { 0 } else { d.words[p as int].len() + 1 }),
                {
                    let ghost at = p;
                    let ghost before = self.st@;
                    proof {
                        assert(before[at as int].next@ == next_one(d, w, c, at as int));
                        lemma_below(d, w, c, fork_at, at as int);
                        if at > 0 {
                            assert(d.linked(at as int));
                            lemma_ends_in_trans(
                                w,
                                d.words[at as int],
                                d.words[d.link[at as int] as int],
                            );
                        }
                        assert(was[at as int].link == d.link[at as int]);
                    }
                    self.set_step(p, c, clone);
                    p = self.st[p].link;
                    proof {
                        assert forall|v: int| 0 <= v < d.size() implies (
                        #[trigger] self.st@[v]).next@ == if above(d, p, v) {
                            next_two(d, w, c, fork_at, v)
                        } else {
                            next_one(d, w, c, v)
                        } by {
                            assert(before[v].next@ == if above(d, at, v) {
                                next_two(d, w, c, fork_at, v)
                            } else {
                                next_one(d, w, c, v)
                            });
                            if above(d, p, v) && !above(d, at, v) && ends_in(w, d.words[v]) {
                                lemma_chain(d, w, at as int, v);
                            }
                        }
                    }
                }
                proof {
                    assert forall|v: int| 0 <= v < d.size() implies (#[trigger] self.st@[v]).next@
                        == next_two(d, w, c, fork_at, v) by {
                        if !above(d, p, v) && ends_in(w, d.words[v]) && d.next[v].contains_key(c)
                            && d.next[v][c] == q {
                            lemma_redirected(d, w, c, fork_at, p as int, v);
                            assert(self.st@[p as int].next@ == next_one(d, w, c, p as int));
                        }
                    }
                }
                self.st[q].link = clone;
                self.st[cur].link = clone;
            }
        }
        self.last = cur;
        proof {
            let g = grown(d, w, c, fork_at);
            self.words@ = g.words;
            assert(self.dawg().next =~= g.next);
            assert(self.dawg().link =~= g.link);
            lemma_grown_represents(d, w, c, fork_at);
            let ww = w.push(c);
            assert(self.text() == ww);
            assert forall|v: int| 0 <= v < self.st@.len() implies (#[trigger] self.st@[v]).len
                == self.words@[v].len() && (v > 0 ==> records(
                self.st@[v].succ@,
                ww,
                self.words@[v],
            )) by {
                if v < cur {
                    assert(was[v].len == d.words[v].len());
                } else if v == cur {
                    assert forall|e: u32| (#[trigger] tally(ww, ww, e)) is None by {
                        lemma_nothing_follows(ww, ww, e);
                    }
                } else {
                    d.lemma_stepping(w, fork_at, c);
                    lemma_ends_in_len(
                        d.words[target(d, c, fork_at)],
                        d.words[fork_at].push(c),
                    );
                    assert(records(
                        was[target(d, c, fork_at)].succ@,
                        ww,
                        d.words[target(d, c, fork_at)],
                    ));
                    lemma_split_records(d, w, c, fork_at, self.st@[v].succ@);
                }
            }
        }
    }
}

/// The longest suffix of the context that has a trusted successor, and its best one. The
/// empty suffix, which says nothing of the context, does not count.
pub open spec fn pick(w: Seq<u32>, context: Seq<u32>) -> Option<(Seq<u32>, u32)>
    decreases context.len(),
{
    if context.len() == 0 {
        None
    } else {
        match best(w, context) {
            Some(c) => Some((context, c)),
            None => pick(w, context.skip(1)),
        }
    }
}

/// The tokens expected behind a context, at most `n` of them: again and again the best
/// successor of the longest suffix that has one, which with that successor is the next
/// context.
pub open spec fn continuation(w: Seq<u32>, context: Seq<u32>, n: nat) -> Seq<u32>
    decreases n,
{
    if n == 0 {
        Seq::empty()
    } else {
        match pick(w, context) {
            Some((x, c)) => seq![c] + continuation(w, x.push(c), (n - 1) as nat),
            None => Seq::empty(),
        }
    }
}

/// Following the transitions from the root with a string.
pub open spec fn walk(d: Dawg, x: Seq<u32>) -> Option<int>
    decreases x.len(),
{
    if x.len() == 0 {
        Some(0)
    } else {
        match walk(d, x.drop_last()) {
            Some(v) => if d.next[v].contains_key(x.last()) {
                Some(d.next[v][x.last()] as int)
            } else {
                None
            },
            None => None,
        }
    }
}

/// The transition of a state also leads on from its other strings.
proof fn lemma_step_of_member(d: Dawg, w: Seq<u32>, v: int, y: Seq<u32>, a: u32)
    requires
        d.represents(w),
        0 <= v < d.size(),
        d.member(v, y),
    ensures
        d.next[v].contains_key(a) <==> factor(w, y.push(a)),
        d.next[v].contains_key(a) ==> d.next[v][a] < d.size() && d.member(
            d.next[v][a] as int,
            y.push(a),
        ),
{
    d.lemma_stepping(w, v, a);
    d.lemma_uniform(w, v, y);
    let lv = d.words[v];
    lemma_same_ends_push(w, y, lv, a);
    assert(same_ends(w, lv.push(a), y.push(a))) by {
        assert forall|e: int| occurs(w, lv.push(a), e) == occurs(w, y.push(a), e) by {}
    }
    if factor(w, y.push(a)) {
        lemma_same_ends_factor(w, y.push(a), lv.push(a));
    }
    if factor(w, lv.push(a)) {
        lemma_same_ends_factor(w, lv.push(a), y.push(a));
    }
    if d.next[v].contains_key(a) {
        let h = d.lemma_home(w, y.push(a));
        d.lemma_same_state(w, h, y.push(a), d.next[v][a] as int, lv.push(a));
    }
}

/// The transitions spell exactly the strings that occur in the text, and end in the state
/// that a string belongs to.
pub proof fn law_transitions_spell_the_text(d: Dawg, w: Seq<u32>, x: Seq<u32>)
    requires
        d.represents(w),
    ensures
        walk(d, x) is Some <==> factor(w, x),
        walk(d, x) is Some ==> 0 <= walk(d, x)->Some_0 < d.size() && d.member(
            walk(d, x)->Some_0,
            x,
        ),
    decreases x.len(),
{
    if x.len() == 0 {
        d.lemma_own(0);
        assert(x =~= d.words[0]);
        d.lemma_occurring(w, 0);
    } else {
        let y = x.drop_last();
        law_transitions_spell_the_text(d, w, y);
        assert(x =~= y.push(x.last()));
        match walk(d, y) {
            Some(v) => {
                lemma_step_of_member(d, w, v, y, x.last());
            },
            None => {
                if factor(w, x) {
                    let e = choose|e: int| occurs(w, x, e);
                    crate::suffix::lemma_occurs_push(w, y, x.last(), e);
                    assert(occurs(w, y, e - 1));
                }
            },
        }
    }
}

/// The word of the link is the longest suffix of a state's strings that ends at more
/// places of the text.
pub proof fn law_link_is_the_longest_other_suffix(d: Dawg, w: Seq<u32>, v: int, x: Seq<u32>)
    requires
        d.represents(w),
        0 < v < d.size(),
        ends_in(d.words[v], x),
    ensures
        same_ends(w, x, d.words[v]) <==> x.len() > d.words[d.link[v] as int].len(),
        x.len() <= d.words[d.link[v] as int].len() <==> ends_in(d.words[d.link[v] as int], x),
{
    let ll = d.words[d.link[v] as int];
    assert(d.linked(v));
    if x.len() > ll.len() {
        d.lemma_uniform(w, v, x);
    } else {
        lemma_ends_in_both(d.words[v], ll, x);
        if same_ends(w, x, d.words[v]) {
            let lv = d.words[v];
            assert forall|e: int| occurs(w, ll, e) == occurs(w, lv, e) by {
                if occurs(w, ll, e) {
                    crate::suffix::lemma_suffix_occurs(w, ll, x, e);
                }
                if occurs(w, lv, e) {
                    crate::suffix::lemma_suffix_occurs(w, lv, ll, e);
                }
            }
            reveal(Dawg::separated);
            assert(d.words[v] == lv);
        }
    }
    if ends_in(ll, x) {
        lemma_ends_in_len(ll, x);
    }
}

/// The strings of a state that are longer than the word of its link have no best successor
/// if its word has none.
proof fn lemma_pick_below(d: Dawg, w: Seq<u32>, v: int, z: Seq<u32>)
    requires
        d.represents(w),
        0 < v < d.size(),
        d.member(v, z),
        best(w, d.words[v]) is None,
    ensures
        pick(w, z) == pick(w, d.words[d.link[v] as int]),
    decreases z.len(),
{
    let low = d.words[d.link[v] as int];
    let y = z.skip(1);
    assert(d.linked(v));
    d.lemma_uniform(w, v, z);
    lemma_same_best(w, z, d.words[v]);
    lemma_ends_in_skip(z);
    lemma_ends_in_trans(d.words[v], z, y);
    if y.len() > low.len() {
        lemma_pick_below(d, w, v, y);
    } else {
        lemma_ends_in_both(d.words[v], low, y);
        lemma_ends_in_len(low, y);
    }
}

proof fn lemma_ends_in_skip(z: Seq<u32>)
    requires
        z.len() > 0,
    ensures
        ends_in(z, z.skip(1)),
{
    reveal(ends_in);
    assert(z.subrange(1, z.len() as int) =~= z.skip(1));
}

impl SuffixAutomaton {
    fn pick_from(&self, v: usize, Ghost(y): Ghost<Seq<u32>>) -> (r: Option<(u32, usize)>)
        requires
            self.wf(),
            v < self.st@.len(),
            self.dawg().member(v as int, y),
        ensures
            match r {
                Some((token, to)) => to < self.st@.len() && (pick(self.text(), y) matches Some(
                    (x, c),
                ) && c == token && self.dawg().member(to as int, x.push(c))),
                None => pick(self.text(), y) is None,
            },
    {
        let mut at: usize = v;
        let ghost mut z = y;
        let ghost d = self.dawg();
        let ghost w = self.text();
        while at != ROOT
            invariant
                self.wf(),
                d == self.dawg(),
                w == self.text(),
                at < self.st@.len(),
                d.member(at as int, z),
                pick(w, y) == pick(w, z),
            decreases self.words@[at as int].len(),
        {
            proof {
                assert(d.linked(at as int));
                assert(self.st@[at as int].link == d.link[at as int]);
                d.lemma_uniform(w, at as int, z);
                lemma_same_best(w, z, d.words[at as int]);
            }
            match best_in(&self.st[at].succ, self.epoch, Ghost(w), Ghost(d.words[at as int])) {
                Some(token) => {
                    proof {
                        lemma_same_tally(w, z, d.words[at as int], token);
                        lemma_tallied_occurs(w, z, token);
                        lemma_step_of_member(d, w, at as int, z, token);
                        assert(self.st@[at as int].next@ == d.next[at as int]);
                    }
                    return match self.step(at, token) {
                        Some(to) => Some((token, to)),
                        None => None,
                    };
                },
                None => {
                    proof {
                        lemma_pick_below(d, w, at as int, z);
                        z = d.words[d.link[at as int] as int];
                        d.lemma_own(d.link[at as int] as int);
                    }
                    at = self.st[at].link;
                },
            }
        }
        proof {
            lemma_ends_in_len(d.words[0], z);
        }
        None
    }

    /// The continuation of the text, at most `n` tokens.
    pub fn propose(&self, n: usize) -> (out: Vec<u32>)
        requires
            self.wf(),
        ensures
            out@ == continuation(self.text(), self.text(), n as nat),
    {
        let mut out: Vec<u32> = Vec::new();
        let mut s: usize = self.last;
        let mut left: usize = n;
        let ghost w = self.text();
        let ghost mut y = w;
        proof {
            self.dawg().lemma_own(s as int);
        }
        while left > 0
            invariant
                self.wf(),
                w == self.text(),
                s < self.st@.len(),
                self.dawg().member(s as int, y),
                out@ + continuation(w, y, left as nat) == continuation(w, w, n as nat),
            ensures
                out@ == continuation(w, w, n as nat),
            decreases left,
        {
            match self.pick_from(s, Ghost(y)) {
                Some((token, to)) => {
                    let ghost before = out@;
                    let ghost rest = continuation(w, y, left as nat);
                    out.push(token);
                    s = to;
                    left = left - 1;
                    proof {
                        y = pick(w, y)->Some_0.0.push(token);
                        assert(rest == seq![token] + continuation(w, y, left as nat));
                        assert(out@ + continuation(w, y, left as nat) =~= before + rest);
                    }
                },
                None => {
                    proof {
                        assert(out@ + Seq::<u32>::empty() =~= out@);
                    }
                    break;
                },
            }
        }
        proof {
            assert(out@ + Seq::<u32>::empty() =~= out@);
        }
        out
    }
}

/// What is picked is the best successor of the longest suffix of the context that has a
/// trusted one: every longer suffix has none, and nothing is picked only if no suffix has.
pub proof fn law_pick_is_the_longest(w: Seq<u32>, context: Seq<u32>, z: Seq<u32>)
    requires
        ends_in(context, z),
        z.len() > 0,
    ensures
        match pick(w, context) {
            Some((x, c)) => ends_in(context, x) && x.len() > 0 && is_best(w, x, c) && (z.len()
                > x.len() ==> best(w, z) is None),
            None => best(w, z) is None,
        },
    decreases context.len(),
{
    lemma_ends_in_len(context, z);
    lemma_ends_in_self(context);
    if best(w, context) is None {
        let y = context.skip(1);
        lemma_ends_in_skip(context);
        if z.len() == context.len() {
            if y.len() > 0 {
                lemma_ends_in_self(y);
                law_pick_is_the_longest(w, y, y);
            }
        } else {
            lemma_ends_in_both(context, y, z);
            law_pick_is_the_longest(w, y, z);
        }
        match pick(w, y) {
            Some((x, c)) => {
                lemma_ends_in_trans(context, y, x);
                lemma_ends_in_len(y, x);
            },
            None => {},
        }
    }
}

/// `token` has followed a suffix of the context in the text, and not just the empty one.
pub open spec fn has_followed(w: Seq<u32>, context: Seq<u32>, token: u32) -> bool {
    exists|x: Seq<u32>| x.len() > 0 && ends_in(context, x) && #[trigger] factor(w, x.push(token))
}

proof fn lemma_continuation_followed(
    w: Seq<u32>,
    y: Seq<u32>,
    n: nat,
    context: Seq<u32>,
    j: int,
)
    requires
        ends_in(context, y),
        0 <= j < continuation(w, y, n).len(),
    ensures
        has_followed(w, context + continuation(w, y, n).take(j), continuation(w, y, n)[j]),
    decreases n,
{
    let out = continuation(w, y, n);
    let (x, c) = pick(w, y)->Some_0;
    assert(y.len() > 0);
    lemma_ends_in_self(y);
    law_pick_is_the_longest(w, y, y);
    lemma_tallied_occurs(w, x, c);
    lemma_ends_in_trans(context, y, x);
    if j == 0 {
        assert(context + out.take(0) =~= context);
    } else {
        let rest = continuation(w, x.push(c), (n - 1) as nat);
        assert(rest =~= out.skip(1));
        lemma_ends_in_push(context, x, c, c);
        lemma_continuation_followed(w, x.push(c), (n - 1) as nat, context.push(c), j - 1);
        assert(context.push(c) + rest.take(j - 1) =~= context + out.take(j));
    }
}

/// Every proposed token has followed, somewhere in the text, a non-empty suffix of the text
/// with the tokens proposed before it.
pub proof fn law_proposals_have_followed(w: Seq<u32>, n: nat, j: int)
    requires
        0 <= j < continuation(w, w, n).len(),
    ensures
        has_followed(w, w + continuation(w, w, n).take(j), continuation(w, w, n)[j]),
{
    lemma_ends_in_self(w);
    lemma_continuation_followed(w, w, n, w, j);
}

} // verus!
