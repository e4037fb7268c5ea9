//! What a suffix automaton of a text is.
//!
//! Each state stands for a class of strings that occur in the text and end at the same
//! places; its word is the longest of them. The states' words grow along the suffix links,
//! a string of the text belongs to exactly one state, and a transition leads from the word
//! of a state to the state of that word with one more token.

use vstd::prelude::*;

verus! {

/// `x` is a suffix of `y`.
#[verifier::opaque]
pub open spec fn ends_in(y: Seq<u32>, x: Seq<u32>) -> bool {
    x.len() <= y.len() && y.subrange(y.len() - x.len(), y.len() as int) == x
}

/// `x` occurs in `w` and ends at `e`.
pub open spec fn occurs(w: Seq<u32>, x: Seq<u32>, e: int) -> bool {
    0 <= e <= w.len() && ends_in(w.take(e), x)
}

/// `x` occurs in `w`.
pub open spec fn factor(w: Seq<u32>, x: Seq<u32>) -> bool {
    exists|e: int| occurs(w, x, e)
}

/// `x` and `y` end at the same places of `w`.
pub open spec fn same_ends(w: Seq<u32>, x: Seq<u32>, y: Seq<u32>) -> bool {
    forall|e: int|
        #![trigger occurs(w, x, e)]
        #![trigger occurs(w, y, e)]
        occurs(w, x, e) == occurs(w, y, e)
}

/// The states of an automaton.
pub ghost struct Dawg {
    pub next: Seq<Map<u32, usize>>,
    pub link: Seq<usize>,
    pub words: Seq<Seq<u32>>,
}

impl Dawg {
    /// The number of states.
    pub open spec fn size(self) -> int {
        self.words.len() as int
    }

    /// A state's strings are longer than this.
    pub open spec fn floor(self, v: int) -> int {
        if v == 0 {
            -1
        } else {
            self.words[self.link[v] as int].len() as int
        }
    }

    /// `x` belongs to state `v`.
    pub open spec fn member(self, v: int, x: Seq<u32>) -> bool {
        ends_in(self.words[v], x) && self.floor(v) < x.len()
    }

    /// The link of a state is a state with a shorter word, a suffix of its own.
    pub open spec fn linked(self, v: int) -> bool {
        &&& self.link[v] < self.size()
        &&& self.words[self.link[v] as int].len() < self.words[v].len()
        &&& ends_in(self.words[v], self.words[self.link[v] as int])
    }

    /// State 0 stands for the empty string alone, and every other state is linked.
    pub open spec fn shaped(self) -> bool {
        &&& self.size() >= 1
        &&& self.next.len() == self.size()
        &&& self.link.len() == self.size()
        &&& self.words[0].len() == 0
        &&& self.link[0] == usize::MAX
        &&& self.size() <= usize::MAX
        &&& forall|v: int| 0 < v < self.size() ==> #[trigger] self.linked(v)
    }

    /// The words of the states occur.
    #[verifier::opaque]
    pub open spec fn occurring(self, w: Seq<u32>) -> bool {
        forall|v: int| 0 <= v < self.size() ==> factor(w, #[trigger] self.words[v])
    }

    /// What belongs to a state ends where its word ends.
    #[verifier::opaque]
    pub open spec fn uniform(self, w: Seq<u32>) -> bool {
        forall|v: int, x: Seq<u32>|
            0 <= v < self.size() && #[trigger] self.member(v, x) ==> same_ends(
                w,
                x,
                self.words[v],
            )
    }

    /// What occurs belongs to a state.
    #[verifier::opaque]
    pub open spec fn complete(self, w: Seq<u32>) -> bool {
        forall|x: Seq<u32>| #[trigger]
            factor(w, x) ==> exists|v: int| 0 <= v < self.size() && #[trigger] self.member(v, x)
    }

    /// Nothing belongs to two states.
    #[verifier::opaque]
    pub open spec fn unique(self) -> bool {
        forall|v: int, u: int, x: Seq<u32>|
            0 <= v < self.size() && 0 <= u < self.size() && #[trigger] self.member(v, x)
                && #[trigger] self.member(u, x) ==> v == u
    }

    /// The word of a link ends at more places.
    #[verifier::opaque]
    pub open spec fn separated(self, w: Seq<u32>) -> bool {
        forall|v: int|
            0 < v < self.size() ==> !same_ends(
                w,
                self.words[self.link[v] as int],
                #[trigger] self.words[v],
            )
    }

    /// The transition of state `v` with token `a` is there if and only if the word with
    /// the token occurs, and leads to the state it belongs to.
    pub open spec fn stepping(self, w: Seq<u32>, v: int, a: u32) -> bool {
        &&& self.next[v].contains_key(a) <==> factor(w, self.words[v].push(a))
        &&& self.next[v].contains_key(a) ==> self.next[v][a] < self.size() && self.member(
            self.next[v][a] as int,
            self.words[v].push(a),
        )
    }

    /// Every transition is right.
    #[verifier::opaque]
    pub open spec fn steps(self, w: Seq<u32>) -> bool {
        forall|v: int, a: u32| 0 <= v < self.size() ==> #[trigger] self.stepping(w, v, a)
    }

    /// The automaton of text `w`.
    pub open spec fn represents(self, w: Seq<u32>) -> bool {
        &&& self.shaped()
        &&& self.occurring(w)
        &&& self.uniform(w)
        &&& self.complete(w)
        &&& self.unique()
        &&& self.separated(w)
        &&& self.steps(w)
    }
}

pub proof fn lemma_ends_in_self(y: Seq<u32>)
    ensures
        ends_in(y, y),
        ends_in(y, Seq::empty()),
{
    reveal(ends_in);
    assert(y.subrange(0, y.len() as int) =~= y);
    assert(y.subrange(y.len() as int, y.len() as int) =~= Seq::<u32>::empty());
}

pub proof fn lemma_ends_in_len(y: Seq<u32>, x: Seq<u32>)
    requires
        ends_in(y, x),
    ensures
        x.len() <= y.len(),
        x.len() == y.len() ==> x == y,
{
    reveal(ends_in);
    if x.len() == y.len() {
        assert(y.subrange(0, y.len() as int) =~= y);
    }
}

pub proof fn lemma_ends_in_trans(z: Seq<u32>, y: Seq<u32>, x: Seq<u32>)
    requires
        ends_in(z, y),
        ends_in(y, x),
    ensures
        ends_in(z, x),
{
    reveal(ends_in);
    let mid = z.subrange(z.len() - y.len(), z.len() as int);
    assert(mid.subrange(mid.len() - x.len(), mid.len() as int) =~= z.subrange(
        z.len() - x.len(),
        z.len() as int,
    ));
}

/// Of two suffixes of a string the shorter is a suffix of the longer.
pub proof fn lemma_ends_in_both(z: Seq<u32>, y: Seq<u32>, x: Seq<u32>)
    requires
        ends_in(z, y),
        ends_in(z, x),
        x.len() <= y.len(),
    ensures
        ends_in(y, x),
{
    reveal(ends_in);
    let mid = z.subrange(z.len() - y.len(), z.len() as int);
    assert(mid.subrange(mid.len() - x.len(), mid.len() as int) =~= z.subrange(
        z.len() - x.len(),
        z.len() as int,
    ));
}

pub proof fn lemma_ends_in_push(y: Seq<u32>, x: Seq<u32>, a: u32, b: u32)
    ensures
        ends_in(y.push(a), x.push(b)) <==> a == b && ends_in(y, x),
{
    reveal(ends_in);
    if x.len() <= y.len() {
        let yy = y.push(a);
        let xx = x.push(b);
        let tail = yy.subrange(yy.len() - xx.len(), yy.len() as int);
        let s = y.subrange(y.len() - x.len(), y.len() as int);
        assert(tail =~= s.push(a));
        if tail == xx {
            assert(tail.last() == a);
            assert(xx.last() == b);
            assert(s =~= tail.drop_last());
            assert(x =~= xx.drop_last());
        }
    }
}

/// A longer suffix of a string with one more token is a suffix with that token.
pub proof fn lemma_ends_in_last(y: Seq<u32>, c: u32, x: Seq<u32>)
    requires
        ends_in(y.push(c), x),
        x.len() > 0,
    ensures
        x == x.drop_last().push(c),
        ends_in(y, x.drop_last()),
{
    assert(x =~= x.drop_last().push(x.last()));
    lemma_ends_in_push(y, x.drop_last(), c, x.last());
}

pub proof fn lemma_occurs_grown(w: Seq<u32>, c: u32, x: Seq<u32>, e: int)
    ensures
        e <= w.len() ==> occurs(w.push(c), x, e) == occurs(w, x, e),
        e == w.len() + 1 ==> occurs(w.push(c), x, e) == ends_in(w.push(c), x),
{
    if 0 <= e <= w.len() {
        assert(w.push(c).take(e) =~= w.take(e));
    }
    assert(w.push(c).take((w.len() + 1) as int) =~= w.push(c));
}

pub proof fn lemma_occurs_at_end(w: Seq<u32>, x: Seq<u32>)
    ensures
        occurs(w, x, w.len() as int) == ends_in(w, x),
        ends_in(w, x) ==> factor(w, x),
{
    assert(w.take(w.len() as int) =~= w);
    assert(occurs(w, x, w.len() as int) ==> factor(w, x));
}

pub proof fn lemma_occurs_push(w: Seq<u32>, x: Seq<u32>, a: u32, e: int)
    ensures
        occurs(w, x.push(a), e) <==> 1 <= e <= w.len() && occurs(w, x, e - 1) && w[e - 1] == a,
{
    if 1 <= e <= w.len() {
        assert(w.take(e) =~= w.take(e - 1).push(w[e - 1]));
        lemma_ends_in_push(w.take(e - 1), x, w[e - 1], a);
    } else if e == 0 {
        if ends_in(w.take(0), x.push(a)) {
            lemma_ends_in_len(w.take(0), x.push(a));
        }
    }
}

/// Strings with the same ends have the same ends with one more token.
pub proof fn lemma_same_ends_push(w: Seq<u32>, x: Seq<u32>, y: Seq<u32>, a: u32)
    requires
        same_ends(w, x, y),
    ensures
        same_ends(w, x.push(a), y.push(a)),
{
    assert forall|e: int| occurs(w, x.push(a), e) == occurs(w, y.push(a), e) by {
        lemma_occurs_push(w, x, a, e);
        lemma_occurs_push(w, y, a, e);
        assert(occurs(w, x, e - 1) == occurs(w, y, e - 1));
    }
}

/// A suffix ends wherever the string does.
pub proof fn lemma_suffix_occurs(w: Seq<u32>, y: Seq<u32>, x: Seq<u32>, e: int)
    requires
        ends_in(y, x),
        occurs(w, y, e),
    ensures
        occurs(w, x, e),
{
    lemma_ends_in_trans(w.take(e), y, x);
}

pub proof fn lemma_factor_len(w: Seq<u32>, x: Seq<u32>)
    requires
        factor(w, x),
    ensures
        x.len() <= w.len(),
{
    let e = choose|e: int| occurs(w, x, e);
    lemma_ends_in_len(w.take(e), x);
}

pub proof fn lemma_factor_suffix(w: Seq<u32>, y: Seq<u32>, x: Seq<u32>)
    requires
        factor(w, y),
        ends_in(y, x),
    ensures
        factor(w, x),
{
    let e = choose|e: int| occurs(w, y, e);
    lemma_suffix_occurs(w, y, x, e);
}

pub proof fn lemma_same_ends_factor(w: Seq<u32>, x: Seq<u32>, y: Seq<u32>)
    requires
        same_ends(w, x, y),
        factor(w, x),
    ensures
        factor(w, y),
{
    let e = choose|e: int| occurs(w, x, e);
    assert(occurs(w, y, e));
}

impl Dawg {
    pub proof fn lemma_own(self, v: int)
        requires
            self.shaped(),
            0 <= v < self.size(),
        ensures
            self.member(v, self.words[v]),
    {
        lemma_ends_in_self(self.words[v]);
        if v > 0 {
            assert(self.linked(v));
        }
    }

    pub proof fn lemma_occurring(self, w: Seq<u32>, v: int)
        requires
            self.represents(w),
            0 <= v < self.size(),
        ensures
            factor(w, self.words[v]),
    {
        reveal(Dawg::occurring);
    }

    pub proof fn lemma_uniform(self, w: Seq<u32>, v: int, x: Seq<u32>)
        requires
            self.represents(w),
            0 <= v < self.size(),
            self.member(v, x),
        ensures
            same_ends(w, x, self.words[v]),
            factor(w, x),
    {
        reveal(Dawg::uniform);
        self.lemma_occurring(w, v);
        lemma_same_ends_factor(w, self.words[v], x);
    }

    pub proof fn lemma_home(self, w: Seq<u32>, x: Seq<u32>) -> (v: int)
        requires
            self.represents(w),
            factor(w, x),
        ensures
            0 <= v < self.size(),
            self.member(v, x),
    {
        reveal(Dawg::complete);
        choose|v: int| 0 <= v < self.size() && #[trigger] self.member(v, x)
    }

    pub proof fn lemma_unique(self, v: int, u: int, x: Seq<u32>)
        requires
            self.unique(),
            0 <= v < self.size(),
            0 <= u < self.size(),
            self.member(v, x),
            self.member(u, x),
        ensures
            v == u,
    {
        reveal(Dawg::unique);
    }

    pub proof fn lemma_stepping(self, w: Seq<u32>, v: int, a: u32)
        requires
            self.represents(w),
            0 <= v < self.size(),
        ensures
            self.stepping(w, v, a),
    {
        reveal(Dawg::steps);
    }

    /// Strings that end at the same places belong to the same state.
    pub proof fn lemma_same_state(self, w: Seq<u32>, v: int, x: Seq<u32>, u: int, y: Seq<u32>)
        requires
            self.represents(w),
            0 <= v < self.size(),
            0 <= u < self.size(),
            self.member(v, x),
            self.member(u, y),
            same_ends(w, x, y),
        ensures
            v == u,
        decreases (if self.words[u].len() <= self.words[v].len() { 0int } else { 1int }),
    {
        if self.words[u].len() > self.words[v].len() {
            self.lemma_same_state(w, u, y, v, x);
        } else {
            self.lemma_uniform(w, v, x);
            self.lemma_uniform(w, u, y);
            self.lemma_own(v);
            self.lemma_own(u);
            self.lemma_occurring(w, v);
            let lv = self.words[v];
            let lu = self.words[u];
            let e = choose|e: int| occurs(w, lv, e);
            assert(occurs(w, x, e) && occurs(w, y, e) && occurs(w, lu, e));
            lemma_ends_in_both(w.take(e), lv, lu);
            if lu.len() > self.floor(v) {
                self.lemma_unique(v, u, lu);
            } else {
                // the word of the link would end where the word of the state does
                assert(v > 0);
                assert(self.linked(v));
                let ll = self.words[self.link[v] as int];
                lemma_ends_in_both(lv, ll, lu);
                assert forall|k: int| occurs(w, ll, k) == occurs(w, lv, k) by {
                    if occurs(w, ll, k) {
                        lemma_suffix_occurs(w, ll, lu, k);
                        assert(occurs(w, y, k) && occurs(w, x, k));
                    }
                    if occurs(w, lv, k) {
                        lemma_suffix_occurs(w, lv, ll, k);
                    }
                }
                reveal(Dawg::separated);
                assert(self.words[v] == lv);
            }
        }
    }
}

} // verus!
