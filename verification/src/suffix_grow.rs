//! How the automaton of a text becomes that of the text with one more token.

use crate::suffix::ends_in;
use crate::suffix::factor;
use crate::suffix::lemma_ends_in_both;
use crate::suffix::lemma_ends_in_last;
use crate::suffix::lemma_ends_in_len;
use crate::suffix::lemma_ends_in_push;
use crate::suffix::lemma_ends_in_self;
use crate::suffix::lemma_ends_in_trans;
use crate::suffix::lemma_factor_len;
use crate::suffix::lemma_factor_suffix;
use crate::suffix::lemma_occurs_at_end;
use crate::suffix::lemma_occurs_grown;
use crate::suffix::lemma_same_ends_factor;
use crate::suffix::lemma_same_ends_push;
use crate::suffix::lemma_suffix_occurs;
use crate::suffix::occurs;
use crate::suffix::same_ends;
use crate::suffix::Dawg;
use vstd::prelude::*;

verus! {

/// `p` is the state with the longest word that ends the text and that token `c` has
/// followed, or -1 where `c` has followed none.
pub open spec fn fork(d: Dawg, w: Seq<u32>, c: u32, p: int) -> bool {
    &&& p == -1 || (0 <= p < d.size() && ends_in(w, d.words[p]) && d.next[p].contains_key(c))
    &&& forall|v: int|
        0 <= v < d.size() && ends_in(w, #[trigger] d.words[v]) && (p == -1 || d.words[v].len()
            > d.words[p].len()) ==> !d.next[v].contains_key(c)
}

/// The length of the longest suffix of the grown text that occurred before.
pub open spec fn reach(d: Dawg, p: int) -> int {
    if p == -1 {
        0
    } else {
        d.words[p].len() as int + 1
    }
}

/// The state of that suffix.
pub open spec fn target(d: Dawg, c: u32, p: int) -> int {
    d.next[p][c] as int
}

/// The state of that suffix also holds longer strings, and has to be split.
pub open spec fn splits(d: Dawg, c: u32, p: int) -> bool {
    p != -1 && d.words[target(d, c, p)].len() != reach(d, p)
}

/// The transitions once those to the new state are there.
pub open spec fn next_one(d: Dawg, w: Seq<u32>, c: u32, v: int) -> Map<u32, usize> {
    if ends_in(w, d.words[v]) && !d.next[v].contains_key(c) {
        d.next[v].insert(c, d.size() as usize)
    } else {
        d.next[v]
    }
}

/// The transitions once those to the split-off state are there too.
pub open spec fn next_two(d: Dawg, w: Seq<u32>, c: u32, p: int, v: int) -> Map<u32, usize> {
    if ends_in(w, d.words[v]) && d.next[v].contains_key(c) && d.next[v][c] == target(d, c, p) {
        d.next[v].insert(c, (d.size() + 1) as usize)
    } else {
        next_one(d, w, c, v)
    }
}

/// The automaton with token `c` at the end.
pub open spec fn grown(d: Dawg, w: Seq<u32>, c: u32, p: int) -> Dawg {
    let m = d.size();
    let q = target(d, c, p);
    if splits(d, c, p) {
        Dawg {
            next: Seq::new(
                (m + 2) as nat,
                |v: int|
                    if v < m {
                        next_two(d, w, c, p, v)
                    } else if v == m {
                        Map::empty()
                    } else {
                        next_one(d, w, c, q)
                    },
            ),
            link: Seq::new(
                (m + 2) as nat,
                |v: int|
                    if v == q || v == m {
                        (m + 1) as usize
                    } else if v < m {
                        d.link[v]
                    } else {
                        d.link[q]
                    },
            ),
            words: d.words.push(w.push(c)).push(d.words[p].push(c)),
        }
    } else {
        Dawg {
            next: Seq::new(
                (m + 1) as nat,
                |v: int|
                    if v < m {
                        next_one(d, w, c, v)
                    } else {
                        Map::empty()
                    },
            ),
            link: d.link.push(
                if p == -1 {
                    0
                } else {
                    q as usize
                },
            ),
            words: d.words.push(w.push(c)),
        }
    }
}

/// What the proofs below start from.
pub open spec fn ready(d: Dawg, w: Seq<u32>, c: u32, p: int) -> bool {
    &&& d.represents(w)
    &&& fork(d, w, c, p)
    &&& d.size() + 2 <= usize::MAX
}

proof fn lemma_target(d: Dawg, w: Seq<u32>, c: u32, p: int)
    requires
        ready(d, w, c, p),
        p != -1,
    ensures
        0 <= target(d, c, p) < d.size(),
        target(d, c, p) > 0,
        d.member(target(d, c, p), d.words[p].push(c)),
        factor(w, d.words[p].push(c)),
        ends_in(w.push(c), d.words[p].push(c)),
        d.words[p].push(c).len() == reach(d, p),
        reach(d, p) <= w.len(),
        d.words[target(d, c, p)].len() >= reach(d, p),
        !splits(d, c, p) ==> d.words[target(d, c, p)] == d.words[p].push(c),
        d.linked(target(d, c, p)),
{
    d.lemma_stepping(w, p, c);
    lemma_ends_in_push(w, d.words[p], c, c);
    lemma_factor_len(w, d.words[p].push(c));
    let q = target(d, c, p);
    lemma_ends_in_len(d.words[q], d.words[p].push(c));
    assert(q > 0);
    assert(d.linked(q));
}

/// Suffixes of the grown text occurred before if and only if they are no longer than
/// the reach.
proof fn lemma_longest(d: Dawg, w: Seq<u32>, c: u32, p: int, x: Seq<u32>)
    requires
        ready(d, w, c, p),
        ends_in(w.push(c), x),
        x.len() > 0,
    ensures
        factor(w, x) <==> x.len() <= reach(d, p),
        x.len() <= reach(d, p) ==> ends_in(d.words[p].push(c), x),
{
    if p != -1 {
        lemma_target(d, w, c, p);
        if x.len() <= reach(d, p) {
            lemma_ends_in_both(w.push(c), d.words[p].push(c), x);
            lemma_factor_suffix(w, d.words[p].push(c), x);
        }
    }
    if factor(w, x) && x.len() > reach(d, p) {
        lemma_ends_in_last(w, c, x);
        let s = x.drop_last();
        lemma_occurs_at_end(w, s);
        let v = d.lemma_home(w, s);
        d.lemma_uniform(w, v, s);
        lemma_occurs_at_end(w, d.words[v]);
        assert(occurs(w, s, w.len() as int));
        assert(ends_in(w, d.words[v]));
        lemma_ends_in_len(d.words[v], s);
        assert(!d.next[v].contains_key(c));
        d.lemma_stepping(w, v, c);
        lemma_same_ends_push(w, s, d.words[v], c);
        lemma_same_ends_factor(w, x, d.words[v].push(c));
    }
}

/// Where a string of a state ends the grown text, the word of the state does, but for the
/// state that is split.
proof fn lemma_whole_states(d: Dawg, w: Seq<u32>, c: u32, p: int, v: int, x: Seq<u32>)
    requires
        ready(d, w, c, p),
        0 <= v < d.size(),
        d.member(v, x),
        ends_in(w.push(c), x),
        p == -1 || v != target(d, c, p) || !splits(d, c, p),
    ensures
        ends_in(w.push(c), d.words[v]),
{
    let ww = w.push(c);
    let lv = d.words[v];
    if x.len() == 0 {
        lemma_ends_in_self(ww);
        d.lemma_own(0);
        assert(x =~= d.words[0]);
        d.lemma_unique(v, 0, x);
        assert(lv =~= Seq::<u32>::empty());
    } else {
        d.lemma_uniform(w, v, x);
        lemma_longest(d, w, c, p, x);
        lemma_target(d, w, c, p);
        let q = target(d, c, p);
        let pc = d.words[p].push(c);
        if v == q {
            assert(lv == pc);
        } else {
            d.lemma_occurring(w, q);
            let lq = d.words[q];
            let e = choose|e: int| occurs(w, lq, e);
            lemma_suffix_occurs(w, lq, pc, e);
            lemma_suffix_occurs(w, pc, x, e);
            assert(occurs(w, lv, e));
            d.lemma_own(v);
            d.lemma_own(q);
            if lv.len() > d.floor(q) {
                if lv.len() <= lq.len() {
                    lemma_ends_in_both(w.take(e), lq, lv);
                    d.lemma_unique(v, q, lv);
                } else {
                    lemma_ends_in_both(w.take(e), lv, lq);
                    d.lemma_unique(v, q, lq);
                }
            }
            lemma_ends_in_both(w.take(e), pc, lv);
            lemma_ends_in_trans(ww, pc, lv);
        }
    }
}

/// What belongs to a state before belongs to it still, or to the split-off state.
proof fn lemma_members(d: Dawg, w: Seq<u32>, c: u32, p: int, v: int, x: Seq<u32>)
    requires
        ready(d, w, c, p),
        0 <= v < d.size(),
    ensures
        splits(d, c, p) && v == target(d, c, p) ==> (grown(d, w, c, p).member(v, x) <==> d.member(
            v,
            x,
        ) && x.len() > reach(d, p)),
        splits(d, c, p) && v == target(d, c, p) ==> (grown(d, w, c, p).member(d.size() + 1, x)
            <==> d.member(v, x) && x.len() <= reach(d, p)),
        !(splits(d, c, p) && v == target(d, c, p)) ==> (grown(d, w, c, p).member(v, x)
            <==> d.member(v, x)),
{
    let g = grown(d, w, c, p);
    if p != -1 {
        lemma_target(d, w, c, p);
    }
    if v > 0 {
        assert(d.linked(v));
    }
    if splits(d, c, p) && v == target(d, c, p) {
        let pc = d.words[p].push(c);
        assert(g.words[v] == d.words[v]);
        assert(g.words[d.size() + 1] == pc);
        assert(g.floor(v) == reach(d, p));
        assert(g.floor(d.size() + 1) == d.floor(v));
        if d.member(v, x) && x.len() <= reach(d, p) {
            lemma_ends_in_both(d.words[v], pc, x);
        }
        if ends_in(pc, x) {
            lemma_ends_in_len(pc, x);
            lemma_ends_in_trans(d.words[v], pc, x);
        }
    } else {
        assert(g.words[v] == d.words[v]);
        if v > 0 {
            assert(g.link[v] == d.link[v]);
            assert(g.words[g.link[v] as int] == d.words[d.link[v] as int]);
        }
    }
}

/// The strings of the new state: the suffixes of the grown text that did not occur before.
proof fn lemma_new_members(d: Dawg, w: Seq<u32>, c: u32, p: int, x: Seq<u32>)
    requires
        ready(d, w, c, p),
    ensures
        grown(d, w, c, p).member(d.size(), x) <==> ends_in(w.push(c), x) && x.len() > reach(d, p),
        grown(d, w, c, p).member(d.size(), x) <==> ends_in(w.push(c), x) && !factor(w, x),
{
    let g = grown(d, w, c, p);
    if p != -1 {
        lemma_target(d, w, c, p);
    }
    assert(g.words[d.size()] == w.push(c));
    assert(g.floor(d.size()) == reach(d, p));
    if ends_in(w.push(c), x) {
        if x.len() > 0 {
            lemma_longest(d, w, c, p, x);
        } else {
            lemma_ends_in_self(w);
            assert(x =~= Seq::<u32>::empty());
            lemma_occurs_at_end(w, x);
        }
    }
}

proof fn lemma_factor_grown(w: Seq<u32>, c: u32, x: Seq<u32>)
    ensures
        factor(w.push(c), x) <==> factor(w, x) || ends_in(w.push(c), x),
{
    let ww = w.push(c);
    if factor(w, x) {
        let e = choose|e: int| occurs(w, x, e);
        lemma_occurs_grown(w, c, x, e);
        assert(occurs(ww, x, e));
    }
    if ends_in(ww, x) {
        lemma_occurs_at_end(ww, x);
    }
    if factor(ww, x) {
        let e = choose|e: int| occurs(ww, x, e);
        lemma_occurs_grown(w, c, x, e);
        if e <= w.len() {
            assert(occurs(w, x, e));
        }
    }
}

/// Strings with the same ends that both end the grown text, or both do not, have the same
/// ends in it.
proof fn lemma_same_ends_grown(w: Seq<u32>, c: u32, x: Seq<u32>, y: Seq<u32>)
    requires
        same_ends(w, x, y),
        ends_in(w.push(c), x) == ends_in(w.push(c), y),
    ensures
        same_ends(w.push(c), x, y),
{
    assert forall|e: int| occurs(w.push(c), x, e) == occurs(w.push(c), y, e) by {
        lemma_occurs_grown(w, c, x, e);
        lemma_occurs_grown(w, c, y, e);
        assert(occurs(w, x, e) == occurs(w, y, e));
    }
}

proof fn lemma_grown_shaped(d: Dawg, w: Seq<u32>, c: u32, p: int)
    requires
        ready(d, w, c, p),
    ensures
        grown(d, w, c, p).shaped(),
{
    let g = grown(d, w, c, p);
    let m = d.size();
    let q = target(d, c, p);
    if p != -1 {
        lemma_target(d, w, c, p);
    }
    assert forall|v: int| 0 < v < g.size() implies #[trigger] g.linked(v) by {
        if v < m && !(splits(d, c, p) && v == q) {
            assert(d.linked(v));
            assert(g.words[v] == d.words[v]);
            assert(g.words[d.link[v] as int] == d.words[d.link[v] as int]);
        } else if v == m {
            assert(g.words[v] == w.push(c));
            if p == -1 {
                lemma_ends_in_self(w.push(c));
                assert(g.words[0] =~= Seq::<u32>::empty());
            } else if splits(d, c, p) {
                assert(g.words[m + 1] == d.words[p].push(c));
            } else {
                assert(g.words[q] == d.words[q]);
            }
        } else if v < m {
            assert(g.words[v] == d.words[q]);
            assert(g.words[m + 1] == d.words[p].push(c));
        } else {
            let ll = d.words[d.link[q] as int];
            assert(g.words[v] == d.words[p].push(c));
            assert(g.words[d.link[q] as int] == ll);
            lemma_ends_in_both(d.words[q], d.words[p].push(c), ll);
        }
    }
}

proof fn lemma_grown_occurring(d: Dawg, w: Seq<u32>, c: u32, p: int)
    requires
        ready(d, w, c, p),
    ensures
        grown(d, w, c, p).occurring(w.push(c)),
{
    let g = grown(d, w, c, p);
    reveal(Dawg::occurring);
    assert forall|v: int| 0 <= v < g.size() implies factor(w.push(c), #[trigger] g.words[v]) by {
        lemma_factor_grown(w, c, g.words[v]);
        if v < d.size() {
            assert(g.words[v] == d.words[v]);
        } else if v == d.size() {
            lemma_ends_in_self(w.push(c));
        } else {
            lemma_target(d, w, c, p);
        }
    }
}

proof fn lemma_grown_uniform_at(d: Dawg, w: Seq<u32>, c: u32, p: int, v: int, x: Seq<u32>)
    requires
        ready(d, w, c, p),
        0 <= v < grown(d, w, c, p).size(),
        grown(d, w, c, p).member(v, x),
    ensures
        same_ends(w.push(c), x, grown(d, w, c, p).words[v]),
{
    let g = grown(d, w, c, p);
    let m = d.size();
    let ww = w.push(c);
    if v < m {
        lemma_members(d, w, c, p, v, x);
        d.lemma_uniform(w, v, x);
        assert(g.words[v] == d.words[v]);
        if ends_in(ww, d.words[v]) {
            lemma_ends_in_trans(ww, d.words[v], x);
        }
        if ends_in(ww, x) {
            if splits(d, c, p) && v == target(d, c, p) {
                lemma_longest(d, w, c, p, x);
            } else {
                lemma_whole_states(d, w, c, p, v, x);
            }
        }
        lemma_same_ends_grown(w, c, x, d.words[v]);
    } else if v == m {
        lemma_new_members(d, w, c, p, x);
        lemma_ends_in_self(ww);
        assert forall|e: int| occurs(w, x, e) == occurs(w, ww, e) by {
            if occurs(w, ww, e) {
                lemma_ends_in_len(w.take(e), ww);
            }
        }
        lemma_same_ends_grown(w, c, x, ww);
    } else {
        lemma_target(d, w, c, p);
        let q = target(d, c, p);
        let pc = d.words[p].push(c);
        lemma_members(d, w, c, p, q, x);
        d.lemma_uniform(w, q, x);
        d.lemma_uniform(w, q, pc);
        assert forall|e: int| occurs(w, x, e) == occurs(w, pc, e) by {
            assert(occurs(w, x, e) == occurs(w, d.words[q], e));
            assert(occurs(w, pc, e) == occurs(w, d.words[q], e));
        }
        assert(g.words[v] == pc);
        lemma_ends_in_trans(ww, pc, x);
        lemma_same_ends_grown(w, c, x, pc);
    }
}

proof fn lemma_grown_uniform(d: Dawg, w: Seq<u32>, c: u32, p: int)
    requires
        ready(d, w, c, p),
    ensures
        grown(d, w, c, p).uniform(w.push(c)),
{
    let g = grown(d, w, c, p);
    reveal(Dawg::uniform);
    assert forall|v: int, x: Seq<u32>|
        0 <= v < g.size() && #[trigger] g.member(v, x) implies same_ends(
        w.push(c),
        x,
        g.words[v],
    ) by {
        lemma_grown_uniform_at(d, w, c, p, v, x);
    }
}

proof fn lemma_grown_complete(d: Dawg, w: Seq<u32>, c: u32, p: int)
    requires
        ready(d, w, c, p),
    ensures
        grown(d, w, c, p).complete(w.push(c)),
{
    let g = grown(d, w, c, p);
    let m = d.size();
    reveal(Dawg::complete);
    assert forall|x: Seq<u32>| #[trigger] factor(w.push(c), x) implies exists|v: int|
        0 <= v < g.size() && #[trigger] g.member(v, x) by {
        lemma_factor_grown(w, c, x);
        if factor(w, x) {
            let v = d.lemma_home(w, x);
            lemma_members(d, w, c, p, v, x);
            if splits(d, c, p) && v == target(d, c, p) && x.len() <= reach(d, p) {
                assert(g.member(m + 1, x));
            } else {
                assert(g.member(v, x));
            }
        } else {
            lemma_new_members(d, w, c, p, x);
            assert(g.member(m, x));
        }
    }
}

/// The state before the growth that a string of a grown state belonged to.
proof fn lemma_origin(d: Dawg, w: Seq<u32>, c: u32, p: int, v: int, x: Seq<u32>)
    requires
        ready(d, w, c, p),
        0 <= v < grown(d, w, c, p).size(),
        grown(d, w, c, p).member(v, x),
    ensures
        v == d.size() <==> !factor(w, x),
        v < d.size() ==> d.member(v, x),
        v == d.size() + 1 ==> d.member(target(d, c, p), x) && x.len() <= reach(d, p),
        v < d.size() && splits(d, c, p) && v == target(d, c, p) ==> x.len() > reach(d, p),
{
    if v < d.size() {
        lemma_members(d, w, c, p, v, x);
        d.lemma_uniform(w, v, x);
    } else if v == d.size() {
        lemma_new_members(d, w, c, p, x);
    } else {
        lemma_target(d, w, c, p);
        lemma_members(d, w, c, p, target(d, c, p), x);
        d.lemma_uniform(w, target(d, c, p), x);
    }
}

proof fn lemma_grown_unique(d: Dawg, w: Seq<u32>, c: u32, p: int)
    requires
        ready(d, w, c, p),
    ensures
        grown(d, w, c, p).unique(),
{
    let g = grown(d, w, c, p);
    let m = d.size();
    reveal(Dawg::unique);
    assert forall|v: int, u: int, x: Seq<u32>|
        0 <= v < g.size() && 0 <= u < g.size() && #[trigger] g.member(v, x) && #[trigger] g.member(
            u,
            x,
        ) implies v == u by {
        lemma_origin(d, w, c, p, v, x);
        lemma_origin(d, w, c, p, u, x);
        if v != m && u != m {
            let vv = if v < m { v } else { target(d, c, p) };
            let uu = if u < m { u } else { target(d, c, p) };
            if v > m || u > m {
                lemma_target(d, w, c, p);
            }
            d.lemma_unique(vv, uu, x);
        }
    }
}

proof fn lemma_grown_separated(d: Dawg, w: Seq<u32>, c: u32, p: int)
    requires
        ready(d, w, c, p),
    ensures
        grown(d, w, c, p).separated(w.push(c)),
{
    let g = grown(d, w, c, p);
    let m = d.size();
    let ww = w.push(c);
    let n = w.len() as int;
    if p != -1 {
        lemma_target(d, w, c, p);
    }
    reveal(Dawg::separated);
    assert forall|v: int| 0 < v < g.size() implies !same_ends(
        ww,
        g.words[g.link[v] as int],
        #[trigger] g.words[v],
    ) by {
        let q = target(d, c, p);
        if v < m && splits(d, c, p) && v == q {
            let pc = d.words[p].push(c);
            assert(g.words[g.link[v] as int] == pc);
            assert(g.words[v] == d.words[q]);
            lemma_occurs_grown(w, c, pc, n + 1);
            lemma_occurs_grown(w, c, d.words[q], n + 1);
            if ends_in(ww, d.words[q]) {
                d.lemma_occurring(w, q);
                lemma_longest(d, w, c, p, d.words[q]);
            }
            assert(occurs(ww, pc, n + 1) != occurs(ww, d.words[q], n + 1));
        } else if v < m || v > m {
            let o = if v < m { v } else { q };
            assert(d.linked(o));
            let ll = d.words[d.link[o] as int];
            assert(g.words[g.link[v] as int] == ll);
            assert(!same_ends(w, ll, d.words[o]));
            let e = choose|e: int| occurs(w, ll, e) != occurs(w, d.words[o], e);
            if v > m {
                let pc = d.words[p].push(c);
                d.lemma_uniform(w, q, pc);
                assert(occurs(w, pc, e) == occurs(w, d.words[o], e));
            }
            lemma_occurs_grown(w, c, ll, e);
            lemma_occurs_grown(w, c, g.words[v], e);
            assert(occurs(ww, ll, e) != occurs(ww, g.words[v], e));
        } else {
            let ll = g.words[g.link[v] as int];
            assert(g.words[v] == ww);
            if p == -1 {
                lemma_ends_in_self(w);
                assert(ll =~= Seq::<u32>::empty());
                lemma_occurs_at_end(w, ll);
            } else {
                assert(ll == d.words[p].push(c));
            }
            let e = choose|e: int| occurs(w, ll, e);
            lemma_occurs_grown(w, c, ll, e);
            if occurs(ww, ww, e) {
                lemma_ends_in_len(ww.take(e), ww);
            }
            assert(occurs(ww, ll, e) != occurs(ww, ww, e));
        }
    }
}

proof fn lemma_grown_stepping_old(d: Dawg, w: Seq<u32>, c: u32, p: int, v: int, a: u32)
    requires
        ready(d, w, c, p),
        0 <= v < d.size(),
    ensures
        grown(d, w, c, p).stepping(w.push(c), v, a),
{
    let g = grown(d, w, c, p);
    let m = d.size();
    let lv = d.words[v];
    let y = lv.push(a);
    d.lemma_stepping(w, v, a);
    lemma_factor_grown(w, c, y);
    lemma_ends_in_push(w, lv, c, a);
    assert(g.words[v] == lv);
    if p != -1 {
        lemma_target(d, w, c, p);
    }
    if ends_in(w, lv) && a == c {
        lemma_longest(d, w, c, p, y);
        if !d.next[v].contains_key(c) {
            lemma_new_members(d, w, c, p, y);
        } else {
            lemma_members(d, w, c, p, d.next[v][c] as int, y);
        }
    } else {
        assert(!ends_in(w.push(c), y));
        if d.next[v].contains_key(a) {
            let u = d.next[v][a] as int;
            lemma_members(d, w, c, p, u, y);
            if splits(d, c, p) && u == target(d, c, p) && y.len() <= reach(d, p) {
                let pc = d.words[p].push(c);
                lemma_ends_in_both(d.words[u], pc, y);
                lemma_ends_in_trans(w.push(c), pc, y);
            }
        }
    }
}

proof fn lemma_grown_stepping_split(d: Dawg, w: Seq<u32>, c: u32, p: int, a: u32)
    requires
        ready(d, w, c, p),
        splits(d, c, p),
    ensures
        grown(d, w, c, p).stepping(w.push(c), d.size() + 1, a),
{
    let g = grown(d, w, c, p);
    let m = d.size();
    let q = target(d, c, p);
    lemma_target(d, w, c, p);
    let pc = d.words[p].push(c);
    let lq = d.words[q];
    let y = pc.push(a);
    assert(g.words[m + 1] == pc);
    assert(g.next[m + 1] == next_one(d, w, c, q));
    d.lemma_stepping(w, q, a);
    d.lemma_uniform(w, q, pc);
    lemma_same_ends_push(w, pc, lq, a);
    if factor(w, y) {
        lemma_same_ends_factor(w, y, lq.push(a));
    }
    if factor(w, lq.push(a)) {
        assert(same_ends(w, lq.push(a), y)) by {
            assert forall|e: int| occurs(w, lq.push(a), e) == occurs(w, y, e) by {}
        }
        lemma_same_ends_factor(w, lq.push(a), y);
    }
    lemma_factor_grown(w, c, y);
    lemma_ends_in_push(w, pc, c, a);
    lemma_occurs_at_end(w, pc);
    lemma_occurs_at_end(w, lq);
    assert(occurs(w, pc, w.len() as int) == occurs(w, lq, w.len() as int));
    if ends_in(w, lq) && a == c {
        assert(!d.next[q].contains_key(c));
        lemma_new_members(d, w, c, p, y);
    } else if d.next[q].contains_key(a) {
        let u = d.next[q][a] as int;
        let h = d.lemma_home(w, y);
        d.lemma_same_state(w, h, y, u, lq.push(a));
        lemma_members(d, w, c, p, u, y);
    }
}

proof fn lemma_grown_steps(d: Dawg, w: Seq<u32>, c: u32, p: int)
    requires
        ready(d, w, c, p),
    ensures
        grown(d, w, c, p).steps(w.push(c)),
{
    let g = grown(d, w, c, p);
    let m = d.size();
    reveal(Dawg::steps);
    assert forall|v: int, a: u32| 0 <= v < g.size() implies #[trigger] g.stepping(
        w.push(c),
        v,
        a,
    ) by {
        if v < m {
            lemma_grown_stepping_old(d, w, c, p, v, a);
        } else if v == m {
            assert(g.words[v] == w.push(c));
            if factor(w.push(c), w.push(c).push(a)) {
                lemma_factor_len(w.push(c), w.push(c).push(a));
            }
        } else {
            lemma_grown_stepping_split(d, w, c, p, a);
        }
    }
}

/// Growing the automaton of a text gives the automaton of the grown text.
pub proof fn lemma_grown_represents(d: Dawg, w: Seq<u32>, c: u32, p: int)
    requires
        ready(d, w, c, p),
    ensures
        grown(d, w, c, p).represents(w.push(c)),
{
    lemma_grown_shaped(d, w, c, p);
    lemma_grown_occurring(d, w, c, p);
    lemma_grown_uniform(d, w, c, p);
    lemma_grown_complete(d, w, c, p);
    lemma_grown_unique(d, w, c, p);
    lemma_grown_separated(d, w, c, p);
    lemma_grown_steps(d, w, c, p);
}

} // verus!
