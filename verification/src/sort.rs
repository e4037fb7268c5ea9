//! A merge sort of pairs of numbers, in lexicographic order.

use vstd::prelude::*;

verus! {

/// Lexicographic order on pairs.
pub open spec fn pair_le(a: (u64, u64), b: (u64, u64)) -> bool {
    a.0 < b.0 || (a.0 == b.0 && a.1 <= b.1)
}

/// Every pair is at most each one behind it.
pub open spec fn pairs_sorted(s: Seq<(u64, u64)>) -> bool {
    forall|i: int, j: int| 0 <= i < j < s.len() ==> pair_le(#[trigger] s[i], #[trigger] s[j])
}

/// `out` holds the pairs of `s` in order.
pub open spec fn sorted_from(out: Seq<(u64, u64)>, s: Seq<(u64, u64)>) -> bool {
    pairs_sorted(out) && out.to_multiset() == s.to_multiset()
}

/// The order leaves nothing open: pairs have one sorted arrangement.
pub proof fn lemma_sorted_is_unique(a: Seq<(u64, u64)>, b: Seq<(u64, u64)>)
    requires
        pairs_sorted(a),
        pairs_sorted(b),
        a.to_multiset() == b.to_multiset(),
    ensures
        a == b,
    decreases a.len(),
{
    broadcast use vstd::seq_lib::group_to_multiset_ensures;

    assert(a.len() == a.to_multiset().len());
    assert(b.len() == b.to_multiset().len());
    if a.len() == 0 {
        assert(a =~= b);
    } else {
        let x = a.last();
        let y = b.last();
        assert(a.contains(x) && b.contains(y));
        assert(b.to_multiset().count(x) > 0);
        assert(a.to_multiset().count(y) > 0);
        assert(b.contains(x) && a.contains(y));
        let i = choose|i: int| 0 <= i < b.len() && b[i] == x;
        let j = choose|j: int| 0 <= j < a.len() && a[j] == y;
        if i < b.len() - 1 {
            assert(pair_le(b[i], b[b.len() - 1]));
        }
        if j < a.len() - 1 {
            assert(pair_le(a[j], a[a.len() - 1]));
        }
        assert(x == y);
        let a1 = a.drop_last();
        let b1 = b.drop_last();
        assert(a1.push(x) =~= a && b1.push(x) =~= b);
        assert(a1.to_multiset().insert(x) == b1.to_multiset().insert(x));
        assert(a1.to_multiset() =~= b1.to_multiset()) by {
            broadcast use vstd::multiset::group_multiset_axioms;

            assert forall|v: (u64, u64)| a1.to_multiset().count(v) == b1.to_multiset().count(v) by {
                assert(a1.to_multiset().insert(x).count(v) == b1.to_multiset().insert(x).count(v));
            }
        }
        assert(pairs_sorted(a1)) by {
            assert forall|i: int, j: int| 0 <= i < j < a1.len() implies pair_le(
                #[trigger] a1[i],
                #[trigger] a1[j],
            ) by {
                assert(pair_le(a[i], a[j]));
            }
        }
        assert(pairs_sorted(b1)) by {
            assert forall|i: int, j: int| 0 <= i < j < b1.len() implies pair_le(
                #[trigger] b1[i],
                #[trigger] b1[j],
            ) by {
                assert(pair_le(b[i], b[j]));
            }
        }
        lemma_sorted_is_unique(a1, b1);
        assert(a =~= b);
    }
}

/// Merges two sorted lists.
fn merge(a: &Vec<(u64, u64)>, b: &Vec<(u64, u64)>) -> (out: Vec<(u64, u64)>)
    requires
        pairs_sorted(a@),
        pairs_sorted(b@),
    ensures
        sorted_from(out@, a@ + b@),
{
    broadcast use vstd::seq_lib::group_to_multiset_ensures;

    let n: usize = a.len();
    let m: usize = b.len();
    let mut out: Vec<(u64, u64)> = Vec::new();
    let mut i: usize = 0;
    let mut j: usize = 0;
    proof {
        assert(a@.take(0) + b@.take(0) =~= Seq::<(u64, u64)>::empty());
    }
    while i < n || j < m
        invariant
            i <= n == a@.len(),
            j <= m == b@.len(),
            pairs_sorted(a@),
            pairs_sorted(b@),
            pairs_sorted(out@),
            out@.to_multiset() == (a@.take(i as int) + b@.take(j as int)).to_multiset(),
            forall|k: int, l: int|
                0 <= k < out@.len() && i <= l < a@.len() ==> pair_le(
                    #[trigger] out@[k],
                    #[trigger] a@[l],
                ),
            forall|k: int, l: int|
                0 <= k < out@.len() && j <= l < b@.len() ==> pair_le(
                    #[trigger] out@[k],
                    #[trigger] b@[l],
                ),
        decreases (n - i) + (m - j),
    {
        let left = if i == n {
            false
        } else if j == m {
            true
        } else {
            a[i].0 < b[j].0 || (a[i].0 == b[j].0 && a[i].1 <= b[j].1)
        };
        let ghost before = out@;
        let ghost taken = a@.take(i as int) + b@.take(j as int);
        if left {
            let x = a[i];
            out.push(x);
            proof {
                let now = a@.take(i + 1) + b@.take(j as int);
                assert(now =~= taken.insert(i as int, x));
                crate::seqs::lemma_insert_multiset(taken, i as int, x);
                vstd::seq_lib::to_multiset_build(before, x);
            }
            i += 1;
        } else {
            let x = b[j];
            out.push(x);
            proof {
                let now = a@.take(i as int) + b@.take(j + 1);
                assert(now =~= taken.push(x));
                vstd::seq_lib::to_multiset_build(taken, x);
                vstd::seq_lib::to_multiset_build(before, x);
            }
            j += 1;
        }
    }
    proof {
        assert(a@.take(n as int) + b@.take(m as int) =~= a@ + b@);
    }
    out
}

/// Sorts part of a list.
fn sort_pairs(s: &Vec<(u64, u64)>, from: usize, to: usize) -> (out: Vec<(u64, u64)>)
    requires
        from <= to <= s@.len(),
    ensures
        sorted_from(out@, s@.subrange(from as int, to as int)),
    decreases to - from,
{
    if to - from <= 1 {
        let mut out: Vec<(u64, u64)> = Vec::new();
        if from < to {
            out.push(s[from]);
        }
        proof {
            assert(out@ =~= s@.subrange(from as int, to as int));
        }
        return out;
    }
    let mid: usize = from + (to - from) / 2;
    let a: Vec<(u64, u64)> = sort_pairs(s, from, mid);
    let b: Vec<(u64, u64)> = sort_pairs(s, mid, to);
    let out: Vec<(u64, u64)> = merge(&a, &b);
    proof {
        let x = s@.subrange(from as int, mid as int);
        let y = s@.subrange(mid as int, to as int);
        assert(x + y =~= s@.subrange(from as int, to as int));
        vstd::seq_lib::lemma_multiset_commutative(a@, b@);
        vstd::seq_lib::lemma_multiset_commutative(x, y);
    }
    out
}

/// The pairs of `s` in order.
pub open spec fn sorted_pairs(s: Seq<(u64, u64)>) -> Seq<(u64, u64)> {
    choose|out: Seq<(u64, u64)>| sorted_from(out, s)
}

/// Every list of pairs can be put in order.
pub proof fn lemma_sorted_pairs(s: Seq<(u64, u64)>)
    ensures
        sorted_from(sorted_pairs(s), s),
{
    let leq = |a: (u64, u64), b: (u64, u64)| pair_le(a, b);
    assert(vstd::relations::total_ordering(leq));
    s.lemma_sort_by_ensures(leq);
    let out = s.sort_by(leq);
    assert(pairs_sorted(out)) by {
        assert forall|i: int, j: int| 0 <= i < j < out.len() implies pair_le(
            #[trigger] out[i],
            #[trigger] out[j],
        ) by {
            assert(leq(out[i], out[j]));
        }
    }
    assert(sorted_from(out, s));
}

/// Sorts a list of pairs.
pub fn sorted(s: &Vec<(u64, u64)>) -> (out: Vec<(u64, u64)>)
    ensures
        sorted_from(out@, s@),
        out@ == sorted_pairs(s@),
{
    let out: Vec<(u64, u64)> = sort_pairs(s, 0, s.len());
    proof {
        assert(s@.subrange(0, s@.len() as int) =~= s@);
        assert(sorted_from(out@, s@));
        lemma_sorted_is_unique(out@, sorted_pairs(s@));
    }
    out
}

} // verus!
