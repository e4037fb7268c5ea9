//! Rankings by score: the full order, and the best `n` as a keep-set.

use crate::sort::pair_le;
use crate::sort::sorted;
use crate::sort::sorted_from;
use vstd::prelude::*;

verus! {

/// Every item is below the ones behind it.
pub open spec fn ascending(s: Seq<usize>) -> bool {
    forall|a: int, b: int| 0 <= a < b < s.len() ==> #[trigger] s[a] < #[trigger] s[b]
}

/// `i` ranks before `j`: its score is higher, or the same at a lower index.
pub open spec fn better(keys: Seq<u64>, i: int, j: int) -> bool {
    keys[i] > keys[j] || (keys[i] == keys[j] && i < j)
}

/// `order` holds every index once, the best first.
pub open spec fn is_ranking(keys: Seq<u64>, order: Seq<usize>) -> bool {
    &&& order.len() == keys.len()
    &&& forall|a: int| 0 <= a < order.len() ==> (#[trigger] order[a]) < keys.len()
    &&& forall|a: int, b: int|
        0 <= a < b < order.len() ==> better(keys, (#[trigger] order[a]) as int, (
        #[trigger] order[b]) as int)
    &&& forall|i: usize| i < keys.len() ==> #[trigger] order.contains(i)
}

/// `out` holds the best `n` indices, or all where there are fewer, in ascending order.
pub open spec fn is_top(keys: Seq<u64>, n: int, out: Seq<usize>) -> bool {
    &&& out.len() == if n < keys.len() {
        n
    } else {
        keys.len() as int
    }
    &&& ascending(out)
    &&& forall|a: int| 0 <= a < out.len() ==> (#[trigger] out[a]) < keys.len()
    &&& forall|a: int, j: usize|
        0 <= a < out.len() && j < keys.len() && !#[trigger] out.contains(j) ==> better(
            keys,
            (#[trigger] out[a]) as int,
            j as int,
        )
}

/// Sorting pairs that are all different keeps them all, each once.
proof fn lemma_sorted_distinct(out: Seq<(u64, u64)>, s: Seq<(u64, u64)>)
    requires
        sorted_from(out, s),
        s.no_duplicates(),
    ensures
        out.len() == s.len(),
        out.no_duplicates(),
        forall|x: (u64, u64)| out.contains(x) <==> s.contains(x),
{
    broadcast use vstd::seq_lib::group_to_multiset_ensures;

    assert(out.len() == out.to_multiset().len());
    s.lemma_multiset_has_no_duplicates();
    out.lemma_multiset_has_no_duplicates_conv();
    assert forall|x: (u64, u64)| out.contains(x) <==> s.contains(x) by {
        assert(out.contains(x) <==> out.to_multiset().count(x) > 0);
        assert(s.contains(x) <==> s.to_multiset().count(x) > 0);
    }
}

/// Ranks indices by score.
pub fn ranked(keys: &[u64]) -> (order: Vec<usize>)
    ensures
        is_ranking(keys@, order@),
{
    let n: usize = keys.len();
    let mut pairs: Vec<(u64, u64)> = Vec::with_capacity(n);
    for i in 0..n
        invariant
            n == keys@.len(),
            pairs@.len() == i,
            forall|k: int|
                0 <= k < i ==> #[trigger] pairs@[k] == ((u64::MAX - keys@[k]) as u64, k as u64),
    {
        pairs.push((u64::MAX - keys[i], i as u64));
    }
    let out: Vec<(u64, u64)> = sorted(&pairs);
    proof {
        assert(pairs@.no_duplicates());
        lemma_sorted_distinct(out@, pairs@);
        assert forall|k: int| 0 <= k < n implies {
            let p = #[trigger] out@[k];
            p.1 < n && p.0 == u64::MAX - keys@[p.1 as int]
        } by {
            assert(out@.contains(out@[k]));
            let m = choose|m: int| 0 <= m < n && pairs@[m] == out@[k];
            assert(pairs@[m] == ((u64::MAX - keys@[m]) as u64, m as u64));
        }
    }
    let mut order: Vec<usize> = Vec::with_capacity(n);
    for k in 0..n
        invariant
            n == keys@.len() == out@.len(),
            order@.len() == k,
            forall|j: int| 0 <= j < n ==> (#[trigger] out@[j]).1 < n,
            forall|j: int| 0 <= j < k ==> #[trigger] order@[j] == out@[j].1,
    {
        proof {
            assert(out@[k as int].1 < n);
        }
        order.push(out[k].1 as usize);
    }
    proof {
        assert forall|a: int, b: int| 0 <= a < b < n implies better(
            keys@,
            (#[trigger] order@[a]) as int,
            (#[trigger] order@[b]) as int,
        ) by {
            assert(pair_le(out@[a], out@[b]));
            assert(out@[a] != out@[b]);
        }
        assert forall|i: usize| i < n implies #[trigger] order@.contains(i) by {
            assert(pairs@[i as int] == ((u64::MAX - keys@[i as int]) as u64, i as u64));
            assert(pairs@.contains(pairs@[i as int]));
            assert(out@.contains(pairs@[i as int]));
            let m = choose|m: int| 0 <= m < n && out@[m] == pairs@[i as int];
            assert(order@[m] == i);
        }
    }
    order
}

/// The same indices in ascending order.
pub open spec fn rearranged(out: Seq<usize>, s: Seq<usize>) -> bool {
    &&& ascending(out)
    &&& out.len() == s.len()
    &&& forall|x: usize| out.contains(x) <==> s.contains(x)
}

/// Puts different indices in ascending order.
pub fn ascending_of(s: &[usize]) -> (out: Vec<usize>)
    requires
        s@.no_duplicates(),
    ensures
        rearranged(out@, s@),
{
    let n: usize = s.len();
    let mut pairs: Vec<(u64, u64)> = Vec::with_capacity(n);
    for i in 0..n
        invariant
            n == s@.len(),
            pairs@.len() == i,
            forall|k: int| 0 <= k < i ==> #[trigger] pairs@[k] == (s@[k] as u64, 0u64),
    {
        pairs.push((s[i] as u64, 0));
    }
    let sorted_list: Vec<(u64, u64)> = sorted(&pairs);
    proof {
        assert forall|a: int, b: int| 0 <= a < n && 0 <= b < n && a != b implies pairs@[a]
            != pairs@[b] by {
            assert(s@[a] != s@[b]);
        }
        lemma_sorted_distinct(sorted_list@, pairs@);
        assert forall|k: int| 0 <= k < n implies (#[trigger] sorted_list@[k]).1 == 0
            && sorted_list@[k].0 <= usize::MAX && s@.contains(sorted_list@[k].0 as usize) by {
            assert(sorted_list@.contains(sorted_list@[k]));
            let m = choose|m: int| 0 <= m < n && pairs@[m] == sorted_list@[k];
            assert(pairs@[m] == (s@[m] as u64, 0u64));
        }
    }
    let mut out: Vec<usize> = Vec::with_capacity(n);
    for k in 0..n
        invariant
            n == sorted_list@.len(),
            out@.len() == k,
            forall|j: int|
                0 <= j < n ==> (#[trigger] sorted_list@[j]).0 <= usize::MAX && s@.contains(
                    sorted_list@[j].0 as usize,
                ),
            forall|j: int| 0 <= j < k ==> #[trigger] out@[j] == sorted_list@[j].0,
    {
        proof {
            assert(sorted_list@[k as int].0 <= usize::MAX);
        }
        out.push(sorted_list[k].0 as usize);
    }
    proof {
        assert forall|a: int, b: int| 0 <= a < b < n implies #[trigger] out@[a]
            < #[trigger] out@[b] by {
            assert(pair_le(sorted_list@[a], sorted_list@[b]));
            assert(sorted_list@[a] != sorted_list@[b]);
            assert(sorted_list@[a].1 == 0 && sorted_list@[b].1 == 0);
        }
        assert forall|x: usize| out@.contains(x) <==> s@.contains(x) by {
            if out@.contains(x) {
                let k = choose|k: int| 0 <= k < n && out@[k] == x;
                assert(s@.contains(sorted_list@[k].0 as usize));
            }
            if s@.contains(x) {
                let m = choose|m: int| 0 <= m < n && s@[m] == x;
                assert(pairs@[m] == (x as u64, 0u64));
                assert(pairs@.contains(pairs@[m]));
                assert(sorted_list@.contains(pairs@[m]));
                let k = choose|k: int| 0 <= k < n && sorted_list@[k] == pairs@[m];
                assert(out@[k] == x);
            }
        }
    }
    out
}

/// The best `n` indices by score, ties to the lower index, in ascending order.
pub fn top_n(keys: &[u64], n: usize) -> (out: Vec<usize>)
    ensures
        is_top(keys@, n as int, out@),
{
    let order: Vec<usize> = ranked(keys);
    let total: usize = keys.len();
    let m: usize = if n < total {
        n
    } else {
        total
    };
    let best: &[usize] = vstd::slice::slice_subrange(order.as_slice(), 0, m);
    proof {
        assert forall|a: int, b: int| 0 <= a < m && 0 <= b < m && a != b implies best@[a]
            != best@[b] by {
            if a < b {
                assert(better(keys@, order@[a] as int, order@[b] as int));
            } else {
                assert(better(keys@, order@[b] as int, order@[a] as int));
            }
        }
    }
    let out: Vec<usize> = ascending_of(best);
    proof {
        assert forall|a: int| 0 <= a < out@.len() implies (#[trigger] out@[a]) < keys@.len() by {
            assert(out@.contains(out@[a]));
            let p = choose|p: int| 0 <= p < m && best@[p] == out@[a];
            assert(order@[p] < keys@.len());
        }
        assert forall|a: int, j: usize|
            0 <= a < out@.len() && j < keys@.len() && !#[trigger] out@.contains(j) implies better(
            keys@,
            (#[trigger] out@[a]) as int,
            j as int,
        ) by {
            assert(out@.contains(out@[a]));
            let p = choose|p: int| 0 <= p < m && best@[p] == out@[a];
            assert(order@.contains(j));
            let q = choose|q: int| 0 <= q < order@.len() && order@[q] == j;
            if q < m {
                assert(best@[q] == j);
                assert(best@.contains(j));
            }
            assert(better(keys@, order@[p] as int, order@[q] as int));
        }
    }
    out
}

/// An ascending list holds nothing twice.
pub proof fn lemma_ascending_distinct(s: Seq<usize>)
    requires
        ascending(s),
    ensures
        s.no_duplicates(),
{
    assert forall|a: int, b: int| 0 <= a < s.len() && 0 <= b < s.len() && a != b implies s[a]
        != s[b] by {
        if a < b {
            assert(s[a] < s[b]);
        } else {
            assert(s[b] < s[a]);
        }
    }
}

/// Ascending lists with the same items are the same.
pub proof fn lemma_ascending_is_unique(a: Seq<usize>, b: Seq<usize>)
    requires
        ascending(a),
        ascending(b),
        forall|x: usize| a.contains(x) <==> b.contains(x),
    ensures
        a == b,
    decreases a.len(),
{
    if a.len() == 0 {
        if b.len() > 0 {
            assert(b.contains(b[0]));
            assert(a.contains(b[0]));
        }
        assert(a =~= b);
    } else {
        let x = a.last();
        assert(a.contains(x));
        assert(b.contains(x));
        let y = b.last();
        assert(b.contains(y));
        assert(a.contains(y));
        let i = choose|i: int| 0 <= i < b.len() && b[i] == x;
        let j = choose|j: int| 0 <= j < a.len() && a[j] == y;
        assert(x <= y) by {
            if i < b.len() - 1 {
                assert(b[i] < b[b.len() - 1]);
            }
        }
        assert(y <= x) by {
            if j < a.len() - 1 {
                assert(a[j] < a[a.len() - 1]);
            }
        }
        let a1 = a.drop_last();
        let b1 = b.drop_last();
        lemma_ascending_distinct(a);
        lemma_ascending_distinct(b);
        assert forall|v: usize| a1.contains(v) <==> b1.contains(v) by {
            if a1.contains(v) {
                let k = choose|k: int| 0 <= k < a1.len() && a1[k] == v;
                assert(a[k] == v && v != x);
                assert(a.contains(v));
                assert(b.contains(v));
                let m = choose|m: int| 0 <= m < b.len() && b[m] == v;
                assert(b1[m] == v);
            }
            if b1.contains(v) {
                let k = choose|k: int| 0 <= k < b1.len() && b1[k] == v;
                assert(b[k] == v && v != x);
                assert(b.contains(v));
                assert(a.contains(v));
                let m = choose|m: int| 0 <= m < a.len() && a[m] == v;
                assert(a1[m] == v);
            }
        }
        assert(ascending(a1)) by {
            assert forall|p: int, q: int| 0 <= p < q < a1.len() implies #[trigger] a1[p]
                < #[trigger] a1[q] by {
                assert(a[p] < a[q]);
            }
        }
        assert(ascending(b1)) by {
            assert forall|p: int, q: int| 0 <= p < q < b1.len() implies #[trigger] b1[p]
                < #[trigger] b1[q] by {
                assert(b[p] < b[q]);
            }
        }
        lemma_ascending_is_unique(a1, b1);
        assert(a =~= a1.push(x));
        assert(b =~= b1.push(y));
    }
}

/// A smaller keep-set by the same scores lies inside a larger one.
pub proof fn law_top_is_nested(
    keys: Seq<u64>,
    n: int,
    few: Seq<usize>,
    m: int,
    more: Seq<usize>,
    x: usize,
)
    requires
        is_top(keys, n, few),
        is_top(keys, m, more),
        n <= m,
        few.contains(x),
    ensures
        more.contains(x),
{
    if !more.contains(x) {
        let p = choose|p: int| 0 <= p < few.len() && few[p] == x;
        lemma_ascending_distinct(few);
        lemma_ascending_distinct(more);
        let small = few.to_set();
        let large = more.to_set();
        few.unique_seq_to_set();
        more.unique_seq_to_set();
        assert(large.subset_of(small.remove(x))) by {
            assert forall|y: usize| large.contains(y) implies small.remove(x).contains(y) by {
                assert(more.contains(y));
                let q = choose|q: int| 0 <= q < more.len() && more[q] == y;
                assert(better(keys, more[q] as int, x as int));
                if !few.contains(y) {
                    assert(better(keys, few[p] as int, y as int));
                }
                assert(few.contains(y));
                assert(small.contains(y));
            }
        }
        assert(small.contains(x));
        assert(small.finite());
        vstd::set_lib::lemma_len_subset(large, small.remove(x));
    }
}

/// The scores leave nothing open: there is one keep-set of each size.
pub proof fn law_top_is_unique(keys: Seq<u64>, n: int, a: Seq<usize>, b: Seq<usize>)
    requires
        is_top(keys, n, a),
        is_top(keys, n, b),
    ensures
        a == b,
{
    assert forall|x: usize| a.contains(x) <==> b.contains(x) by {
        if a.contains(x) {
            law_top_is_nested(keys, n, a, n, b, x);
        }
        if b.contains(x) {
            law_top_is_nested(keys, n, b, n, a, x);
        }
    }
    lemma_ascending_is_unique(a, b);
}

/// The order of 64-bit floats by their bits, which are a sign and a magnitude: what is
/// not a NaN compares as these numbers do.
pub open spec fn sign_magnitude(bits: u64) -> int {
    if bits < 0x8000_0000_0000_0000 {
        bits as int
    } else {
        -(bits - 0x8000_0000_0000_0000)
    }
}

/// The bits of a NaN: a magnitude above that of infinity.
pub open spec fn is_nan(bits: u64) -> bool {
    let magnitude = if bits < 0x8000_0000_0000_0000 {
        bits as int
    } else {
        bits - 0x8000_0000_0000_0000
    };
    magnitude > 0x7ff0_0000_0000_0000
}

/// The key by which a score is ranked.
pub open spec fn score_key(bits: u64) -> u64 {
    (sign_magnitude(bits) + 0x8000_0000_0000_0000) as u64
}

/// The key by which a score is ranked.
pub fn key_of(bits: u64) -> (key: u64)
    ensures
        key == score_key(bits),
{
    if bits >= 0x8000_0000_0000_0000 {
        0x8000_0000_0000_0000 - (bits - 0x8000_0000_0000_0000)
    } else {
        0x8000_0000_0000_0000 + bits
    }
}

/// The keys of scores.
pub open spec fn score_keys(bits: Seq<u64>) -> Seq<u64> {
    Seq::new(bits.len(), |i: int| score_key(bits[i]))
}

/// Some score is a NaN.
pub open spec fn any_nan(bits: Seq<u64>) -> bool {
    exists|i: int| 0 <= i < bits.len() && is_nan(#[trigger] bits[i])
}

/// Keys order scores as floats order.
pub proof fn law_score_keys_keep_the_order(a: u64, b: u64)
    ensures
        score_key(a) < score_key(b) <==> sign_magnitude(a) < sign_magnitude(b),
        score_key(a) == score_key(b) <==> sign_magnitude(a) == sign_magnitude(b),
{
}

/// The best `n` indices by 64-bit float scores, given by their bits; nothing where a
/// score is a NaN.
pub fn top_scores(bits: &[u64], n: usize) -> (out: Option<Vec<usize>>)
    ensures
        match out {
            Some(v) => !any_nan(bits@) && is_top(score_keys(bits@), n as int, v@),
            None => any_nan(bits@),
        },
{
    let mut keys: Vec<u64> = Vec::with_capacity(bits.len());
    for i in 0..bits.len()
        invariant
            keys@ == score_keys(bits@.take(i as int)),
            forall|k: int| 0 <= k < i ==> !is_nan(#[trigger] bits@[k]),
    {
        let b: u64 = bits[i];
        let negative: bool = b >= 0x8000_0000_0000_0000;
        let magnitude: u64 = if negative {
            b - 0x8000_0000_0000_0000
        } else {
            b
        };
        if magnitude > 0x7ff0_0000_0000_0000 {
            return None;
        }
        let key: u64 = key_of(b);
        keys.push(key);
        proof {
            assert(key == score_key(b));
            assert(keys@ =~= score_keys(bits@.take(i + 1)));
        }
    }
    proof {
        assert(bits@.take(bits@.len() as int) =~= bits@);
    }
    Some(top_n(keys.as_slice(), n))
}

/// The order of indices by 64-bit float scores, given by their bits, the best first;
/// nothing where a score is a NaN.
pub fn ranked_scores(bits: &[u64]) -> (order: Option<Vec<usize>>)
    ensures
        match order {
            Some(v) => !any_nan(bits@) && is_ranking(score_keys(bits@), v@),
            None => any_nan(bits@),
        },
{
    let mut keys: Vec<u64> = Vec::with_capacity(bits.len());
    for i in 0..bits.len()
        invariant
            keys@ == score_keys(bits@.take(i as int)),
            forall|k: int| 0 <= k < i ==> !is_nan(#[trigger] bits@[k]),
    {
        if crate::decode::not_a_number(bits[i]) {
            return None;
        }
        keys.push(key_of(bits[i]));
        proof {
            assert(keys@ =~= score_keys(bits@.take(i + 1)));
        }
    }
    proof {
        assert(bits@.take(bits@.len() as int) =~= bits@);
    }
    Some(ranked(keys.as_slice()))
}

/// What is kept scores no lower than what is not: higher, or as high at a lower index; and as
/// many are kept as were asked for, where there are as many.
pub proof fn law_kept_score_no_lower(keys: Seq<u64>, n: int, out: Seq<usize>, a: int, j: usize)
    requires
        is_top(keys, n, out),
        0 <= n,
    ensures
        out.len() == if n < keys.len() {
            n
        } else {
            keys.len() as int
        },
        0 <= a < out.len() && j < keys.len() && !out.contains(j) ==> keys[out[a] as int]
            > keys[j as int] || (keys[out[a] as int] == keys[j as int] && out[a] < j),
        0 <= a < out.len() - 1 ==> out[a] < out[a + 1] < keys.len(),
{
}

/// A ranking goes from the highest score down, equal scores by rising index, and leaves no
/// index out.
pub proof fn law_ranking_goes_down(keys: Seq<u64>, order: Seq<usize>, a: int, b: int, i: usize)
    requires
        is_ranking(keys, order),
    ensures
        order.len() == keys.len(),
        0 <= a < b < order.len() ==> keys[order[a] as int] > keys[order[b] as int] || (
        keys[order[a] as int] == keys[order[b] as int] && order[a] < order[b]),
        i < keys.len() ==> order.contains(i),
{
}

/// Floats order by their bits as numbers do: positive ones by magnitude, negative ones by
/// falling magnitude and below the positive, and the two zeros are equal.
pub proof fn law_floats_order_by_sign_and_magnitude(a: u64, b: u64)
    requires
        a < 0x8000_0000_0000_0000,
        b < 0x8000_0000_0000_0000,
    ensures
        ({
            let (x, y) = ((a + 0x8000_0000_0000_0000) as u64, (b + 0x8000_0000_0000_0000) as u64);
            &&& sign_magnitude(a) < sign_magnitude(b) <==> a < b
            &&& sign_magnitude(x) < sign_magnitude(y) <==> b < a
            &&& sign_magnitude(x) <= sign_magnitude(b)
            &&& sign_magnitude(x) == sign_magnitude(b) <==> a == 0 && b == 0
            &&& is_nan(a) <==> a > 0x7ff0_0000_0000_0000
            &&& is_nan(x) <==> is_nan(a)
        }),
{
}

} // verus!
