//! Routing signatures of past sessions: which experts a session touched, per layer.
//!
//! ```text
//! magic "MKRTS001" | u32 version | u32 n_layers | u32 n_experts | u32 n_sessions | u32 0
//! sessions: u64 requests | u32 n_layers | u32 n_experts |
//!           per layer: u32 nz, then nz x (u32 expert, u32 count)
//! ```
//!
//! A store keeps the most recent sessions. A file that ends inside a record keeps the
//! records before it.

use crate::sort::sorted;
use crate::sort::sorted_pairs;
use std::collections::HashMap;
use vstd::prelude::*;
use vstd::std_specs::iter::IteratorSpec;

verus! {

/// The sessions that a store keeps.
pub const MAX_SESSIONS: usize = 32;

/// The expert histogram of one run: per layer the experts with their counts, sorted by
/// expert.
#[derive(Debug)]
pub struct Session {
    pub requests: u64,
    pub layers: Vec<Vec<(u32, u32)>>,
}

/// What a session says.
pub ghost struct SessionView {
    pub requests: u64,
    pub layers: Seq<Seq<(u32, u32)>>,
}

/// The views of rows.
pub open spec fn rows_view(rows: Seq<Vec<(u32, u32)>>) -> Seq<Seq<(u32, u32)>> {
    Seq::new(rows.len(), |i: int| rows[i]@)
}

impl View for Session {
    type V = SessionView;

    open spec fn view(&self) -> SessionView {
        SessionView { requests: self.requests, layers: rows_view(self.layers@) }
    }
}

/// The experts rise.
pub open spec fn row_ascending(row: Seq<(u32, u32)>) -> bool {
    forall|i: int, j: int| 0 <= i < j < row.len() ==> (#[trigger] row[i]).0 < (#[trigger] row[j]).0
}

/// Entry `i` of a row is the expert's.
pub open spec fn entry_of(row: Seq<(u32, u32)>, i: int, e: u32) -> bool {
    0 <= i < row.len() && row[i].0 == e
}

/// `row` holds the experts of `m` with their counts, sorted by expert.
pub open spec fn is_row(m: Map<u32, u32>, row: Seq<(u32, u32)>) -> bool {
    &&& row_ascending(row)
    &&& forall|i: int|
        0 <= i < row.len() ==> m.contains_key((#[trigger] row[i]).0) && m[row[i].0] == row[i].1
    &&& forall|e: u32| #[trigger] m.contains_key(e) ==> exists|i: int| entry_of(row, i, e)
}

/// A histogram has one sorted row.
pub proof fn lemma_row_is_unique(m: Map<u32, u32>, a: Seq<(u32, u32)>, b: Seq<(u32, u32)>)
    requires
        is_row(m, a),
        is_row(m, b),
    ensures
        a == b,
{
    lemma_row_prefix(m, a, b, a.len() as int);
    lemma_row_prefix(m, b, a, b.len() as int);
    assert(a =~= b);
}

proof fn lemma_row_prefix(m: Map<u32, u32>, a: Seq<(u32, u32)>, b: Seq<(u32, u32)>, n: int)
    requires
        is_row(m, a),
        is_row(m, b),
        0 <= n <= a.len(),
    ensures
        n <= b.len(),
        forall|i: int| 0 <= i < n ==> #[trigger] a[i] == b[i],
    decreases n,
{
    if n > 0 {
        lemma_row_prefix(m, a, b, n - 1);
        let x = a[n - 1];
        assert(m.contains_key(x.0));
        let k = choose|k: int| entry_of(b, k, x.0);
        assert(entry_of(b, k, x.0));
        if k < n - 1 {
            assert(a[k] == b[k]);
            assert(a[k].0 < a[n - 1].0);
        }
        assert(n - 1 < b.len());
        if k > n - 1 {
            let y = b[n - 1];
            assert(m.contains_key(y.0));
            let q = choose|q: int| entry_of(a, q, y.0);
            assert(entry_of(a, q, y.0));
            assert(b[n - 1].0 < b[k].0);
            if q < n - 1 {
                assert(a[q] == b[q]);
                assert(b[q].0 < b[n - 1].0);
            } else if q > n - 1 {
                assert(a[n - 1].0 < a[q].0);
            }
        }
        assert(m[b[n - 1].0] == b[n - 1].1);
    }
}

/// The keys of a map, in no particular order.
fn keys_of<V>(m: &HashMap<u32, V>) -> (keys: Vec<u32>)
    ensures
        keys@.no_duplicates(),
        forall|k: u32| keys@.contains(k) <==> #[trigger] m@.contains_key(k),
{
    broadcast use vstd::std_specs::hash::group_hash_axioms;

    let mut keys: Vec<u32> = Vec::new();
    for k in it: m.keys()
        invariant
            keys@ == it.seq().unref().take(it.index() as int),
    {
        proof {
            assert(it.seq().unref().take(it.index() as int).push(*k) =~= it.seq().unref().take(
                it.index() + 1,
            ));
        }
        keys.push(*k);
    }
    proof {
        let all = vstd::std_specs::hash::spec_keys_iter(m).remaining();
        assert(keys@ =~= all.unref());
        assert(all.unref().to_set() == m@.dom());
        assert(all.no_duplicates());
        assert forall|k: u32| keys@.contains(k) <==> #[trigger] m@.contains_key(k) by {
            assert(keys@.to_set().contains(k) <==> keys@.contains(k));
        }
    }
    keys
}

fn row_of(m: &HashMap<u32, u32>) -> (row: Vec<(u32, u32)>)
    ensures
        is_row(m@, row@),
{
    broadcast use vstd::std_specs::hash::group_hash_axioms;

    let keys: Vec<u32> = keys_of(m);
    let n: usize = keys.len();
    let mut pairs: Vec<(u64, u64)> = Vec::new();
    for i in 0..n
        invariant
            n == keys@.len() == pairs@.len() + (n - i),
            forall|k: u32| keys@.contains(k) <==> #[trigger] m@.contains_key(k),
            forall|j: int|
                0 <= j < i ==> #[trigger] pairs@[j] == (keys@[j] as u64, m@[keys@[j]] as u64),
    {
        broadcast use vstd::std_specs::hash::group_hash_axioms;

        let k: u32 = keys[i];
        proof {
            assert(keys@.contains(k));
            assert(m@.contains_key(k));
        }
        let c: u32 = match m.get(&k) {
            Some(c) => *c,
            None => 0,
        };
        pairs.push((k as u64, c as u64));
    }
    let ordered: Vec<(u64, u64)> = sorted(&pairs);
    proof {
        broadcast use vstd::seq_lib::group_to_multiset_ensures;

        assert(ordered@.len() == ordered@.to_multiset().len());
        assert(pairs@.len() == pairs@.to_multiset().len());
        assert forall|x: (u64, u64)| ordered@.contains(x) <==> #[trigger] pairs@.contains(x) by {
            assert(ordered@.contains(x) <==> ordered@.to_multiset().count(x) > 0);
            assert(pairs@.contains(x) <==> pairs@.to_multiset().count(x) > 0);
        }
        assert(pairs@.no_duplicates()) by {
            assert forall|a: int, b: int| 0 <= a < n && 0 <= b < n && a != b implies pairs@[a]
                != pairs@[b] by {
                assert(keys@[a] != keys@[b]);
            }
        }
        pairs@.lemma_multiset_has_no_duplicates();
        ordered@.lemma_multiset_has_no_duplicates_conv();
        assert forall|j: int| 0 <= j < n implies {
            let p = #[trigger] ordered@[j];
            p.0 <= u32::MAX && p.1 <= u32::MAX && m@.contains_key(p.0 as u32) && m@[p.0 as u32]
                == p.1
        } by {
            assert(ordered@.contains(ordered@[j]));
            assert(pairs@.contains(ordered@[j]));
            let q = choose|q: int| 0 <= q < n && pairs@[q] == ordered@[j];
            assert(pairs@[q] == (keys@[q] as u64, m@[keys@[q]] as u64));
            assert(keys@.contains(keys@[q]));
        }
    }
    let mut row: Vec<(u32, u32)> = Vec::new();
    for j in 0..n
        invariant
            n == ordered@.len(),
            row@.len() == j,
            forall|q: int|
                0 <= q < n ==> (#[trigger] ordered@[q]).0 <= u32::MAX && ordered@[q].1 <= u32::MAX,
            forall|q: int|
                0 <= q < j ==> #[trigger] row@[q] == (ordered@[q].0 as u32, ordered@[q].1 as u32),
    {
        proof {
            assert(ordered@[j as int].0 <= u32::MAX);
        }
        row.push((ordered[j].0 as u32, ordered[j].1 as u32));
    }
    proof {
        assert forall|a: int, b: int| 0 <= a < b < row@.len() implies (#[trigger] row@[a]).0 < (
        #[trigger] row@[b]).0 by {
            assert(crate::sort::pair_le(ordered@[a], ordered@[b]));
            assert(ordered@[a] != ordered@[b]);
            assert(m@[ordered@[a].0 as u32] == ordered@[a].1);
            assert(m@[ordered@[b].0 as u32] == ordered@[b].1);
        }
        assert forall|e: u32| #[trigger] m@.contains_key(e) implies exists|i: int|
            entry_of(row@, i, e) by {
            assert(keys@.contains(e));
            let q = choose|q: int| 0 <= q < n && keys@[q] == e;
            assert(pairs@[q] == (e as u64, m@[e] as u64));
            assert(pairs@.contains(pairs@[q]));
            assert(ordered@.contains(pairs@[q]));
            let j = choose|j: int| 0 <= j < n && ordered@[j] == pairs@[q];
            assert(entry_of(row@, j, e));
        }
    }
    row
}

/// The sorted row of a histogram.
pub open spec fn sorted_row(m: Map<u32, u32>) -> Seq<(u32, u32)> {
    choose|row: Seq<(u32, u32)>| is_row(m, row)
}

/// `n` is one above the highest layer, 0 where there is none.
pub open spec fn layer_bound<V>(m: Map<u32, V>, n: int) -> bool {
    &&& forall|l: u32| #[trigger] m.contains_key(l) ==> l < n
    &&& n == 0 || (0 < n <= 0x1_0000_0000 && m.contains_key((n - 1) as u32))
}

/// The rows of the layers below `n`; a layer without counts has an empty one.
pub open spec fn rows_below(counts: Map<u32, HashMap<u32, u32>>, n: int) -> Seq<Seq<(u32, u32)>> {
    Seq::new(
        n as nat,
        |l: int|
            if counts.contains_key(l as u32) {
                sorted_row(counts[l as u32]@)
            } else {
                Seq::empty()
            },
    )
}

/// The counts of a row.
pub open spec fn row_total(row: Seq<(u32, u32)>) -> nat
    decreases row.len(),
{
    if row.len() == 0 {
        0
    } else {
        row_total(row.drop_last()) + row.last().1 as nat
    }
}

/// The counts of rows.
pub open spec fn rows_total(rows: Seq<Seq<(u32, u32)>>) -> nat
    decreases rows.len(),
{
    if rows.len() == 0 {
        0
    } else {
        rows_total(rows.drop_last()) + row_total(rows.last())
    }
}

/// A bound above every layer exists and the counts fit in 64 bits.
pub open spec fn counts_fit(counts: Map<u32, HashMap<u32, u32>>) -> bool {
    &&& forall|l: u32| #[trigger] counts.contains_key(l) ==> l < usize::MAX
    &&& forall|n: int|
        0 <= n && layer_bound(counts, n) ==> rows_total(#[trigger] rows_below(counts, n))
            <= u64::MAX
}

proof fn lemma_rows_total_grows(rows: Seq<Seq<(u32, u32)>>, n: int)
    requires
        0 <= n <= rows.len(),
    ensures
        rows_total(rows.take(n)) <= rows_total(rows),
    decreases rows.len(),
{
    if n < rows.len() {
        lemma_rows_total_grows(rows.drop_last(), n);
        assert(rows.drop_last().take(n) =~= rows.take(n));
    } else {
        assert(rows.take(n) =~= rows);
    }
}

proof fn lemma_row_total_grows(row: Seq<(u32, u32)>, n: int)
    requires
        0 <= n <= row.len(),
    ensures
        row_total(row.take(n)) <= row_total(row),
    decreases row.len(),
{
    if n < row.len() {
        lemma_row_total_grows(row.drop_last(), n);
        assert(row.drop_last().take(n) =~= row.take(n));
    } else {
        assert(row.take(n) =~= row);
    }
}

fn add_row(start: u64, row: &Vec<(u32, u32)>) -> (total: u64)
    requires
        start + row_total(row@) <= u64::MAX,
    ensures
        total == start + row_total(row@),
{
    let mut total: u64 = start;
    for i in 0..row.len()
        invariant
            start + row_total(row@) <= u64::MAX,
            total == start + row_total(row@.take(i as int)),
    {
        proof {
            assert(row@.take(i + 1).drop_last() =~= row@.take(i as int));
            lemma_row_total_grows(row@, i + 1);
        }
        total = total + row[i].1 as u64;
    }
    proof {
        assert(row@.take(row@.len() as int) =~= row@);
    }
    total
}

impl Session {
    /// Builds a signature from per-layer expert counts: every layer up to the highest
    /// with its experts sorted, and the sum of all counts.
    pub fn from_counts(counts: &HashMap<u32, HashMap<u32, u32>>) -> (s: Session)
        requires
            counts_fit(counts@),
        ensures
            layer_bound(counts@, s@.layers.len() as int),
            s@.layers == rows_below(counts@, s@.layers.len() as int),
            forall|l: u32| #[trigger]
                counts@.contains_key(l) ==> is_row(counts@[l]@, s@.layers[l as int]),
            s.requests == rows_total(s@.layers),
    {
        broadcast use vstd::std_specs::hash::group_hash_axioms;

        let keys: Vec<u32> = keys_of(counts);
        let mut n: usize = 0;
        for i in 0..keys.len()
            invariant
                counts_fit(counts@),
                forall|k: u32| keys@.contains(k) <==> #[trigger] counts@.contains_key(k),
                forall|j: int| 0 <= j < i ==> (#[trigger] keys@[j]) < n,
                n == 0 || (n <= 0x1_0000_0000 && counts@.contains_key((n - 1) as u32)),
        {
            let l: u32 = keys[i];
            proof {
                assert(keys@.contains(l));
                assert(counts@.contains_key(l));
            }
            if l as usize >= n {
                n = l as usize + 1;
            }
        }
        proof {
            assert forall|l: u32| #[trigger] counts@.contains_key(l) implies l < n by {
                assert(keys@.contains(l));
                let j = choose|j: int| 0 <= j < keys@.len() && keys@[j] == l;
                assert(keys@[j] < n);
            }
            assert(layer_bound(counts@, n as int));
        }
        let ghost want = rows_below(counts@, n as int);
        proof {
            assert(rows_total(want) <= u64::MAX);
        }
        let mut layers: Vec<Vec<(u32, u32)>> = Vec::new();
        let mut requests: u64 = 0;
        proof {
            assert(want.take(0) =~= Seq::<Seq<(u32, u32)>>::empty());
            assert(rows_view(layers@) =~= Seq::<Seq<(u32, u32)>>::empty());
        }
        for l in 0..n
            invariant
                n <= 0x1_0000_0000,
                want == rows_below(counts@, n as int),
                rows_total(want) <= u64::MAX,
                rows_view(layers@) == want.take(l as int),
                requests == rows_total(want.take(l as int)),
                forall|k: u32|
                    k < l && #[trigger] counts@.contains_key(k) ==> is_row(
                        counts@[k]@,
                        want[k as int],
                    ),
        {
            broadcast use vstd::std_specs::hash::group_hash_axioms;

            let row: Vec<(u32, u32)> = match counts.get(&(l as u32)) {
                Some(m) => {
                    let row: Vec<(u32, u32)> = row_of(m);
                    proof {
                        lemma_row_is_unique(m@, row@, sorted_row(m@));
                    }
                    row
                },
                None => Vec::new(),
            };
            proof {
                assert(row@ =~= want[l as int]);
                assert(want.take(l + 1).drop_last() =~= want.take(l as int));
                assert(want.take(l + 1).last() == want[l as int]);
                lemma_rows_total_grows(want, l + 1);
            }
            requests = add_row(requests, &row);
            let ghost before = layers@;
            let ghost rv = row@;
            layers.push(row);
            proof {
                assert(rows_view(layers@) =~= rows_view(before).push(rv));
                assert(want.take(l + 1) =~= want.take(l as int).push(rv));
            }
        }
        proof {
            assert(want.take(n as int) =~= want);
        }
        Session { requests, layers }
    }
}

/// One above the highest expert of a row, at least `from`.
pub open spec fn row_bound(row: Seq<(u32, u32)>, from: int) -> int
    decreases row.len(),
{
    if row.len() == 0 {
        from
    } else {
        let b = row_bound(row.drop_last(), from);
        if row.last().0 + 1 > b {
            row.last().0 + 1
        } else {
            b
        }
    }
}

/// One above the highest expert of a session, 0 where there is none.
pub open spec fn expert_bound(layers: Seq<Seq<(u32, u32)>>) -> int
    decreases layers.len(),
{
    if layers.len() == 0 {
        0
    } else {
        row_bound(layers.last(), expert_bound(layers.drop_last()))
    }
}

/// Every expert has a number below the highest one.
pub open spec fn experts_fit(layers: Seq<Seq<(u32, u32)>>) -> bool {
    forall|l: int, i: int|
        0 <= l < layers.len() && 0 <= i < layers[l].len() ==> (#[trigger] layers[l][i]).0
            < u32::MAX
}

/// The highest counts first, equal counts by expert: the keys by which a row is ranked.
pub open spec fn rank_keys(row: Seq<(u32, u32)>) -> Seq<(u64, u64)> {
    Seq::new(row.len(), |i: int| ((u32::MAX - row[i].1) as u64, row[i].0 as u64))
}

/// The `n` most routed experts of a row, equal counts by expert.
pub open spec fn top_experts(row: Seq<(u32, u32)>, n: int) -> Seq<u32> {
    let order = sorted_pairs(rank_keys(row));
    Seq::new(
        if n < row.len() {
            n as nat
        } else {
            row.len()
        },
        |i: int| order[i].1 as u32,
    )
}

/// The layers with a recorded decision among the first `n`.
pub open spec fn routed_below(layers: Seq<Seq<(u32, u32)>>, n: int) -> Seq<u32>
    decreases n,
{
    if n <= 0 {
        Seq::empty()
    } else if layers[n - 1].len() > 0 {
        routed_below(layers, n - 1).push((n - 1) as u32)
    } else {
        routed_below(layers, n - 1)
    }
}

impl Session {
    /// One above the highest expert, 0 where there is none.
    pub fn n_experts(&self) -> (n: u32)
        requires
            experts_fit(self@.layers),
        ensures
            n == expert_bound(self@.layers),
    {
        let mut n: u32 = 0;
        let ghost all = self@.layers;
        proof {
            assert(all.take(0) =~= Seq::<Seq<(u32, u32)>>::empty());
        }
        for l in 0..self.layers.len()
            invariant
                all == self@.layers,
                all == rows_view(self.layers@),
                experts_fit(all),
                n == expert_bound(all.take(l as int)),
        {
            let row: &Vec<(u32, u32)> = &self.layers[l];
            let ghost start = n as int;
            proof {
                assert(row@ == all[l as int]);
                assert(row@.take(0) =~= Seq::<(u32, u32)>::empty());
            }
            for i in 0..row.len()
                invariant
                    all == self@.layers,
                    experts_fit(all),
                    0 <= l < all.len(),
                    row@ == all[l as int],
                    n == row_bound(row@.take(i as int), start),
            {
                proof {
                    assert(row@.take(i + 1).drop_last() =~= row@.take(i as int));
                    assert(all[l as int][i as int].0 < u32::MAX);
                }
                let e: u32 = row[i].0;
                if e + 1 > n {
                    n = e + 1;
                }
            }
            proof {
                assert(row@.take(row@.len() as int) =~= row@);
                assert(all.take(l + 1).drop_last() =~= all.take(l as int));
                assert(all.take(l + 1).last() == row@);
            }
        }
        proof {
            assert(all.take(all.len() as int) =~= all);
        }
        n
    }

    /// The `n` most routed experts of a layer, the highest count first, ties by expert.
    /// None where the layer was never routed.
    pub fn top_n(&self, layer: u32, n: usize) -> (out: Vec<u32>)
        ensures
            out@ == if layer < self@.layers.len() {
                top_experts(self@.layers[layer as int], n as int)
            } else {
                Seq::empty()
            },
    {
        if layer as usize >= self.layers.len() {
            return Vec::new();
        }
        let row: &Vec<(u32, u32)> = &self.layers[layer as usize];
        let len: usize = row.len();
        let mut keys: Vec<(u64, u64)> = Vec::new();
        for i in 0..len
            invariant
                len == row@.len(),
                keys@ == rank_keys(row@.take(i as int)),
        {
            keys.push(((u32::MAX - row[i].1) as u64, row[i].0 as u64));
            proof {
                assert(keys@ =~= rank_keys(row@.take(i + 1)));
            }
        }
        proof {
            assert(row@.take(len as int) =~= row@);
        }
        let order: Vec<(u64, u64)> = sorted(&keys);
        proof {
            broadcast use vstd::seq_lib::group_to_multiset_ensures;

            assert(order@.len() == order@.to_multiset().len());
            assert(keys@.len() == keys@.to_multiset().len());
            assert forall|i: int| 0 <= i < len implies (#[trigger] order@[i]).1 <= u32::MAX by {
                assert(order@.contains(order@[i]));
                assert(keys@.to_multiset().count(order@[i]) > 0);
                assert(keys@.contains(order@[i]));
            }
        }
        let m: usize = if n < len {
            n
        } else {
            len
        };
        let mut out: Vec<u32> = Vec::new();
        for i in 0..m
            invariant
                m <= len == order@.len(),
                out@.len() == i,
                forall|j: int| 0 <= j < len ==> (#[trigger] order@[j]).1 <= u32::MAX,
                forall|j: int| 0 <= j < i ==> #[trigger] out@[j] == order@[j].1 as u32,
        {
            proof {
                assert(order@[i as int].1 <= u32::MAX);
            }
            out.push(order[i].1 as u32);
        }
        proof {
            assert(out@ =~= top_experts(row@, n as int));
        }
        out
    }

    /// The layers with at least one recorded decision, ascending.
    pub fn routed_layers(&self) -> (out: Vec<u32>)
        requires
            self.layers@.len() <= 0x1_0000_0000,
        ensures
            out@ == routed_below(self@.layers, self@.layers.len() as int),
    {
        let mut out: Vec<u32> = Vec::new();
        for l in 0..self.layers.len()
            invariant
                self.layers@.len() <= 0x1_0000_0000,
                out@ == routed_below(self@.layers, l as int),
        {
            if self.layers[l].len() > 0 {
                out.push(l as u32);
            }
        }
        out
    }
}

/// The most routed experts come in the order of falling counts, equal counts by expert,
/// and all of a layer's experts come where enough are asked for.
pub proof fn law_top_experts_are_ranked(row: Seq<(u32, u32)>, n: int)
    requires
        n >= 0,
    ensures
        crate::sort::sorted_from(sorted_pairs(rank_keys(row)), rank_keys(row)),
        forall|i: int|
            0 <= i < top_experts(row, n).len() ==> #[trigger] top_experts(row, n)[i]
                == sorted_pairs(rank_keys(row))[i].1,
        n >= row.len() ==> top_experts(row, n).len() == row.len(),
{
    crate::sort::lemma_sorted_pairs(rank_keys(row));
    let keys = rank_keys(row);
    let order = sorted_pairs(keys);
    broadcast use vstd::seq_lib::group_to_multiset_ensures;

    assert(order.len() == order.to_multiset().len());
    assert(keys.len() == keys.to_multiset().len());
    assert forall|i: int| 0 <= i < top_experts(row, n).len() implies #[trigger] top_experts(
        row,
        n,
    )[i] == order[i].1 by {
        assert(order.contains(order[i]));
        assert(keys.to_multiset().count(order[i]) > 0);
        assert(keys.contains(order[i]));
    }
}

/// The products of the counts that two sorted rows have in common, from places `i` and
/// `j` on: the lower expert is passed over.
pub open spec fn joined_dot(a: Seq<(u32, u32)>, b: Seq<(u32, u32)>, i: int, j: int) -> nat
    decreases (a.len() - i) + (b.len() - j),
{
    if i >= a.len() || j >= b.len() || i < 0 || j < 0 {
        0
    } else if a[i].0 == b[j].0 {
        (a[i].1 * b[j].1) as nat + joined_dot(a, b, i + 1, j + 1)
    } else if a[i].0 < b[j].0 {
        joined_dot(a, b, i + 1, j)
    } else {
        joined_dot(a, b, i, j + 1)
    }
}

/// The squares of a row's counts.
pub open spec fn row_square(row: Seq<(u32, u32)>) -> nat
    decreases row.len(),
{
    if row.len() == 0 {
        0
    } else {
        row_square(row.drop_last()) + (row.last().1 * row.last().1) as nat
    }
}

/// The row of a layer; one that a session does not reach is empty.
pub open spec fn row_at(layers: Seq<Seq<(u32, u32)>>, l: int) -> Seq<(u32, u32)> {
    if 0 <= l < layers.len() {
        layers[l]
    } else {
        Seq::empty()
    }
}

/// The inner product of two sessions over the first `n` layers.
pub open spec fn dot_below(a: Seq<Seq<(u32, u32)>>, b: Seq<Seq<(u32, u32)>>, n: int) -> nat
    decreases n,
{
    if n <= 0 {
        0
    } else {
        dot_below(a, b, n - 1) + joined_dot(row_at(a, n - 1), row_at(b, n - 1), 0, 0)
    }
}

/// The squared length of a session over the first `n` layers.
pub open spec fn square_below(a: Seq<Seq<(u32, u32)>>, n: int) -> nat
    decreases n,
{
    if n <= 0 {
        0
    } else {
        square_below(a, n - 1) + row_square(row_at(a, n - 1))
    }
}

/// The layers that two sessions reach.
pub open spec fn reach(a: Seq<Seq<(u32, u32)>>, b: Seq<Seq<(u32, u32)>>) -> int {
    if a.len() > b.len() {
        a.len() as int
    } else {
        b.len() as int
    }
}

/// What the cosine of two sessions is made of: their inner product and their squared
/// lengths.
pub open spec fn cosine_of(a: SessionView, b: SessionView) -> (nat, nat, nat) {
    let n = reach(a.layers, b.layers);
    (dot_below(a.layers, b.layers, n), square_below(a.layers, n), square_below(b.layers, n))
}

proof fn lemma_square_grows(row: Seq<(u32, u32)>, n: int)
    requires
        0 <= n <= row.len(),
    ensures
        row_square(row.take(n)) <= row_square(row),
    decreases row.len(),
{
    if n < row.len() {
        lemma_square_grows(row.drop_last(), n);
        assert(row.drop_last().take(n) =~= row.take(n));
    } else {
        assert(row.take(n) =~= row);
    }
}

proof fn lemma_square_below_grows(a: Seq<Seq<(u32, u32)>>, m: int, n: int)
    requires
        0 <= m <= n,
    ensures
        square_below(a, m) <= square_below(a, n),
    decreases n,
{
    if m < n {
        lemma_square_below_grows(a, m, n - 1);
    }
}

proof fn lemma_dot_below_grows(
    a: Seq<Seq<(u32, u32)>>,
    b: Seq<Seq<(u32, u32)>>,
    m: int,
    n: int,
)
    requires
        0 <= m <= n,
    ensures
        dot_below(a, b, m) <= dot_below(a, b, n),
    decreases n,
{
    if m < n {
        lemma_dot_below_grows(a, b, m, n - 1);
    }
}

proof fn lemma_product_bound(x: u32, y: u32)
    ensures
        0 <= x * y <= 0xffff_fffe_0000_0001,
{
    assert(0 <= x * y <= 0xffff_fffe_0000_0001) by (nonlinear_arith)
        requires
            x <= 0xffff_ffff,
            y <= 0xffff_ffff,
    ;
}

fn add_square(start: u128, row: &[(u32, u32)]) -> (total: u128)
    requires
        start + row_square(row@) <= u128::MAX,
    ensures
        total == start + row_square(row@),
{
    let mut total: u128 = start;
    for i in 0..row.len()
        invariant
            start + row_square(row@) <= u128::MAX,
            total == start + row_square(row@.take(i as int)),
    {
        let c: u32 = row[i].1;
        proof {
            assert(row@.take(i + 1).drop_last() =~= row@.take(i as int));
            lemma_square_grows(row@, i + 1);
            lemma_product_bound(c, c);
        }
        let square: u64 = (c as u64) * (c as u64);
        total = total + square as u128;
    }
    proof {
        assert(row@.take(row@.len() as int) =~= row@);
    }
    total
}

fn add_dot(start: u128, a: &[(u32, u32)], b: &[(u32, u32)]) -> (total: u128)
    requires
        start + joined_dot(a@, b@, 0, 0) <= u128::MAX,
    ensures
        total == start + joined_dot(a@, b@, 0, 0),
{
    let n: usize = a.len();
    let m: usize = b.len();
    let mut total: u128 = start;
    let mut i: usize = 0;
    let mut j: usize = 0;
    while i < n && j < m
        invariant
            i <= n == a@.len(),
            j <= m == b@.len(),
            start + joined_dot(a@, b@, 0, 0) <= u128::MAX,
            total + joined_dot(a@, b@, i as int, j as int) == start + joined_dot(a@, b@, 0, 0),
        decreases (n - i) + (m - j),
    {
        if a[i].0 == b[j].0 {
            let x: u32 = a[i].1;
            let y: u32 = b[j].1;
            proof {
                lemma_product_bound(x, y);
            }
            let product: u64 = (x as u64) * (y as u64);
            total = total + product as u128;
            i += 1;
            j += 1;
        } else if a[i].0 < b[j].0 {
            i += 1;
        } else {
            j += 1;
        }
    }
    total
}

fn layer_row(layers: &Vec<Vec<(u32, u32)>>, l: usize) -> (row: &[(u32, u32)])
    ensures
        row@ == row_at(rows_view(layers@), l as int),
{
    if l < layers.len() {
        layers[l].as_slice()
    } else {
        &[]
    }
}

/// What the cosine of two sessions over the layers that either reaches is made of:
/// their inner product and their squared lengths.
pub fn cosine_parts(a: &Session, b: &Session) -> (parts: (u128, u128, u128))
    requires
        cosine_of(a@, b@).0 <= u128::MAX,
        cosine_of(a@, b@).1 <= u128::MAX,
        cosine_of(a@, b@).2 <= u128::MAX,
    ensures
        parts.0 == cosine_of(a@, b@).0,
        parts.1 == cosine_of(a@, b@).1,
        parts.2 == cosine_of(a@, b@).2,
{
    let n: usize = if a.layers.len() > b.layers.len() {
        a.layers.len()
    } else {
        b.layers.len()
    };
    let ghost la = a@.layers;
    let ghost lb = b@.layers;
    let mut dot: u128 = 0;
    let mut na: u128 = 0;
    let mut nb: u128 = 0;
    for l in 0..n
        invariant
            n == reach(la, lb),
            la == rows_view(a.layers@),
            lb == rows_view(b.layers@),
            dot_below(la, lb, n as int) <= u128::MAX,
            square_below(la, n as int) <= u128::MAX,
            square_below(lb, n as int) <= u128::MAX,
            dot == dot_below(la, lb, l as int),
            na == square_below(la, l as int),
            nb == square_below(lb, l as int),
    {
        let ra: &[(u32, u32)] = layer_row(&a.layers, l);
        let rb: &[(u32, u32)] = layer_row(&b.layers, l);
        proof {
            lemma_square_below_grows(la, l + 1, n as int);
            lemma_square_below_grows(lb, l + 1, n as int);
            lemma_dot_below_grows(la, lb, l + 1, n as int);
        }
        na = add_square(na, ra);
        nb = add_square(nb, rb);
        dot = add_dot(dot, ra, rb);
    }
    (dot, na, nb)
}

/// The count of an expert in a row; 0 where it is not there.
pub open spec fn count_from(row: Seq<(u32, u32)>, e: u32, j: int) -> int
    decreases row.len() - j,
{
    if j >= row.len() || j < 0 {
        0
    } else if row[j].0 == e {
        row[j].1 as int
    } else {
        count_from(row, e, j + 1)
    }
}

/// The sum over a row, from `i` on, of its counts times those of another.
pub open spec fn paired_sum(a: Seq<(u32, u32)>, b: Seq<(u32, u32)>, i: int, j: int) -> int
    decreases a.len() - i,
{
    if i >= a.len() || i < 0 {
        0
    } else {
        a[i].1 * count_from(b, a[i].0, j) + paired_sum(a, b, i + 1, j)
    }
}

proof fn lemma_count_zero(row: Seq<(u32, u32)>, e: u32, j: int)
    requires
        row_ascending(row),
        0 <= j < row.len(),
        e < row[j].0,
    ensures
        count_from(row, e, j) == 0,
    decreases row.len() - j,
{
    if j + 1 < row.len() {
        assert(row[j].0 < row[j + 1].0);
        lemma_count_zero(row, e, j + 1);
    } else {
        assert(count_from(row, e, j + 1) == 0);
    }
}

proof fn lemma_skip_front(a: Seq<(u32, u32)>, b: Seq<(u32, u32)>, i: int, j: int)
    requires
        row_ascending(a),
        0 <= i <= a.len(),
        0 <= j < b.len(),
        forall|k: int| i <= k < a.len() ==> (#[trigger] a[k]).0 > b[j].0,
    ensures
        paired_sum(a, b, i, j) == paired_sum(a, b, i, j + 1),
    decreases a.len() - i,
{
    if i < a.len() {
        assert(a[i].0 > b[j].0);
        lemma_skip_front(a, b, i + 1, j);
    }
}

proof fn lemma_join(a: Seq<(u32, u32)>, b: Seq<(u32, u32)>, i: int, j: int)
    requires
        row_ascending(a),
        row_ascending(b),
        0 <= i <= a.len(),
        0 <= j <= b.len(),
    ensures
        joined_dot(a, b, i, j) == paired_sum(a, b, i, j),
    decreases (a.len() - i) + (b.len() - j),
{
    if i < a.len() && j < b.len() {
        if a[i].0 == b[j].0 {
            lemma_join(a, b, i + 1, j + 1);
            assert forall|k: int| i + 1 <= k < a.len() implies (#[trigger] a[k]).0 > b[j].0 by {
                assert(a[i].0 < a[k].0);
            }
            lemma_skip_front(a, b, i + 1, j);
            lemma_product_bound(a[i].1, b[j].1);
        } else if a[i].0 < b[j].0 {
            lemma_join(a, b, i + 1, j);
            lemma_count_zero(b, a[i].0, j);
            assert(a[i].1 * 0 == 0);
        } else {
            lemma_join(a, b, i, j + 1);
            assert forall|k: int| i <= k < a.len() implies (#[trigger] a[k]).0 > b[j].0 by {
                if k > i {
                    assert(a[i].0 < a[k].0);
                }
            }
            lemma_skip_front(a, b, i, j);
        }
    } else if i < a.len() {
        lemma_paired_zero(a, b, i, j);
    }
}

proof fn lemma_paired_zero(a: Seq<(u32, u32)>, b: Seq<(u32, u32)>, i: int, j: int)
    requires
        0 <= i <= a.len(),
        j >= b.len(),
    ensures
        paired_sum(a, b, i, j) == 0,
    decreases a.len() - i,
{
    if i < a.len() {
        lemma_paired_zero(a, b, i + 1, j);
        assert(a[i].1 * 0 == 0);
    }
}

/// Joining two sorted rows gives their inner product: every expert's count in the one
/// times its count in the other.
pub proof fn law_join_is_the_inner_product(a: Seq<(u32, u32)>, b: Seq<(u32, u32)>)
    requires
        row_ascending(a),
        row_ascending(b),
    ensures
        joined_dot(a, b, 0, 0) == paired_sum(a, b, 0, 0),
{
    lemma_join(a, b, 0, 0);
}

/// The best of scores is the first of the highest.
pub open spec fn best_below(keys: Seq<u64>, n: int) -> int
    decreases n,
{
    if n <= 1 {
        0
    } else {
        let b = best_below(keys, n - 1);
        if keys[n - 1] > keys[b] {
            n - 1
        } else {
            b
        }
    }
}

/// Picks the stored session that matches best: the first with the highest similarity,
/// where that reaches the threshold and is above 0. Similarities and threshold are
/// 64-bit floats, given by their bits; no similarity is a NaN, and no threshold that is
/// one is reached.
pub fn best_match(similarities: &[u64], threshold: u64) -> (at: Option<usize>)
    requires
        !crate::rank::any_nan(similarities@),
    ensures
        ({
            let keys = crate::rank::score_keys(similarities@);
            let best = best_below(keys, keys.len() as int);
            match at {
                Some(i) => {
                    &&& i < similarities@.len()
                    &&& i == best
                    &&& !crate::rank::is_nan(threshold)
                    &&& crate::rank::sign_magnitude(similarities@[best])
                        >= crate::rank::sign_magnitude(threshold)
                    &&& crate::rank::sign_magnitude(similarities@[best]) > 0
                },
                None => similarities@.len() == 0 || crate::rank::is_nan(threshold)
                    || crate::rank::sign_magnitude(similarities@[best]) < crate::rank::sign_magnitude(threshold) || crate::rank::sign_magnitude(
                    similarities@[best],
                ) <= 0,
            }
        }),
{
    let n: usize = similarities.len();
    if n == 0 {
        return None;
    }
    let ghost keys = crate::rank::score_keys(similarities@);
    let mut best: usize = 0;
    for i in 1..n
        invariant
            n == similarities@.len(),
            keys == crate::rank::score_keys(similarities@),
            best < i,
            best == best_below(keys, i as int),
    {
        if crate::rank::key_of(similarities[i]) > crate::rank::key_of(similarities[best]) {
            best = i;
        }
    }
    let key: u64 = crate::rank::key_of(similarities[best]);
    if !crate::decode::not_a_number(threshold) && key >= crate::rank::key_of(threshold) && key > crate::rank::key_of(0) {
        Some(best)
    } else {
        None
    }
}

fn holds(v: &[u32], x: u32) -> (yes: bool)
    ensures
        yes == v@.contains(x),
{
    for i in 0..v.len()
        invariant
            forall|k: int| 0 <= k < i ==> #[trigger] v@[k] != x,
    {
        if v[i] == x {
            return true;
        }
    }
    false
}

/// A list holds those items of `v` that pass.
spec fn picks(out: Seq<u32>, v: Seq<u32>, within: Option<&Vec<u32>>) -> bool {
    forall|x: u32|
        out.contains(x) <==> v.contains(x) && (within is Some ==> within->Some_0@.contains(x))
}

/// The items of a list that pass, each once.
fn distinct(v: &[u32], within: Option<&Vec<u32>>) -> (out: Vec<u32>)
    ensures
        out@.no_duplicates(),
        forall|x: u32|
            out@.contains(x) <==> v@.contains(x) && (within is Some ==> within->Some_0@.contains(
                x,
            )),
{
    let mut out: Vec<u32> = Vec::new();
    for i in 0..v.len()
        invariant
            out@.no_duplicates(),
            picks(out@, v@.take(i as int), within),
    {
        let x: u32 = v[i];
        let passes: bool = match within {
            Some(w) => holds(w.as_slice(), x),
            None => true,
        };
        let ghost before = out@;
        if passes && !holds(out.as_slice(), x) {
            out.push(x);
        }
        proof {
            let a = v@.take(i as int);
            let b = v@.take(i + 1);
            assert(picks(before, a, within));
            assert forall|y: u32| out@.contains(y) <==> b.contains(y) && (within is Some
                ==> within->Some_0@.contains(y)) by {
                assert(before.contains(y) <==> a.contains(y) && (within is Some
                    ==> within->Some_0@.contains(y)));
                assert(b =~= a.push(x));
                assert(b[i as int] == x);
                if b.contains(y) {
                    let k = choose|k: int| 0 <= k < b.len() && b[k] == y;
                    if k < i {
                        assert(a[k] == y);
                    }
                }
                if a.contains(y) {
                    let k = choose|k: int| 0 <= k < a.len() && a[k] == y;
                    assert(b[k] == y);
                }
                if out@.len() > before.len() {
                    assert(out@[before.len() as int] == x);
                    if before.contains(y) {
                        let k = choose|k: int| 0 <= k < before.len() && before[k] == y;
                        assert(out@[k] == y);
                    }
                    if out@.contains(y) {
                        let k = choose|k: int| 0 <= k < out@.len() && out@[k] == y;
                        if k < before.len() {
                            assert(before[k] == y);
                        }
                    }
                }
            }
        }
    }
    proof {
        assert(v@.take(v@.len() as int) =~= v@);
    }
    out
}

/// How many experts two top lists share, and the size of the larger.
pub open spec fn overlap(a: Seq<u32>, b: Seq<u32>) -> (nat, nat) {
    let sa = a.to_set();
    let sb = b.to_set();
    (sa.intersect(sb).len(), if sa.len() > sb.len() {
        sa.len()
    } else {
        sb.len()
    })
}

/// The top experts of a layer of a session.
pub open spec fn layer_top(s: SessionView, l: int, k: int) -> Seq<u32> {
    if l < s.layers.len() {
        top_experts(s.layers[l], k)
    } else {
        Seq::empty()
    }
}

/// The overlaps of the top `k` of the first `n` layers, without those in which neither
/// session has any.
pub open spec fn overlaps_below(a: SessionView, b: SessionView, k: int, n: int) -> Seq<(nat, nat)>
    decreases n,
{
    if n <= 0 {
        Seq::empty()
    } else {
        let ta = layer_top(a, n - 1, k);
        let tb = layer_top(b, n - 1, k);
        if ta.len() == 0 && tb.len() == 0 {
            overlaps_below(a, b, k, n - 1)
        } else {
            overlaps_below(a, b, k, n - 1).push(overlap(ta, tb))
        }
    }
}

/// The views of overlaps.
pub open spec fn overlaps_view(v: Seq<(usize, usize)>) -> Seq<(nat, nat)> {
    Seq::new(v.len(), |i: int| (v[i].0 as nat, v[i].1 as nat))
}

fn overlap_of(ta: &Vec<u32>, tb: &Vec<u32>) -> (r: (usize, usize))
    ensures
        (r.0 as nat, r.1 as nat) == overlap(ta@, tb@),
{
    let da: Vec<u32> = distinct(ta.as_slice(), None);
    let db: Vec<u32> = distinct(tb.as_slice(), None);
    let both: Vec<u32> = distinct(ta.as_slice(), Some(tb));
    proof {
        da@.unique_seq_to_set();
        db@.unique_seq_to_set();
        both@.unique_seq_to_set();
        assert(da@.to_set() =~= ta@.to_set());
        assert(db@.to_set() =~= tb@.to_set());
        assert(both@.to_set() =~= ta@.to_set().intersect(tb@.to_set()));
    }
    (both.len(), if da.len() > db.len() {
        da.len()
    } else {
        db.len()
    })
}

/// What the mean overlap of the top `k` experts of two sessions is made of: per layer
/// in which either has any, how many they share and the size of the larger list.
pub fn overlap_parts(a: &Session, b: &Session, k: usize) -> (out: Vec<(usize, usize)>)
    requires
        reach(a@.layers, b@.layers) <= 0x1_0000_0000,
    ensures
        overlaps_view(out@) == overlaps_below(a@, b@, k as int, reach(a@.layers, b@.layers)),
{
    let n: usize = if a.layers.len() > b.layers.len() {
        a.layers.len()
    } else {
        b.layers.len()
    };
    let mut out: Vec<(usize, usize)> = Vec::new();
    proof {
        assert(overlaps_view(out@) =~= Seq::<(nat, nat)>::empty());
    }
    for l in 0..n
        invariant
            n <= 0x1_0000_0000,
            overlaps_view(out@) == overlaps_below(a@, b@, k as int, l as int),
    {
        let ta: Vec<u32> = a.top_n(l as u32, k);
        let tb: Vec<u32> = b.top_n(l as u32, k);
        if ta.len() > 0 || tb.len() > 0 {
            let ghost before = out@;
            let r: (usize, usize) = overlap_of(&ta, &tb);
            out.push(r);
            proof {
                assert(overlaps_view(out@) =~= overlaps_view(before).push(
                    (r.0 as nat, r.1 as nat),
                ));
            }
        }
    }
    out
}

/// The bound on experts lies right above the highest expert that was routed to.
pub proof fn law_experts_lie_below_their_bound(layers: Seq<Seq<(u32, u32)>>, l: int, i: int)
    ensures
        expert_bound(layers) >= 0,
        0 <= l < layers.len() && 0 <= i < layers[l].len() ==> layers[l][i].0 < expert_bound(layers),
        expert_bound(layers) > 0 ==> exists|m: int, k: int|
            0 <= m < layers.len() && 0 <= k < layers[m].len() && (#[trigger] layers[m][k]).0
                == expert_bound(layers) - 1,
    decreases layers.len(),
{
    if layers.len() > 0 {
        let front = layers.drop_last();
        let last = layers.last();
        law_experts_lie_below_their_bound(front, l, i);
        let before = expert_bound(front);
        lemma_row_bound(last, before, i);
        if 0 <= l < front.len() {
            assert(front[l] == layers[l]);
        }
        if expert_bound(layers) > before {
            let k = choose|k: int|
                0 <= k < last.len() && (#[trigger] last[k]).0 == row_bound(last, before) - 1;
            assert(layers[layers.len() - 1][k].0 == expert_bound(layers) - 1);
        } else if before > 0 {
            let (m, k) = choose|m: int, k: int|
                0 <= m < front.len() && 0 <= k < front[m].len() && (#[trigger] front[m][k]).0
                    == before - 1;
            assert(layers[m][k].0 == expert_bound(layers) - 1);
        }
    }
}

proof fn lemma_row_bound(row: Seq<(u32, u32)>, from: int, i: int)
    ensures
        row_bound(row, from) >= from,
        0 <= i < row.len() ==> row[i].0 < row_bound(row, from),
        row_bound(row, from) > from ==> exists|k: int|
            0 <= k < row.len() && (#[trigger] row[k]).0 == row_bound(row, from) - 1,
    decreases row.len(),
{
    if row.len() > 0 {
        let front = row.drop_last();
        lemma_row_bound(front, from, i);
        let before = row_bound(front, from);
        if 0 <= i < front.len() {
            assert(front[i] == row[i]);
        }
        if row.last().0 + 1 > before {
            assert(row[row.len() - 1].0 == row_bound(row, from) - 1);
        } else if before > from {
            let k = choose|k: int|
                0 <= k < front.len() && (#[trigger] front[k]).0 == before - 1;
            assert(row[k].0 == row_bound(row, from) - 1);
        }
    }
}

/// The routed layers are those with a count, in order.
pub proof fn law_routed_layers_have_counts(layers: Seq<Seq<(u32, u32)>>, n: int, l: u32)
    requires
        0 <= n <= layers.len(),
        n <= 0x1_0000_0000,
    ensures
        routed_below(layers, n).contains(l) <==> l < n && layers[l as int].len() > 0,
        forall|a: int, b: int|
            0 <= a < b < routed_below(layers, n).len() ==> #[trigger] routed_below(layers, n)[a]
                < #[trigger] routed_below(layers, n)[b],
        forall|a: int|
            0 <= a < routed_below(layers, n).len() ==> (#[trigger] routed_below(layers, n)[a]) < n,
    decreases n,
{
    if n > 0 {
        law_routed_layers_have_counts(layers, n - 1, l);
        let p = routed_below(layers, n - 1);
        let q = routed_below(layers, n);
        let last = (n - 1) as u32;
        if layers[n - 1].len() > 0 {
            assert(q =~= p.push(last));
            if p.contains(l) {
                let k = choose|k: int| 0 <= k < p.len() && p[k] == l;
                assert(q[k] == l);
            }
            if l == last {
                assert(q[p.len() as int] == l);
            }
            if q.contains(l) {
                let k = choose|k: int| 0 <= k < q.len() && q[k] == l;
                if k < p.len() {
                    assert(p[k] == l);
                }
            }
        }
    }
}

/// The best of several is the first of the greatest.
pub proof fn law_best_match_is_the_first_greatest(keys: Seq<u64>, n: int, i: int)
    requires
        0 < n <= keys.len(),
        0 <= i < n,
    ensures
        0 <= best_below(keys, n) < n,
        keys[i] <= keys[best_below(keys, n)],
        i < best_below(keys, n) ==> keys[i] < keys[best_below(keys, n)],
    decreases n,
{
    if n > 1 {
        law_best_match_is_the_first_greatest(keys, n - 1, 0);
        if i < n - 1 {
            law_best_match_is_the_first_greatest(keys, n - 1, i);
        }
    }
}

/// Counts add up: of rows one behind the other the total is the sum of theirs, and of one
/// entry it is its count.
pub proof fn law_totals_add(a: Seq<(u32, u32)>, b: Seq<(u32, u32)>, e: u32, count: u32)
    ensures
        row_total(a + b) == row_total(a) + row_total(b),
        row_total(seq![(e, count)]) == count,
    decreases b.len(),
{
    let one = seq![(e, count)];
    assert(one.drop_last() =~= Seq::<(u32, u32)>::empty());
    assert(row_total(one.drop_last()) == 0);
    if b.len() == 0 {
        assert(a + b =~= a);
    } else {
        assert((a + b).drop_last() =~= a + b.drop_last());
        law_totals_add(a, b.drop_last(), e, count);
    }
}

/// A session is as near to itself as can be: its inner product with itself is its square.
pub proof fn law_session_matches_itself(a: Seq<Seq<(u32, u32)>>, n: int)
    requires
        0 <= n <= a.len(),
    ensures
        dot_below(a, a, n) == square_below(a, n),
    decreases n,
{
    if n > 0 {
        law_session_matches_itself(a, n - 1);
        lemma_joined_self(a[n - 1], 0);
        assert(a[n - 1].skip(0) =~= a[n - 1]);
    }
}

proof fn lemma_joined_self(row: Seq<(u32, u32)>, i: int)
    requires
        0 <= i <= row.len(),
    ensures
        joined_dot(row, row, i, i) == row_square(row.skip(i)),
    decreases row.len() - i,
{
    let rest = row.skip(i);
    if i < row.len() {
        lemma_joined_self(row, i + 1);
        assert(rest =~= seq![row[i]] + row.skip(i + 1));
        lemma_square_head(row[i], row.skip(i + 1));
    } else {
        assert(rest.len() == 0);
    }
}

proof fn lemma_square_head(x: (u32, u32), rest: Seq<(u32, u32)>)
    ensures
        row_square(seq![x] + rest) == x.1 * x.1 + row_square(rest),
    decreases rest.len(),
{
    let all = seq![x] + rest;
    if rest.len() == 0 {
        assert(all.drop_last() =~= Seq::<(u32, u32)>::empty());
        assert(row_square(all.drop_last()) == 0);
    } else {
        assert(all.drop_last() =~= seq![x] + rest.drop_last());
        lemma_square_head(x, rest.drop_last());
    }
}

/// It does not matter which of two sessions comes first.
pub proof fn law_inner_product_is_symmetric(
    a: Seq<(u32, u32)>,
    b: Seq<(u32, u32)>,
    i: int,
    j: int,
)
    ensures
        joined_dot(a, b, i, j) == joined_dot(b, a, j, i),
    decreases (a.len() - i) + (b.len() - j),
{
    if !(i >= a.len() || j >= b.len() || i < 0 || j < 0) {
        if a[i].0 == b[j].0 {
            law_inner_product_is_symmetric(a, b, i + 1, j + 1);
            assert(a[i].1 * b[j].1 == b[j].1 * a[i].1) by (nonlinear_arith);
        } else if a[i].0 < b[j].0 {
            law_inner_product_is_symmetric(a, b, i + 1, j);
        } else {
            law_inner_product_is_symmetric(a, b, i, j + 1);
        }
    }
}

/// The top experts are those with the most requests: there is an order of all entries of a
/// row, by falling counts and by rising experts among equal counts, of which they are the
/// first.
pub proof fn law_top_experts_have_the_most_requests(row: Seq<(u32, u32)>, n: int) -> (at: Seq<int>)
    requires
        row_ascending(row),
        0 <= n,
    ensures
        at.len() == row.len(),
        at.no_duplicates(),
        forall|i: int| 0 <= i < at.len() ==> 0 <= #[trigger] at[i] < row.len(),
        forall|i: int, j: int|
            0 <= i < j < at.len() ==> row[#[trigger] at[i]].1 > row[#[trigger] at[j]].1 || (
            row[at[i]].1 == row[at[j]].1 && row[at[i]].0 < row[at[j]].0),
        top_experts(row, n).len() == if n < row.len() {
            n
        } else {
            row.len() as int
        },
        forall|i: int|
            0 <= i < top_experts(row, n).len() ==> #[trigger] top_experts(row, n)[i]
                == row[at[i]].0,
{
    broadcast use vstd::seq_lib::group_to_multiset_ensures;

    let keys = rank_keys(row);
    let order = sorted_pairs(keys);
    crate::sort::lemma_sorted_pairs(keys);
    assert(keys.no_duplicates()) by {
        assert forall|i: int, j: int| 0 <= i < j < keys.len() implies keys[i] != keys[j] by {
            assert(row[i].0 < row[j].0);
        }
    }
    assert(order.len() == order.to_multiset().len());
    keys.lemma_multiset_has_no_duplicates();
    order.lemma_multiset_has_no_duplicates_conv();
    let at = Seq::new(
        row.len(),
        |i: int| choose|k: int| 0 <= k < row.len() && keys[k] == order[i],
    );
    assert forall|i: int| 0 <= i < at.len() implies 0 <= #[trigger] at[i] < row.len()
        && keys[at[i]] == order[i] by {
        assert(order.contains(order[i]));
        assert(keys.to_multiset().count(order[i]) > 0);
        assert(keys.contains(order[i]));
        let k = choose|k: int| 0 <= k < row.len() && keys[k] == order[i];
        assert(0 <= k < row.len() && keys[k] == order[i]);
    }
    assert forall|i: int, j: int| 0 <= i < j < at.len() implies row[#[trigger] at[i]].1
        > row[#[trigger] at[j]].1 || (row[at[i]].1 == row[at[j]].1 && row[at[i]].0
        < row[at[j]].0) by {
        assert(keys[at[i]] == order[i] && keys[at[j]] == order[j]);
        assert(crate::sort::pair_le(order[i], order[j]));
        assert(order[i] != order[j]);
    }
    assert(at.no_duplicates()) by {
        assert forall|i: int, j: int| 0 <= i < j < at.len() implies at[i] != at[j] by {
            assert(keys[at[i]] == order[i] && keys[at[j]] == order[j]);
            assert(order[i] != order[j]);
        }
    }
    assert forall|i: int| 0 <= i < top_experts(row, n).len() implies #[trigger] top_experts(
        row,
        n,
    )[i] == row[at[i]].0 by {
        assert(keys[at[i]] == order[i]);
    }
    at
}

/// Two lists overlap in as many experts whichever comes first, in no more than the longer one
/// has, and fully where they hold the same.
pub proof fn law_overlap_is_shared(a: Seq<u32>, b: Seq<u32>)
    ensures
        overlap(a, b) == overlap(b, a),
        overlap(a, b).0 <= overlap(a, b).1,
        a.to_set() == b.to_set() ==> overlap(a, b).0 == overlap(a, b).1,
{
    let (x, y) = (a.to_set(), b.to_set());
    a.lemma_cardinality_of_set();
    b.lemma_cardinality_of_set();
    assert(x.intersect(y) =~= y.intersect(x));
    vstd::set_lib::lemma_len_intersect(x, y);
    vstd::set_lib::lemma_len_intersect(y, x);
    if x == y {
        assert(x.intersect(y) =~= x);
    }
}

} // verus!
