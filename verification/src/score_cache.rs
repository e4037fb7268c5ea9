//! The expert scores of a source model, kept across runs.
//!
//! ```text
//! magic "MKSCORE1" | u32 version | u32 n_layers | u32 n_experts
//! records: u32 layer | u64 score bits x n_experts
//! ```
//!
//! The file grows by whole records; what a crash leaves of the last one is ignored, and
//! a later record of a layer replaces an earlier one.

use crate::directory::num_at;
use crate::le::le;
use crate::le::lemma_le_len;
use crate::le::lemma_of_le_le;
use crate::le::lemma_pow256;
use crate::le::push_le;
use crate::le::read_le;
use crate::rank::any_nan;
use crate::rank::is_top;
use crate::rank::score_keys;
use crate::rank::top_scores;
use crate::slice_resume::LayerMap;
use vstd::prelude::*;

verus! {

/// "MKSCORE1" as a little-endian number.
pub const SCORE_MAGIC: u64 = 0x3145_524f_4353_4b4d;

/// The version of the format.
pub const SCORE_VERSION: u64 = 1;

/// The bytes before the first record.
pub const SCORE_HEADER: usize = 20;

/// The bytes of a record.
pub open spec fn record_bytes(n_experts: int) -> int {
    4 + 8 * n_experts
}

/// A cache of a model with `n_experts` experts.
pub open spec fn cache_header(bytes: Seq<u8>, n_experts: nat) -> bool {
    &&& bytes.len() >= 20
    &&& num_at(bytes, 0, 8) == SCORE_MAGIC
    &&& num_at(bytes, 8, 4) == SCORE_VERSION
    &&& num_at(bytes, 16, 4) == n_experts
}

/// The complete records.
pub open spec fn record_count(bytes: Seq<u8>, n_experts: nat) -> int {
    (bytes.len() - 20) / record_bytes(n_experts as int)
}

/// Where record `k` starts.
pub open spec fn record_pos(n_experts: nat, k: int) -> int {
    20 + k * record_bytes(n_experts as int)
}

/// The scores at `pos`.
pub open spec fn scores_at(bytes: Seq<u8>, pos: int, n: nat) -> Seq<u64> {
    Seq::new(n, |i: int| num_at(bytes, pos + 8 * i, 8) as u64)
}

/// What the first `k` records say.
pub open spec fn scores_read(bytes: Seq<u8>, n_experts: nat, k: int) -> Map<nat, Seq<u64>>
    decreases k,
{
    if k <= 0 {
        Map::empty()
    } else {
        let pos = record_pos(n_experts, k - 1);
        scores_read(bytes, n_experts, k - 1).insert(
            num_at(bytes, pos, 4),
            scores_at(bytes, pos + 4, n_experts),
        )
    }
}

/// The scores of a source model by layer, and how much of the file they fill.
pub struct ScoreCache {
    pub scores: LayerMap<u64>,
    /// Where the last complete record ends.
    pub valid_len: usize,
}

fn read_scores(bytes: &[u8], pos: usize, n: usize) -> (v: Vec<u64>)
    requires
        pos + 8 * n <= bytes@.len(),
    ensures
        v@ == scores_at(bytes@, pos as int, n as nat),
{
    let total: usize = bytes.len();
    let mut v: Vec<u64> = Vec::new();
    for i in 0..n
        invariant
            pos + 8 * n <= bytes@.len(),
            total == bytes@.len(),
            v@ == scores_at(bytes@, pos as int, i as nat),
    {
        v.push(read_le(bytes, pos + 8 * i, 8));
        proof {
            assert(v@ =~= scores_at(bytes@, pos as int, (i + 1) as nat));
        }
    }
    v
}

impl ScoreCache {
    /// Reads a cache for a model with `n_experts` experts: the scores of its complete
    /// records. Nothing where it is no cache of such a model.
    pub fn open(bytes: &[u8], n_experts: u32) -> (c: Option<ScoreCache>)
        ensures
            match c {
                None => !cache_header(bytes@, n_experts as nat),
                Some(c) => {
                    let n = record_count(bytes@, n_experts as nat);
                    &&& cache_header(bytes@, n_experts as nat)
                    &&& c.scores@ == scores_read(bytes@, n_experts as nat, n)
                    &&& c.valid_len == record_pos(n_experts as nat, n)
                },
            },
    {
        let len: usize = bytes.len();
        if len < SCORE_HEADER {
            return None;
        }
        if read_le(bytes, 0, 8) != SCORE_MAGIC || read_le(bytes, 8, 4) != SCORE_VERSION
            || read_le(bytes, 16, 4) != n_experts as u64 {
            return None;
        }
        let ghost count = record_count(bytes@, n_experts as nat);
        let rec: u64 = 4 + 8 * (n_experts as u64);
        let mut scores: LayerMap<u64> = LayerMap::new();
        let mut pos: usize = SCORE_HEADER;
        let ghost mut k: int = 0;
        while rec <= (len - pos) as u64
            invariant
                len == bytes@.len(),
                20 <= pos <= len,
                rec == record_bytes(n_experts as int),
                0 <= k,
                pos == record_pos(n_experts as nat, k),
                scores@ == scores_read(bytes@, n_experts as nat, k),
            decreases len - pos,
        {
            let layer: u64 = read_le(bytes, pos, 4);
            proof {
                lemma_pow256();
            }
            let list: Vec<u64> = read_scores(bytes, pos + 4, n_experts as usize);
            scores.put(layer as usize, list);
            proof {
                let r = record_bytes(n_experts as int);
                assert((k + 1) * r == k * r + r) by (nonlinear_arith);
                k = k + 1;
            }
            pos = pos + rec as usize;
        }
        proof {
            let r = record_bytes(n_experts as int);
            let rest = len - 20;
            assert(rest / r == k) by (nonlinear_arith)
                requires
                    k * r <= rest,
                    rest < k * r + r,
                    r > 0,
            ;
        }
        Some(ScoreCache { scores, valid_len: pos })
    }
}

/// The header of a cache.
pub open spec fn header_of(n_layers: u32, n_experts: u32) -> Seq<u8> {
    le(SCORE_MAGIC as nat, 8) + le(SCORE_VERSION as nat, 4) + le(n_layers as nat, 4) + le(
        n_experts as nat,
        4,
    )
}

/// Scores as bytes.
pub open spec fn scores_bytes(scores: Seq<u64>) -> Seq<u8>
    decreases scores.len(),
{
    if scores.len() == 0 {
        Seq::empty()
    } else {
        scores_bytes(scores.drop_last()) + le(scores.last() as nat, 8)
    }
}

/// A record.
pub open spec fn record_of(layer: u32, scores: Seq<u64>) -> Seq<u8> {
    le(layer as nat, 4) + scores_bytes(scores)
}

/// The header of a new cache.
pub fn write_header(n_layers: u32, n_experts: u32) -> (out: Vec<u8>)
    ensures
        out@ == header_of(n_layers, n_experts),
{
    let mut out: Vec<u8> = Vec::new();
    push_le(&mut out, SCORE_MAGIC, 8);
    push_le(&mut out, SCORE_VERSION, 4);
    push_le(&mut out, n_layers as u64, 4);
    push_le(&mut out, n_experts as u64, 4);
    proof {
        assert(out@ =~= header_of(n_layers, n_experts));
    }
    out
}

/// The record of a layer's scores, given by their bits.
pub fn record(layer: u32, scores: &[u64]) -> (out: Vec<u8>)
    ensures
        out@ == record_of(layer, scores@),
{
    let mut out: Vec<u8> = Vec::new();
    push_le(&mut out, layer as u64, 4);
    for i in 0..scores.len()
        invariant
            out@ == le(layer as nat, 4) + scores_bytes(scores@.take(i as int)),
    {
        let ghost before = out@;
        push_le(&mut out, scores[i], 8);
        proof {
            assert(scores@.take(i + 1).drop_last() =~= scores@.take(i as int));
            assert(out@ =~= le(layer as nat, 4) + scores_bytes(scores@.take(i + 1)));
        }
    }
    proof {
        assert(scores@.take(scores@.len() as int) =~= scores@);
    }
    out
}

/// Records, one behind the other.
pub open spec fn records_of(list: Seq<(u32, Seq<u64>)>) -> Seq<u8>
    decreases list.len(),
{
    if list.len() == 0 {
        Seq::empty()
    } else {
        records_of(list.drop_last()) + record_of(list.last().0, list.last().1)
    }
}

/// What records say.
pub open spec fn recorded(list: Seq<(u32, Seq<u64>)>) -> Map<nat, Seq<u64>>
    decreases list.len(),
{
    if list.len() == 0 {
        Map::empty()
    } else {
        recorded(list.drop_last()).insert(list.last().0 as nat, list.last().1)
    }
}

/// Every record has a score per expert.
pub open spec fn uniform(list: Seq<(u32, Seq<u64>)>, n: nat) -> bool {
    forall|i: int| 0 <= i < list.len() ==> (#[trigger] list[i]).1.len() == n
}

/// Scores read back from their bytes.
pub proof fn lemma_scores_bytes(scores: Seq<u64>, front: Seq<u8>, back: Seq<u8>, i: int)
    requires
        0 <= i < scores.len(),
    ensures
        scores_bytes(scores).len() == 8 * scores.len(),
        num_at(front + scores_bytes(scores) + back, front.len() + 8 * i, 8) == scores[i],
    decreases scores.len(),
{
    let last = le(scores.last() as nat, 8);
    lemma_le_len(scores.last() as nat, 8);
    let rest = scores.drop_last();
    lemma_scores_len(rest);
    let all = front + scores_bytes(scores) + back;
    if i < rest.len() {
        lemma_scores_bytes(rest, front, last + back, i);
        assert(all =~= front + scores_bytes(rest) + (last + back));
    } else {
        let pos = front.len() + 8 * i;
        assert(all.subrange(pos as int, pos + 8) =~= last);
        lemma_pow256();
        lemma_of_le_le(scores.last() as nat, 8);
    }
}

/// Eight bytes per score.
pub proof fn lemma_scores_len(scores: Seq<u64>)
    ensures
        scores_bytes(scores).len() == 8 * scores.len(),
    decreases scores.len(),
{
    if scores.len() > 0 {
        lemma_scores_len(scores.drop_last());
        lemma_le_len(scores.last() as nat, 8);
    }
}

proof fn lemma_record_len(layer: u32, scores: Seq<u64>)
    ensures
        record_of(layer, scores).len() == record_bytes(scores.len() as int),
{
    lemma_le_len(layer as nat, 4);
    lemma_scores_len(scores);
}

proof fn lemma_records_len(list: Seq<(u32, Seq<u64>)>, n: nat)
    requires
        uniform(list, n),
    ensures
        records_of(list).len() == list.len() * record_bytes(n as int),
    decreases list.len(),
{
    let r = record_bytes(n as int);
    if list.len() > 0 {
        lemma_records_len(list.drop_last(), n);
        assert(list[list.len() - 1].1.len() == n);
        lemma_record_len(list.last().0, list.last().1);
        assert((list.len() - 1) * r + r == list.len() * r) by (nonlinear_arith);
    } else {
        assert(0 * r == 0);
    }
}

proof fn lemma_header(n_layers: u32, n_experts: u32, rest: Seq<u8>)
    ensures
        header_of(n_layers, n_experts).len() == 20,
        cache_header(header_of(n_layers, n_experts) + rest, n_experts as nat),
{
    let h = header_of(n_layers, n_experts);
    lemma_le_len(SCORE_MAGIC as nat, 8);
    lemma_le_len(SCORE_VERSION as nat, 4);
    lemma_le_len(n_layers as nat, 4);
    lemma_le_len(n_experts as nat, 4);
    lemma_pow256();
    lemma_of_le_le(SCORE_MAGIC as nat, 8);
    lemma_of_le_le(SCORE_VERSION as nat, 4);
    lemma_of_le_le(n_experts as nat, 4);
    let all = h + rest;
    assert(all.subrange(0, 8) =~= le(SCORE_MAGIC as nat, 8));
    assert(all.subrange(8, 12) =~= le(SCORE_VERSION as nat, 4));
    assert(all.subrange(16, 20) =~= le(n_experts as nat, 4));
}

proof fn lemma_records_read(
    h: Seq<u8>,
    list: Seq<(u32, Seq<u64>)>,
    n: nat,
    rest: Seq<u8>,
)
    requires
        h.len() == 20,
        uniform(list, n),
    ensures
        scores_read(h + records_of(list) + rest, n, list.len() as int) == recorded(list),
    decreases list.len(),
{
    if list.len() > 0 {
        let front = list.drop_last();
        let layer = list.last().0;
        let scores = list.last().1;
        assert(list[list.len() - 1].1.len() == n);
        let rec = record_of(layer, scores);
        lemma_records_len(front, n);
        lemma_record_len(layer, scores);
        lemma_records_read(h, front, n, rec + rest);
        let all = h + records_of(list) + rest;
        assert(all =~= h + records_of(front) + (rec + rest));
        let k = front.len() as int;
        let pos = record_pos(n, k);
        assert(pos == h.len() + records_of(front).len());
        lemma_le_len(layer as nat, 4);
        assert(all.subrange(pos, pos + 4) =~= le(layer as nat, 4));
        lemma_pow256();
        lemma_of_le_le(layer as nat, 4);
        let before = h + records_of(front) + le(layer as nat, 4);
        assert(all =~= before + scores_bytes(scores) + rest);
        assert(scores_at(all, pos + 4, n) =~= scores) by {
            assert forall|i: int| 0 <= i < n implies num_at(all, pos + 4 + 8 * i, 8) as u64
                == scores[i] by {
                lemma_scores_bytes(scores, before, rest, i);
            }
        }
    }
}

/// A cache reads back what was recorded in it, last record first where a layer has
/// several, whatever a crash left of a further record.
pub proof fn law_cache_reads_back(
    n_layers: u32,
    n_experts: u32,
    list: Seq<(u32, Seq<u64>)>,
    torn: Seq<u8>,
)
    requires
        uniform(list, n_experts as nat),
        torn.len() < record_bytes(n_experts as int),
    ensures
        ({
            let kept = header_of(n_layers, n_experts) + records_of(list);
            let file = kept + torn;
            let n = record_count(file, n_experts as nat);
            &&& cache_header(file, n_experts as nat)
            &&& scores_read(file, n_experts as nat, n) == recorded(list)
            &&& record_pos(n_experts as nat, n) == kept.len()
        }),
{
    let h = header_of(n_layers, n_experts);
    let kept = h + records_of(list);
    let file = kept + torn;
    let r = record_bytes(n_experts as int);
    lemma_header(n_layers, n_experts, records_of(list) + torn);
    assert(file =~= h + (records_of(list) + torn));
    lemma_records_len(list, n_experts as nat);
    let rest = file.len() - 20;
    let k = list.len() as int;
    assert(rest / r == k) by (nonlinear_arith)
        requires
            k * r <= rest,
            rest < k * r + r,
            r > 0,
    ;
    lemma_records_read(h, list, n_experts as nat, torn);
}

/// Where the keep-set of a layer comes from.
pub enum KeepStep {
    /// The run's checkpoint holds it.
    Restored(Vec<usize>),
    /// It follows from cached scores.
    Cached(Vec<usize>),
    /// The layer has to be scored.
    Score,
    /// The cached scores cannot be ranked.
    Unranked,
}

/// As many experts as asked for, at most all.
pub open spec fn keep_count(n_keep: int, n_experts: int) -> int {
    if n_keep < n_experts {
        n_keep
    } else {
        n_experts
    }
}

/// Decides where the keep-set of a layer comes from: the checkpoint before the cache,
/// the cache before scoring.
pub fn keep_step(
    restored: Option<&Vec<usize>>,
    cached: Option<&Vec<u64>>,
    n_keep: usize,
    n_experts: usize,
) -> (step: KeepStep)
    ensures
        match (restored, cached) {
            (Some(set), _) => step is Restored && step->Restored_0@ == set@,
            (None, Some(s)) => if any_nan(s@) {
                step is Unranked
            } else {
                step is Cached && is_top(
                    score_keys(s@),
                    keep_count(n_keep as int, n_experts as int),
                    step->Cached_0@,
                )
            },
            (None, None) => step is Score,
        },
{
    match restored {
        Some(set) => KeepStep::Restored(crate::cache::copy_of(set.as_slice())),
        None => match cached {
            Some(s) => match top_scores(
                s.as_slice(),
                if n_keep < n_experts {
                    n_keep
                } else {
                    n_experts
                },
            ) {
                Some(set) => KeepStep::Cached(set),
                None => KeepStep::Unranked,
            },
            None => KeepStep::Score,
        },
    }
}

/// The layers of a list that have routed experts, in order.
pub open spec fn moe_among(layers: Seq<usize>, moe: Seq<bool>) -> Seq<usize>
    decreases layers.len(),
{
    if layers.len() == 0 {
        Seq::empty()
    } else if layers.last() < moe.len() && moe[layers.last() as int] {
        moe_among(layers.drop_last(), moe).push(layers.last())
    } else {
        moe_among(layers.drop_last(), moe)
    }
}

/// The layers of a list that have routed experts.
pub fn moe_layers(layers: &[usize], moe: &[bool]) -> (out: Vec<usize>)
    ensures
        out@ == moe_among(layers@, moe@),
{
    let mut out: Vec<usize> = Vec::new();
    for i in 0..layers.len()
        invariant
            out@ == moe_among(layers@.take(i as int), moe@),
    {
        proof {
            assert(layers@.take(i + 1).drop_last() =~= layers@.take(i as int));
        }
        let l: usize = layers[i];
        if l < moe.len() && moe[l] {
            out.push(l);
        }
    }
    proof {
        assert(layers@.take(layers@.len() as int) =~= layers@);
    }
    out
}

/// How a score cache begins: the eight letters of its format, its version, the layers and the
/// experts of the model.
pub proof fn law_cache_begins_with_its_format(n_layers: u32, n_experts: u32)
    ensures
        ({
            let b = header_of(n_layers, n_experts);
            &&& b.len() == 20
            &&& b.subrange(0, 8) == seq![
                'M' as u8,
                'K' as u8,
                'S' as u8,
                'C' as u8,
                'O' as u8,
                'R' as u8,
                'E' as u8,
                '1' as u8,
            ]
            &&& b.subrange(8, 12) == le(1, 4)
            &&& b.subrange(12, 16) == le(n_layers as nat, 4)
            &&& b.subrange(16, 20) == le(n_experts as nat, 4)
        }),
{
    let b = header_of(n_layers, n_experts);
    crate::le::lemma_le_len(SCORE_MAGIC as nat, 8);
    crate::le::lemma_le_len(1, 4);
    crate::le::lemma_le_len(n_layers as nat, 4);
    crate::le::lemma_le_len(n_experts as nat, 4);
    assert(le(SCORE_MAGIC as nat, 8) =~= seq![
        0x4du8,
        0x4bu8,
        0x53u8,
        0x43u8,
        0x4fu8,
        0x52u8,
        0x45u8,
        0x31u8,
    ]) by {
        reveal_with_fuel(le, 9);
    }
    assert(b.subrange(0, 8) =~= le(SCORE_MAGIC as nat, 8));
    assert(b.subrange(8, 12) =~= le(1, 4));
    assert(b.subrange(12, 16) =~= le(n_layers as nat, 4));
    assert(b.subrange(16, 20) =~= le(n_experts as nat, 4));
}

/// The layers with experts are those of the kept that have them, in the order in which they
/// are kept.
pub proof fn law_expert_layers_are_picked(layers: Seq<usize>, moe: Seq<bool>, l: usize)
    ensures
        moe_among(layers, moe).contains(l) <==> layers.contains(l) && l < moe.len() && moe[l as int],
        moe_among(layers, moe).len() <= layers.len(),
    decreases layers.len(),
{
    if layers.len() > 0 {
        let front = layers.drop_last();
        let x = layers.last();
        law_expert_layers_are_picked(front, moe, l);
        let p = moe_among(front, moe);
        if layers.contains(l) {
            let k = choose|k: int| 0 <= k < layers.len() && layers[k] == l;
            if k < front.len() {
                assert(front[k] == l);
            }
        }
        if front.contains(l) {
            let k = choose|k: int| 0 <= k < front.len() && front[k] == l;
            assert(layers[k] == l);
        }
        assert(layers[layers.len() - 1] == x);
        if x < moe.len() && moe[x as int] {
            let q = p.push(x);
            if p.contains(l) {
                let k = choose|k: int| 0 <= k < p.len() && p[k] == l;
                assert(q[k] == l);
            }
            if q.contains(l) {
                let k = choose|k: int| 0 <= k < q.len() && q[k] == l;
                if k < p.len() {
                    assert(p[k] == l);
                }
            }
            assert(q[p.len() as int] == x);
        }
    }
}

} // verus!
