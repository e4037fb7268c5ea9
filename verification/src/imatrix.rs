//! Activation statistics for calibration: per layer and input column the sum of
//! squares, a 64-bit float held by its bits.
//!
//! ```text
//! magic "IMAT0001" | u32 n_layers | u32 routed_hidden | u32 moe_inter | u64 tokens |
//! u32 n, then n x (u32 layer | u64 bits x routed_hidden | u64 bits x moe_inter)
//! ```

use crate::directory::num_at;
use crate::le::le;
use crate::le::lemma_le_len;
use crate::le::lemma_of_le_le;
use crate::le::lemma_pow256;
use crate::le::push_le;
use crate::le::read_le;
use crate::names::same_text;
use crate::score_cache::lemma_scores_bytes;
use crate::score_cache::lemma_scores_len;
use crate::score_cache::scores_at;
use crate::score_cache::scores_bytes;
use crate::unicode::chars_of;
use vstd::prelude::*;
use vstd::utf8::encode_utf8;

verus! {

/// "IMAT0001" as a little-endian number.
pub const MAGIC: u64 = 0x3130_3030_5441_4d49;

/// Why bytes are no statistics.
#[derive(Debug, Clone, Copy, PartialEq, Eq, Structural)]
pub enum ImatrixError {
    Truncated,
    BadMagic,
}

/// The statistics of a model.
#[derive(Debug)]
pub struct Imatrix {
    pub n_layers: usize,
    pub routed_hidden: usize,
    pub moe_inter: usize,
    pub tokens: u64,
    /// The layers with statistics, ascending.
    pub layers: Vec<u32>,
    /// Per layer the bits of the sums over the hidden columns.
    pub hidden: Vec<Vec<u64>>,
    /// Per layer the bits of the sums over the inner columns.
    pub inter: Vec<Vec<u64>>,
}

/// What statistics say.
pub ghost struct ImatrixView {
    pub n_layers: nat,
    pub routed_hidden: nat,
    pub moe_inter: nat,
    pub tokens: u64,
    pub layers: Seq<u32>,
    pub hidden: Seq<Seq<u64>>,
    pub inter: Seq<Seq<u64>>,
}

/// The views of rows of sums.
pub open spec fn sums_view(v: Seq<Vec<u64>>) -> Seq<Seq<u64>> {
    Seq::new(v.len(), |i: int| v[i]@)
}

impl View for Imatrix {
    type V = ImatrixView;

    open spec fn view(&self) -> ImatrixView {
        ImatrixView {
            n_layers: self.n_layers as nat,
            routed_hidden: self.routed_hidden as nat,
            moe_inter: self.moe_inter as nat,
            tokens: self.tokens,
            layers: self.layers@,
            hidden: sums_view(self.hidden@),
            inter: sums_view(self.inter@),
        }
    }
}

/// Every layer has a sum per column.
pub open spec fn whole(s: ImatrixView) -> bool {
    &&& s.hidden.len() == s.layers.len()
    &&& s.inter.len() == s.layers.len()
    &&& forall|i: int| 0 <= i < s.layers.len() ==> (#[trigger] s.hidden[i]).len() == s.routed_hidden
    &&& forall|i: int| 0 <= i < s.layers.len() ==> (#[trigger] s.inter[i]).len() == s.moe_inter
}

/// The place of a layer from `i` on.
pub open spec fn slot_from(layers: Seq<u32>, layer: int, i: int) -> Option<int>
    decreases layers.len() - i,
{
    if i >= layers.len() {
        None
    } else if layers[i] == layer {
        Some(i)
    } else {
        slot_from(layers, layer, i + 1)
    }
}

/// Rows of zero sums.
pub open spec fn zero_rows(n: nat, width: nat) -> Seq<Seq<u64>> {
    Seq::new(n, |i: int| Seq::new(width, |j: int| 0u64))
}

/// Statistics that nothing was recorded in.
pub open spec fn fresh(n_layers: nat, hidden_w: nat, inter_w: nat, layers: Seq<u32>) -> ImatrixView {
    ImatrixView {
        n_layers,
        routed_hidden: hidden_w,
        moe_inter: inter_w,
        tokens: 0,
        layers,
        hidden: zero_rows(layers.len(), hidden_w),
        inter: zero_rows(layers.len(), inter_w),
    }
}

fn zeros(n: usize, width: usize) -> (rows: Vec<Vec<u64>>)
    ensures
        sums_view(rows@) == zero_rows(n as nat, width as nat),
{
    let mut rows: Vec<Vec<u64>> = Vec::new();
    for i in 0..n
        invariant
            rows@.len() == i,
            forall|k: int|
                0 <= k < i ==> (#[trigger] rows@[k])@ == Seq::new(width as nat, |j: int| 0u64),
    {
        let row: Vec<u64> = crate::cache::filled(0u64, width);
        proof {
            assert(row@ =~= Seq::new(width as nat, |j: int| 0u64));
        }
        rows.push(row);
    }
    proof {
        assert(sums_view(rows@) =~= zero_rows(n as nat, width as nat));
    }
    rows
}

impl Imatrix {
    /// The place of a layer.
    pub fn slot(&self, layer: usize) -> (at: Option<usize>)
        ensures
            match at {
                Some(i) => slot_from(self.layers@, layer as int, 0) == Some(i as int) && i
                    < self.layers@.len(),
                None => slot_from(self.layers@, layer as int, 0) is None,
            },
    {
        let n: usize = self.layers.len();
        let mut i: usize = 0;
        while i < n
            invariant
                i <= n == self.layers@.len(),
                slot_from(self.layers@, layer as int, 0) == slot_from(
                    self.layers@,
                    layer as int,
                    i as int,
                ),
            decreases n - i,
        {
            if self.layers[i] as usize == layer {
                return Some(i);
            }
            i += 1;
        }
        None
    }

    /// The sums of the columns that a matrix of a layer's experts reads: "w2" reads the
    /// inner ones, any other matrix the hidden ones.
    pub fn column_sums(&self, layer: usize, matrix: &str) -> (sums: Option<&Vec<u64>>)
        requires
            whole(self@),
        ensures
            match (sums, slot_from(self.layers@, layer as int, 0)) {
                (Some(v), Some(i)) => v@ == if matrix@ == "w2"@ {
                    self@.inter[i]
                } else {
                    self@.hidden[i]
                },
                (None, None) => true,
                _ => false,
            },
    {
        let t: Vec<char> = chars_of(matrix);
        match self.slot(layer) {
            Some(i) => if same_text(t.as_slice(), "w2") {
                Some(&self.inter[i])
            } else {
                Some(&self.hidden[i])
            },
            None => None,
        }
    }
}

/// What a calibration reads of a model's configuration.
#[derive(Debug, Clone, Copy)]
pub struct RoutedDims {
    pub n_layers: usize,
    /// The width of what the experts are fed.
    pub routed_hidden: usize,
    /// The width inside an expert.
    pub moe_inter: usize,
}

/// A calibration that may be running.
pub struct Calibration {
    pub acc: Option<Imatrix>,
}

impl Calibration {
    /// No calibration is running.
    pub fn new() -> (c: Calibration)
        ensures
            c.acc is None,
    {
        Calibration { acc: None }
    }

    /// Begins a calibration of a model's layers with routed experts.
    pub fn start(&mut self, cfg: &RoutedDims, moe_layers: Vec<u32>)
        ensures
            final(self).acc is Some,
            final(self).acc->Some_0@ == fresh(
                cfg.n_layers as nat,
                cfg.routed_hidden as nat,
                cfg.moe_inter as nat,
                moe_layers@,
            ),
            whole(final(self).acc->Some_0@),
    {
        self.start_dims(cfg.n_layers, cfg.routed_hidden, cfg.moe_inter, moe_layers);
    }

    /// Begins a calibration of the given layers: nothing recorded yet.
    pub fn start_dims(
        &mut self,
        n_layers: usize,
        hidden_w: usize,
        inter_w: usize,
        layers: Vec<u32>,
    )
        ensures
            final(self).acc is Some,
            final(self).acc->Some_0@ == fresh(
                n_layers as nat,
                hidden_w as nat,
                inter_w as nat,
                layers@,
            ),
            whole(final(self).acc->Some_0@),
    {
        let n: usize = layers.len();
        let hidden: Vec<Vec<u64>> = zeros(n, hidden_w);
        let inter: Vec<Vec<u64>> = zeros(n, inter_w);
        self.acc = Some(
            Imatrix {
                n_layers,
                routed_hidden: hidden_w,
                moe_inter: inter_w,
                tokens: 0,
                layers,
                hidden,
                inter,
            },
        );
    }

    /// Counts one token of a running calibration.
    pub fn tick(&mut self)
        requires
            old(self).acc is Some ==> old(self).acc->Some_0.tokens < u64::MAX,
        ensures
            old(self).acc is None ==> final(self).acc is None,
            old(self).acc is Some ==> final(self).acc is Some && final(self).acc->Some_0@ == (
            ImatrixView {
                tokens: (old(self).acc->Some_0.tokens + 1) as u64,
                ..old(self).acc->Some_0@
            }),
    {
        match &mut self.acc {
            Some(im) => {
                im.tokens = im.tokens + 1;
            },
            None => {},
        }
    }

    /// Ends a calibration: the statistics, where one was running.
    pub fn stop(&mut self) -> (im: Option<Imatrix>)
        ensures
            im == old(self).acc,
            final(self).acc is None,
    {
        self.acc.take()
    }
}

/// The record of a layer.
pub open spec fn layer_bytes(layer: u32, hidden: Seq<u64>, inter: Seq<u64>) -> Seq<u8> {
    le(layer as nat, 4) + scores_bytes(hidden) + scores_bytes(inter)
}

/// The records of the first `n` layers.
pub open spec fn layers_bytes(s: ImatrixView, n: int) -> Seq<u8>
    decreases n,
{
    if n <= 0 {
        Seq::empty()
    } else {
        layers_bytes(s, n - 1) + layer_bytes(s.layers[n - 1], s.hidden[n - 1], s.inter[n - 1])
    }
}

/// Statistics as bytes.
pub open spec fn imatrix_bytes(s: ImatrixView) -> Seq<u8> {
    le(MAGIC as nat, 8) + le(s.n_layers, 4) + le(s.routed_hidden, 4) + le(s.moe_inter, 4) + le(
        s.tokens as nat,
        8,
    ) + le(s.layers.len(), 4) + layers_bytes(s, s.layers.len() as int)
}

fn push_sums(out: &mut Vec<u8>, v: &Vec<u64>)
    ensures
        final(out)@ == old(out)@ + scores_bytes(v@),
{
    let ghost start = out@;
    proof {
        assert(v@.take(0) =~= Seq::<u64>::empty());
        assert(start + scores_bytes(v@.take(0)) =~= start);
    }
    for i in 0..v.len()
        invariant
            out@ == start + scores_bytes(v@.take(i as int)),
    {
        push_le(out, v[i], 8);
        proof {
            assert(v@.take(i + 1).drop_last() =~= v@.take(i as int));
            assert(out@ =~= start + scores_bytes(v@.take(i + 1)));
        }
    }
    proof {
        assert(v@.take(v@.len() as int) =~= v@);
    }
}

impl Imatrix {
    /// The bytes of the statistics.
    pub fn to_bytes(&self) -> (out: Vec<u8>)
        requires
            whole(self@),
        ensures
            out@ == imatrix_bytes(self@),
    {
        let mut out: Vec<u8> = Vec::new();
        push_le(&mut out, MAGIC, 8);
        push_le(&mut out, self.n_layers as u64, 4);
        push_le(&mut out, self.routed_hidden as u64, 4);
        push_le(&mut out, self.moe_inter as u64, 4);
        push_le(&mut out, self.tokens, 8);
        push_le(&mut out, self.layers.len() as u64, 4);
        let ghost head = out@;
        proof {
            assert(head =~= le(MAGIC as nat, 8) + le(self@.n_layers, 4) + le(
                self@.routed_hidden,
                4,
            ) + le(self@.moe_inter, 4) + le(self.tokens as nat, 8) + le(self@.layers.len(), 4));
            assert(head + layers_bytes(self@, 0) =~= head);
        }
        for i in 0..self.layers.len()
            invariant
                whole(self@),
                self@.hidden.len() == self.hidden@.len(),
                self@.inter.len() == self.inter@.len(),
                self@.layers == self.layers@,
                out@ == head + layers_bytes(self@, i as int),
        {
            let ghost before = out@;
            push_le(&mut out, self.layers[i] as u64, 4);
            push_sums(&mut out, &self.hidden[i]);
            push_sums(&mut out, &self.inter[i]);
            proof {
                assert(self@.hidden[i as int] == self.hidden@[i as int]@);
                assert(self@.inter[i as int] == self.inter@[i as int]@);
                assert(out@ =~= head + layers_bytes(self@, i + 1));
            }
        }
        out
    }
}

/// The bytes of a record.
pub open spec fn record_len(hidden: nat, inter: nat) -> nat {
    4 + 8 * hidden + 8 * inter
}

/// What bytes say of statistics.
pub open spec fn imatrix_read(bytes: Seq<u8>) -> Result<ImatrixView, ImatrixError> {
    let h = num_at(bytes, 12, 4);
    let w = num_at(bytes, 16, 4);
    let n = num_at(bytes, 28, 4);
    let rec = record_len(h, w);
    if bytes.len() < 8 {
        Err(ImatrixError::Truncated)
    } else if num_at(bytes, 0, 8) != MAGIC {
        Err(ImatrixError::BadMagic)
    } else if bytes.len() < 32 || bytes.len() < 32 + n * rec {
        Err(ImatrixError::Truncated)
    } else {
        Ok(
            ImatrixView {
                n_layers: num_at(bytes, 8, 4),
                routed_hidden: h,
                moe_inter: w,
                tokens: num_at(bytes, 20, 8) as u64,
                layers: Seq::new(n, |i: int| num_at(bytes, 32 + i * rec, 4) as u32),
                hidden: Seq::new(n, |i: int| scores_at(bytes, 32 + i * rec + 4, h)),
                inter: Seq::new(n, |i: int| scores_at(bytes, 32 + i * rec + 4 + 8 * h, w)),
            },
        )
    }
}

fn read_sums(bytes: &[u8], pos: usize, n: usize) -> (v: Vec<u64>)
    requires
        pos + 8 * n <= bytes@.len(),
    ensures
        v@ == scores_at(bytes@, pos as int, n as nat),
{
    let total: usize = bytes.len();
    let mut v: Vec<u64> = Vec::new();
    for i in 0..n
        invariant
            total == bytes@.len(),
            pos + 8 * n <= total,
            v@ == scores_at(bytes@, pos as int, i as nat),
    {
        v.push(read_le(bytes, pos + 8 * i, 8));
        proof {
            assert(v@ =~= scores_at(bytes@, pos as int, (i + 1) as nat));
        }
    }
    v
}

/// Reads statistics.
pub fn load(bytes: &[u8]) -> (r: Result<Imatrix, ImatrixError>)
    ensures
        match r {
            Ok(im) => imatrix_read(bytes@) == Ok::<ImatrixView, ImatrixError>(im@),
            Err(e) => imatrix_read(bytes@) == Err::<ImatrixView, ImatrixError>(e),
        },
{
    let len: usize = bytes.len();
    if len < 8 {
        return Err(ImatrixError::Truncated);
    }
    if read_le(bytes, 0, 8) != MAGIC {
        return Err(ImatrixError::BadMagic);
    }
    if len < 32 {
        return Err(ImatrixError::Truncated);
    }
    proof {
        lemma_pow256();
    }
    let n_layers: u64 = read_le(bytes, 8, 4);
    let h: u64 = read_le(bytes, 12, 4);
    let w: u64 = read_le(bytes, 16, 4);
    let tokens: u64 = read_le(bytes, 20, 8);
    let n: u64 = read_le(bytes, 28, 4);
    let rec: u64 = 4 + 8 * h + 8 * w;
    proof {
        assert(n * rec <= 0xffff_ffff * 0x10_0000_0000) by (nonlinear_arith)
            requires
                n <= 0xffff_ffff,
                rec <= 0x10_0000_0000,
        ;
    }
    let need: u128 = (n as u128) * (rec as u128) + 32;
    if (len as u128) < need {
        return Err(ImatrixError::Truncated);
    }
    let ghost gh = h as nat;
    let ghost gw = w as nat;
    let ghost grec = rec as int;
    let mut layers: Vec<u32> = Vec::new();
    let mut hidden: Vec<Vec<u64>> = Vec::new();
    let mut inter: Vec<Vec<u64>> = Vec::new();
    let mut pos: usize = 32;
    let mut i: u64 = 0;
    while i < n
        invariant
            i <= n,
            len == bytes@.len(),
            32 + n * rec <= len,
            rec == 4 + 8 * h + 8 * w,
            gh == h && gw == w && grec == rec,
            h <= 0xffff_ffff && w <= 0xffff_ffff,
            pos == 32 + i * grec,
            layers@.len() == i,
            hidden@.len() == i,
            inter@.len() == i,
            forall|k: int|
                0 <= k < i ==> #[trigger] layers@[k] == num_at(bytes@, 32 + k * grec, 4) as u32,
            forall|k: int|
                0 <= k < i ==> (#[trigger] hidden@[k])@ == scores_at(
                    bytes@,
                    32 + k * grec + 4,
                    gh,
                ),
            forall|k: int|
                0 <= k < i ==> (#[trigger] inter@[k])@ == scores_at(
                    bytes@,
                    32 + k * grec + 4 + 8 * gh,
                    gw,
                ),
        decreases n - i,
    {
        proof {
            lemma_pow256();
            assert(i * grec + grec <= n * grec) by (nonlinear_arith)
                requires
                    i + 1 <= n,
                    grec >= 0,
            ;
            assert((i + 1) * grec == i * grec + grec) by (nonlinear_arith);
        }
        layers.push(read_le(bytes, pos, 4) as u32);
        let a: Vec<u64> = read_sums(bytes, pos + 4, h as usize);
        let b: Vec<u64> = read_sums(bytes, pos + 4 + 8 * (h as usize), w as usize);
        hidden.push(a);
        inter.push(b);
        pos = pos + rec as usize;
        i += 1;
    }
    let im: Imatrix = Imatrix {
        n_layers: n_layers as usize,
        routed_hidden: h as usize,
        moe_inter: w as usize,
        tokens,
        layers,
        hidden,
        inter,
    };
    proof {
        let want = imatrix_read(bytes@)->Ok_0;
        assert(im@.layers =~= want.layers);
        assert(im@.hidden =~= want.hidden);
        assert(im@.inter =~= want.inter);
    }
    Ok(im)
}

proof fn lemma_sums_at(v: Seq<u64>, front: Seq<u8>, back: Seq<u8>)
    ensures
        scores_at(front + scores_bytes(v) + back, front.len() as int, v.len()) == v,
{
    let all = front + scores_bytes(v) + back;
    let w = scores_at(all, front.len() as int, v.len());
    assert forall|i: int| 0 <= i < v.len() implies #[trigger] w[i] == v[i] by {
        lemma_scores_bytes(v, front, back, i);
    }
    assert(w =~= v);
}

proof fn lemma_layers_len(s: ImatrixView, n: int)
    requires
        whole(s),
        0 <= n <= s.layers.len(),
    ensures
        layers_bytes(s, n).len() == n * record_len(s.routed_hidden, s.moe_inter),
    decreases n,
{
    let rec = record_len(s.routed_hidden, s.moe_inter) as int;
    if n > 0 {
        lemma_layers_len(s, n - 1);
        lemma_le_len(s.layers[n - 1] as nat, 4);
        assert(s.hidden[n - 1].len() == s.routed_hidden);
        assert(s.inter[n - 1].len() == s.moe_inter);
        lemma_scores_len(s.hidden[n - 1]);
        lemma_scores_len(s.inter[n - 1]);
        assert((n - 1) * rec + rec == n * rec) by (nonlinear_arith);
    } else {
        assert(0 * rec == 0) by (nonlinear_arith);
    }
}

proof fn lemma_layer_read(s: ImatrixView, head: Seq<u8>, n: int, i: int)
    requires
        whole(s),
        0 <= i < n <= s.layers.len(),
    ensures
        ({
            let all = head + layers_bytes(s, n);
            let pos = head.len() + i * record_len(s.routed_hidden, s.moe_inter);
            &&& num_at(all, pos, 4) == s.layers[i]
            &&& scores_at(all, pos + 4, s.routed_hidden) == s.hidden[i]
            &&& scores_at(all, pos + 4 + 8 * s.routed_hidden, s.moe_inter) == s.inter[i]
        }),
{
    lemma_layers_prefix(s, i + 1, n);
    lemma_layers_len(s, i);
    let all = head + layers_bytes(s, n);
    let tail = layers_bytes(s, n).skip(layers_bytes(s, i + 1).len() as int);
    let front = head + layers_bytes(s, i);
    let a = le(s.layers[i] as nat, 4);
    let b = scores_bytes(s.hidden[i]);
    let c = scores_bytes(s.inter[i]);
    let part = layers_bytes(s, i + 1);
    assert(part == layers_bytes(s, i) + layer_bytes(s.layers[i], s.hidden[i], s.inter[i]));
    assert(layers_bytes(s, n) =~= part + tail);
    assert(all =~= front + a + b + c + tail);
    lemma_le_len(s.layers[i] as nat, 4);
    assert(s.hidden[i].len() == s.routed_hidden);
    assert(s.inter[i].len() == s.moe_inter);
    lemma_scores_len(s.hidden[i]);
    lemma_pow256();
    lemma_of_le_le(s.layers[i] as nat, 4);
    let pos = front.len() as int;
    assert(all.subrange(pos, pos + 4) =~= a);
    assert(all =~= (front + a) + b + (c + tail));
    lemma_sums_at(s.hidden[i], front + a, c + tail);
    assert(all =~= (front + a + b) + c + tail);
    lemma_sums_at(s.inter[i], front + a + b, tail);
}

proof fn lemma_layers_prefix(s: ImatrixView, i: int, n: int)
    requires
        0 <= i <= n,
    ensures
        layers_bytes(s, i).len() <= layers_bytes(s, n).len(),
        layers_bytes(s, n).take(layers_bytes(s, i).len() as int) == layers_bytes(s, i),
    decreases n,
{
    let a = layers_bytes(s, i);
    if i < n {
        lemma_layers_prefix(s, i, n - 1);
        let b = layers_bytes(s, n - 1);
        assert(layers_bytes(s, n).take(a.len() as int) =~= b.take(a.len() as int));
    } else {
        assert(a.take(a.len() as int) =~= a);
    }
}

/// Statistics read back as they were written.
pub proof fn law_imatrix_reads_back(s: ImatrixView)
    requires
        whole(s),
        s.n_layers <= u32::MAX,
        s.routed_hidden <= u32::MAX,
        s.moe_inter <= u32::MAX,
        s.layers.len() <= u32::MAX,
    ensures
        imatrix_read(imatrix_bytes(s)) == Ok::<ImatrixView, ImatrixError>(s),
{
    let all = imatrix_bytes(s);
    let a = le(MAGIC as nat, 8);
    let b = le(s.n_layers, 4);
    let c = le(s.routed_hidden, 4);
    let d = le(s.moe_inter, 4);
    let e = le(s.tokens as nat, 8);
    let f = le(s.layers.len(), 4);
    lemma_le_len(MAGIC as nat, 8);
    lemma_le_len(s.n_layers, 4);
    lemma_le_len(s.routed_hidden, 4);
    lemma_le_len(s.moe_inter, 4);
    lemma_le_len(s.tokens as nat, 8);
    lemma_le_len(s.layers.len(), 4);
    lemma_pow256();
    lemma_of_le_le(MAGIC as nat, 8);
    lemma_of_le_le(s.n_layers, 4);
    lemma_of_le_le(s.routed_hidden, 4);
    lemma_of_le_le(s.moe_inter, 4);
    lemma_of_le_le(s.tokens as nat, 8);
    lemma_of_le_le(s.layers.len(), 4);
    let head = a + b + c + d + e + f;
    let n = s.layers.len() as int;
    assert(all =~= head + layers_bytes(s, n));
    assert(all.subrange(0, 8) =~= a);
    assert(all.subrange(8, 12) =~= b);
    assert(all.subrange(12, 16) =~= c);
    assert(all.subrange(16, 20) =~= d);
    assert(all.subrange(20, 28) =~= e);
    assert(all.subrange(28, 32) =~= f);
    lemma_layers_len(s, n);
    let got = imatrix_read(all)->Ok_0;
    assert forall|i: int| 0 <= i < n implies #[trigger] got.layers[i] == s.layers[i] by {
        lemma_layer_read(s, head, n, i);
    }
    assert forall|i: int| 0 <= i < n implies #[trigger] got.hidden[i] == s.hidden[i] by {
        lemma_layer_read(s, head, n, i);
    }
    assert forall|i: int| 0 <= i < n implies #[trigger] got.inter[i] == s.inter[i] by {
        lemma_layer_read(s, head, n, i);
    }
    assert(got.layers =~= s.layers);
    assert(got.hidden =~= s.hidden);
    assert(got.inter =~= s.inter);
}

/// The characters of a text that fit in `cap` bytes, from its beginning.
pub open spec fn is_cut(t: Seq<char>, cap: int, out: Seq<char>) -> bool {
    let k = out.len() as int;
    &&& k <= t.len()
    &&& out == t.take(k)
    &&& encode_utf8(out).len() <= cap
    &&& k < t.len() ==> encode_utf8(t.take(k + 1)).len() > cap
}

/// Cuts a text to at most six bytes per token, at a character boundary.
pub fn cap_text(text: &str, tokens: usize) -> (out: String)
    requires
        6 * tokens <= usize::MAX,
    ensures
        is_cut(text@, 6 * tokens, out@),
{
    let cap: usize = 6 * tokens;
    let mut out: String = String::new();
    let chars: Vec<char> = crate::unicode::chars_of(text);
    let mut left: usize = cap;
    let mut i: usize = 0;
    let n: usize = chars.len();
    proof {
        assert(text@.take(0) =~= Seq::<char>::empty());
        assert(out@ =~= Seq::<char>::empty());
    }
    while i < n
        invariant
            i <= n == text@.len(),
            chars@ == text@,
            out@ == text@.take(i as int),
            left <= cap,
            cap == 6 * tokens,
            encode_utf8(out@).len() == cap - left,
        decreases n - i,
    {
        let c: char = chars[i];
        let u: u32 = c as u32;
        let width: usize = if u < 0x80 {
            1
        } else if u < 0x800 {
            2
        } else if u < 0x1_0000 {
            3
        } else {
            4
        };
        proof {
            vstd::utf8::char_is_scalar(c);
            let next = text@.take(i + 1);
            assert(next =~= out@ + seq![c]);
            crate::qwentok_laws::lemma_encode_utf8_add(out@, seq![c]);
            assert(seq![c].drop_first() =~= Seq::<char>::empty());
            assert(encode_utf8(seq![c].drop_first()).len() == 0);
            assert(encode_utf8(seq![c]).len() == vstd::utf8::encode_scalar(c as u32).len());
            assert(vstd::utf8::is_scalar(u));
            assert(vstd::utf8::encode_scalar(u).len() == width);
        }
        if width > left {
            return out;
        }
        left = left - width;
        out.push(c);
        proof {
            assert(out@ =~= text@.take(i + 1));
        }
        i += 1;
    }
    proof {
        assert(text@.take(n as int) =~= text@);
    }
    out
}

/// Whether the context begins anew before a token: after every `chunk` tokens.
pub fn restarts(done: usize, chunk: usize) -> (yes: bool)
    requires
        chunk > 0,
    ensures
        yes == (done > 0 && done as int % chunk as int == 0),
{
    done > 0 && done % chunk == 0
}

/// How a file of activation statistics begins: the eight letters of its format, the number of
/// layers of the model, the two widths, the tokens that were seen and the number of layers
/// that follow.
pub proof fn law_statistics_begin_with_their_format(s: ImatrixView)
    ensures
        ({
            let b = imatrix_bytes(s);
            &&& b.subrange(0, 8) == seq![
                'I' as u8,
                'M' as u8,
                'A' as u8,
                'T' as u8,
                '0' as u8,
                '0' as u8,
                '0' as u8,
                '1' as u8,
            ]
            &&& b.subrange(8, 12) == le(s.n_layers, 4)
            &&& b.subrange(12, 16) == le(s.routed_hidden, 4)
            &&& b.subrange(16, 20) == le(s.moe_inter, 4)
            &&& b.subrange(20, 28) == le(s.tokens as nat, 8)
            &&& b.subrange(28, 32) == le(s.layers.len(), 4)
        }),
{
    let b = imatrix_bytes(s);
    crate::le::lemma_le_len(MAGIC as nat, 8);
    crate::le::lemma_le_len(s.n_layers, 4);
    crate::le::lemma_le_len(s.routed_hidden, 4);
    crate::le::lemma_le_len(s.moe_inter, 4);
    crate::le::lemma_le_len(s.tokens as nat, 8);
    crate::le::lemma_le_len(s.layers.len(), 4);
    assert(le(MAGIC as nat, 8) =~= seq![
        0x49u8,
        0x4du8,
        0x41u8,
        0x54u8,
        0x30u8,
        0x30u8,
        0x30u8,
        0x31u8,
    ]) by {
        reveal_with_fuel(le, 9);
    }
    assert(b.subrange(0, 8) =~= le(MAGIC as nat, 8));
    assert(b.subrange(8, 12) =~= le(s.n_layers, 4));
    assert(b.subrange(12, 16) =~= le(s.routed_hidden, 4));
    assert(b.subrange(16, 20) =~= le(s.moe_inter, 4));
    assert(b.subrange(20, 28) =~= le(s.tokens as nat, 8));
    assert(b.subrange(28, 32) =~= le(s.layers.len(), 4));
}

} // verus!
