//! The sidecar of expert shadows: a codebook and, for every expert of every layer with
//! routed experts, one codebook index per sixteen weights.
//!
//! ```text
//! magic "MKSH0001" | u32 n_layers | u32 layers[n_layers] | u32 n_experts | u32 blob |
//! codebook: u32 float bits x 256 x 16 | per layer, per expert: w1 ++ w2 ++ w3
//! ```

use crate::directory::num_at;
use crate::le::le;
use crate::le::lemma_le_len;
use crate::le::lemma_of_le_le;
use crate::le::lemma_pow256;
use crate::le::push_bytes;
use crate::le::push_le;
use crate::le::read_le;
use crate::le::sub_bytes;
use crate::slice_args::arg_texts;
use crate::slice_args::flag_value;
use crate::slice_args::value_flag;
use crate::text::decimal;
use crate::text::push_decimal;
use crate::text::push_text;
use vstd::prelude::*;

verus! {

/// "MKSH0001" as a little-endian number.
pub const MAGIC: u64 = 0x3130_3030_4853_4b4d;

/// The layers whose experts feed the training of the codebook.
pub const TRAIN_LAYERS: usize = 4;

/// The vectors that the training sample holds.
pub const SAMPLE_CAP: usize = 300_000;

/// The values of the codebook.
pub const CODEBOOK_LEN: usize = 4096;

/// Why bytes are not the sidecar of a model.
#[derive(Debug, Clone, Copy, PartialEq, Eq, Structural)]
pub enum ShadowError {
    Truncated,
    BadMagic,
    /// Other layers than the model's.
    Layers,
    /// Another number of experts.
    Experts,
    /// Another size of an expert matrix.
    Blob,
    /// The index bytes are not those of the model.
    DataSize,
}

/// A sidecar in memory.
#[derive(Debug)]
pub struct Shadows {
    /// The layers with routed experts, ascending.
    pub layers: Vec<u32>,
    pub n_experts: usize,
    /// Index bytes per expert matrix.
    pub vq_blob: usize,
    /// The bits of the codebook's floats.
    pub cb: Vec<u32>,
    /// Index bytes: per layer, per expert, the three matrices.
    pub data: Vec<u8>,
}

/// What a sidecar says.
pub ghost struct ShadowView {
    pub layers: Seq<u32>,
    pub n_experts: nat,
    pub vq_blob: nat,
    pub cb: Seq<u32>,
    pub data: Seq<u8>,
}

impl View for Shadows {
    type V = ShadowView;

    open spec fn view(&self) -> ShadowView {
        ShadowView {
            layers: self.layers@,
            n_experts: self.n_experts as nat,
            vq_blob: self.vq_blob as nat,
            cb: self.cb@,
            data: self.data@,
        }
    }
}

/// The index bytes of a model.
pub open spec fn data_len(n_layers: nat, n_experts: nat, vq_blob: nat) -> nat {
    n_layers * n_experts * 3 * vq_blob
}

impl Shadows {
    /// The layers rise and the index bytes are all there.
    pub open spec fn wf(&self) -> bool {
        &&& forall|i: int, j: int|
            0 <= i < j < self.layers@.len() ==> (#[trigger] self.layers@[i]) < (
            #[trigger] self.layers@[j])
        &&& self.data@.len() == data_len(
            self.layers@.len(),
            self.n_experts as nat,
            self.vq_blob as nat,
        )
    }
}

/// The place of a layer among the shadowed ones.
pub open spec fn layer_place(layers: Seq<u32>, layer: u32, i: int) -> Option<int>
    decreases layers.len() - i,
{
    if i >= layers.len() {
        None
    } else if layers[i] == layer {
        Some(i)
    } else {
        layer_place(layers, layer, i + 1)
    }
}

/// Where the index bytes of an expert start.
pub open spec fn expert_offset(s: ShadowView, layer: u32, expert: u32) -> Option<nat> {
    match layer_place(s.layers, layer, 0) {
        None => None,
        Some(li) => if expert >= s.n_experts {
            None
        } else {
            Some(((li * s.n_experts + expert) * 3 * s.vq_blob) as nat)
        },
    }
}

proof fn lemma_place_at(layers: Seq<u32>, layer: u32, from: int, at: int)
    requires
        0 <= from <= at < layers.len(),
        layers[at] == layer,
        forall|i: int| from <= i < at ==> #[trigger] layers[i] != layer,
    ensures
        layer_place(layers, layer, from) == Some(at),
    decreases at - from,
{
    if from < at {
        assert(layers[from] != layer);
        lemma_place_at(layers, layer, from + 1, at);
    }
}

proof fn lemma_place_none(layers: Seq<u32>, layer: u32, from: int)
    requires
        0 <= from,
        forall|i: int| from <= i < layers.len() ==> #[trigger] layers[i] != layer,
    ensures
        layer_place(layers, layer, from) is None,
    decreases layers.len() - from,
{
    if from < layers.len() {
        lemma_place_none(layers, layer, from + 1);
    }
}

/// The index bytes of every shadowed expert lie inside the data.
pub proof fn law_expert_bytes_lie_inside(s: ShadowView, li: nat, expert: nat)
    requires
        s.data.len() == data_len(s.layers.len(), s.n_experts, s.vq_blob),
        li < s.layers.len(),
        expert < s.n_experts,
    ensures
        (li * s.n_experts + expert) * 3 * s.vq_blob + 3 * s.vq_blob <= s.data.len(),
{
    let n = s.n_experts;
    let pair = li * n + expert;
    assert(pair + 1 <= s.layers.len() * n) by (nonlinear_arith)
        requires
            pair == li * n + expert,
            li + 1 <= s.layers.len(),
            expert + 1 <= n,
    ;
    assert((pair + 1) * 3 * s.vq_blob <= s.layers.len() * n * 3 * s.vq_blob) by (nonlinear_arith)
        requires
            pair + 1 <= s.layers.len() * n,
    ;
    assert((pair + 1) * 3 * s.vq_blob == pair * 3 * s.vq_blob + 3 * s.vq_blob) by (nonlinear_arith);
}

impl Shadows {
    /// Where the index bytes of an expert start; nothing where the layer is not
    /// shadowed or has no such expert.
    pub fn offset(&self, layer: u32, expert: u32) -> (at: Option<usize>)
        requires
            self.wf(),
        ensures
            match at {
                Some(o) => expert_offset(self@, layer, expert) == Some(o as nat),
                None => expert_offset(self@, layer, expert) is None,
            },
    {
        let n: usize = self.layers.len();
        let mut lo: usize = 0;
        let mut hi: usize = n;
        while lo < hi && self.layers[lo + (hi - lo) / 2] != layer
            invariant
                self.wf(),
                lo <= hi <= n == self.layers@.len(),
                forall|i: int| 0 <= i < lo ==> (#[trigger] self.layers@[i]) < layer,
                forall|i: int| hi <= i < n ==> (#[trigger] self.layers@[i]) > layer,
            decreases hi - lo,
        {
            let mid: usize = lo + (hi - lo) / 2;
            if self.layers[mid] < layer {
                proof {
                    assert forall|i: int| 0 <= i < mid + 1 implies (#[trigger] self.layers@[i])
                        < layer by {
                        if i < mid {
                            assert(self.layers@[i] < self.layers@[mid as int]);
                        }
                    }
                }
                lo = mid + 1;
            } else {
                proof {
                    assert forall|i: int| mid <= i < n implies (#[trigger] self.layers@[i])
                        > layer by {
                        if i > mid {
                            assert(self.layers@[mid as int] < self.layers@[i]);
                        }
                    }
                }
                hi = mid;
            }
        }
        if lo == hi {
            proof {
                assert forall|i: int| 0 <= i < n implies #[trigger] self.layers@[i] != layer by {
                    if i < lo {
                        assert(self.layers@[i] < layer);
                    } else {
                        assert(self.layers@[i] > layer);
                    }
                }
                lemma_place_none(self.layers@, layer, 0);
            }
            return None;
        }
        let li: usize = lo + (hi - lo) / 2;
        proof {
            assert forall|i: int| 0 <= i < li implies #[trigger] self.layers@[i] != layer by {
                assert(self.layers@[i] < self.layers@[li as int]);
            }
            lemma_place_at(self.layers@, layer, 0, li as int);
        }
        if expert as usize >= self.n_experts {
            return None;
        }
        let e: usize = expert as usize;
        let blob: usize = self.vq_blob;
        let total: usize = self.data.len();
        proof {
            assert(total == self@.data.len());
            law_expert_bytes_lie_inside(self@, li as nat, e as nat);
            let n_experts = self.n_experts as int;
            assert(0 <= li * n_experts) by (nonlinear_arith)
                requires
                    n_experts >= 0,
            ;
            if blob == 0 {
                assert((li * n_experts + e) * 3 * 0 == 0);
            } else {
                let pair = li * n_experts + e;
                assert(pair <= pair * 3 && pair * 3 <= pair * 3 * blob) by (nonlinear_arith)
                    requires
                        pair >= 0,
                        blob >= 1,
                ;
            }
        }
        if blob == 0 {
            return Some(0);
        }
        Some((li * self.n_experts + e) * 3 * blob)
    }
}

/// The words at `pos`.
pub open spec fn words_at(bytes: Seq<u8>, pos: int, n: nat) -> Seq<u32> {
    Seq::new(n, |i: int| num_at(bytes, pos + 4 * i, 4) as u32)
}

/// What bytes say of the sidecar of a model with the given layers, experts and matrix
/// size.
pub open spec fn shadows_read(
    bytes: Seq<u8>,
    layers: Seq<u32>,
    n_experts: nat,
    vq_blob: nat,
) -> Result<ShadowView, ShadowError> {
    let n = num_at(bytes, 8, 4);
    let p = (12 + 4 * n) as int;
    let data = bytes.skip(p + 8 + 16384);
    if bytes.len() < 8 {
        Err(ShadowError::Truncated)
    } else if num_at(bytes, 0, 8) != MAGIC {
        Err(ShadowError::BadMagic)
    } else if bytes.len() < 12 || bytes.len() < p + 8 + 16384 {
        Err(ShadowError::Truncated)
    } else if words_at(bytes, 12, n) != layers {
        Err(ShadowError::Layers)
    } else if num_at(bytes, p, 4) != n_experts {
        Err(ShadowError::Experts)
    } else if num_at(bytes, p + 4, 4) != vq_blob {
        Err(ShadowError::Blob)
    } else if data.len() != data_len(n, n_experts, vq_blob) {
        Err(ShadowError::DataSize)
    } else {
        Ok(ShadowView { layers, n_experts, vq_blob, cb: words_at(bytes, p + 8, 4096), data })
    }
}

fn read_words(bytes: &[u8], pos: usize, n: usize) -> (v: Vec<u32>)
    requires
        pos + 4 * n <= bytes@.len(),
    ensures
        v@ == words_at(bytes@, pos as int, n as nat),
{
    let total: usize = bytes.len();
    let mut v: Vec<u32> = Vec::new();
    for i in 0..n
        invariant
            total == bytes@.len(),
            pos + 4 * n <= total,
            v@ == words_at(bytes@, pos as int, i as nat),
    {
        proof {
            lemma_pow256();
        }
        v.push(read_le(bytes, pos + 4 * i, 4) as u32);
        proof {
            assert(v@ =~= words_at(bytes@, pos as int, (i + 1) as nat));
        }
    }
    v
}

fn same_words(a: &[u32], b: &[u32]) -> (yes: bool)
    ensures
        yes == (a@ == b@),
{
    if a.len() != b.len() {
        return false;
    }
    for i in 0..a.len()
        invariant
            a@.len() == b@.len(),
            forall|k: int| 0 <= k < i ==> #[trigger] a@[k] == b@[k],
    {
        if a[i] != b[i] {
            return false;
        }
    }
    proof {
        assert(a@ =~= b@);
    }
    true
}

impl Shadows {
    /// Reads a sidecar and holds it against the model: its layers with routed experts,
    /// its number of experts and the index bytes of a matrix.
    pub fn load(bytes: &[u8], moe_layers: &[u32], n_experts: usize, vq_blob: usize) -> (r: Result<
        Shadows,
        ShadowError,
    >)
        ensures
            match r {
                Ok(s) => shadows_read(bytes@, moe_layers@, n_experts as nat, vq_blob as nat)
                    == Ok::<ShadowView, ShadowError>(s@),
                Err(e) => shadows_read(bytes@, moe_layers@, n_experts as nat, vq_blob as nat)
                    == Err::<ShadowView, ShadowError>(e),
            },
    {
        let len: usize = bytes.len();
        if len < 8 {
            return Err(ShadowError::Truncated);
        }
        if read_le(bytes, 0, 8) != MAGIC {
            return Err(ShadowError::BadMagic);
        }
        if len < 12 {
            return Err(ShadowError::Truncated);
        }
        proof {
            lemma_pow256();
        }
        let n: u64 = read_le(bytes, 8, 4);
        if (len as u64) < 12 + 4 * n + 8 + 16384 {
            return Err(ShadowError::Truncated);
        }
        let count: usize = n as usize;
        let p: usize = 12 + 4 * count;
        let layers: Vec<u32> = read_words(bytes, 12, count);
        if !same_words(layers.as_slice(), moe_layers) {
            return Err(ShadowError::Layers);
        }
        let f_experts: u64 = read_le(bytes, p, 4);
        if f_experts != n_experts as u64 {
            return Err(ShadowError::Experts);
        }
        let f_blob: u64 = read_le(bytes, p + 4, 4);
        if f_blob != vq_blob as u64 {
            return Err(ShadowError::Blob);
        }
        let cb: Vec<u32> = read_words(bytes, p + 8, CODEBOOK_LEN);
        let data: Vec<u8> = sub_bytes(bytes, p + 8 + 16384, len);
        proof {
            assert(data@ =~= bytes@.skip(p + 8 + 16384));
            let a = n as int;
            let b = f_experts as int;
            let c = f_blob as int;
            assert(0 <= a * b <= 0xffff_fffe_0000_0001) by (nonlinear_arith)
                requires
                    0 <= a <= 0xffff_ffff,
                    0 <= b <= 0xffff_ffff,
            ;
            let ab = a * b * 3;
            assert(0 <= ab * c <= 0x2_ffff_fffa_0000_0003 * 0xffff_ffff) by (nonlinear_arith)
                requires
                    0 <= ab <= 0x2_ffff_fffa_0000_0003,
                    0 <= c <= 0xffff_ffff,
            ;
        }
        let want: u128 = ((n as u128) * (f_experts as u128)) * 3 * (f_blob as u128);
        if data.len() as u128 != want {
            return Err(ShadowError::DataSize);
        }
        Ok(Shadows { layers, n_experts, vq_blob, cb, data })
    }
}

/// Words as bytes.
pub open spec fn words_bytes(v: Seq<u32>) -> Seq<u8>
    decreases v.len(),
{
    if v.len() == 0 {
        Seq::empty()
    } else {
        words_bytes(v.drop_last()) + le(v.last() as nat, 4)
    }
}

/// A sidecar as bytes.
pub open spec fn shadow_bytes(s: ShadowView) -> Seq<u8> {
    le(MAGIC as nat, 8) + le(s.layers.len(), 4) + words_bytes(s.layers) + le(s.n_experts, 4) + le(
        s.vq_blob,
        4,
    ) + words_bytes(s.cb) + s.data
}

fn push_words(out: &mut Vec<u8>, v: &[u32])
    ensures
        final(out)@ == old(out)@ + words_bytes(v@),
{
    let ghost start = out@;
    proof {
        assert(v@.take(0) =~= Seq::<u32>::empty());
        assert(start + words_bytes(v@.take(0)) =~= start);
    }
    for i in 0..v.len()
        invariant
            out@ == start + words_bytes(v@.take(i as int)),
    {
        push_le(out, v[i] as u64, 4);
        proof {
            assert(v@.take(i + 1).drop_last() =~= v@.take(i as int));
            assert(out@ =~= start + words_bytes(v@.take(i + 1)));
        }
    }
    proof {
        assert(v@.take(v@.len() as int) =~= v@);
    }
}

impl Shadows {
    /// The bytes of the sidecar.
    pub fn to_bytes(&self) -> (out: Vec<u8>)
        ensures
            out@ == shadow_bytes(self@),
    {
        let mut out: Vec<u8> = Vec::new();
        push_le(&mut out, MAGIC, 8);
        push_le(&mut out, self.layers.len() as u64, 4);
        push_words(&mut out, self.layers.as_slice());
        push_le(&mut out, self.n_experts as u64, 4);
        push_le(&mut out, self.vq_blob as u64, 4);
        push_words(&mut out, self.cb.as_slice());
        push_bytes(&mut out, self.data.as_slice());
        proof {
            assert(out@ =~= shadow_bytes(self@));
        }
        out
    }
}

proof fn lemma_words_len(v: Seq<u32>)
    ensures
        words_bytes(v).len() == 4 * v.len(),
    decreases v.len(),
{
    if v.len() > 0 {
        lemma_words_len(v.drop_last());
        lemma_le_len(v.last() as nat, 4);
    }
}

proof fn lemma_word(v: Seq<u32>, front: Seq<u8>, back: Seq<u8>, i: int)
    requires
        0 <= i < v.len(),
    ensures
        num_at(front + words_bytes(v) + back, front.len() + 4 * i, 4) == v[i],
    decreases v.len(),
{
    let rest = v.drop_last();
    let last = le(v.last() as nat, 4);
    lemma_le_len(v.last() as nat, 4);
    lemma_words_len(rest);
    let all = front + words_bytes(v) + back;
    if i < rest.len() {
        lemma_word(rest, front, last + back, i);
        assert(all =~= front + words_bytes(rest) + (last + back));
    } else {
        let pos = front.len() + 4 * i;
        assert(all.subrange(pos as int, pos + 4) =~= last);
        lemma_pow256();
        lemma_of_le_le(v.last() as nat, 4);
    }
}

proof fn lemma_words_at(v: Seq<u32>, front: Seq<u8>, back: Seq<u8>)
    ensures
        words_at(front + words_bytes(v) + back, front.len() as int, v.len()) == v,
{
    let all = front + words_bytes(v) + back;
    let w = words_at(all, front.len() as int, v.len());
    assert forall|i: int| 0 <= i < v.len() implies #[trigger] w[i] == v[i] by {
        lemma_word(v, front, back, i);
    }
    assert(w =~= v);
}

/// A sidecar that is written for a model reads back as it was.
pub proof fn law_sidecar_reads_back(s: ShadowView)
    requires
        s.layers.len() <= u32::MAX,
        s.n_experts <= u32::MAX,
        s.vq_blob <= u32::MAX,
        s.cb.len() == CODEBOOK_LEN,
        s.data.len() == data_len(s.layers.len(), s.n_experts, s.vq_blob),
    ensures
        shadows_read(shadow_bytes(s), s.layers, s.n_experts, s.vq_blob) == Ok::<
            ShadowView,
            ShadowError,
        >(s),
{
    let all = shadow_bytes(s);
    let a = le(MAGIC as nat, 8);
    let b = le(s.layers.len(), 4);
    let c = words_bytes(s.layers);
    let d = le(s.n_experts, 4);
    let e = le(s.vq_blob, 4);
    let f = words_bytes(s.cb);
    lemma_le_len(MAGIC as nat, 8);
    lemma_le_len(s.layers.len(), 4);
    lemma_words_len(s.layers);
    lemma_le_len(s.n_experts, 4);
    lemma_le_len(s.vq_blob, 4);
    lemma_words_len(s.cb);
    lemma_pow256();
    lemma_of_le_le(MAGIC as nat, 8);
    lemma_of_le_le(s.layers.len(), 4);
    lemma_of_le_le(s.n_experts, 4);
    lemma_of_le_le(s.vq_blob, 4);
    let p = (12 + 4 * s.layers.len()) as int;
    assert(all.subrange(0, 8) =~= a);
    assert(all.subrange(8, 12) =~= b);
    assert(all =~= (a + b) + c + (d + e + f + s.data));
    lemma_words_at(s.layers, a + b, d + e + f + s.data);
    assert(all.subrange(p, p + 4) =~= d);
    assert(all.subrange(p + 4, p + 8) =~= e);
    assert(all =~= (a + b + c + d + e) + f + s.data);
    lemma_words_at(s.cb, a + b + c + d + e, s.data);
    assert(all.skip(p + 8 + 16384) =~= s.data);
}

/// The sidecar of a model file.
pub fn sidecar_path(model: &str) -> (path: String)
    ensures
        path@ == model@ + ".shadows"@,
{
    let mut out: String = String::new();
    push_text(&mut out, model);
    push_text(&mut out, ".shadows");
    proof {
        assert(out@ =~= model@ + ".shadows"@);
    }
    out
}

/// The model and the sidecar that a command line names; the sidecar stands next to the
/// model unless it says otherwise. Nothing where it names no model.
pub fn shadow_paths(args: &[String]) -> (r: Option<(String, String)>)
    ensures
        match flag_value(arg_texts(args@), "--model"@) {
            None => r is None,
            Some(model) => {
                &&& r is Some
                &&& r->Some_0.0@ == model
                &&& r->Some_0.1@ == match flag_value(arg_texts(args@), "--out"@) {
                    Some(out) => out,
                    None => model + ".shadows"@,
                }
            },
        },
{
    match value_flag(args, "--model") {
        None => None,
        Some(model) => {
            let out: String = match value_flag(args, "--out") {
                Some(o) => o,
                None => sidecar_path(model.as_str()),
            };
            Some((model, out))
        },
    }
}

/// The layer and the expert of pair `p`, counted layer by layer.
pub fn pair_at(p: usize, n_experts: usize) -> (r: (usize, usize))
    requires
        n_experts > 0,
    ensures
        r.0 == p / n_experts,
        r.1 == p % n_experts,
        r.0 * n_experts + r.1 == p,
        r.1 < n_experts,
{
    proof {
        vstd::arithmetic::div_mod::lemma_fundamental_div_mod(p as int, n_experts as int);
        assert(n_experts * (p / n_experts) == (p / n_experts) * n_experts) by (nonlinear_arith);
    }
    (p / n_experts, p % n_experts)
}

/// The name of a routed expert's matrix, counted from zero.
pub open spec fn matrix_name(layer: nat, expert: nat, matrix: nat) -> Seq<char> {
    "layers."@ + decimal(layer) + ".block_sparse_moe.experts."@ + decimal(expert) + ".w"@ + decimal(
        matrix + 1,
    )
}

/// The name of a routed expert's matrix.
pub fn expert_matrix(layer: u32, expert: usize, matrix: usize) -> (name: String)
    requires
        matrix < 3,
    ensures
        name@ == matrix_name(layer as nat, expert as nat, matrix as nat),
{
    let mut out: String = String::new();
    push_text(&mut out, "layers.");
    push_decimal(&mut out, layer as u64);
    push_text(&mut out, ".block_sparse_moe.experts.");
    push_decimal(&mut out, expert as u64);
    push_text(&mut out, ".w");
    push_decimal(&mut out, (matrix + 1) as u64);
    proof {
        assert(out@ =~= matrix_name(layer as nat, expert as nat, matrix as nat));
    }
    out
}

/// Where the index bytes of a matrix of a pair start.
pub open spec fn matrix_offset(pair: int, matrix: int, vq_blob: int) -> int {
    (pair * 3 + matrix) * vq_blob
}

proof fn lemma_matrix_inside(pairs: int, pair: int, matrix: int, vq_blob: int)
    requires
        0 <= pair < pairs,
        0 <= matrix < 3,
        vq_blob >= 0,
    ensures
        0 <= matrix_offset(pair, matrix, vq_blob),
        matrix_offset(pair, matrix, vq_blob) + vq_blob <= pairs * 3 * vq_blob,
{
    let r = pair * 3 + matrix;
    assert(0 <= r * vq_blob && r * vq_blob + vq_blob <= pairs * 3 * vq_blob) by (nonlinear_arith)
        requires
            0 <= r,
            r + 1 <= pairs * 3,
            vq_blob >= 0,
    ;
}

/// What is put for a pair lies where the expert's bytes are looked up, one matrix behind
/// the other.
pub proof fn law_matrices_lie_where_looked_up(s: ShadowView, li: nat, expert: nat, matrix: nat)
    requires
        li < s.layers.len(),
        expert < s.n_experts <= u32::MAX,
        forall|i: int, j: int|
            0 <= i < j < s.layers.len() ==> (#[trigger] s.layers[i]) < (#[trigger] s.layers[j]),
    ensures
        expert_offset(s, s.layers[li as int], expert as u32) is Some,
        matrix_offset((li * s.n_experts + expert) as int, matrix as int, s.vq_blob as int)
            == expert_offset(s, s.layers[li as int], expert as u32)->Some_0 + matrix * s.vq_blob,
{
    lemma_place_at(s.layers, s.layers[li as int], 0, li as int);
    let pair = (li * s.n_experts + expert) as int;
    assert((pair * 3 + matrix) * s.vq_blob == pair * 3 * s.vq_blob + matrix * s.vq_blob)
        by (nonlinear_arith);
}

impl Shadows {
    /// A sidecar whose index bytes are all zero.
    pub fn blank(layers: Vec<u32>, n_experts: usize, vq_blob: usize, cb: Vec<u32>) -> (s: Shadows)
        requires
            forall|i: int, j: int|
                0 <= i < j < layers@.len() ==> (#[trigger] layers@[i]) < (#[trigger] layers@[j]),
            data_len(layers@.len(), n_experts as nat, vq_blob as nat) <= usize::MAX,
        ensures
            s.wf(),
            s@ == (ShadowView {
                layers: layers@,
                n_experts: n_experts as nat,
                vq_blob: vq_blob as nat,
                cb: cb@,
                data: Seq::new(
                    data_len(layers@.len(), n_experts as nat, vq_blob as nat),
                    |i: int| 0u8,
                ),
            }),
    {
        let n: usize = layers.len();
        proof {
            let (a, b, c) = (n as int, n_experts as int, vq_blob as int);
            assert(a * b <= a * b * 3 && 0 <= a * b) by (nonlinear_arith)
                requires
                    a >= 0,
                    b >= 0,
            ;
            if c > 0 {
                assert(a * b * 3 <= a * b * 3 * c) by (nonlinear_arith)
                    requires
                        a * b * 3 >= 0,
                        c > 0,
                ;
            } else {
                assert(a * b * 3 * c == 0) by (nonlinear_arith)
                    requires
                        c == 0,
                ;
            }
        }
        let size: usize = if vq_blob == 0 {
            0
        } else {
            n * n_experts * 3 * vq_blob
        };
        let data: Vec<u8> = crate::cache::filled(0u8, size);
        let s = Shadows { layers, n_experts, vq_blob, cb, data };
        proof {
            assert(s.data@ =~= Seq::new(
                data_len(s.layers@.len(), n_experts as nat, vq_blob as nat),
                |i: int| 0u8,
            ));
        }
        s
    }

    /// Puts the index bytes of a matrix of a pair, counted layer by layer.
    pub fn put(&mut self, pair: usize, matrix: usize, indices: &[u8])
        requires
            old(self).wf(),
            pair < old(self).layers@.len() * old(self).n_experts,
            matrix < 3,
            indices@.len() == old(self).vq_blob,
        ensures
            final(self).wf(),
            ({
                let at = matrix_offset(pair as int, matrix as int, old(self).vq_blob as int);
                &&& at + indices@.len() <= old(self).data@.len()
                &&& final(self)@ == (ShadowView {
                    data: old(self).data@.take(at) + indices@ + old(self).data@.skip(
                        at + indices@.len(),
                    ),
                    ..old(self)@
                })
            }),
    {
        let ghost was = self.data@;
        let ghost pairs = self.layers@.len() * self.n_experts;
        let total: usize = self.data.len();
        let blob: usize = self.vq_blob;
        if blob == 0 {
            proof {
                let at = matrix_offset(pair as int, matrix as int, 0);
                assert(at == 0) by (nonlinear_arith)
                    requires
                        at == (pair * 3 + matrix) * 0,
                ;
                assert(was.take(0) + indices@ + was.skip(0) =~= was);
            }
            return;
        }
        proof {
            lemma_matrix_inside(pairs as int, pair as int, matrix as int, blob as int);
            let r = pair * 3 + matrix;
            assert(r <= r * blob && pair * 3 <= r * blob) by (nonlinear_arith)
                requires
                    blob >= 1,
                    r == pair * 3 + matrix,
                    pair >= 0,
                    matrix >= 0,
            ;
        }
        let at: usize = (pair * 3 + matrix) * blob;
        for i in 0..blob
            invariant
                indices@.len() == blob,
                self.data@.len() == total == was.len(),
                at + blob <= total,
                self.layers == old(self).layers,
                self.n_experts == old(self).n_experts,
                self.vq_blob == old(self).vq_blob,
                self.cb == old(self).cb,
                forall|k: int|
                    0 <= k < total ==> #[trigger] self.data@[k] == if at <= k < at + i {
                        indices@[k - at]
                    } else {
                        was[k]
                    },
        {
            self.data.set(at + i, indices[i]);
        }
        proof {
            assert(self.data@ =~= was.take(at as int) + indices@ + was.skip(at + blob));
        }
    }
}

/// How a sidecar begins: the eight letters of its format, the number of its layers and their
/// numbers, the experts of a layer and the bytes of a matrix.
pub proof fn law_sidecar_begins_with_its_format(s: ShadowView)
    ensures
        ({
            let b = shadow_bytes(s);
            let n = 4 * s.layers.len() as int;
            &&& b.subrange(0, 8) == seq![
                'M' as u8,
                'K' as u8,
                'S' as u8,
                'H' as u8,
                '0' as u8,
                '0' as u8,
                '0' as u8,
                '1' as u8,
            ]
            &&& b.subrange(8, 12) == le(s.layers.len(), 4)
            &&& b.subrange(12, 12 + n) == words_bytes(s.layers)
            &&& b.subrange(12 + n, 16 + n) == le(s.n_experts, 4)
            &&& b.subrange(16 + n, 20 + n) == le(s.vq_blob, 4)
        }),
{
    let b = shadow_bytes(s);
    let n = 4 * s.layers.len() as int;
    crate::le::lemma_le_len(MAGIC as nat, 8);
    crate::le::lemma_le_len(s.layers.len(), 4);
    crate::le::lemma_le_len(s.n_experts, 4);
    crate::le::lemma_le_len(s.vq_blob, 4);
    lemma_words_len(s.layers);
    assert(le(MAGIC as nat, 8) =~= seq![
        0x4du8,
        0x4bu8,
        0x53u8,
        0x48u8,
        0x30u8,
        0x30u8,
        0x30u8,
        0x31u8,
    ]) by {
        reveal_with_fuel(le, 9);
    }
    assert(b.subrange(0, 8) =~= le(MAGIC as nat, 8));
    assert(b.subrange(8, 12) =~= le(s.layers.len(), 4));
    assert(b.subrange(12, 12 + n) =~= words_bytes(s.layers));
    assert(b.subrange(12 + n, 16 + n) =~= le(s.n_experts, 4));
    assert(b.subrange(16 + n, 20 + n) =~= le(s.vq_blob, 4));
}

} // verus!
