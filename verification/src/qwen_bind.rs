//! Binding a decoder to the tensors of a checkpoint: which tensors a configuration
//! needs, under which names and shapes, and where they lie.

use crate::directory::Directory;
use crate::text::decimal;
use crate::text::push_decimal;
use crate::text::push_text;
use crate::weights::EntryView;
use crate::weights::DTYPE_F32;
use crate::weights::DTYPE_MXFP4;
use vstd::prelude::*;
use vstd::utf8::encode_utf8;

verus! {

/// The dimensions of a decoder.
pub struct QwenConfig {
    pub vocab: usize,
    pub d: usize,
    pub n_heads: usize,
    pub n_kv_heads: usize,
    pub head_dim: usize,
    pub lin_k_heads: usize,
    pub lin_v_heads: usize,
    pub lin_k_dim: usize,
    pub lin_v_dim: usize,
    pub conv_kernel: usize,
    pub n_experts: usize,
    pub top_k: usize,
    pub moe_inter: usize,
    pub shared_inter: usize,
    pub dense_inter: usize,
    pub mtp_layers: usize,
    /// The output head is the embedding.
    pub tied_embeddings: bool,
    /// One MLP per layer instead of routed experts.
    pub dense: bool,
    /// Per layer: full attention, else linear.
    pub full_attn: Vec<bool>,
}

/// The shape that a tensor must have.
pub enum Shape {
    /// 32-bit floats of these dimensions.
    F32(Vec<usize>),
    /// A convolution of channels and taps, with or without a middle dimension of one.
    Conv(usize, usize),
    /// Packed nibbles of rows and columns.
    Packed(usize, usize),
}

/// What a shape asks for.
pub ghost enum ShapeView {
    F32(Seq<int>),
    Conv(int, int),
    Packed(int, int),
}

/// Dimensions as numbers.
pub open spec fn ints(dims: Seq<usize>) -> Seq<int> {
    Seq::new(dims.len(), |i: int| dims[i] as int)
}

impl View for Shape {
    type V = ShapeView;

    open spec fn view(&self) -> ShapeView {
        match *self {
            Shape::F32(dims) => ShapeView::F32(ints(dims@)),
            Shape::Conv(a, b) => ShapeView::Conv(a as int, b as int),
            Shape::Packed(a, b) => ShapeView::Packed(a as int, b as int),
        }
    }
}

/// A tensor that a decoder needs.
pub struct Need {
    pub name: String,
    pub shape: Shape,
}

/// What a need says.
#[verifier::ext_equal]
pub ghost struct NeedView {
    pub name: Seq<char>,
    pub shape: ShapeView,
}

impl View for Need {
    type V = NeedView;

    open spec fn view(&self) -> NeedView {
        NeedView { name: self.name@, shape: self.shape@ }
    }
}

/// What a list of needs says.
pub open spec fn needs_view(needs: Seq<Need>) -> Seq<NeedView> {
    Seq::new(needs.len(), |i: int| needs[i]@)
}

/// Where a tensor lies: its offset and its length in bytes.
#[derive(Clone, Copy, PartialEq, Eq, Structural, Debug)]
pub struct Slot {
    pub off: u64,
    pub len: u64,
}

/// Why a tensor cannot be bound.
#[derive(Clone, Copy, PartialEq, Eq, Structural, Debug)]
pub enum Fault {
    Missing,
    WrongType,
    WrongShape,
    WrongSize,
}

/// Why a checkpoint cannot be bound.
#[derive(Debug)]
pub enum BindError {
    /// The configuration contradicts itself.
    Config,
    /// Draft layers are supported one at a time and on the dense variant only.
    DraftLayers,
    /// A tensor does not fit its need.
    Tensor(String, Fault),
}

/// What a binding error says.
pub ghost enum BindFault {
    Config,
    DraftLayers,
    Tensor(Seq<char>, Fault),
}

impl View for BindError {
    type V = BindFault;

    open spec fn view(&self) -> BindFault {
        match *self {
            BindError::Config => BindFault::Config,
            BindError::DraftLayers => BindFault::DraftLayers,
            BindError::Tensor(name, fault) => BindFault::Tensor(name@, fault),
        }
    }
}

/// The dimensions of an entry are these.
pub open spec fn dims_are(dims: Seq<u32>, expected: Seq<int>) -> bool {
    dims.len() == expected.len() && forall|i: int|
        0 <= i < dims.len() ==> (#[trigger] dims[i]) == expected[i]
}

/// The product of numbers.
pub open spec fn product_of(dims: Seq<int>) -> int
    decreases dims.len(),
{
    if dims.len() == 0 {
        1
    } else {
        product_of(dims.drop_last()) * dims.last()
    }
}

/// The bytes that a shape takes.
pub open spec fn shape_bytes(s: ShapeView) -> int {
    match s {
        ShapeView::F32(dims) => product_of(dims) * 4,
        ShapeView::Conv(a, b) => a * b * 4,
        ShapeView::Packed(a, b) => a * b / 2 + a * b / 32,
    }
}

/// The dimensions fit a shape.
pub open spec fn shape_fits(dims: Seq<u32>, s: ShapeView) -> bool {
    match s {
        ShapeView::F32(expected) => dims_are(dims, expected),
        ShapeView::Conv(a, b) => dims_are(dims, seq![a, b]) || dims_are(dims, seq![a, 1, b]),
        ShapeView::Packed(a, b) => dims_are(dims, seq![a, b]),
    }
}

/// The element type of a shape.
pub open spec fn shape_type(s: ShapeView) -> u8 {
    if s is Packed {
        DTYPE_MXFP4
    } else {
        DTYPE_F32
    }
}

/// What is wrong with an entry for a need, if anything.
pub open spec fn entry_fault(e: EntryView, s: ShapeView) -> Option<Fault> {
    if e.dtype != shape_type(s) {
        Some(Fault::WrongType)
    } else if !shape_fits(e.dims, s) {
        Some(Fault::WrongShape)
    } else if e.size != shape_bytes(s) {
        Some(Fault::WrongSize)
    } else {
        None
    }
}

/// What is wrong with a need, if anything.
pub open spec fn need_fault(map: Map<Seq<u8>, EntryView>, need: NeedView) -> Option<BindFault> {
    if !map.contains_key(encode_utf8(need.name)) {
        Some(BindFault::Tensor(need.name, Fault::Missing))
    } else {
        match entry_fault(map[encode_utf8(need.name)], need.shape) {
            Some(f) => Some(BindFault::Tensor(need.name, f)),
            None => None,
        }
    }
}

/// The first unmet need, from `i` on.
pub open spec fn needs_fault(
    map: Map<Seq<u8>, EntryView>,
    needs: Seq<NeedView>,
    i: int,
) -> Option<BindFault>
    decreases needs.len() - i,
{
    if i < 0 || i >= needs.len() {
        None
    } else if need_fault(map, needs[i]) is Some {
        need_fault(map, needs[i])
    } else {
        needs_fault(map, needs, i + 1)
    }
}

/// Where a tensor lies.
pub open spec fn slot_of(map: Map<Seq<u8>, EntryView>, name: Seq<char>) -> Slot {
    let e = map[encode_utf8(name)];
    Slot { off: e.offset, len: e.size }
}

/// Where the needed tensors lie.
pub open spec fn slots_of(map: Map<Seq<u8>, EntryView>, needs: Seq<NeedView>) -> Seq<Slot> {
    Seq::new(needs.len(), |i: int| slot_of(map, needs[i].name))
}

/// Whether the dimensions of an entry are these.
pub fn dims_match(actual: &[u32], expected: &[usize]) -> (same: bool)
    ensures
        same == dims_are(actual@, ints(expected@)),
{
    if actual.len() != expected.len() {
        return false;
    }
    for i in 0..actual.len()
        invariant
            actual@.len() == expected@.len(),
            forall|j: int| 0 <= j < i ==> (#[trigger] actual@[j]) == ints(expected@)[j],
    {
        if actual[i] as usize != expected[i] {
            proof {
                assert(actual@[i as int] != ints(expected@)[i as int]);
            }
            return false;
        }
    }
    true
}

/// Whether an entry's size is `product(dims) * 4`.
fn f32_size_is(size: u64, dims: &Vec<usize>) -> (same: bool)
    ensures
        same == (size == product_of(ints(dims@)) * 4),
{
    let ghost all = ints(dims@);
    let mut zero = false;
    for i in 0..dims.len()
        invariant
            all == ints(dims@),
            zero == exists|j: int| 0 <= j < i && all[j] == 0,
    {
        if dims[i] == 0 {
            zero = true;
            proof {
                assert(all[i as int] == 0);
            }
        }
    }
    if zero {
        proof {
            lemma_product_zero(all);
        }
        return size == 0;
    }
    let mut n: u64 = 1;
    for i in 0..dims.len()
        invariant
            all == ints(dims@),
            forall|j: int| 0 <= j < all.len() ==> all[j] != 0,
            n == product_of(all.take(i as int)),
    {
        proof {
            assert(all.take(i + 1).drop_last() =~= all.take(i as int));
            lemma_product_positive(all, i + 1, all.len() as int);
            assert(all.take(all.len() as int) =~= all);
        }
        match n.checked_mul(dims[i] as u64) {
            Some(m) => {
                n = m;
            },
            None => {
                return false;
            },
        }
    }
    proof {
        assert(all.take(all.len() as int) =~= all);
    }
    match n.checked_mul(4) {
        Some(m) => size == m,
        None => false,
    }
}

proof fn lemma_product_zero(dims: Seq<int>)
    requires
        exists|j: int| 0 <= j < dims.len() && dims[j] == 0,
    ensures
        product_of(dims) == 0,
    decreases dims.len(),
{
    let j = choose|j: int| 0 <= j < dims.len() && dims[j] == 0;
    if j < dims.len() - 1 {
        assert(dims.drop_last()[j] == 0);
        lemma_product_zero(dims.drop_last());
    }
    assert(product_of(dims.drop_last()) * dims.last() == 0) by (nonlinear_arith)
        requires
            product_of(dims.drop_last()) == 0 || dims.last() == 0,
    ;
}

proof fn lemma_product_positive(dims: Seq<int>, i: int, n: int)
    requires
        0 <= i <= n <= dims.len(),
        forall|j: int| 0 <= j < dims.len() ==> #[trigger] dims[j] > 0,
    ensures
        1 <= product_of(dims.take(i)) <= product_of(dims.take(n)),
    decreases n,
{
    if n > 0 {
        let k = if i < n { i } else { i - 1 };
        lemma_product_positive(dims, k, n - 1);
        assert(dims.take(n).drop_last() =~= dims.take(n - 1));
        let (a, b) = (product_of(dims.take(n - 1)), dims[n - 1]);
        assert(a * b >= a) by (nonlinear_arith)
            requires
                a >= 1,
                b >= 1,
        ;
    }
}

/// The product of two numbers, if it fits.
fn product2(a: usize, b: usize) -> (n: u128)
    ensures
        n == a * b,
{
    proof {
        assert(0 <= a * b <= 0xffff_ffff_ffff_ffff * 0xffff_ffff_ffff_ffff) by (nonlinear_arith)
            requires
                a <= 0xffff_ffff_ffff_ffff,
                b <= 0xffff_ffff_ffff_ffff,
        ;
    }
    (a as u128) * (b as u128)
}

/// Looks for a needed tensor.
fn bind_one(dir: &Directory, need: &Need) -> (r: Result<Slot, Fault>)
    requires
        dir.wf(),
    ensures
        match need_fault(dir.map(), need@) {
            Some(f) => r is Err && f == BindFault::Tensor(need.name@, r->Err_0),
            None => r == Ok::<Slot, Fault>(slot_of(dir.map(), need.name@)),
        },
{
    let row: usize = match dir.find(need.name.as_str()) {
        Some(i) => i,
        None => {
            return Err(Fault::Missing);
        },
    };
    let e = &dir.list[row].1;
    match &need.shape {
        Shape::F32(dims) => {
            if e.dtype != DTYPE_F32 {
                return Err(Fault::WrongType);
            }
            if !dims_match(e.dims.as_slice(), dims.as_slice()) {
                return Err(Fault::WrongShape);
            }
            if !f32_size_is(e.size, dims) {
                return Err(Fault::WrongSize);
            }
        },
        Shape::Conv(a, b) => {
            if e.dtype != DTYPE_F32 {
                return Err(Fault::WrongType);
            }
            let mut two: Vec<usize> = Vec::new();
            two.push(*a);
            two.push(*b);
            let mut three: Vec<usize> = Vec::new();
            three.push(*a);
            three.push(1);
            three.push(*b);
            proof {
                assert(ints(two@) =~= seq![*a as int, *b as int]);
                assert(ints(three@) =~= seq![*a as int, 1, *b as int]);
            }
            if !dims_match(e.dims.as_slice(), two.as_slice()) && !dims_match(
                e.dims.as_slice(),
                three.as_slice(),
            ) {
                return Err(Fault::WrongShape);
            }
            if e.size % 4 != 0 || (e.size / 4) as u128 != product2(*a, *b) {
                return Err(Fault::WrongSize);
            }
        },
        Shape::Packed(a, b) => {
            if e.dtype != DTYPE_MXFP4 {
                return Err(Fault::WrongType);
            }
            let mut two: Vec<usize> = Vec::new();
            two.push(*a);
            two.push(*b);
            proof {
                assert(ints(two@) =~= seq![*a as int, *b as int]);
            }
            if !dims_match(e.dims.as_slice(), two.as_slice()) {
                return Err(Fault::WrongShape);
            }
            let cells: u128 = product2(*a, *b);
            if e.size as u128 != cells / 2 + cells / 32 {
                return Err(Fault::WrongSize);
            }
        },
    }
    Ok(Slot { off: e.offset, len: e.size })
}

/// A copy of a text.
fn own(text: &str) -> (s: String)
    ensures
        s@ == text@,
{
    text.to_owned()
}

/// Looks for needed tensors, in order.
fn bind_all(dir: &Directory, needs: &Vec<Need>) -> (r: Result<Vec<Slot>, BindError>)
    requires
        dir.wf(),
    ensures
        match needs_fault(dir.map(), needs_view(needs@), 0) {
            Some(f) => r is Err && r->Err_0@ == f,
            None => r is Ok && r->Ok_0@ == slots_of(dir.map(), needs_view(needs@)),
        },
{
    let ghost all = needs_view(needs@);
    let mut out: Vec<Slot> = Vec::with_capacity(needs.len());
    for i in 0..needs.len()
        invariant
            dir.wf(),
            all == needs_view(needs@),
            out@ == slots_of(dir.map(), all).take(i as int),
            needs_fault(dir.map(), all, 0) == needs_fault(dir.map(), all, i as int),
    {
        proof {
            assert(all[i as int] == needs@[i as int]@);
        }
        match bind_one(dir, &needs[i]) {
            Ok(slot) => {
                out.push(slot);
                proof {
                    assert(slots_of(dir.map(), all).take(i + 1) =~= slots_of(
                        dir.map(),
                        all,
                    ).take(i as int).push(slot));
                }
            },
            Err(fault) => {
                return Err(BindError::Tensor(own(needs[i].name.as_str()), fault));
            },
        }
    }
    proof {
        assert(slots_of(dir.map(), all).take(all.len() as int) =~= slots_of(dir.map(), all));
    }
    Ok(out)
}

// ── what a configuration needs ──

/// A need for floats.
pub open spec fn f32_need(name: Seq<char>, dims: Seq<int>) -> NeedView {
    NeedView { name, shape: ShapeView::F32(dims) }
}

/// A need for packed nibbles.
pub open spec fn packed_need(name: Seq<char>, rows: int, cols: int) -> NeedView {
    NeedView { name, shape: ShapeView::Packed(rows, cols) }
}

impl QwenConfig {
    /// Cells of all linear-attention keys.
    pub open spec fn key_total(&self) -> int {
        self.lin_k_heads * self.lin_k_dim
    }

    /// Cells of all linear-attention values.
    pub open spec fn value_total(&self) -> int {
        self.lin_v_heads * self.lin_v_dim
    }

    /// Channels of the convolution: queries, keys and values.
    pub open spec fn conv_dim(&self) -> int {
        self.key_total() * 2 + self.value_total()
    }

    /// Cells of all attention heads.
    pub open spec fn full_width(&self) -> int {
        self.n_heads * self.head_dim
    }

    /// Cells of all key/value heads.
    pub open spec fn kv_width(&self) -> int {
        self.n_kv_heads * self.head_dim
    }

    /// The derived widths fit the machine.
    pub open spec fn widths_fit(&self) -> bool {
        &&& self.conv_dim() <= usize::MAX
        &&& self.key_total() * 2 <= usize::MAX
        &&& self.full_width() * 2 <= usize::MAX
        &&& self.kv_width() <= usize::MAX
        &&& 2 * self.d <= usize::MAX
    }

    /// The dimensions agree with one another.
    pub open spec fn coherent(&self) -> bool {
        &&& self.n_kv_heads > 0 && self.n_heads % self.n_kv_heads == 0
        &&& self.lin_k_heads > 0 && self.lin_v_heads % self.lin_k_heads == 0
        &&& if self.dense {
            self.d % 32 == 0 && self.dense_inter % 32 == 0
        } else {
            &&& 0 < self.top_k <= self.n_experts
            &&& self.d % 32 == 0 && self.moe_inter % 32 == 0 && self.shared_inter > 0
        }
    }

    /// Embedding, final norm and, unless it is tied, the output head.
    pub open spec fn head_needs(&self) -> Seq<NeedView> {
        let (v, d) = (self.vocab as int, self.d as int);
        let base = seq![
            f32_need("model.language_model.embed_tokens.weight"@, seq![v, d]),
            f32_need("model.language_model.norm.weight"@, seq![d]),
        ];
        if self.tied_embeddings {
            base
        } else {
            base.push(f32_need("lm_head.weight"@, seq![v, d]))
        }
    }

    /// A full-attention block under the prefix `p`.
    pub open spec fn full_needs(&self, p: Seq<char>) -> Seq<NeedView> {
        let d = self.d as int;
        let (w, kv, hd) = (self.full_width(), self.kv_width(), self.head_dim as int);
        seq![
            f32_need(p + ".self_attn.q_proj.weight"@, seq![w * 2, d]),
            f32_need(p + ".self_attn.k_proj.weight"@, seq![kv, d]),
            f32_need(p + ".self_attn.v_proj.weight"@, seq![kv, d]),
            f32_need(p + ".self_attn.o_proj.weight"@, seq![d, w]),
            f32_need(p + ".self_attn.q_norm.weight"@, seq![hd]),
            f32_need(p + ".self_attn.k_norm.weight"@, seq![hd]),
        ]
    }

    /// A linear-attention block under the prefix `p`.
    pub open spec fn linear_needs(&self, p: Seq<char>) -> Seq<NeedView> {
        let d = self.d as int;
        let (c, vt, h) = (self.conv_dim(), self.value_total(), self.lin_v_heads as int);
        seq![
            f32_need(p + ".linear_attn.in_proj_qkv.weight"@, seq![c, d]),
            f32_need(p + ".linear_attn.in_proj_z.weight"@, seq![vt, d]),
            f32_need(p + ".linear_attn.in_proj_b.weight"@, seq![h, d]),
            f32_need(p + ".linear_attn.in_proj_a.weight"@, seq![h, d]),
            NeedView {
                name: p + ".linear_attn.conv1d.weight"@,
                shape: ShapeView::Conv(c, self.conv_kernel as int),
            },
            f32_need(p + ".linear_attn.A_log"@, seq![h]),
            f32_need(p + ".linear_attn.dt_bias"@, seq![h]),
            f32_need(p + ".linear_attn.norm.weight"@, seq![self.lin_v_dim as int]),
            f32_need(p + ".linear_attn.out_proj.weight"@, seq![d, vt]),
        ]
    }

    /// A dense MLP under the prefix `p`.
    pub open spec fn dense_needs(&self, p: Seq<char>) -> Seq<NeedView> {
        let (d, i) = (self.d as int, self.dense_inter as int);
        seq![
            packed_need(p + ".mlp.gate_proj.weight"@, i, d),
            packed_need(p + ".mlp.up_proj.weight"@, i, d),
            packed_need(p + ".mlp.down_proj.weight"@, d, i),
        ]
    }

    /// The router and the shared expert under the prefix `p`.
    pub open spec fn shared_needs(&self, p: Seq<char>) -> Seq<NeedView> {
        let (d, s) = (self.d as int, self.shared_inter as int);
        seq![
            f32_need(p + ".mlp.gate.weight"@, seq![self.n_experts as int, d]),
            f32_need(p + ".mlp.shared_expert.gate_proj.weight"@, seq![s, d]),
            f32_need(p + ".mlp.shared_expert.down_proj.weight"@, seq![d, s]),
            f32_need(p + ".mlp.shared_expert.up_proj.weight"@, seq![s, d]),
            f32_need(p + ".mlp.shared_expert_gate.weight"@, seq![1, d]),
        ]
    }

    /// The first `n` routed experts of layer `l`.
    pub open spec fn expert_needs(&self, l: nat, n: int) -> Seq<NeedView>
        decreases n,
    {
        if n <= 0 {
            Seq::empty()
        } else {
            let p = "layers."@ + decimal(l) + ".block_sparse_moe.experts."@ + decimal(
                (n - 1) as nat,
            );
            let (d, i) = (self.d as int, self.moe_inter as int);
            self.expert_needs(l, n - 1) + seq![
                packed_need(p + ".w1"@, i, d),
                packed_need(p + ".w2"@, d, i),
                packed_need(p + ".w3"@, i, d),
            ]
        }
    }

    /// A layer's tensors.
    pub open spec fn layer_needs(&self, l: nat) -> Seq<NeedView> {
        let p = "model.language_model.layers."@ + decimal(l);
        let d = self.d as int;
        seq![
            f32_need(p + ".input_layernorm.weight"@, seq![d]),
            f32_need(p + ".post_attention_layernorm.weight"@, seq![d]),
        ] + (if self.full_attn@[l as int] {
            self.full_needs(p)
        } else {
            self.linear_needs(p)
        }) + (if self.dense {
            self.dense_needs(p)
        } else {
            self.shared_needs(p) + self.expert_needs(l, self.n_experts as int)
        })
    }

    /// The draft head's tensors.
    pub open spec fn mtp_needs(&self) -> Seq<NeedView> {
        let d = self.d as int;
        seq![
            f32_need("mtp.fc.weight"@, seq![d, 2 * d]),
            f32_need("mtp.pre_fc_norm_embedding.weight"@, seq![d]),
            f32_need("mtp.pre_fc_norm_hidden.weight"@, seq![d]),
            f32_need("mtp.norm.weight"@, seq![d]),
            f32_need("mtp.layers.0.input_layernorm.weight"@, seq![d]),
            f32_need("mtp.layers.0.post_attention_layernorm.weight"@, seq![d]),
        ] + self.full_needs("mtp.layers.0"@) + self.dense_needs("mtp.layers.0"@)
    }

    /// The first fault of the layers, from `l` on.
    pub open spec fn layers_fault(&self, map: Map<Seq<u8>, EntryView>, l: int) -> Option<BindFault>
        decreases self.full_attn@.len() - l,
    {
        if l < 0 || l >= self.full_attn@.len() {
            None
        } else if needs_fault(map, self.layer_needs(l as nat), 0) is Some {
            needs_fault(map, self.layer_needs(l as nat), 0)
        } else {
            self.layers_fault(map, l + 1)
        }
    }

    /// Why a checkpoint cannot be bound, if it cannot: the configuration is looked at
    /// first, then the head, the layers in order, and the draft head.
    pub open spec fn bind_fault(&self, map: Map<Seq<u8>, EntryView>) -> Option<BindFault> {
        if !self.coherent() {
            Some(BindFault::Config)
        } else if needs_fault(map, self.head_needs(), 0) is Some {
            needs_fault(map, self.head_needs(), 0)
        } else if self.layers_fault(map, 0) is Some {
            self.layers_fault(map, 0)
        } else if self.mtp_layers == 0 {
            None
        } else if !(self.dense && self.mtp_layers == 1) {
            Some(BindFault::DraftLayers)
        } else {
            needs_fault(map, self.mtp_needs(), 0)
        }
    }
}

/// Where a decoder's tensors lie: the head's, each layer's and the draft head's, each
/// group in the order in which the configuration needs them.
pub struct QwenWeights {
    pub head: Vec<Slot>,
    pub layers: Vec<Vec<Slot>>,
    pub mtp: Option<Vec<Slot>>,
}

/// A text made of two.
fn text2(a: &str, b: &str) -> (s: String)
    ensures
        s@ == a@ + b@,
{
    let mut s: String = a.to_owned();
    push_text(&mut s, b);
    s
}

/// A need for floats of one dimension.
fn need1(p: &str, suffix: &str, a: usize) -> (n: Need)
    ensures
        n@ == f32_need(p@ + suffix@, seq![a as int]),
{
    let mut dims: Vec<usize> = Vec::new();
    dims.push(a);
    proof {
        assert(ints(dims@) =~= seq![a as int]);
    }
    Need { name: text2(p, suffix), shape: Shape::F32(dims) }
}

/// A need for floats of two dimensions.
fn need2(p: &str, suffix: &str, a: usize, b: usize) -> (n: Need)
    ensures
        n@ == f32_need(p@ + suffix@, seq![a as int, b as int]),
{
    let mut dims: Vec<usize> = Vec::new();
    dims.push(a);
    dims.push(b);
    proof {
        assert(ints(dims@) =~= seq![a as int, b as int]);
    }
    Need { name: text2(p, suffix), shape: Shape::F32(dims) }
}

/// A need for packed nibbles.
fn need_packed(p: &str, suffix: &str, rows: usize, cols: usize) -> (n: Need)
    ensures
        n@ == packed_need(p@ + suffix@, rows as int, cols as int),
{
    Need { name: text2(p, suffix), shape: Shape::Packed(rows, cols) }
}

/// Adds a need.
fn add_need(needs: &mut Vec<Need>, n: Need)
    ensures
        needs_view(final(needs)@) == needs_view(old(needs)@).push(n@),
{
    let ghost before = needs@;
    needs.push(n);
    proof {
        assert(needs_view(needs@) =~= needs_view(before).push(n@));
    }
}

impl QwenConfig {
    fn check(&self) -> (ok: bool)
        ensures
            ok == self.coherent(),
    {
        if self.n_kv_heads == 0 || self.n_heads % self.n_kv_heads != 0 {
            return false;
        }
        if self.lin_k_heads == 0 || self.lin_v_heads % self.lin_k_heads != 0 {
            return false;
        }
        if self.dense {
            self.d % 32 == 0 && self.dense_inter % 32 == 0
        } else {
            self.top_k > 0 && self.top_k <= self.n_experts && self.d % 32 == 0 && self.moe_inter
                % 32 == 0 && self.shared_inter > 0
        }
    }

    fn push_full(&self, needs: &mut Vec<Need>, p: &str)
        requires
            self.widths_fit(),
        ensures
            needs_view(final(needs)@) == needs_view(old(needs)@) + self.full_needs(p@),
    {
        let ghost before = needs_view(needs@);
        proof {
            assert(0 <= self.full_width() <= self.full_width() * 2) by (nonlinear_arith)
                requires
                    self.full_width() == self.n_heads * self.head_dim,
            ;
        }
        let w: usize = self.n_heads * self.head_dim;
        let kv: usize = self.n_kv_heads * self.head_dim;
        add_need(needs, need2(p, ".self_attn.q_proj.weight", w * 2, self.d));
        add_need(needs, need2(p, ".self_attn.k_proj.weight", kv, self.d));
        add_need(needs, need2(p, ".self_attn.v_proj.weight", kv, self.d));
        add_need(needs, need2(p, ".self_attn.o_proj.weight", self.d, w));
        add_need(needs, need1(p, ".self_attn.q_norm.weight", self.head_dim));
        add_need(needs, need1(p, ".self_attn.k_norm.weight", self.head_dim));
        proof {
            assert(needs_view(needs@) =~= before + self.full_needs(p@));
        }
    }

    fn push_linear(&self, needs: &mut Vec<Need>, p: &str)
        requires
            self.widths_fit(),
        ensures
            needs_view(final(needs)@) == needs_view(old(needs)@) + self.linear_needs(p@),
    {
        let ghost before = needs_view(needs@);
        proof {
            assert(0 <= self.key_total() && 0 <= self.value_total()) by (nonlinear_arith)
                requires
                    self.key_total() == self.lin_k_heads * self.lin_k_dim,
                    self.value_total() == self.lin_v_heads * self.lin_v_dim,
            ;
        }
        let kt: usize = self.lin_k_heads * self.lin_k_dim;
        let vt: usize = self.lin_v_heads * self.lin_v_dim;
        let c: usize = kt * 2 + vt;
        let h: usize = self.lin_v_heads;
        add_need(needs, need2(p, ".linear_attn.in_proj_qkv.weight", c, self.d));
        add_need(needs, need2(p, ".linear_attn.in_proj_z.weight", vt, self.d));
        add_need(needs, need2(p, ".linear_attn.in_proj_b.weight", h, self.d));
        add_need(needs, need2(p, ".linear_attn.in_proj_a.weight", h, self.d));
        add_need(
            needs,
            Need {
                name: text2(p, ".linear_attn.conv1d.weight"),
                shape: Shape::Conv(c, self.conv_kernel),
            },
        );
        add_need(needs, need1(p, ".linear_attn.A_log", h));
        add_need(needs, need1(p, ".linear_attn.dt_bias", h));
        add_need(needs, need1(p, ".linear_attn.norm.weight", self.lin_v_dim));
        add_need(needs, need2(p, ".linear_attn.out_proj.weight", self.d, vt));
        proof {
            assert(needs_view(needs@) =~= before + self.linear_needs(p@));
        }
    }

    fn push_dense(&self, needs: &mut Vec<Need>, p: &str)
        ensures
            needs_view(final(needs)@) == needs_view(old(needs)@) + self.dense_needs(p@),
    {
        let ghost before = needs_view(needs@);
        add_need(needs, need_packed(p, ".mlp.gate_proj.weight", self.dense_inter, self.d));
        add_need(needs, need_packed(p, ".mlp.up_proj.weight", self.dense_inter, self.d));
        add_need(needs, need_packed(p, ".mlp.down_proj.weight", self.d, self.dense_inter));
        proof {
            assert(needs_view(needs@) =~= before + self.dense_needs(p@));
        }
    }

    fn push_shared(&self, needs: &mut Vec<Need>, p: &str)
        ensures
            needs_view(final(needs)@) == needs_view(old(needs)@) + self.shared_needs(p@),
    {
        let ghost before = needs_view(needs@);
        add_need(needs, need2(p, ".mlp.gate.weight", self.n_experts, self.d));
        add_need(
            needs,
            need2(p, ".mlp.shared_expert.gate_proj.weight", self.shared_inter, self.d),
        );
        add_need(
            needs,
            need2(p, ".mlp.shared_expert.down_proj.weight", self.d, self.shared_inter),
        );
        add_need(
            needs,
            need2(p, ".mlp.shared_expert.up_proj.weight", self.shared_inter, self.d),
        );
        add_need(needs, need2(p, ".mlp.shared_expert_gate.weight", 1, self.d));
        proof {
            assert(needs_view(needs@) =~= before + self.shared_needs(p@));
        }
    }

    fn push_experts(&self, needs: &mut Vec<Need>, l: usize)
        ensures
            needs_view(final(needs)@) == needs_view(old(needs)@) + self.expert_needs(
                l as nat,
                self.n_experts as int,
            ),
    {
        let ghost before = needs_view(needs@);
        proof {
            assert(before =~= before + self.expert_needs(l as nat, 0));
        }
        for e in 0..self.n_experts
            invariant
                needs_view(needs@) == before + self.expert_needs(l as nat, e as int),
        {
            let mut p: String = "layers.".to_owned();
            push_decimal(&mut p, l as u64);
            push_text(&mut p, ".block_sparse_moe.experts.");
            push_decimal(&mut p, e as u64);
            add_need(needs, need_packed(p.as_str(), ".w1", self.moe_inter, self.d));
            add_need(needs, need_packed(p.as_str(), ".w2", self.d, self.moe_inter));
            add_need(needs, need_packed(p.as_str(), ".w3", self.moe_inter, self.d));
            proof {
                assert(needs_view(needs@) =~= before + self.expert_needs(l as nat, e + 1));
            }
        }
    }

    fn needs_of_layer(&self, l: usize) -> (needs: Vec<Need>)
        requires
            self.widths_fit(),
            l < self.full_attn@.len(),
        ensures
            needs_view(needs@) == self.layer_needs(l as nat),
    {
        let mut p: String = "model.language_model.layers.".to_owned();
        push_decimal(&mut p, l as u64);
        let mut needs: Vec<Need> = Vec::new();
        add_need(&mut needs, need1(p.as_str(), ".input_layernorm.weight", self.d));
        add_need(&mut needs, need1(p.as_str(), ".post_attention_layernorm.weight", self.d));
        if self.full_attn[l] {
            self.push_full(&mut needs, p.as_str());
        } else {
            self.push_linear(&mut needs, p.as_str());
        }
        if self.dense {
            self.push_dense(&mut needs, p.as_str());
        } else {
            self.push_shared(&mut needs, p.as_str());
            self.push_experts(&mut needs, l);
        }
        proof {
            assert(needs_view(needs@) =~= self.layer_needs(l as nat));
        }
        needs
    }

    fn needs_of_head(&self) -> (needs: Vec<Need>)
        ensures
            needs_view(needs@) == self.head_needs(),
    {
        let mut needs: Vec<Need> = Vec::new();
        add_need(
            &mut needs,
            need2("model.language_model.embed_tokens.weight", "", self.vocab, self.d),
        );
        add_need(&mut needs, need1("model.language_model.norm.weight", "", self.d));
        if !self.tied_embeddings {
            add_need(&mut needs, need2("lm_head.weight", "", self.vocab, self.d));
        }
        proof {
            reveal_strlit("");
            assert("model.language_model.embed_tokens.weight"@ + ""@
                =~= "model.language_model.embed_tokens.weight"@);
            assert("model.language_model.norm.weight"@ + ""@
                =~= "model.language_model.norm.weight"@);
            assert("lm_head.weight"@ + ""@ =~= "lm_head.weight"@);
            assert(needs_view(needs@) =~= self.head_needs());
        }
        needs
    }

    fn needs_of_mtp(&self) -> (needs: Vec<Need>)
        requires
            self.widths_fit(),
        ensures
            needs_view(needs@) == self.mtp_needs(),
    {
        let mut needs: Vec<Need> = Vec::new();
        let d: usize = self.d;
        add_need(&mut needs, need2("mtp.fc.weight", "", d, 2 * d));
        add_need(&mut needs, need1("mtp.pre_fc_norm_embedding.weight", "", d));
        add_need(&mut needs, need1("mtp.pre_fc_norm_hidden.weight", "", d));
        add_need(&mut needs, need1("mtp.norm.weight", "", d));
        add_need(&mut needs, need1("mtp.layers.0.input_layernorm.weight", "", d));
        add_need(&mut needs, need1("mtp.layers.0.post_attention_layernorm.weight", "", d));
        self.push_full(&mut needs, "mtp.layers.0");
        self.push_dense(&mut needs, "mtp.layers.0");
        proof {
            reveal_strlit("");
            assert("mtp.fc.weight"@ + ""@ =~= "mtp.fc.weight"@);
            assert("mtp.pre_fc_norm_embedding.weight"@ + ""@
                =~= "mtp.pre_fc_norm_embedding.weight"@);
            assert("mtp.pre_fc_norm_hidden.weight"@ + ""@ =~= "mtp.pre_fc_norm_hidden.weight"@);
            assert("mtp.norm.weight"@ + ""@ =~= "mtp.norm.weight"@);
            assert("mtp.layers.0.input_layernorm.weight"@ + ""@
                =~= "mtp.layers.0.input_layernorm.weight"@);
            assert("mtp.layers.0.post_attention_layernorm.weight"@ + ""@
                =~= "mtp.layers.0.post_attention_layernorm.weight"@);
            assert(needs_view(needs@) =~= self.mtp_needs());
        }
        needs
    }
}

impl QwenWeights {
    /// Whether the checkpoint carries a draft head.
    pub fn has_mtp(&self) -> (yes: bool)
        ensures
            yes == (self.mtp is Some),
    {
        self.mtp.is_some()
    }

    /// Binds a decoder to a checkpoint's tensors.
    pub fn from_bin(dir: &Directory, c: &QwenConfig) -> (r: Result<QwenWeights, BindError>)
        requires
            dir.wf(),
            c.widths_fit(),
        ensures
            match c.bind_fault(dir.map()) {
                Some(f) => r is Err && r->Err_0@ == f,
                None => {
                    &&& r is Ok
                    &&& r->Ok_0.head@ == slots_of(dir.map(), c.head_needs())
                    &&& r->Ok_0.layers@.len() == c.full_attn@.len()
                    &&& forall|l: int|
                        0 <= l < c.full_attn@.len() ==> (#[trigger] r->Ok_0.layers@[l])@
                            == slots_of(dir.map(), c.layer_needs(l as nat))
                    &&& r->Ok_0.mtp is Some <==> c.mtp_layers > 0
                    &&& r->Ok_0.mtp matches Some(m) ==> m@ == slots_of(dir.map(), c.mtp_needs())
                },
            },
    {
        if !c.check() {
            return Err(BindError::Config);
        }
        let head: Vec<Slot> = match bind_all(dir, &c.needs_of_head()) {
            Ok(slots) => slots,
            Err(e) => {
                return Err(e);
            },
        };
        let mut layers: Vec<Vec<Slot>> = Vec::with_capacity(c.full_attn.len());
        for l in 0..c.full_attn.len()
            invariant
                dir.wf(),
                c.widths_fit(),
                c.coherent(),
                needs_fault(dir.map(), c.head_needs(), 0) is None,
                layers@.len() == l,
                forall|k: int|
                    0 <= k < l ==> (#[trigger] layers@[k])@ == slots_of(
                        dir.map(),
                        c.layer_needs(k as nat),
                    ),
                c.layers_fault(dir.map(), 0) == c.layers_fault(dir.map(), l as int),
        {
            match bind_all(dir, &c.needs_of_layer(l)) {
                Ok(slots) => {
                    layers.push(slots);
                },
                Err(e) => {
                    return Err(e);
                },
            }
        }
        let mut mtp: Option<Vec<Slot>> = None;
        if c.mtp_layers > 0 {
            if !c.dense || c.mtp_layers != 1 {
                return Err(BindError::DraftLayers);
            }
            match bind_all(dir, &c.needs_of_mtp()) {
                Ok(slots) => {
                    mtp = Some(slots);
                },
                Err(e) => {
                    return Err(e);
                },
            }
        }
        Ok(QwenWeights { head, layers, mtp })
    }
}

/// A checkpoint that binds has every tensor at its size: each slot is as long as the
/// shape that its need asks for.
pub proof fn law_bound_slots_have_their_size(
    map: Map<Seq<u8>, EntryView>,
    needs: Seq<NeedView>,
    i: int,
)
    requires
        needs_fault(map, needs, 0) is None,
        0 <= i < needs.len(),
    ensures
        slots_of(map, needs)[i].len == shape_bytes(needs[i].shape),
{
    lemma_no_fault(map, needs, 0, i);
}

proof fn lemma_no_fault(map: Map<Seq<u8>, EntryView>, needs: Seq<NeedView>, j: int, i: int)
    requires
        needs_fault(map, needs, j) is None,
        0 <= j <= i < needs.len(),
    ensures
        need_fault(map, needs[i]) is None,
    decreases i - j,
{
    if j < i {
        lemma_no_fault(map, needs, j + 1, i);
    }
}

/// The nibbles and the scales of a packed matrix.
pub fn packed_parts<'a>(data: &'a [u8], slot: &Slot, rows: usize, cols: usize) -> (r: (
    &'a [u8],
    &'a [u8],
))
    requires
        slot.off + rows * cols / 2 + rows * cols / 32 <= data@.len(),
    ensures
        r.0@ == data@.subrange(slot.off as int, slot.off + rows * cols / 2),
        r.1@ == data@.subrange(
            slot.off + rows * cols / 2,
            slot.off + rows * cols / 2 + rows * cols / 32,
        ),
{
    let total: usize = data.len();
    let cells: u128 = product2(rows, cols);
    let np: usize = (cells / 2) as usize;
    let ns: usize = (cells / 32) as usize;
    let off: usize = slot.off as usize;
    (
        vstd::slice::slice_subrange(data, off, off + np),
        vstd::slice::slice_subrange(data, off + np, off + np + ns),
    )
}

} // verus!
