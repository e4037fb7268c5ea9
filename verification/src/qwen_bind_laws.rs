//! What a binding stands for: every needed tensor has a name of its own, and each slot is
//! the place of the tensor that its position asks for.

use crate::numtext::is_digit;
use crate::numtext::law_decimal_reads_back;
use crate::numtext::lemma_decimal;
use crate::qwen_bind::need_fault;
use crate::qwen_bind::needs_fault;
use crate::qwen_bind::slot_of;
use crate::qwen_bind::slots_of;
use crate::qwen_bind::NeedView;
use crate::qwen_bind::QwenConfig;
use crate::qwen_bind::ShapeView;
use crate::qwen_bind::Slot;
use crate::text::decimal;
use crate::weights::EntryView;
use crate::weights::DTYPE_F32;
use crate::weights::DTYPE_MXFP4;
use vstd::prelude::*;
use vstd::utf8::encode_utf8;

verus! {

/// The norms of a layer.
spec fn norm_names() -> Seq<Seq<char>> {
    seq![
        ".input_layernorm.weight"@,
        ".post_attention_layernorm.weight"@,
    ]
}

/// A full-attention block.
spec fn full_names() -> Seq<Seq<char>> {
    seq![
        ".self_attn.q_proj.weight"@,
        ".self_attn.k_proj.weight"@,
        ".self_attn.v_proj.weight"@,
        ".self_attn.o_proj.weight"@,
        ".self_attn.q_norm.weight"@,
        ".self_attn.k_norm.weight"@,
    ]
}

/// A linear-attention block.
spec fn linear_names() -> Seq<Seq<char>> {
    seq![
        ".linear_attn.in_proj_qkv.weight"@,
        ".linear_attn.in_proj_z.weight"@,
        ".linear_attn.in_proj_b.weight"@,
        ".linear_attn.in_proj_a.weight"@,
        ".linear_attn.conv1d.weight"@,
        ".linear_attn.A_log"@,
        ".linear_attn.dt_bias"@,
        ".linear_attn.norm.weight"@,
        ".linear_attn.out_proj.weight"@,
    ]
}

/// A dense MLP.
spec fn dense_names() -> Seq<Seq<char>> {
    seq![
        ".mlp.gate_proj.weight"@,
        ".mlp.up_proj.weight"@,
        ".mlp.down_proj.weight"@,
    ]
}

/// A router and a shared expert.
spec fn shared_names() -> Seq<Seq<char>> {
    seq![
        ".mlp.gate.weight"@,
        ".mlp.shared_expert.gate_proj.weight"@,
        ".mlp.shared_expert.down_proj.weight"@,
        ".mlp.shared_expert.up_proj.weight"@,
        ".mlp.shared_expert_gate.weight"@,
    ]
}

/// What tells the tensor names of a layer apart: their lengths and some of their letters.
proof fn lemma_suffixes()
    ensures
        ".input_layernorm.weight"@[0] == '.',
        ".post_attention_layernorm.weight"@[0] == '.',
        ".self_attn.q_proj.weight"@[0] == '.',
        ".self_attn.k_proj.weight"@[0] == '.',
        ".self_attn.v_proj.weight"@[0] == '.',
        ".self_attn.o_proj.weight"@[0] == '.',
        ".self_attn.q_norm.weight"@[0] == '.',
        ".self_attn.k_norm.weight"@[0] == '.',
        ".linear_attn.in_proj_qkv.weight"@[0] == '.',
        ".linear_attn.in_proj_z.weight"@[0] == '.',
        ".linear_attn.in_proj_b.weight"@[0] == '.',
        ".linear_attn.in_proj_a.weight"@[0] == '.',
        ".linear_attn.conv1d.weight"@[0] == '.',
        ".linear_attn.A_log"@[0] == '.',
        ".linear_attn.dt_bias"@[0] == '.',
        ".linear_attn.norm.weight"@[0] == '.',
        ".linear_attn.out_proj.weight"@[0] == '.',
        ".mlp.gate_proj.weight"@[0] == '.',
        ".mlp.up_proj.weight"@[0] == '.',
        ".mlp.down_proj.weight"@[0] == '.',
        ".mlp.gate.weight"@[0] == '.',
        ".mlp.shared_expert.gate_proj.weight"@[0] == '.',
        ".mlp.shared_expert.down_proj.weight"@[0] == '.',
        ".mlp.shared_expert.up_proj.weight"@[0] == '.',
        ".mlp.shared_expert_gate.weight"@[0] == '.',
        ".mlp.gate.weight"@.len() == 16,
        ".linear_attn.A_log"@.len() == 18,
        ".mlp.up_proj.weight"@.len() == 19,
        ".linear_attn.dt_bias"@.len() == 20,
        ".mlp.gate_proj.weight"@.len() == 21,
        ".mlp.down_proj.weight"@.len() == 21,
        ".mlp.gate_proj.weight"@[5] == 'g',
        ".mlp.down_proj.weight"@[5] == 'd',
        ".input_layernorm.weight"@.len() == 23,
        ".self_attn.q_proj.weight"@.len() == 24,
        ".self_attn.k_proj.weight"@.len() == 24,
        ".self_attn.v_proj.weight"@.len() == 24,
        ".self_attn.o_proj.weight"@.len() == 24,
        ".self_attn.q_norm.weight"@.len() == 24,
        ".self_attn.k_norm.weight"@.len() == 24,
        ".linear_attn.norm.weight"@.len() == 24,
        ".self_attn.q_proj.weight"@[11] == 'q',
        ".self_attn.k_proj.weight"@[11] == 'k',
        ".self_attn.v_proj.weight"@[11] == 'v',
        ".self_attn.o_proj.weight"@[11] == 'o',
        ".self_attn.q_norm.weight"@[11] == 'q',
        ".self_attn.k_norm.weight"@[11] == 'k',
        ".linear_attn.norm.weight"@[11] == 'n',
        ".self_attn.q_proj.weight"@[13] == 'p',
        ".self_attn.k_proj.weight"@[13] == 'p',
        ".self_attn.v_proj.weight"@[13] == 'p',
        ".self_attn.o_proj.weight"@[13] == 'p',
        ".self_attn.q_norm.weight"@[13] == 'n',
        ".self_attn.k_norm.weight"@[13] == 'n',
        ".linear_attn.norm.weight"@[13] == 'n',
        ".linear_attn.conv1d.weight"@.len() == 26,
        ".linear_attn.out_proj.weight"@.len() == 28,
        ".linear_attn.in_proj_z.weight"@.len() == 29,
        ".linear_attn.in_proj_b.weight"@.len() == 29,
        ".linear_attn.in_proj_a.weight"@.len() == 29,
        ".linear_attn.in_proj_z.weight"@[21] == 'z',
        ".linear_attn.in_proj_b.weight"@[21] == 'b',
        ".linear_attn.in_proj_a.weight"@[21] == 'a',
        ".mlp.shared_expert_gate.weight"@.len() == 30,
        ".linear_attn.in_proj_qkv.weight"@.len() == 31,
        ".post_attention_layernorm.weight"@.len() == 32,
        ".mlp.shared_expert.up_proj.weight"@.len() == 33,
        ".mlp.shared_expert.gate_proj.weight"@.len() == 35,
        ".mlp.shared_expert.down_proj.weight"@.len() == 35,
        ".mlp.shared_expert.gate_proj.weight"@[19] == 'g',
        ".mlp.shared_expert.down_proj.weight"@[19] == 'd',
{
    reveal_strlit(".input_layernorm.weight");
    reveal_strlit(".post_attention_layernorm.weight");
    reveal_strlit(".self_attn.q_proj.weight");
    reveal_strlit(".self_attn.k_proj.weight");
    reveal_strlit(".self_attn.v_proj.weight");
    reveal_strlit(".self_attn.o_proj.weight");
    reveal_strlit(".self_attn.q_norm.weight");
    reveal_strlit(".self_attn.k_norm.weight");
    reveal_strlit(".linear_attn.in_proj_qkv.weight");
    reveal_strlit(".linear_attn.in_proj_z.weight");
    reveal_strlit(".linear_attn.in_proj_b.weight");
    reveal_strlit(".linear_attn.in_proj_a.weight");
    reveal_strlit(".linear_attn.conv1d.weight");
    reveal_strlit(".linear_attn.A_log");
    reveal_strlit(".linear_attn.dt_bias");
    reveal_strlit(".linear_attn.norm.weight");
    reveal_strlit(".linear_attn.out_proj.weight");
    reveal_strlit(".mlp.gate_proj.weight");
    reveal_strlit(".mlp.up_proj.weight");
    reveal_strlit(".mlp.down_proj.weight");
    reveal_strlit(".mlp.gate.weight");
    reveal_strlit(".mlp.shared_expert.gate_proj.weight");
    reveal_strlit(".mlp.shared_expert.down_proj.weight");
    reveal_strlit(".mlp.shared_expert.up_proj.weight");
    reveal_strlit(".mlp.shared_expert_gate.weight");
}

/// The suffixes of a layer's tensors outside the routed experts.
spec fn layer_suffixes(full: bool, dense: bool) -> Seq<Seq<char>> {
    norm_names() + (if full {
        full_names()
    } else {
        linear_names()
    }) + (if dense {
        dense_names()
    } else {
        shared_names()
    })
}

proof fn lemma_suffixes_differ(full: bool, dense: bool, i: int, j: int)
    requires
        0 <= i < j < layer_suffixes(full, dense).len(),
    ensures
        layer_suffixes(full, dense)[i] != layer_suffixes(full, dense)[j],
{
    lemma_suffixes();
}

proof fn lemma_suffix_starts(full: bool, dense: bool, i: int)
    requires
        0 <= i < layer_suffixes(full, dense).len(),
    ensures
        layer_suffixes(full, dense)[i].len() > 0,
        layer_suffixes(full, dense)[i][0] == '.',
{
    lemma_suffixes();
}

/// Two numbers with something after a dot are the same text only where both agree.
proof fn lemma_numbered(a: nat, s: Seq<char>, b: nat, t: Seq<char>)
    requires
        s.len() > 0 && s[0] == '.',
        t.len() > 0 && t[0] == '.',
        decimal(a) + s == decimal(b) + t,
    ensures
        a == b,
        s == t,
{
    let (x, y) = (decimal(a), decimal(b));
    lemma_decimal(a);
    lemma_decimal(b);
    if x.len() < y.len() {
        assert((x + s)[x.len() as int] == '.');
        assert((y + t)[x.len() as int] == y[x.len() as int]);
        assert(is_digit(y[x.len() as int]));
    }
    if y.len() < x.len() {
        assert((y + t)[y.len() as int] == '.');
        assert((x + s)[y.len() as int] == x[y.len() as int]);
        assert(is_digit(x[y.len() as int]));
    }
    assert(x =~= (x + s).take(x.len() as int));
    assert(y =~= (y + t).take(x.len() as int));
    assert(s =~= (x + s).skip(x.len() as int));
    assert(t =~= (y + t).skip(x.len() as int));
    law_decimal_reads_back(a, a + b);
    law_decimal_reads_back(b, a + b);
}

/// What follows a common head is the same where the whole is.
proof fn lemma_same_tail(head: Seq<char>, s: Seq<char>, t: Seq<char>)
    requires
        head + s == head + t,
    ensures
        s == t,
{
    assert(s =~= (head + s).skip(head.len() as int));
    assert(t =~= (head + t).skip(head.len() as int));
}

/// The matrix `m` of a routed expert: `w1`, `w2` or `w3`.
pub open spec fn expert_matrix(m: int) -> Seq<char> {
    if m == 0 {
        ".w1"@
    } else if m == 1 {
        ".w2"@
    } else {
        ".w3"@
    }
}

/// The name of matrix `m` of expert `e` of layer `l`.
pub open spec fn expert_name(l: nat, e: nat, m: int) -> Seq<char> {
    "layers."@ + decimal(l) + ".block_sparse_moe.experts."@ + decimal(e) + expert_matrix(m)
}

/// A position among the needed tensors: in the head, in a layer, in the draft head.
pub ghost enum Place {
    Head(int),
    Layer(nat, int),
    Draft(int),
}

impl QwenConfig {
    /// The positions that a configuration has.
    pub open spec fn has_place(&self, a: Place) -> bool {
        match a {
            Place::Head(i) => 0 <= i < self.head_needs().len(),
            Place::Layer(l, i) => l < self.full_attn@.len() && 0 <= i < self.layer_needs(l).len(),
            Place::Draft(i) => self.mtp_layers > 0 && 0 <= i < self.mtp_needs().len(),
        }
    }

    /// What is needed at a position.
    pub open spec fn need_at(&self, a: Place) -> NeedView {
        match a {
            Place::Head(i) => self.head_needs()[i],
            Place::Layer(l, i) => self.layer_needs(l)[i],
            Place::Draft(i) => self.mtp_needs()[i],
        }
    }

    proof fn lemma_expert_needs(&self, l: nat, n: int, e: int, m: int)
        requires
            0 <= e < n,
            0 <= m < 3,
        ensures
            self.expert_needs(l, n).len() == 3 * n,
            self.expert_needs(l, n)[3 * e + m].name == expert_name(l, e as nat, m),
            self.expert_needs(l, n)[3 * e + m].shape == if m == 1 {
                ShapeView::Packed(self.d as int, self.moe_inter as int)
            } else {
                ShapeView::Packed(self.moe_inter as int, self.d as int)
            },
        decreases n,
    {
        if n > 1 {
            self.lemma_expert_needs(l, n - 1, if e < n - 1 {
                e
            } else {
                0
            }, m);
        } else {
            assert(self.expert_needs(l, 0).len() == 0);
        }
    }

    /// Tensors of a layer outside the routed experts.
    spec fn own_count(&self, l: nat) -> int {
        layer_suffixes(self.full_attn@[l as int], self.dense).len() as int
    }

    proof fn lemma_layer_needs(&self, l: nat, i: int)
        requires
            0 <= i < self.layer_needs(l).len(),
        ensures
            self.layer_needs(l).len() == self.own_count(l) + if self.dense {
                0
            } else {
                3 * self.n_experts
            },
            i < self.own_count(l) ==> self.layer_needs(l)[i].name == "model.language_model.layers."@
                + decimal(l) + layer_suffixes(self.full_attn@[l as int], self.dense)[i],
            i >= self.own_count(l) ==> !self.dense && self.layer_needs(l)[i].name == expert_name(
                l,
                ((i - self.own_count(l)) / 3) as nat,
                (i - self.own_count(l)) % 3,
            ),
    {
        let p = "model.language_model.layers."@ + decimal(l);
        let full = self.full_attn@[l as int];
        let own = self.own_count(l);
        let n = self.n_experts as int;
        if !self.dense {
            if n > 0 {
                self.lemma_expert_needs(l, n, 0, 0);
            }
            if i >= own {
                let k = i - own;
                self.lemma_expert_needs(l, n, k / 3, k % 3);
                assert(self.layer_needs(l)[i] == self.expert_needs(l, n)[k]);
            }
        }
    }

    /// The slots of a layer's routed experts stand at its end, three for each expert in the
    /// order of their numbers: those of the directory's entries under the names
    /// `layers.<layer>.block_sparse_moe.experts.<expert>.w1`, `w2` and `w3`.
    pub proof fn law_experts_bind_to_their_own_tensors(
        &self,
        map: Map<Seq<u8>, EntryView>,
        l: nat,
        e: int,
    )
        requires
            self.bind_fault(map) is None,
            !self.dense,
            l < self.full_attn@.len(),
            0 <= e < self.n_experts,
        ensures
            ({
                let slots = slots_of(map, self.layer_needs(l));
                let at = slots.len() - 3 * self.n_experts + 3 * e;
                let p = "layers."@ + decimal(l) + ".block_sparse_moe.experts."@ + decimal(e as nat);
                let (w1, w2, w3) = (
                    encode_utf8(p + ".w1"@),
                    encode_utf8(p + ".w2"@),
                    encode_utf8(p + ".w3"@),
                );
                let (d, inter) = (self.d as int, self.moe_inter as int);
                &&& 0 <= at <= slots.len() - 3
                &&& map.contains_key(w1) && map.contains_key(w2) && map.contains_key(w3)
                &&& slots[at].off == map[w1].offset && slots[at].len == map[w1].size
                &&& slots[at + 1].off == map[w2].offset && slots[at + 1].len == map[w2].size
                &&& slots[at + 2].off == map[w3].offset && slots[at + 2].len == map[w3].size
                &&& map[w1].dims.len() == 2 && map[w1].dims[0] == inter && map[w1].dims[1] == d
                &&& map[w2].dims.len() == 2 && map[w2].dims[0] == d && map[w2].dims[1] == inter
                &&& map[w3].dims.len() == 2 && map[w3].dims[0] == inter && map[w3].dims[1] == d
            }),
    {
        let needs = self.layer_needs(l);
        let own = self.own_count(l);
        let n = self.n_experts as int;
        self.lemma_expert_needs(l, n, 0, 0);
        assert(needs.len() == own + 3 * n);
        self.lemma_no_layer_fault(map, 0, l as int);
        assert forall|m: int| 0 <= m < 3 implies {
            &&& #[trigger] needs[own + 3 * e + m] == self.expert_needs(l, n)[3 * e + m]
            &&& needs[own + 3 * e + m].name == expert_name(l, e as nat, m)
            &&& need_fault(map, needs[own + 3 * e + m]) is None
        } by {
            self.lemma_expert_needs(l, n, e, m);
            assert(needs[own + 3 * e + m] == self.expert_needs(l, n)[3 * e + m]);
            lemma_all_bound(map, needs, 0, own + 3 * e + m);
        }
        self.lemma_expert_needs(l, n, e, 0);
        self.lemma_expert_needs(l, n, e, 1);
        self.lemma_expert_needs(l, n, e, 2);
        assert(needs[own + 3 * e + 0].name == expert_name(l, e as nat, 0));
        assert(needs[own + 3 * e + 1].name == expert_name(l, e as nat, 1));
        assert(needs[own + 3 * e + 2].name == expert_name(l, e as nat, 2));
    }

    proof fn lemma_no_layer_fault(&self, map: Map<Seq<u8>, EntryView>, k: int, l: int)
        requires
            0 <= k <= l < self.full_attn@.len(),
            self.layers_fault(map, k) is None,
        ensures
            needs_fault(map, self.layer_needs(l as nat), 0) is None,
        decreases l - k,
    {
        if k < l {
            self.lemma_no_layer_fault(map, k + 1, l);
        }
    }
}

proof fn lemma_all_bound(map: Map<Seq<u8>, EntryView>, needs: Seq<NeedView>, j: int, i: int)
    requires
        needs_fault(map, needs, j) is None,
        0 <= j <= i < needs.len(),
    ensures
        need_fault(map, needs[i]) is None,
    decreases i - j,
{
    if j < i {
        lemma_all_bound(map, needs, j + 1, i);
    }
}

/// The first letters of the needed names, by the group that they belong to.
spec fn group_of(name: Seq<char>) -> int {
    if name[0] == 'm' && name[1] == 't' {
        if name[4] == 'l' {
            1
        } else {
            2
        }
    } else if name[0] == 'm' {
        if name[21] == 'l' {
            3
        } else {
            4
        }
    } else if name[1] == 'a' {
        5
    } else {
        6
    }
}

proof fn lemma_expert_matrices()
    ensures
        forall|m: int|
            0 <= m < 3 ==> (#[trigger] expert_matrix(m)).len() == 3 && expert_matrix(m)[0] == '.'
                && expert_matrix(m)[2] == (if m == 0 {
                '1'
            } else if m == 1 {
                '2'
            } else {
                '3'
            }),
{
    reveal_strlit(".w1");
    reveal_strlit(".w2");
    reveal_strlit(".w3");
}

/// The names of routed experts differ where the layer, the expert or the matrix does.
proof fn lemma_expert_names_differ(l: nat, e: nat, m: int, l2: nat, e2: nat, m2: int)
    requires
        0 <= m < 3,
        0 <= m2 < 3,
        expert_name(l, e, m) == expert_name(l2, e2, m2),
    ensures
        l == l2,
        e == e2,
        m == m2,
{
    lemma_expert_matrices();
    reveal_strlit(".block_sparse_moe.experts.");
    let mid = ".block_sparse_moe.experts."@;
    let s = mid + (decimal(e) + expert_matrix(m));
    let t = mid + (decimal(e2) + expert_matrix(m2));
    assert(expert_name(l, e, m) =~= "layers."@ + (decimal(l) + s));
    assert(expert_name(l2, e2, m2) =~= "layers."@ + (decimal(l2) + t));
    lemma_same_tail("layers."@, decimal(l) + s, decimal(l2) + t);
    assert(mid[0] == '.');
    lemma_numbered(l, s, l2, t);
    lemma_same_tail(mid, decimal(e) + expert_matrix(m), decimal(e2) + expert_matrix(m2));
    lemma_numbered(e, expert_matrix(m), e2, expert_matrix(m2));
    assert(expert_matrix(m)[2] == expert_matrix(m2)[2]);
}

proof fn lemma_expert_group(l: nat, e: nat, m: int)
    ensures
        group_of(expert_name(l, e, m)) == 5,
{
    reveal_strlit("layers.");
    let n = expert_name(l, e, m);
    assert("layers."@[0] == 'l' && "layers."@[1] == 'a');
    assert(n[0] == "layers."@[0] && n[1] == "layers."@[1]);
}

proof fn lemma_layer_group(l: nat, s: Seq<char>)
    ensures
        group_of("model.language_model.layers."@ + decimal(l) + s) == 3,
{
    reveal_strlit("model.language_model.layers.");
    let h = "model.language_model.layers."@;
    let n = h + decimal(l) + s;
    assert(h[0] == 'm' && h[1] == 'o' && h[21] == 'l');
    assert(n[0] == h[0] && n[1] == h[1] && n[21] == h[21]);
}

proof fn lemma_head_groups()
    ensures
        group_of("model.language_model.embed_tokens.weight"@) == 4,
        group_of("model.language_model.norm.weight"@) == 4,
        group_of("lm_head.weight"@) == 6,
        "model.language_model.embed_tokens.weight"@ != "model.language_model.norm.weight"@,
{
    reveal_strlit("model.language_model.embed_tokens.weight");
    reveal_strlit("model.language_model.norm.weight");
    reveal_strlit("lm_head.weight");
    let (a, b, c) = (
        "model.language_model.embed_tokens.weight"@,
        "model.language_model.norm.weight"@,
        "lm_head.weight"@,
    );
    assert(a[0] == 'm' && a[1] == 'o' && a[21] == 'e');
    assert(b[0] == 'm' && b[1] == 'o' && b[21] == 'n');
    assert(c[0] == 'l' && c[1] == 'm');
}

impl QwenConfig {
    proof fn lemma_draft_names(&self, i: int)
        requires
            0 <= i < self.mtp_needs().len(),
        ensures
            self.mtp_needs().len() == 15,
            layer_suffixes(true, true).len() == 11,
            i < 4 ==> group_of(self.mtp_needs()[i].name) == 2,
            i >= 4 ==> group_of(self.mtp_needs()[i].name) == 1,
            i >= 4 ==> self.mtp_needs()[i].name == "mtp.layers.0"@ + layer_suffixes(true, true)[i
                - 4],
    {
        let p = "mtp.layers.0"@;
        reveal_strlit("mtp.layers.0");
        reveal_strlit("mtp.fc.weight");
        reveal_strlit("mtp.pre_fc_norm_embedding.weight");
        reveal_strlit("mtp.pre_fc_norm_hidden.weight");
        reveal_strlit("mtp.norm.weight");
        assert(p[0] == 'm' && p[1] == 't' && p[4] == 'l');
        assert("mtp.fc.weight"@[0] == 'm' && "mtp.fc.weight"@[1] == 't' && "mtp.fc.weight"@[4]
            == 'f');
        let a = "mtp.pre_fc_norm_embedding.weight"@;
        let b = "mtp.pre_fc_norm_hidden.weight"@;
        let c = "mtp.norm.weight"@;
        assert(a[0] == 'm' && a[1] == 't' && a[4] == 'p');
        assert(b[0] == 'm' && b[1] == 't' && b[4] == 'p');
        assert(c[0] == 'm' && c[1] == 't' && c[4] == 'n');
        assert("mtp.layers.0.input_layernorm.weight"@ =~= p + ".input_layernorm.weight"@) by {
            reveal_strlit("mtp.layers.0.input_layernorm.weight");
            reveal_strlit(".input_layernorm.weight");
        }
        assert("mtp.layers.0.post_attention_layernorm.weight"@ =~= p
            + ".post_attention_layernorm.weight"@) by {
            reveal_strlit("mtp.layers.0.post_attention_layernorm.weight");
            reveal_strlit(".post_attention_layernorm.weight");
        }
        if i >= 4 {
            let n = p + layer_suffixes(true, true)[i - 4];
            assert(n[0] == p[0] && n[1] == p[1] && n[4] == p[4]);
            assert(self.mtp_needs()[i].name == n);
        }
    }

    proof fn lemma_draft_names_differ(&self, i: int, j: int)
        requires
            0 <= i < j < self.mtp_needs().len(),
        ensures
            self.mtp_needs()[i].name != self.mtp_needs()[j].name,
    {
        self.lemma_draft_names(i);
        self.lemma_draft_names(j);
        if i >= 4 {
            let (s, t) = (layer_suffixes(true, true)[i - 4], layer_suffixes(true, true)[j - 4]);
            lemma_suffixes_differ(true, true, i - 4, j - 4);
            if self.mtp_needs()[i].name == self.mtp_needs()[j].name {
                lemma_same_tail("mtp.layers.0"@, s, t);
            }
        } else if j < 4 {
            reveal_strlit("mtp.fc.weight");
            reveal_strlit("mtp.pre_fc_norm_embedding.weight");
            reveal_strlit("mtp.pre_fc_norm_hidden.weight");
            reveal_strlit("mtp.norm.weight");
            assert("mtp.fc.weight"@.len() == 13);
            assert("mtp.pre_fc_norm_embedding.weight"@.len() == 32);
            assert("mtp.pre_fc_norm_hidden.weight"@.len() == 29);
            assert("mtp.norm.weight"@.len() == 15);
            assert(self.mtp_needs()[0].name == "mtp.fc.weight"@);
            assert(self.mtp_needs()[1].name == "mtp.pre_fc_norm_embedding.weight"@);
            assert(self.mtp_needs()[2].name == "mtp.pre_fc_norm_hidden.weight"@);
            assert(self.mtp_needs()[3].name == "mtp.norm.weight"@);
        }
    }

    proof fn lemma_layer_names_differ(&self, l: nat, i: int, l2: nat, j: int)
        requires
            0 <= i < self.layer_needs(l).len(),
            0 <= j < self.layer_needs(l2).len(),
            l != l2 || i != j,
        ensures
            self.layer_needs(l)[i].name != self.layer_needs(l2)[j].name,
    {
        self.lemma_layer_needs(l, i);
        self.lemma_layer_needs(l2, j);
        let (n1, n2) = (self.layer_needs(l)[i].name, self.layer_needs(l2)[j].name);
        let (o1, o2) = (self.own_count(l), self.own_count(l2));
        if n1 == n2 {
            if i < o1 {
                let s = layer_suffixes(self.full_attn@[l as int], self.dense)[i];
                lemma_layer_group(l, s);
                lemma_suffix_starts(self.full_attn@[l as int], self.dense, i);
                if j < o2 {
                    let t = layer_suffixes(self.full_attn@[l2 as int], self.dense)[j];
                    lemma_suffix_starts(self.full_attn@[l2 as int], self.dense, j);
                    let h = "model.language_model.layers."@;
                    assert(n1 =~= h + (decimal(l) + s));
                    assert(n2 =~= h + (decimal(l2) + t));
                    lemma_same_tail(h, decimal(l) + s, decimal(l2) + t);
                    lemma_numbered(l, s, l2, t);
                    if i < j {
                        lemma_suffixes_differ(self.full_attn@[l as int], self.dense, i, j);
                    } else {
                        lemma_suffixes_differ(self.full_attn@[l as int], self.dense, j, i);
                    }
                } else {
                    lemma_expert_group(l2, ((j - o2) / 3) as nat, (j - o2) % 3);
                }
            } else {
                let (e1, m1) = ((i - o1) / 3, (i - o1) % 3);
                lemma_expert_group(l, e1 as nat, m1);
                if j < o2 {
                    lemma_layer_group(
                        l2,
                        layer_suffixes(self.full_attn@[l2 as int], self.dense)[j],
                    );
                } else {
                    let (e2, m2) = ((j - o2) / 3, (j - o2) % 3);
                    lemma_expert_names_differ(l, e1 as nat, m1, l2, e2 as nat, m2);
                    assert(i - o1 == 3 * e1 + m1 && j - o2 == 3 * e2 + m2);
                }
            }
        }
    }

    /// The group of the name at a position tells which part of the decoder it is.
    proof fn lemma_place_group(&self, a: Place)
        requires
            self.has_place(a),
        ensures
            match a {
                Place::Head(_) => group_of(self.need_at(a).name) == 4 || group_of(
                    self.need_at(a).name,
                ) == 6,
                Place::Layer(_, _) => group_of(self.need_at(a).name) == 3 || group_of(
                    self.need_at(a).name,
                ) == 5,
                Place::Draft(_) => group_of(self.need_at(a).name) <= 2,
            },
    {
        match a {
            Place::Head(i) => {
                lemma_head_groups();
            },
            Place::Layer(l, i) => {
                self.lemma_layer_needs(l, i);
                let own = self.own_count(l);
                if i < own {
                    lemma_layer_group(l, layer_suffixes(self.full_attn@[l as int], self.dense)[i]);
                } else {
                    lemma_expert_group(l, ((i - own) / 3) as nat, (i - own) % 3);
                }
            },
            Place::Draft(i) => {
                self.lemma_draft_names(i);
            },
        }
    }

    /// The names that a configuration needs are pairwise different: no two positions of the
    /// head, the layers and the draft head ask for the same tensor.
    pub proof fn law_needed_names_are_distinct(&self, a: Place, b: Place)
        requires
            self.has_place(a),
            self.has_place(b),
            a != b,
        ensures
            self.need_at(a).name != self.need_at(b).name,
    {
        self.lemma_place_group(a);
        self.lemma_place_group(b);
        match (a, b) {
            (Place::Head(i), Place::Head(j)) => {
                lemma_head_groups();
            },
            (Place::Layer(l, i), Place::Layer(l2, j)) => {
                self.lemma_layer_names_differ(l, i, l2, j);
            },
            (Place::Draft(i), Place::Draft(j)) => {
                if i < j {
                    self.lemma_draft_names_differ(i, j);
                } else {
                    self.lemma_draft_names_differ(j, i);
                }
            },
            _ => {},
        }
    }

    /// Where no two tensors of a checkpoint overlap, no two positions of a decoder that is
    /// bound to it share a byte: neither two experts nor any other two tensors.
    pub proof fn law_bound_tensors_share_no_bytes(
        &self,
        map: Map<Seq<u8>, EntryView>,
        a: Place,
        b: Place,
    )
        requires
            self.bind_fault(map) is None,
            self.has_place(a),
            self.has_place(b),
            a != b,
            forall|x: Seq<u8>, y: Seq<u8>|
                #![trigger map[x], map[y]]
                map.contains_key(x) && map.contains_key(y) && x != y ==> map[x].offset
                    + map[x].size <= map[y].offset || map[y].offset + map[y].size
                    <= map[x].offset,
        ensures
            ({
                let (s, t) = (self.slot_at(map, a), self.slot_at(map, b));
                s.off + s.len <= t.off || t.off + t.len <= s.off
            }),
    {
        self.law_needed_names_are_distinct(a, b);
        self.lemma_bound(map, a);
        self.lemma_bound(map, b);
        let (m, n) = (self.need_at(a).name, self.need_at(b).name);
        vstd::utf8::encode_utf8_decode_utf8(m);
        vstd::utf8::encode_utf8_decode_utf8(n);
        assert(map[encode_utf8(m)].offset + map[encode_utf8(m)].size
            <= map[encode_utf8(n)].offset || map[encode_utf8(n)].offset
            + map[encode_utf8(n)].size <= map[encode_utf8(m)].offset);
    }

    /// The slot that is bound at a position.
    pub open spec fn slot_at(&self, map: Map<Seq<u8>, EntryView>, a: Place) -> Slot {
        match a {
            Place::Head(i) => slots_of(map, self.head_needs())[i],
            Place::Layer(l, i) => slots_of(map, self.layer_needs(l))[i],
            Place::Draft(i) => slots_of(map, self.mtp_needs())[i],
        }
    }

    proof fn lemma_bound(&self, map: Map<Seq<u8>, EntryView>, a: Place)
        requires
            self.bind_fault(map) is None,
            self.has_place(a),
        ensures
            need_fault(map, self.need_at(a)) is None,
            self.slot_at(map, a) == slot_of(map, self.need_at(a).name),
    {
        match a {
            Place::Head(i) => {
                lemma_all_bound(map, self.head_needs(), 0, i);
            },
            Place::Layer(l, i) => {
                self.lemma_no_layer_fault(map, 0, l as int);
                lemma_all_bound(map, self.layer_needs(l), 0, i);
            },
            Place::Draft(i) => {
                lemma_all_bound(map, self.mtp_needs(), 0, i);
            },
        }
    }
}

/// A slot is the place of the tensor with this name, and the tensor has this type and
/// these dimensions.
pub open spec fn stands_for(
    map: Map<Seq<u8>, EntryView>,
    slot: Slot,
    name: Seq<char>,
    dtype: u8,
    dims: Seq<int>,
) -> bool {
    let e = map[encode_utf8(name)];
    &&& map.contains_key(encode_utf8(name))
    &&& slot.off == e.offset
    &&& slot.len == e.size
    &&& e.dtype == dtype
    &&& e.dims.len() == dims.len()
    &&& forall|i: int| 0 <= i < dims.len() ==> (#[trigger] e.dims[i]) == dims[i]
}

impl QwenConfig {
    /// The head of a bound decoder: the embedding, the last norm and, where the two are not
    /// tied, an output head as large as the embedding.
    pub proof fn law_head_is_bound(&self, map: Map<Seq<u8>, EntryView>)
        requires
            self.bind_fault(map) is None,
        ensures
            ({
                let s = slots_of(map, self.head_needs());
                let (v, d) = (self.vocab as int, self.d as int);
                &&& s.len() == if self.tied_embeddings {
                    2nat
                } else {
                    3nat
                }
                &&& stands_for(
                    map,
                    s[0],
                    "model.language_model.embed_tokens.weight"@,
                    DTYPE_F32,
                    seq![v, d],
                )
                &&& stands_for(map, s[1], "model.language_model.norm.weight"@, DTYPE_F32, seq![d])
                &&& !self.tied_embeddings ==> stands_for(
                    map,
                    s[2],
                    "lm_head.weight"@,
                    DTYPE_F32,
                    seq![v, d],
                )
            }),
    {
        self.lemma_bound(map, Place::Head(0));
        self.lemma_bound(map, Place::Head(1));
        if !self.tied_embeddings {
            self.lemma_bound(map, Place::Head(2));
        }
    }

    /// A layer with full attention: two norms, then the queries with their gates, the keys,
    /// the values, the output and the norms of queries and keys.
    pub proof fn law_full_attention_is_bound(&self, map: Map<Seq<u8>, EntryView>, l: nat)
        requires
            self.bind_fault(map) is None,
            l < self.full_attn@.len(),
            self.full_attn@[l as int],
        ensures
            ({
                let s = slots_of(map, self.layer_needs(l));
                let p = "model.language_model.layers."@ + decimal(l);
                let (d, hd) = (self.d as int, self.head_dim as int);
                let (q, kv) = (self.n_heads * hd, self.n_kv_heads * hd);
                let f = DTYPE_F32;
                &&& stands_for(map, s[0], p + ".input_layernorm.weight"@, f, seq![d])
                &&& stands_for(map, s[1], p + ".post_attention_layernorm.weight"@, f, seq![d])
                &&& stands_for(map, s[2], p + ".self_attn.q_proj.weight"@, f, seq![2 * q, d])
                &&& stands_for(map, s[3], p + ".self_attn.k_proj.weight"@, f, seq![kv, d])
                &&& stands_for(map, s[4], p + ".self_attn.v_proj.weight"@, f, seq![kv, d])
                &&& stands_for(map, s[5], p + ".self_attn.o_proj.weight"@, f, seq![d, q])
                &&& stands_for(map, s[6], p + ".self_attn.q_norm.weight"@, f, seq![hd])
                &&& stands_for(map, s[7], p + ".self_attn.k_norm.weight"@, f, seq![hd])
            }),
    {
        assert forall|i: int| 0 <= i < 8 implies need_fault(
            map,
            #[trigger] self.layer_needs(l)[i],
        ) is None by {
            self.lemma_bound(map, Place::Layer(l, i));
        }
        let n = self.layer_needs(l);
        assert(need_fault(map, n[0]) is None);
        assert(need_fault(map, n[1]) is None);
        assert(need_fault(map, n[2]) is None);
        assert(need_fault(map, n[3]) is None);
        assert(need_fault(map, n[4]) is None);
        assert(need_fault(map, n[5]) is None);
        assert(need_fault(map, n[6]) is None);
        assert(need_fault(map, n[7]) is None);
    }

    /// A layer with linear attention: two norms, then the projection of queries, keys and
    /// values, the output gate, the two step gates, the convolution over what was
    /// projected, the decay and its bias, the norm and the output.
    pub proof fn law_linear_attention_is_bound(&self, map: Map<Seq<u8>, EntryView>, l: nat)
        requires
            self.bind_fault(map) is None,
            l < self.full_attn@.len(),
            !self.full_attn@[l as int],
        ensures
            ({
                let s = slots_of(map, self.layer_needs(l));
                let p = "model.language_model.layers."@ + decimal(l);
                let (d, h, vd) = (self.d as int, self.lin_v_heads as int, self.lin_v_dim as int);
                let (k, v) = (self.lin_k_heads * self.lin_k_dim, h * vd);
                let taps = self.conv_kernel as int;
                let f = DTYPE_F32;
                let conv = p + ".linear_attn.conv1d.weight"@;
                &&& stands_for(map, s[0], p + ".input_layernorm.weight"@, f, seq![d])
                &&& stands_for(map, s[1], p + ".post_attention_layernorm.weight"@, f, seq![d])
                &&& stands_for(
                    map,
                    s[2],
                    p + ".linear_attn.in_proj_qkv.weight"@,
                    f,
                    seq![k * 2 + v, d],
                )
                &&& stands_for(map, s[3], p + ".linear_attn.in_proj_z.weight"@, f, seq![v, d])
                &&& stands_for(map, s[4], p + ".linear_attn.in_proj_b.weight"@, f, seq![h, d])
                &&& stands_for(map, s[5], p + ".linear_attn.in_proj_a.weight"@, f, seq![h, d])
                &&& stands_for(map, s[6], conv, f, seq![k * 2 + v, taps]) || stands_for(
                    map,
                    s[6],
                    conv,
                    f,
                    seq![k * 2 + v, 1, taps],
                )
                &&& stands_for(map, s[7], p + ".linear_attn.A_log"@, f, seq![h])
                &&& stands_for(map, s[8], p + ".linear_attn.dt_bias"@, f, seq![h])
                &&& stands_for(map, s[9], p + ".linear_attn.norm.weight"@, f, seq![vd])
                &&& stands_for(map, s[10], p + ".linear_attn.out_proj.weight"@, f, seq![d, v])
            }),
    {
        assert forall|i: int| 0 <= i < 11 implies need_fault(
            map,
            #[trigger] self.layer_needs(l)[i],
        ) is None by {
            self.lemma_bound(map, Place::Layer(l, i));
        }
        let n = self.layer_needs(l);
        assert(need_fault(map, n[0]) is None);
        assert(need_fault(map, n[1]) is None);
        assert(need_fault(map, n[2]) is None);
        assert(need_fault(map, n[3]) is None);
        assert(need_fault(map, n[4]) is None);
        assert(need_fault(map, n[5]) is None);
        assert(need_fault(map, n[6]) is None);
        assert(need_fault(map, n[7]) is None);
        assert(need_fault(map, n[8]) is None);
        assert(need_fault(map, n[9]) is None);
        assert(need_fault(map, n[10]) is None);
    }

    /// What follows the attention of a layer: the three matrices of a dense MLP, or the
    /// router and the shared expert before the routed ones.
    pub proof fn law_mlp_is_bound(&self, map: Map<Seq<u8>, EntryView>, l: nat)
        requires
            self.bind_fault(map) is None,
            l < self.full_attn@.len(),
        ensures
            ({
                let s = slots_of(map, self.layer_needs(l));
                let p = "model.language_model.layers."@ + decimal(l);
                let at: int = if self.full_attn@[l as int] {
                    8
                } else {
                    11
                };
                let (d, i) = (self.d as int, self.dense_inter as int);
                let (n, k) = (self.n_experts as int, self.shared_inter as int);
                let (f, q) = (DTYPE_F32, DTYPE_MXFP4);
                &&& self.dense ==> {
                    &&& s.len() == at + 3
                    &&& stands_for(map, s[at], p + ".mlp.gate_proj.weight"@, q, seq![i, d])
                    &&& stands_for(map, s[at + 1], p + ".mlp.up_proj.weight"@, q, seq![i, d])
                    &&& stands_for(map, s[at + 2], p + ".mlp.down_proj.weight"@, q, seq![d, i])
                }
                &&& !self.dense ==> {
                    let e = p + ".mlp.shared_expert"@;
                    &&& s.len() == at + 5 + 3 * n
                    &&& stands_for(map, s[at], p + ".mlp.gate.weight"@, f, seq![n, d])
                    &&& stands_for(map, s[at + 1], e + ".gate_proj.weight"@, f, seq![k, d])
                    &&& stands_for(map, s[at + 2], e + ".down_proj.weight"@, f, seq![d, k])
                    &&& stands_for(map, s[at + 3], e + ".up_proj.weight"@, f, seq![k, d])
                    &&& stands_for(map, s[at + 4], e + "_gate.weight"@, f, seq![1, d])
                }
            }),
    {
        let n = self.layer_needs(l);
        let at: int = if self.full_attn@[l as int] {
            8
        } else {
            11
        };
        let p = "model.language_model.layers."@ + decimal(l);
        if self.dense {
            self.lemma_bound(map, Place::Layer(l, at));
            self.lemma_bound(map, Place::Layer(l, at + 1));
            self.lemma_bound(map, Place::Layer(l, at + 2));
        } else {
            if self.n_experts > 0 {
                self.lemma_expert_needs(l, self.n_experts as int, 0, 0);
            }
            let e = p + ".mlp.shared_expert"@;
            lemma_shared_suffixes();
            assert(e + ".gate_proj.weight"@ =~= p + (".mlp.shared_expert"@ + ".gate_proj.weight"@));
            assert(e + ".down_proj.weight"@ =~= p + (".mlp.shared_expert"@ + ".down_proj.weight"@));
            assert(e + ".up_proj.weight"@ =~= p + (".mlp.shared_expert"@ + ".up_proj.weight"@));
            assert(e + "_gate.weight"@ =~= p + (".mlp.shared_expert"@ + "_gate.weight"@));
            self.lemma_bound(map, Place::Layer(l, at));
            self.lemma_bound(map, Place::Layer(l, at + 1));
            self.lemma_bound(map, Place::Layer(l, at + 2));
            self.lemma_bound(map, Place::Layer(l, at + 3));
            self.lemma_bound(map, Place::Layer(l, at + 4));
            assert(n[at] == self.shared_needs(p)[0]);
            assert(n[at + 1] == self.shared_needs(p)[1]);
            assert(n[at + 2] == self.shared_needs(p)[2]);
            assert(n[at + 3] == self.shared_needs(p)[3]);
            assert(n[at + 4] == self.shared_needs(p)[4]);
        }
    }

    /// The draft head of a bound decoder: the projection of the embedding beside the hidden
    /// state, its norms, and one layer of its own with full attention and a dense MLP.
    pub proof fn law_draft_head_is_bound(&self, map: Map<Seq<u8>, EntryView>)
        requires
            self.bind_fault(map) is None,
            self.mtp_layers > 0,
        ensures
            ({
                let s = slots_of(map, self.mtp_needs());
                let p = "mtp.layers.0"@;
                let (d, hd, i) = (self.d as int, self.head_dim as int, self.dense_inter as int);
                let (q, kv) = (self.n_heads * hd, self.n_kv_heads * hd);
                let (f, x) = (DTYPE_F32, DTYPE_MXFP4);
                &&& self.dense && self.mtp_layers == 1
                &&& s.len() == 15
                &&& stands_for(map, s[0], "mtp.fc.weight"@, f, seq![d, 2 * d])
                &&& stands_for(map, s[1], "mtp.pre_fc_norm_embedding.weight"@, f, seq![d])
                &&& stands_for(map, s[2], "mtp.pre_fc_norm_hidden.weight"@, f, seq![d])
                &&& stands_for(map, s[3], "mtp.norm.weight"@, f, seq![d])
                &&& stands_for(map, s[4], p + ".input_layernorm.weight"@, f, seq![d])
                &&& stands_for(map, s[5], p + ".post_attention_layernorm.weight"@, f, seq![d])
                &&& stands_for(map, s[6], p + ".self_attn.q_proj.weight"@, f, seq![2 * q, d])
                &&& stands_for(map, s[7], p + ".self_attn.k_proj.weight"@, f, seq![kv, d])
                &&& stands_for(map, s[8], p + ".self_attn.v_proj.weight"@, f, seq![kv, d])
                &&& stands_for(map, s[9], p + ".self_attn.o_proj.weight"@, f, seq![d, q])
                &&& stands_for(map, s[10], p + ".self_attn.q_norm.weight"@, f, seq![hd])
                &&& stands_for(map, s[11], p + ".self_attn.k_norm.weight"@, f, seq![hd])
                &&& stands_for(map, s[12], p + ".mlp.gate_proj.weight"@, x, seq![i, d])
                &&& stands_for(map, s[13], p + ".mlp.up_proj.weight"@, x, seq![i, d])
                &&& stands_for(map, s[14], p + ".mlp.down_proj.weight"@, x, seq![d, i])
            }),
    {
        let n = self.mtp_needs();
        assert forall|i: int| 0 <= i < 15 implies need_fault(map, #[trigger] n[i]) is None by {
            self.lemma_bound(map, Place::Draft(i));
        }
        self.lemma_draft_names(4);
        self.lemma_draft_names(5);
        assert(need_fault(map, n[0]) is None);
        assert(need_fault(map, n[1]) is None);
        assert(need_fault(map, n[2]) is None);
        assert(need_fault(map, n[3]) is None);
        assert(need_fault(map, n[4]) is None);
        assert(need_fault(map, n[5]) is None);
        assert(need_fault(map, n[6]) is None);
        assert(need_fault(map, n[7]) is None);
        assert(need_fault(map, n[8]) is None);
        assert(need_fault(map, n[9]) is None);
        assert(need_fault(map, n[10]) is None);
        assert(need_fault(map, n[11]) is None);
        assert(need_fault(map, n[12]) is None);
        assert(need_fault(map, n[13]) is None);
        assert(need_fault(map, n[14]) is None);
    }

    /// A configuration that binds shares its heads out evenly, and its packed matrices have
    /// rows of whole blocks of 32.
    pub proof fn law_bound_configuration_is_even(&self, map: Map<Seq<u8>, EntryView>) -> (r: (
        int,
        int,
        int,
    ))
        requires
            self.bind_fault(map) is None,
        ensures
            self.n_kv_heads > 0 && self.n_heads == r.0 * self.n_kv_heads,
            self.lin_k_heads > 0 && self.lin_v_heads == r.1 * self.lin_k_heads,
            self.d == 32 * r.2,
            self.dense ==> self.dense_inter % 32 == 0,
            !self.dense ==> self.moe_inter % 32 == 0 && self.shared_inter > 0 && 1 <= self.top_k
                <= self.n_experts,
    {
        let (a, b) = (self.n_heads as int, self.n_kv_heads as int);
        let (x, y) = (self.lin_v_heads as int, self.lin_k_heads as int);
        vstd::arithmetic::div_mod::lemma_fundamental_div_mod(a, b);
        vstd::arithmetic::div_mod::lemma_fundamental_div_mod(x, y);
        assert((a / b) * b == b * (a / b)) by (nonlinear_arith);
        assert((x / y) * y == y * (x / y)) by (nonlinear_arith);
        (a / b, x / y, self.d as int / 32)
    }
}

proof fn lemma_shared_suffixes()
    ensures
        ".mlp.shared_expert"@ + ".gate_proj.weight"@ == ".mlp.shared_expert.gate_proj.weight"@,
        ".mlp.shared_expert"@ + ".down_proj.weight"@ == ".mlp.shared_expert.down_proj.weight"@,
        ".mlp.shared_expert"@ + ".up_proj.weight"@ == ".mlp.shared_expert.up_proj.weight"@,
        ".mlp.shared_expert"@ + "_gate.weight"@ == ".mlp.shared_expert_gate.weight"@,
{
    reveal_strlit(".mlp.shared_expert");
    reveal_strlit(".gate_proj.weight");
    reveal_strlit(".down_proj.weight");
    reveal_strlit(".up_proj.weight");
    reveal_strlit("_gate.weight");
    reveal_strlit(".mlp.shared_expert.gate_proj.weight");
    reveal_strlit(".mlp.shared_expert.down_proj.weight");
    reveal_strlit(".mlp.shared_expert.up_proj.weight");
    reveal_strlit(".mlp.shared_expert_gate.weight");
    assert(".mlp.shared_expert"@ + ".gate_proj.weight"@ =~= ".mlp.shared_expert.gate_proj.weight"@);
    assert(".mlp.shared_expert"@ + ".down_proj.weight"@ =~= ".mlp.shared_expert.down_proj.weight"@);
    assert(".mlp.shared_expert"@ + ".up_proj.weight"@ =~= ".mlp.shared_expert.up_proj.weight"@);
    assert(".mlp.shared_expert"@ + "_gate.weight"@ =~= ".mlp.shared_expert_gate.weight"@);
}

} // verus!
