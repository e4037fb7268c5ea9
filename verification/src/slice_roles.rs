//! How a tensor relates to the hidden axis and to the routed experts.
//!
//! The classification goes by name: several dimensions coincide numerically, so
//! dimensions alone do not tell which axis is the hidden one.

use crate::names::has_head;
use crate::names::same_text;
use crate::numtext::find_first;
use crate::numtext::first_from;
use crate::numtext::first_of;
use crate::numtext::is_digit;
use crate::numtext::law_decimal_reads_back;
use crate::numtext::lemma_decimal;
use crate::numtext::parse_number;
use crate::numtext::parsed;
use crate::text::decimal;
use crate::text::stands_at;
use crate::text::sub_chars;
use crate::unicode::chars_of;
use vstd::prelude::*;

verus! {

/// Which role table applies.
#[derive(Debug, Clone, Copy, PartialEq, Eq, Structural)]
pub enum Arch {
    /// The small checkpoints, in which several dimensions coincide.
    Micro,
    /// The full-size checkpoints.
    K3Real,
    /// Plain dense models.
    Dense,
}

/// How a tensor is sliced.
#[derive(Debug, Clone, Copy, PartialEq, Eq, Structural)]
pub enum Role {
    /// No hidden and no expert axis: copied as it is.
    Copy,
    /// A vector over the hidden axis.
    VecD,
    /// Columns are the hidden axis.
    ColsD,
    /// Rows are the hidden axis.
    RowsD,
    /// Rows and columns are the hidden axis.
    BothD,
    /// Expert rows, hidden columns.
    RouterW,
    /// One value per expert.
    RouterB,
    /// A routed expert matrix, dimensions untouched.
    Expert,
}

/// The layer and the rest of a name `layers.<layer>.<rest>`.
pub open spec fn layer_of(name: Seq<char>) -> Option<(nat, Seq<char>)> {
    let s = name.skip("layers."@.len() as int);
    let dot = first_of(s, '.');
    if !stands_at(name, "layers."@, 0) || dot >= s.len() {
        None
    } else {
        match parsed(s.take(dot), usize::MAX as nat) {
            Some(l) => Some((l, s.skip(dot + 1))),
            None => None,
        }
    }
}

/// Splits a name `layers.<layer>.<rest>`.
pub fn split_layer(name: &[char]) -> (r: Option<(usize, Vec<char>)>)
    ensures
        match r {
            Some((l, rest)) => layer_of(name@) == Some((l as nat, rest@)),
            None => layer_of(name@) is None,
        },
{
    if !has_head(name, "layers.") {
        return None;
    }
    let head: Vec<char> = chars_of("layers.");
    let s: Vec<char> = sub_chars(name, head.len(), name.len());
    proof {
        assert(s@ =~= name@.skip("layers."@.len() as int));
    }
    let dot: usize = find_first(s.as_slice(), '.');
    if dot == s.len() {
        return None;
    }
    let digits: Vec<char> = sub_chars(s.as_slice(), 0, dot);
    let rest: Vec<char> = sub_chars(s.as_slice(), dot + 1, s.len());
    proof {
        assert(digits@ =~= s@.take(dot as int));
        assert(rest@ =~= s@.skip(dot + 1));
    }
    match parse_number(digits.as_slice(), usize::MAX as u64) {
        Some(l) => Some((l as usize, rest)),
        None => None,
    }
}

/// A run without `c` up to a `c` puts the first one there.
pub proof fn lemma_first_of(a: Seq<char>, c: char, b: Seq<char>, i: int)
    requires
        0 <= i <= a.len(),
        forall|k: int| 0 <= k < a.len() ==> #[trigger] a[k] != c,
    ensures
        first_from(a.push(c) + b, c, i) == a.len(),
    decreases a.len() - i,
{
    let t = a.push(c) + b;
    if i < a.len() {
        assert(t[i] == a[i]);
        lemma_first_of(a, c, b, i + 1);
    } else {
        assert(t[i] == c);
    }
}

/// The name of a tensor of a layer.
pub open spec fn layer_name(l: nat, rest: Seq<char>) -> Seq<char> {
    "layers."@ + decimal(l) + "."@ + rest
}

/// A name that is put together for a layer splits into that layer and the rest.
pub proof fn law_layer_name_splits(l: nat, rest: Seq<char>)
    requires
        l <= usize::MAX,
    ensures
        layer_of(layer_name(l, rest)) == Some((l, rest)),
{
    reveal_strlit("layers.");
    reveal_strlit(".");
    let name = layer_name(l, rest);
    let head = "layers."@;
    assert(name.subrange(0, head.len() as int) =~= head);
    let s = name.skip(head.len() as int);
    assert(s =~= decimal(l).push('.') + rest);
    lemma_decimal(l);
    assert forall|k: int| 0 <= k < decimal(l).len() implies #[trigger] decimal(l)[k] != '.' by {
        assert(is_digit(decimal(l)[k]));
    }
    lemma_first_of(decimal(l), '.', rest, 0);
    assert(s.take(decimal(l).len() as int) =~= decimal(l));
    assert(s.skip(decimal(l).len() as int + 1) =~= rest);
    law_decimal_reads_back(l, usize::MAX as nat);
}

/// The tensors that every layout with layers shares.
pub open spec fn shared_role(r: Seq<char>) -> Option<Role> {
    if r == "input_layernorm.weight"@ || r == "post_attention_layernorm.weight"@ || r
        == "self_attention_res_norm.weight"@ || r == "self_attention_res_proj.weight"@ || r
        == "mlp_res_norm.weight"@ || r == "mlp_res_proj.weight"@ {
        Some(Role::VecD)
    } else if r == "block_sparse_moe.gate.weight"@ {
        Some(Role::RouterW)
    } else if r == "block_sparse_moe.gate.e_score_correction_bias"@ {
        Some(Role::RouterB)
    } else if r == "block_sparse_moe.routed_expert_down_proj.weight"@ || r
        == "block_sparse_moe.shared_experts.gate_proj.weight"@ || r
        == "block_sparse_moe.shared_experts.up_proj.weight"@ {
        Some(Role::ColsD)
    } else if r == "block_sparse_moe.routed_expert_up_proj.weight"@ || r
        == "block_sparse_moe.shared_experts.down_proj.weight"@ {
        Some(Role::RowsD)
    } else if r == "block_sparse_moe.routed_expert_norm.weight"@ {
        Some(Role::Copy)
    } else if r == "mlp.gate_proj.weight"@ || r == "mlp.up_proj.weight"@ {
        Some(Role::ColsD)
    } else if r == "mlp.down_proj.weight"@ {
        Some(Role::RowsD)
    } else if stands_at(r, "block_sparse_moe.experts."@, 0) {
        Some(Role::Expert)
    } else {
        None
    }
}

/// The attention tensors of a latent-attention layer.
pub open spec fn mla_role(r: Seq<char>, arch: Arch) -> Option<Role> {
    if r == "self_attn.q_a_proj.weight"@ || r == "self_attn.kv_a_proj_with_mqa.weight"@ {
        Some(Role::ColsD)
    } else if r == "self_attn.g_proj.weight"@ {
        if arch == Arch::K3Real {
            Some(Role::ColsD)
        } else {
            Some(Role::BothD)
        }
    } else if r == "self_attn.o_proj.weight"@ {
        Some(Role::RowsD)
    } else if r == "self_attn.q_a_layernorm.weight"@ || r == "self_attn.q_b_proj.weight"@ || r
        == "self_attn.kv_a_layernorm.weight"@ || r == "self_attn.kv_b_proj.weight"@ {
        Some(Role::Copy)
    } else {
        None
    }
}

/// The attention tensors of a linear-attention layer.
pub open spec fn kda_role(r: Seq<char>) -> Option<Role> {
    if r == "self_attn.q_proj.weight"@ || r == "self_attn.k_proj.weight"@ || r
        == "self_attn.v_proj.weight"@ || r == "self_attn.g_proj.weight"@ || r
        == "self_attn.f_a_proj.weight"@ || r == "self_attn.b_proj.weight"@ {
        Some(Role::ColsD)
    } else if r == "self_attn.o_proj.weight"@ {
        Some(Role::RowsD)
    } else if r == "self_attn.q_conv1d.weight"@ || r == "self_attn.k_conv1d.weight"@ || r
        == "self_attn.v_conv1d.weight"@ || r == "self_attn.f_b_proj.weight"@ || r
        == "self_attn.A_log"@ || r == "self_attn.dt_bias"@ || r == "self_attn.o_norm.weight"@ {
        Some(Role::Copy)
    } else {
        None
    }
}

/// The tensors of a layer of a plain dense model.
pub open spec fn dense_layer_role(r: Seq<char>) -> Option<Role> {
    if r == "input_layernorm.weight"@ || r == "post_attention_layernorm.weight"@ {
        Some(Role::VecD)
    } else if r == "self_attn.q_proj.weight"@ || r == "self_attn.k_proj.weight"@ || r
        == "self_attn.v_proj.weight"@ {
        Some(Role::ColsD)
    } else if r == "self_attn.o_proj.weight"@ {
        Some(Role::RowsD)
    } else if r == "self_attn.q_proj.bias"@ || r == "self_attn.k_proj.bias"@ || r
        == "self_attn.v_proj.bias"@ || r == "self_attn.o_proj.bias"@ {
        Some(Role::Copy)
    } else if r == "mlp.gate_proj.weight"@ || r == "mlp.up_proj.weight"@ {
        Some(Role::ColsD)
    } else if r == "mlp.down_proj.weight"@ {
        Some(Role::RowsD)
    } else {
        None
    }
}

/// The role of a tensor of a plain dense model, where it is known.
pub open spec fn dense_role(name: Seq<char>) -> Option<Role> {
    if name == "embed_tokens.weight"@ || name == "lm_head.weight"@ {
        Some(Role::ColsD)
    } else if name == "norm.weight"@ {
        Some(Role::VecD)
    } else {
        match layer_of(name) {
            Some((l, r)) => dense_layer_role(r),
            None => None,
        }
    }
}

/// Layer `l` is listed as one with latent attention.
pub open spec fn layer_listed(mla: Seq<bool>, l: nat) -> bool {
    l < mla.len() && mla[l as int]
}

/// The role of a tensor, where it is known; `mla` lists the latent-attention layers.
pub open spec fn role_in(name: Seq<char>, mla: Seq<bool>, arch: Arch) -> Option<Role> {
    if arch == Arch::Dense {
        dense_role(name)
    } else if name == "embed_tokens.weight"@ || name == "lm_head.weight"@ {
        Some(Role::ColsD)
    } else if name == "norm.weight"@ || name == "output_attn_res_norm.weight"@ || name
        == "output_attn_res_proj.weight"@ {
        Some(Role::VecD)
    } else {
        match layer_of(name) {
            Some((l, r)) => match shared_role(r) {
                Some(role) => Some(role),
                None => if layer_listed(mla, l) {
                    mla_role(r, arch)
                } else {
                    kda_role(r)
                },
            },
            None => None,
        }
    }
}

fn find_shared_role(r: &[char]) -> (role: Option<Role>)
    ensures
        role == shared_role(r@),
{
    if same_text(r, "input_layernorm.weight") || same_text(r, "post_attention_layernorm.weight")
        || same_text(r, "self_attention_res_norm.weight") || same_text(
        r,
        "self_attention_res_proj.weight",
    ) || same_text(r, "mlp_res_norm.weight") || same_text(r, "mlp_res_proj.weight") {
        Some(Role::VecD)
    } else if same_text(r, "block_sparse_moe.gate.weight") {
        Some(Role::RouterW)
    } else if same_text(r, "block_sparse_moe.gate.e_score_correction_bias") {
        Some(Role::RouterB)
    } else if same_text(r, "block_sparse_moe.routed_expert_down_proj.weight") || same_text(
        r,
        "block_sparse_moe.shared_experts.gate_proj.weight",
    ) || same_text(r, "block_sparse_moe.shared_experts.up_proj.weight") {
        Some(Role::ColsD)
    } else if same_text(r, "block_sparse_moe.routed_expert_up_proj.weight") || same_text(
        r,
        "block_sparse_moe.shared_experts.down_proj.weight",
    ) {
        Some(Role::RowsD)
    } else if same_text(r, "block_sparse_moe.routed_expert_norm.weight") {
        Some(Role::Copy)
    } else if same_text(r, "mlp.gate_proj.weight") || same_text(r, "mlp.up_proj.weight") {
        Some(Role::ColsD)
    } else if same_text(r, "mlp.down_proj.weight") {
        Some(Role::RowsD)
    } else if has_head(r, "block_sparse_moe.experts.") {
        Some(Role::Expert)
    } else {
        None
    }
}

fn find_mla_role(r: &[char], arch: Arch) -> (role: Option<Role>)
    ensures
        role == mla_role(r@, arch),
{
    if same_text(r, "self_attn.q_a_proj.weight") || same_text(
        r,
        "self_attn.kv_a_proj_with_mqa.weight",
    ) {
        Some(Role::ColsD)
    } else if same_text(r, "self_attn.g_proj.weight") {
        if arch == Arch::K3Real {
            Some(Role::ColsD)
        } else {
            Some(Role::BothD)
        }
    } else if same_text(r, "self_attn.o_proj.weight") {
        Some(Role::RowsD)
    } else if same_text(r, "self_attn.q_a_layernorm.weight") || same_text(
        r,
        "self_attn.q_b_proj.weight",
    ) || same_text(r, "self_attn.kv_a_layernorm.weight") || same_text(
        r,
        "self_attn.kv_b_proj.weight",
    ) {
        Some(Role::Copy)
    } else {
        None
    }
}

fn find_kda_role(r: &[char]) -> (role: Option<Role>)
    ensures
        role == kda_role(r@),
{
    if same_text(r, "self_attn.q_proj.weight") || same_text(r, "self_attn.k_proj.weight")
        || same_text(r, "self_attn.v_proj.weight") || same_text(r, "self_attn.g_proj.weight")
        || same_text(r, "self_attn.f_a_proj.weight") || same_text(r, "self_attn.b_proj.weight") {
        Some(Role::ColsD)
    } else if same_text(r, "self_attn.o_proj.weight") {
        Some(Role::RowsD)
    } else if same_text(r, "self_attn.q_conv1d.weight") || same_text(
        r,
        "self_attn.k_conv1d.weight",
    ) || same_text(r, "self_attn.v_conv1d.weight") || same_text(r, "self_attn.f_b_proj.weight")
        || same_text(r, "self_attn.A_log") || same_text(r, "self_attn.dt_bias") || same_text(
        r,
        "self_attn.o_norm.weight",
    ) {
        Some(Role::Copy)
    } else {
        None
    }
}

fn find_dense_layer_role(r: &[char]) -> (role: Option<Role>)
    ensures
        role == dense_layer_role(r@),
{
    if same_text(r, "input_layernorm.weight") || same_text(r, "post_attention_layernorm.weight") {
        Some(Role::VecD)
    } else if same_text(r, "self_attn.q_proj.weight") || same_text(r, "self_attn.k_proj.weight")
        || same_text(r, "self_attn.v_proj.weight") {
        Some(Role::ColsD)
    } else if same_text(r, "self_attn.o_proj.weight") {
        Some(Role::RowsD)
    } else if same_text(r, "self_attn.q_proj.bias") || same_text(r, "self_attn.k_proj.bias")
        || same_text(r, "self_attn.v_proj.bias") || same_text(r, "self_attn.o_proj.bias") {
        Some(Role::Copy)
    } else if same_text(r, "mlp.gate_proj.weight") || same_text(r, "mlp.up_proj.weight") {
        Some(Role::ColsD)
    } else if same_text(r, "mlp.down_proj.weight") {
        Some(Role::RowsD)
    } else {
        None
    }
}

/// The role of a tensor of a plain dense model, where it is known: input projections
/// slice columns, output projections rows, norms are vectors, biases are copied.
pub fn role_dense(name: &[char]) -> (role: Option<Role>)
    ensures
        role == dense_role(name@),
{
    if same_text(name, "embed_tokens.weight") || same_text(name, "lm_head.weight") {
        return Some(Role::ColsD);
    }
    if same_text(name, "norm.weight") {
        return Some(Role::VecD);
    }
    match split_layer(name) {
        Some((_, r)) => find_dense_layer_role(r.as_slice()),
        None => None,
    }
}

/// The role of a tensor, where it is known.
pub fn role_of(name: &[char], mla: &[bool], arch: Arch) -> (role: Option<Role>)
    ensures
        role == role_in(name@, mla@, arch),
{
    if arch == Arch::Dense {
        return role_dense(name);
    }
    if same_text(name, "embed_tokens.weight") || same_text(name, "lm_head.weight") {
        return Some(Role::ColsD);
    }
    if same_text(name, "norm.weight") || same_text(name, "output_attn_res_norm.weight")
        || same_text(name, "output_attn_res_proj.weight") {
        return Some(Role::VecD);
    }
    match split_layer(name) {
        Some((l, r)) => {
            let common: Option<Role> = find_shared_role(r.as_slice());
            if common.is_some() {
                return common;
            }
            if l < mla.len() && mla[l] {
                find_mla_role(r.as_slice(), arch)
            } else {
                find_kda_role(r.as_slice())
            }
        },
        None => None,
    }
}

} // verus!
