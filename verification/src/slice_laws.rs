//! What a plan keeps of a model: which tensors stay, under which numbers, and which of
//! their axes shrink.

use crate::numtext::is_digit;
use crate::numtext::law_decimal_reads_back;
use crate::numtext::lemma_decimal;
use crate::slice_order::law_reorder_keeps_tensors;
use crate::slice_order::output_plans;
use crate::slice_order::reordered;
use crate::slice_plan::expert_of;
use crate::slice_plan::expert_rest;
use crate::slice_plan::lemma_position;
use crate::slice_plan::position;
use crate::slice_plan::position_from;
use crate::slice_plan::PlanError;
use crate::slice_plan::PlanView;
use crate::slice_plan::Selection;
use crate::slice_roles::law_layer_name_splits;
use crate::slice_roles::layer_listed;
use crate::slice_roles::layer_name;
use crate::slice_roles::layer_of;
use crate::slice_roles::lemma_first_of;
use crate::slice_roles::role_in;
use crate::slice_roles::shared_role;
use crate::slice_roles::Arch;
use crate::slice_roles::Role;
use crate::text::decimal;
use crate::text::stands_at;
use crate::weights::Entry;
use crate::weights::DTYPE_VQ1;
use vstd::prelude::*;

verus! {

/// The first place of an item comes before every other place of it.
proof fn lemma_position_is_first(s: Seq<usize>, x: nat, i: int, k: int)
    requires
        0 <= i <= k < s.len(),
        s[k] == x,
    ensures
        position_from(s, x, i) is Some,
        i <= position_from(s, x, i)->Some_0 <= k,
    decreases k - i,
{
    if s[i] != x {
        lemma_position_is_first(s, x, i + 1, k);
    }
}

/// A name of a vocabulary matrix: the embedding or the output head.
pub open spec fn holds_vocabulary(name: Seq<char>) -> bool {
    name == "embed_tokens.weight"@ || name == "lm_head.weight"@
}

proof fn lemma_vocabulary_has_no_layer(name: Seq<char>)
    requires
        holds_vocabulary(name),
    ensures
        layer_of(name) is None,
{
    reveal_strlit("embed_tokens.weight");
    reveal_strlit("lm_head.weight");
    reveal_strlit("layers.");
    if stands_at(name, "layers."@, 0) {
        let head = name.subrange(0, "layers."@.len() as int);
        assert(head[0] == "layers."@[0]);
        assert(head[1] == "layers."@[1]);
        assert(false);
    }
}

impl Selection {
    /// Each tensor of the directory is planned on its own.
    proof fn lemma_row_is_planned(&self, list: Seq<(String, Entry)>, i: int, n: int)
        requires
            0 <= i < n <= list.len() <= usize::MAX,
            self.plans_of(list, n) is Ok,
        ensures
            self.planned(list[i].0@, list[i].1@, i as usize) is Ok,
            self.planned(list[i].0@, list[i].1@, i as usize)->Ok_0 is Some ==> exists|j: int|
                0 <= j < self.plans_of(list, n)->Ok_0.len() && #[trigger] self.plans_of(
                    list,
                    n,
                )->Ok_0[j] == self.planned(list[i].0@, list[i].1@, i as usize)->Ok_0->Some_0,
        decreases n,
    {
        let now = self.plans_of(list, n)->Ok_0;
        let before = self.plans_of(list, n - 1)->Ok_0;
        assert(self.plans_of(list, n - 1) is Ok);
        if i == n - 1 {
            if self.planned(list[i].0@, list[i].1@, i as usize)->Ok_0 is Some {
                assert(now[before.len() as int] == self.planned(
                    list[i].0@,
                    list[i].1@,
                    i as usize,
                )->Ok_0->Some_0);
            }
        } else {
            self.lemma_row_is_planned(list, i, n - 1);
            if self.planned(list[i].0@, list[i].1@, i as usize)->Ok_0 is Some {
                let j = choose|j: int|
                    0 <= j < before.len() && #[trigger] before[j] == self.planned(
                        list[i].0@,
                        list[i].1@,
                        i as usize,
                    )->Ok_0->Some_0;
                assert(now[j] == before[j]);
            }
        }
    }

    /// Each plan comes from the row of the directory that it names.
    proof fn lemma_plan_has_a_row(&self, list: Seq<(String, Entry)>, j: int, n: int)
        requires
            0 <= n <= list.len() <= usize::MAX,
            self.plans_of(list, n) is Ok,
            0 <= j < self.plans_of(list, n)->Ok_0.len(),
        ensures
            ({
                let p = self.plans_of(list, n)->Ok_0[j];
                &&& p.src is Some
                &&& p.src->Some_0 < n
                &&& self.planned(
                    list[p.src->Some_0 as int].0@,
                    list[p.src->Some_0 as int].1@,
                    p.src->Some_0,
                ) == Ok::<Option<PlanView>, PlanError>(Some(p))
            }),
        decreases n,
    {
        let before = self.plans_of(list, n - 1)->Ok_0;
        assert(self.plans_of(list, n - 1) is Ok);
        if j < before.len() {
            self.lemma_plan_has_a_row(list, j, n - 1);
        }
    }

    /// The plans stand in the order of the directory, at most one for each row.
    pub proof fn law_plans_follow_the_directory(
        &self,
        list: Seq<(String, Entry)>,
        j: int,
        k: int,
    )
        requires
            list.len() <= usize::MAX,
            self.plans_of(list, list.len() as int) is Ok,
            0 <= j < k < self.plans_of(list, list.len() as int)->Ok_0.len(),
        ensures
            ({
                let plans = self.plans_of(list, list.len() as int)->Ok_0;
                &&& plans[j].src is Some
                &&& plans[k].src is Some
                &&& plans[j].src->Some_0 < plans[k].src->Some_0 < list.len()
            }),
    {
        self.lemma_rows_rise(list, j, k, list.len() as int);
    }

    proof fn lemma_rows_rise(&self, list: Seq<(String, Entry)>, j: int, k: int, n: int)
        requires
            0 <= n <= list.len() <= usize::MAX,
            self.plans_of(list, n) is Ok,
            0 <= j < k < self.plans_of(list, n)->Ok_0.len(),
        ensures
            ({
                let plans = self.plans_of(list, n)->Ok_0;
                &&& plans[j].src is Some
                &&& plans[k].src is Some
                &&& plans[j].src->Some_0 < plans[k].src->Some_0 < n
            }),
        decreases n,
    {
        let before = self.plans_of(list, n - 1)->Ok_0;
        assert(self.plans_of(list, n - 1) is Ok);
        self.lemma_plan_has_a_row(list, j, n);
        self.lemma_plan_has_a_row(list, k, n);
        if k < before.len() {
            self.lemma_rows_rise(list, j, k, n - 1);
        } else {
            self.lemma_plan_has_a_row(list, j, n - 1);
        }
    }

    /// Where a vocabulary of `v` rows is kept, both vocabulary matrices, the embedding and
    /// the output head, are planned with `v` rows over the kept channels, under their own
    /// names and marked as cut.
    pub proof fn law_vocabulary_matrices_are_cut(
        &self,
        list: Seq<(String, Entry)>,
        i: int,
    ) -> (j: int)
        requires
            self.counts_fit(),
            list.len() <= usize::MAX,
            self.plans_of(list, list.len() as int) is Ok,
            self.vocab is Some,
            0 <= i < list.len(),
            list[i].0@ == "embed_tokens.weight"@ || list[i].0@ == "lm_head.weight"@,
        ensures
            ({
                let plans = self.plans_of(list, list.len() as int)->Ok_0;
                &&& 0 <= j < plans.len()
                &&& plans[j].src == Some(i as usize)
                &&& plans[j].out_name == list[i].0@
                &&& plans[j].dtype == list[i].1@.dtype
                &&& plans[j].vocab
                &&& plans[j].dims.len() == 2
                &&& plans[j].dims[0] == self.vocab->Some_0@.len()
                &&& plans[j].dims[1] == self.channels@.len()
            }),
    {
        self.lemma_row_is_planned(list, i, list.len() as int);
        lemma_vocabulary_has_no_layer(list[i].0@);
        let p = self.planned(list[i].0@, list[i].1@, i as usize)->Ok_0->Some_0;
        let plans = self.plans_of(list, list.len() as int)->Ok_0;
        choose|j: int| 0 <= j < plans.len() && #[trigger] plans[j] == p
    }

    /// In a whole output with a kept vocabulary of `v` rows, whatever is reordered or added
    /// at its end, the embedding and the output head both have `v` rows: the number that
    /// the output's configuration records as its vocabulary.
    pub proof fn law_vocabulary_matrices_agree(
        &self,
        list: Seq<(String, Entry)>,
        i: int,
        reorder: bool,
        codebook: bool,
    ) -> (j: int)
        requires
            self.counts_fit(),
            list.len() <= usize::MAX,
            self.plans_of(list, list.len() as int) is Ok,
            self.vocab is Some,
            0 <= i < list.len(),
            list[i].0@ == "embed_tokens.weight"@ || list[i].0@ == "lm_head.weight"@,
        ensures
            ({
                let out = output_plans(
                    self.plans_of(list, list.len() as int)->Ok_0,
                    reorder,
                    codebook,
                );
                &&& 0 <= j < out.len()
                &&& out[j].src == Some(i as usize)
                &&& out[j].out_name == list[i].0@
                &&& out[j].vocab
                &&& out[j].dims.len() == 2
                &&& out[j].dims[0] == self.vocab->Some_0@.len()
                &&& out[j].dims[1] == self.channels@.len()
            }),
    {
        let plans = self.plans_of(list, list.len() as int)->Ok_0;
        let k = self.law_vocabulary_matrices_are_cut(list, i);
        self.lemma_stays_in_the_output(plans, k, reorder, codebook)
    }

    /// What is planned stands in the output.
    proof fn lemma_stays_in_the_output(
        &self,
        plans: Seq<PlanView>,
        k: int,
        reorder: bool,
        codebook: bool,
    ) -> (j: int)
        requires
            0 <= k < plans.len(),
        ensures
            0 <= j < output_plans(plans, reorder, codebook).len(),
            output_plans(plans, reorder, codebook)[j] == plans[k],
    {
        broadcast use vstd::seq_lib::group_to_multiset_ensures;

        let out = output_plans(plans, reorder, codebook);
        law_reorder_keeps_tensors(plans);
        let ordered = if reorder {
            reordered(plans)
        } else {
            plans
        };
        assert(plans.contains(plans[k]));
        assert(plans.to_multiset().count(plans[k]) > 0);
        assert(ordered.contains(plans[k]));
        let j = choose|j: int| 0 <= j < ordered.len() && ordered[j] == plans[k];
        assert(out[j] == ordered[j]);
        j
    }

    /// No other tensor loses vocabulary rows, and none does where the vocabulary is whole.
    pub proof fn law_only_vocabulary_matrices_are_cut(
        &self,
        list: Seq<(String, Entry)>,
        j: int,
    )
        requires
            list.len() <= usize::MAX,
            self.plans_of(list, list.len() as int) is Ok,
            0 <= j < self.plans_of(list, list.len() as int)->Ok_0.len(),
            self.plans_of(list, list.len() as int)->Ok_0[j].vocab,
        ensures
            ({
                let p = self.plans_of(list, list.len() as int)->Ok_0[j];
                &&& self.vocab is Some
                &&& p.src is Some
                &&& p.out_name == list[p.src->Some_0 as int].0@
                &&& p.out_name == "embed_tokens.weight"@ || p.out_name == "lm_head.weight"@
            }),
    {
        self.lemma_plan_has_a_row(list, j, list.len() as int);
        let p = self.plans_of(list, list.len() as int)->Ok_0[j];
        let name = list[p.src->Some_0 as int].0@;
        lemma_vocabulary_has_no_layer(name);
    }

    /// A tensor of a kept layer moves with its layer: the layer's new number is its first
    /// place in the list of kept layers, the rest of the name and the data type stay. A
    /// tensor of another layer is left out.
    pub proof fn law_kept_layers_are_renumbered(
        &self,
        list: Seq<(String, Entry)>,
        i: int,
        l: nat,
        rest: Seq<char>,
    )
        requires
            list.len() <= usize::MAX,
            self.plans_of(list, list.len() as int) is Ok,
            0 <= i < list.len(),
            l <= usize::MAX,
            list[i].0@ == "layers."@ + decimal(l) + "."@ + rest,
            !stands_at(rest, "block_sparse_moe.experts."@, 0),
        ensures
            ({
                let plans = self.plans_of(list, list.len() as int)->Ok_0;
                &&& self.layers@.contains(l as usize) ==> exists|j: int, nl: int|
                    {
                        &&& 0 <= j < plans.len()
                        &&& 0 <= nl < self.layers@.len()
                        &&& #[trigger] self.layers@[nl] == l
                        &&& forall|k: int| 0 <= k < nl ==> self.layers@[k] != l
                        &&& (#[trigger] plans[j]).src == Some(i as usize)
                        &&& plans[j].out_name == "layers."@ + decimal(nl as nat) + "."@ + rest
                        &&& plans[j].dtype == list[i].1@.dtype
                    }
                &&& !self.layers@.contains(l as usize) ==> forall|j: int|
                    0 <= j < plans.len() ==> (#[trigger] plans[j]).src != Some(i as usize)
            }),
    {
        let plans = self.plans_of(list, list.len() as int)->Ok_0;
        let name = list[i].0@;
        assert(name == layer_name(l, rest));
        law_layer_name_splits(l, rest);
        self.lemma_row_is_planned(list, i, list.len() as int);
        lemma_layer_is_no_vocabulary(l, rest);
        lemma_expert_role(name, self.mla@, self.arch, l, rest);
        if self.layers@.contains(l as usize) {
            let k = choose|k: int| 0 <= k < self.layers@.len() && self.layers@[k] == l as usize;
            lemma_position_is_first(self.layers@, l, 0, k);
            lemma_position(self.layers@, l, 0);
            let nl = position(self.layers@, l)->Some_0;
            assert forall|k: int| 0 <= k < nl implies self.layers@[k] != l by {
                if self.layers@[k] == l {
                    lemma_position_is_first(self.layers@, l, 0, k);
                }
            }
            let p = self.planned(name, list[i].1@, i as usize)->Ok_0->Some_0;
            let j = choose|j: int| 0 <= j < plans.len() && #[trigger] plans[j] == p;
            assert(plans[j] == p && self.layers@[nl] == l);
        } else {
            if position(self.layers@, l) is Some {
                lemma_position(self.layers@, l, 0);
                assert(self.layers@[position(self.layers@, l)->Some_0] == l as usize);
            }
            assert forall|j: int| 0 <= j < plans.len() implies (#[trigger] plans[j]).src != Some(
                i as usize,
            ) by {
                self.lemma_plan_has_a_row(list, j, list.len() as int);
            }
        }
    }

    /// A tensor of a routed expert moves with its layer and with its expert, and keeps its
    /// dimensions: the expert's new number is its first place in the layer's list, where
    /// there is one. It turns into codebook indices exactly where some experts stay at full
    /// precision and this one does not.
    pub proof fn law_kept_experts_are_renumbered(
        &self,
        list: Seq<(String, Entry)>,
        i: int,
        l: nat,
        e: nat,
        tail: Seq<char>,
    )
        requires
            list.len() <= usize::MAX,
            self.plans_of(list, list.len() as int) is Ok,
            0 <= i < list.len(),
            l <= usize::MAX,
            e <= usize::MAX,
            list[i].0@ == "layers."@ + decimal(l) + "."@ + ("block_sparse_moe.experts."@ + decimal(
                e,
            ) + "."@ + tail),
            self.layers@.contains(l as usize),
        ensures
            ({
                let plans = self.plans_of(list, list.len() as int)->Ok_0;
                let all = self.experts is None;
                let kept = self.experts->Some_0@[l as int]->Some_0@;
                let hot = self.hot->Some_0@[l as int]->Some_0@;
                &&& !all ==> l < self.experts->Some_0@.len() && self.experts->Some_0@[l as int] is Some
                &&& all || kept.contains(e as usize) ==> exists|j: int, nl: int, ne: int|
                    {
                        &&& 0 <= j < plans.len()
                        &&& 0 <= nl < self.layers@.len()
                        &&& #[trigger] self.layers@[nl] == l
                        &&& all ==> ne == e
                        &&& !all ==> 0 <= ne < kept.len() && kept[ne] == e
                        &&& (#[trigger] plans[j]).src == Some(i as usize)
                        &&& plans[j].out_name == "layers."@ + decimal(nl as nat) + "."@ + (
                        "block_sparse_moe.experts."@ + #[trigger] decimal(ne as nat) + "."@ + tail)
                        &&& plans[j].dims == list[i].1@.dims
                        &&& plans[j].dtype == if self.hot is Some && !hot.contains(e as usize) {
                            DTYPE_VQ1
                        } else {
                            list[i].1@.dtype
                        }
                    }
                &&& !all && !kept.contains(e as usize) ==> forall|j: int|
                    0 <= j < plans.len() ==> (#[trigger] plans[j]).src != Some(i as usize)
            }),
    {
        let plans = self.plans_of(list, list.len() as int)->Ok_0;
        let name = list[i].0@;
        let rest = expert_rest(e, tail);
        assert(name == layer_name(l, rest));
        law_layer_name_splits(l, rest);
        lemma_expert_name_splits(e, tail);
        self.lemma_row_is_planned(list, i, list.len() as int);
        lemma_layer_is_no_vocabulary(l, rest);
        lemma_expert_role(name, self.mla@, self.arch, l, rest);
        let k = choose|k: int| 0 <= k < self.layers@.len() && self.layers@[k] == l as usize;
        lemma_position_is_first(self.layers@, l, 0, k);
        lemma_position(self.layers@, l, 0);
        let nl = position(self.layers@, l)->Some_0;
        let r = self.planned(name, list[i].1@, i as usize);
        let kept = self.experts->Some_0@[l as int]->Some_0@;
        let hot = self.hot->Some_0@[l as int]->Some_0@;
        let all = self.experts is None;
        assert(self.new_expert(l, e, i as usize) is Ok);
        if !all {
            lemma_position_holds(kept, e);
        }
        if self.hot is Some {
            lemma_position_holds(hot, e);
        }
        if all || kept.contains(e as usize) {
            let ne = if all {
                e as int
            } else {
                position(kept, e)->Some_0
            };
            let p = r->Ok_0->Some_0;
            let j = choose|j: int| 0 <= j < plans.len() && #[trigger] plans[j] == p;
            assert(plans[j].out_name == layer_name(nl as nat, expert_rest(ne as nat, tail)));
            assert(plans[j] == p && self.layers@[nl] == l && decimal(ne as nat) == decimal(
                ne as nat,
            ));
        } else {
            assert forall|j: int| 0 <= j < plans.len() implies (#[trigger] plans[j]).src != Some(
                i as usize,
            ) by {
                self.lemma_plan_has_a_row(list, j, list.len() as int);
            }
        }
    }
}

/// A place is found exactly where the list holds the item.
proof fn lemma_position_holds(s: Seq<usize>, x: nat)
    requires
        x <= usize::MAX,
    ensures
        position(s, x) is Some <==> s.contains(x as usize),
        position(s, x) is Some ==> 0 <= position(s, x)->Some_0 < s.len()
            && s[position(s, x)->Some_0] == x,
{
    if position(s, x) is Some {
        lemma_position(s, x, 0);
        assert(s[position(s, x)->Some_0] == x as usize);
    }
    if s.contains(x as usize) {
        let k = choose|k: int| 0 <= k < s.len() && s[k] == x as usize;
        lemma_position_is_first(s, x, 0, k);
    }
}

proof fn lemma_layer_is_no_vocabulary(l: nat, rest: Seq<char>)
    requires
        l <= usize::MAX,
    ensures
        !holds_vocabulary(layer_name(l, rest)),
        layer_name(l, rest) != "norm.weight"@,
        layer_name(l, rest) != "output_attn_res_norm.weight"@,
        layer_name(l, rest) != "output_attn_res_proj.weight"@,
{
    reveal_strlit("layers.");
    reveal_strlit("embed_tokens.weight");
    reveal_strlit("lm_head.weight");
    reveal_strlit("norm.weight");
    reveal_strlit("output_attn_res_norm.weight");
    reveal_strlit("output_attn_res_proj.weight");
    let name = layer_name(l, rest);
    assert(name[0] == 'l' && name[1] == 'a');
    assert("lm_head.weight"@[1] == 'm');
    assert("embed_tokens.weight"@[0] == 'e');
    assert("norm.weight"@[0] == 'n');
    assert("output_attn_res_norm.weight"@[0] == 'o');
    assert("output_attn_res_proj.weight"@[0] == 'o');
}

/// The tensors under the experts' prefix, and no others, are those of routed experts.
proof fn lemma_expert_role(name: Seq<char>, mla: Seq<bool>, arch: Arch, l: nat, rest: Seq<char>)
    requires
        l <= usize::MAX,
        name == layer_name(l, rest),
        role_in(name, mla, arch) is Some,
    ensures
        role_in(name, mla, arch) == Some(Role::Expert) <==> stands_at(
            rest,
            "block_sparse_moe.experts."@,
            0,
        ),
{
    law_layer_name_splits(l, rest);
    lemma_layer_is_no_vocabulary(l, rest);
    if stands_at(rest, "block_sparse_moe.experts."@, 0) {
        lemma_expert_prefix(rest);
    }
}

proof fn lemma_expert_prefix(rest: Seq<char>)
    requires
        stands_at(rest, "block_sparse_moe.experts."@, 0),
    ensures
        shared_role(rest) == Some(Role::Expert),
        crate::slice_roles::dense_layer_role(rest) is None,
{
    reveal_strlit("block_sparse_moe.experts.");
    let head = rest.subrange(0, "block_sparse_moe.experts."@.len() as int);
    assert(head[0] == rest[0] && rest[0] == 'b');
    assert("block_sparse_moe.experts."@[17] == 'e');
    assert(head[17] == rest[17]);
    reveal_strlit("input_layernorm.weight");
    reveal_strlit("post_attention_layernorm.weight");
    reveal_strlit("self_attention_res_norm.weight");
    reveal_strlit("self_attention_res_proj.weight");
    reveal_strlit("mlp_res_norm.weight");
    reveal_strlit("mlp_res_proj.weight");
    reveal_strlit("mlp.gate_proj.weight");
    reveal_strlit("mlp.up_proj.weight");
    reveal_strlit("mlp.down_proj.weight");
    reveal_strlit("self_attn.q_proj.weight");
    reveal_strlit("self_attn.k_proj.weight");
    reveal_strlit("self_attn.v_proj.weight");
    reveal_strlit("self_attn.o_proj.weight");
    reveal_strlit("self_attn.q_proj.bias");
    reveal_strlit("self_attn.k_proj.bias");
    reveal_strlit("self_attn.v_proj.bias");
    reveal_strlit("self_attn.o_proj.bias");
    assert("input_layernorm.weight"@[0] == 'i');
    assert("post_attention_layernorm.weight"@[0] == 'p');
    assert("self_attention_res_norm.weight"@[0] == 's');
    assert("self_attention_res_proj.weight"@[0] == 's');
    assert("mlp_res_norm.weight"@[0] == 'm');
    assert("mlp_res_proj.weight"@[0] == 'm');
    assert("mlp.gate_proj.weight"@[0] == 'm');
    assert("mlp.up_proj.weight"@[0] == 'm');
    assert("mlp.down_proj.weight"@[0] == 'm');
    assert("self_attn.q_proj.weight"@[0] == 's');
    assert("self_attn.k_proj.weight"@[0] == 's');
    assert("self_attn.v_proj.weight"@[0] == 's');
    assert("self_attn.o_proj.weight"@[0] == 's');
    assert("self_attn.q_proj.bias"@[0] == 's');
    assert("self_attn.k_proj.bias"@[0] == 's');
    assert("self_attn.v_proj.bias"@[0] == 's');
    assert("self_attn.o_proj.bias"@[0] == 's');
    reveal_strlit("block_sparse_moe.gate.weight");
    reveal_strlit("block_sparse_moe.gate.e_score_correction_bias");
    reveal_strlit("block_sparse_moe.routed_expert_down_proj.weight");
    reveal_strlit("block_sparse_moe.routed_expert_up_proj.weight");
    reveal_strlit("block_sparse_moe.routed_expert_norm.weight");
    reveal_strlit("block_sparse_moe.shared_experts.gate_proj.weight");
    reveal_strlit("block_sparse_moe.shared_experts.up_proj.weight");
    reveal_strlit("block_sparse_moe.shared_experts.down_proj.weight");
    assert("block_sparse_moe.gate.weight"@[17] == 'g');
    assert("block_sparse_moe.gate.e_score_correction_bias"@[17] == 'g');
    assert("block_sparse_moe.routed_expert_down_proj.weight"@[17] == 'r');
    assert("block_sparse_moe.routed_expert_up_proj.weight"@[17] == 'r');
    assert("block_sparse_moe.routed_expert_norm.weight"@[17] == 'r');
    assert("block_sparse_moe.shared_experts.gate_proj.weight"@[17] == 's');
    assert("block_sparse_moe.shared_experts.up_proj.weight"@[17] == 's');
    assert("block_sparse_moe.shared_experts.down_proj.weight"@[17] == 's');
}

/// A name that is put together for an expert splits into that expert and the rest.
proof fn lemma_expert_name_splits(e: nat, tail: Seq<char>)
    requires
        e <= usize::MAX,
    ensures
        stands_at(expert_rest(e, tail), "block_sparse_moe.experts."@, 0),
        expert_of(expert_rest(e, tail)) == Some((e, tail)),
{
    reveal_strlit(".");
    let rest = expert_rest(e, tail);
    let head = "block_sparse_moe.experts."@;
    assert(rest.subrange(0, head.len() as int) =~= head);
    let s = rest.skip(head.len() as int);
    assert(s =~= decimal(e).push('.') + tail);
    lemma_decimal(e);
    assert forall|k: int| 0 <= k < decimal(e).len() implies #[trigger] decimal(e)[k] != '.' by {
        assert(is_digit(decimal(e)[k]));
    }
    lemma_first_of(decimal(e), '.', tail, 0);
    assert(s.take(decimal(e).len() as int) =~= decimal(e));
    assert(s.skip(decimal(e).len() as int + 1) =~= tail);
    law_decimal_reads_back(e, usize::MAX as nat);
}

/// A vector over the hidden axis of a layer.
pub open spec fn lies_along_hidden(r: Seq<char>) -> bool {
    ||| r == "input_layernorm.weight"@
    ||| r == "post_attention_layernorm.weight"@
    ||| r == "self_attention_res_norm.weight"@
    ||| r == "self_attention_res_proj.weight"@
    ||| r == "mlp_res_norm.weight"@
    ||| r == "mlp_res_proj.weight"@
}

/// A matrix of a layer that multiplies a hidden state.
pub open spec fn reads_hidden(r: Seq<char>) -> bool {
    ||| r == "self_attn.q_proj.weight"@
    ||| r == "self_attn.k_proj.weight"@
    ||| r == "self_attn.v_proj.weight"@
    ||| r == "self_attn.g_proj.weight"@
    ||| r == "self_attn.b_proj.weight"@
    ||| r == "self_attn.f_a_proj.weight"@
    ||| r == "self_attn.q_a_proj.weight"@
    ||| r == "self_attn.kv_a_proj_with_mqa.weight"@
    ||| r == "mlp.gate_proj.weight"@
    ||| r == "mlp.up_proj.weight"@
    ||| r == "block_sparse_moe.shared_experts.gate_proj.weight"@
    ||| r == "block_sparse_moe.shared_experts.up_proj.weight"@
    ||| r == "block_sparse_moe.routed_expert_down_proj.weight"@
}

/// A matrix of a layer whose product is added to the hidden state.
pub open spec fn writes_hidden(r: Seq<char>) -> bool {
    ||| r == "self_attn.o_proj.weight"@
    ||| r == "mlp.down_proj.weight"@
    ||| r == "block_sparse_moe.shared_experts.down_proj.weight"@
    ||| r == "block_sparse_moe.routed_expert_up_proj.weight"@
}

/// A tensor of a layer that no hidden state meets.
pub open spec fn stays_inside(r: Seq<char>) -> bool {
    ||| r == "self_attn.q_a_layernorm.weight"@
    ||| r == "self_attn.kv_a_layernorm.weight"@
    ||| r == "self_attn.q_b_proj.weight"@
    ||| r == "self_attn.kv_b_proj.weight"@
    ||| r == "self_attn.f_b_proj.weight"@
    ||| r == "self_attn.q_conv1d.weight"@
    ||| r == "self_attn.k_conv1d.weight"@
    ||| r == "self_attn.v_conv1d.weight"@
    ||| r == "self_attn.A_log"@
    ||| r == "self_attn.dt_bias"@
    ||| r == "self_attn.o_norm.weight"@
    ||| r == "self_attn.q_proj.bias"@
    ||| r == "self_attn.k_proj.bias"@
    ||| r == "self_attn.v_proj.bias"@
    ||| r == "self_attn.o_proj.bias"@
    ||| r == "block_sparse_moe.routed_expert_norm.weight"@
}

/// What tells the tensor names of a layer apart: their lengths and some of their letters.
proof fn lemma_tensor_names()
    ensures
        "self_attn.A_log"@.len() == 15,
        "self_attn.dt_bias"@.len() == 17,
        "mlp.up_proj.weight"@.len() == 18,
        "mlp_res_norm.weight"@.len() == 19,
        "mlp_res_proj.weight"@.len() == 19,
        "mlp_res_norm.weight"@[8] == 'n',
        "mlp_res_proj.weight"@[8] == 'p',
        "mlp.gate_proj.weight"@.len() == 20,
        "mlp.down_proj.weight"@.len() == 20,
        "mlp.gate_proj.weight"@[4] == 'g',
        "mlp.down_proj.weight"@[4] == 'd',
        "self_attn.q_proj.bias"@.len() == 21,
        "self_attn.k_proj.bias"@.len() == 21,
        "self_attn.v_proj.bias"@.len() == 21,
        "self_attn.o_proj.bias"@.len() == 21,
        "self_attn.q_proj.bias"@[10] == 'q',
        "self_attn.k_proj.bias"@[10] == 'k',
        "self_attn.v_proj.bias"@[10] == 'v',
        "self_attn.o_proj.bias"@[10] == 'o',
        "input_layernorm.weight"@.len() == 22,
        "self_attn.g_proj.weight"@.len() == 23,
        "self_attn.o_proj.weight"@.len() == 23,
        "self_attn.q_proj.weight"@.len() == 23,
        "self_attn.k_proj.weight"@.len() == 23,
        "self_attn.v_proj.weight"@.len() == 23,
        "self_attn.b_proj.weight"@.len() == 23,
        "self_attn.o_norm.weight"@.len() == 23,
        "self_attn.g_proj.weight"@[10] == 'g',
        "self_attn.o_proj.weight"@[10] == 'o',
        "self_attn.q_proj.weight"@[10] == 'q',
        "self_attn.k_proj.weight"@[10] == 'k',
        "self_attn.v_proj.weight"@[10] == 'v',
        "self_attn.b_proj.weight"@[10] == 'b',
        "self_attn.o_norm.weight"@[10] == 'o',
        "self_attn.g_proj.weight"@[12] == 'p',
        "self_attn.o_proj.weight"@[12] == 'p',
        "self_attn.q_proj.weight"@[12] == 'p',
        "self_attn.k_proj.weight"@[12] == 'p',
        "self_attn.v_proj.weight"@[12] == 'p',
        "self_attn.b_proj.weight"@[12] == 'p',
        "self_attn.o_norm.weight"@[12] == 'n',
        "self_attn.q_a_proj.weight"@.len() == 25,
        "self_attn.q_b_proj.weight"@.len() == 25,
        "self_attn.f_a_proj.weight"@.len() == 25,
        "self_attn.q_conv1d.weight"@.len() == 25,
        "self_attn.k_conv1d.weight"@.len() == 25,
        "self_attn.v_conv1d.weight"@.len() == 25,
        "self_attn.f_b_proj.weight"@.len() == 25,
        "self_attn.q_a_proj.weight"@[10] == 'q',
        "self_attn.q_b_proj.weight"@[10] == 'q',
        "self_attn.f_a_proj.weight"@[10] == 'f',
        "self_attn.q_conv1d.weight"@[10] == 'q',
        "self_attn.k_conv1d.weight"@[10] == 'k',
        "self_attn.v_conv1d.weight"@[10] == 'v',
        "self_attn.f_b_proj.weight"@[10] == 'f',
        "self_attn.q_a_proj.weight"@[12] == 'a',
        "self_attn.q_b_proj.weight"@[12] == 'b',
        "self_attn.f_a_proj.weight"@[12] == 'a',
        "self_attn.q_conv1d.weight"@[12] == 'c',
        "self_attn.k_conv1d.weight"@[12] == 'c',
        "self_attn.v_conv1d.weight"@[12] == 'c',
        "self_attn.f_b_proj.weight"@[12] == 'b',
        "self_attn.kv_b_proj.weight"@.len() == 26,
        "block_sparse_moe.gate.weight"@.len() == 28,
        "self_attention_res_norm.weight"@.len() == 30,
        "self_attention_res_proj.weight"@.len() == 30,
        "self_attn.q_a_layernorm.weight"@.len() == 30,
        "self_attention_res_norm.weight"@[8] == 'e',
        "self_attention_res_proj.weight"@[8] == 'e',
        "self_attn.q_a_layernorm.weight"@[8] == 'n',
        "self_attention_res_norm.weight"@[19] == 'n',
        "self_attention_res_proj.weight"@[19] == 'p',
        "self_attn.q_a_layernorm.weight"@[19] == 'n',
        "post_attention_layernorm.weight"@.len() == 31,
        "self_attn.kv_a_layernorm.weight"@.len() == 31,
        "post_attention_layernorm.weight"@[0] == 'p',
        "self_attn.kv_a_layernorm.weight"@[0] == 's',
        "self_attn.kv_a_proj_with_mqa.weight"@.len() == 35,
        "block_sparse_moe.routed_expert_norm.weight"@.len() == 42,
        "block_sparse_moe.gate.e_score_correction_bias"@.len() == 45,
        "block_sparse_moe.routed_expert_up_proj.weight"@.len() == 45,
        "block_sparse_moe.gate.e_score_correction_bias"@[17] == 'g',
        "block_sparse_moe.routed_expert_up_proj.weight"@[17] == 'r',
        "block_sparse_moe.shared_experts.up_proj.weight"@.len() == 46,
        "block_sparse_moe.routed_expert_down_proj.weight"@.len() == 47,
        "block_sparse_moe.shared_experts.gate_proj.weight"@.len() == 48,
        "block_sparse_moe.shared_experts.down_proj.weight"@.len() == 48,
        "block_sparse_moe.shared_experts.gate_proj.weight"@[32] == 'g',
        "block_sparse_moe.shared_experts.down_proj.weight"@[32] == 'd',
{
    reveal_strlit("input_layernorm.weight");
    reveal_strlit("post_attention_layernorm.weight");
    reveal_strlit("self_attention_res_norm.weight");
    reveal_strlit("self_attention_res_proj.weight");
    reveal_strlit("mlp_res_norm.weight");
    reveal_strlit("mlp_res_proj.weight");
    reveal_strlit("block_sparse_moe.gate.weight");
    reveal_strlit("block_sparse_moe.gate.e_score_correction_bias");
    reveal_strlit("block_sparse_moe.routed_expert_down_proj.weight");
    reveal_strlit("block_sparse_moe.shared_experts.gate_proj.weight");
    reveal_strlit("block_sparse_moe.shared_experts.up_proj.weight");
    reveal_strlit("block_sparse_moe.routed_expert_up_proj.weight");
    reveal_strlit("block_sparse_moe.shared_experts.down_proj.weight");
    reveal_strlit("block_sparse_moe.routed_expert_norm.weight");
    reveal_strlit("mlp.gate_proj.weight");
    reveal_strlit("mlp.up_proj.weight");
    reveal_strlit("mlp.down_proj.weight");
    reveal_strlit("self_attn.q_a_proj.weight");
    reveal_strlit("self_attn.kv_a_proj_with_mqa.weight");
    reveal_strlit("self_attn.g_proj.weight");
    reveal_strlit("self_attn.o_proj.weight");
    reveal_strlit("self_attn.q_a_layernorm.weight");
    reveal_strlit("self_attn.q_b_proj.weight");
    reveal_strlit("self_attn.kv_a_layernorm.weight");
    reveal_strlit("self_attn.kv_b_proj.weight");
    reveal_strlit("self_attn.q_proj.weight");
    reveal_strlit("self_attn.k_proj.weight");
    reveal_strlit("self_attn.v_proj.weight");
    reveal_strlit("self_attn.f_a_proj.weight");
    reveal_strlit("self_attn.b_proj.weight");
    reveal_strlit("self_attn.q_conv1d.weight");
    reveal_strlit("self_attn.k_conv1d.weight");
    reveal_strlit("self_attn.v_conv1d.weight");
    reveal_strlit("self_attn.f_b_proj.weight");
    reveal_strlit("self_attn.A_log");
    reveal_strlit("self_attn.dt_bias");
    reveal_strlit("self_attn.o_norm.weight");
    reveal_strlit("self_attn.q_proj.bias");
    reveal_strlit("self_attn.k_proj.bias");
    reveal_strlit("self_attn.v_proj.bias");
    reveal_strlit("self_attn.o_proj.bias");
}

/// A gate that spans the hidden axis twice: that of a latent-attention layer of a small
/// checkpoint.
pub open spec fn gates_hidden(r: Seq<char>, arch: Arch, latent: bool) -> bool {
    arch == Arch::Micro && latent && r == "self_attn.g_proj.weight"@
}

proof fn lemma_roles_of_a_layer(r: Seq<char>, mla: Seq<bool>, arch: Arch, l: nat, role: Role)
    requires
        l <= usize::MAX,
        role_in(layer_name(l, r), mla, arch) == Some(role),
        !stands_at(r, "block_sparse_moe.experts."@, 0),
    ensures
        lies_along_hidden(r) ==> role == Role::VecD,
        reads_hidden(r) ==> role == if gates_hidden(r, arch, layer_listed(mla, l)) {
            Role::BothD
        } else {
            Role::ColsD
        },
        writes_hidden(r) ==> role == Role::RowsD,
        stays_inside(r) ==> role == Role::Copy,
        r == "block_sparse_moe.gate.weight"@ ==> role == Role::RouterW,
        r == "block_sparse_moe.gate.e_score_correction_bias"@ ==> role == Role::RouterB,
{
    law_layer_name_splits(l, r);
    lemma_layer_is_no_vocabulary(l, r);
    lemma_tensor_names();
}

impl Selection {
    /// The hidden axis of a kept layer, and no other, shrinks to the kept channels: the one
    /// axis of its vectors, the columns of what reads the hidden state, the rows of what
    /// adds to it. What does not meet the hidden state keeps its dimensions, and a router
    /// keeps one row for each kept expert of its layer.
    pub proof fn law_hidden_axis_shrinks(
        &self,
        list: Seq<(String, Entry)>,
        i: int,
        l: nat,
        rest: Seq<char>,
    ) -> (j: int)
        requires
            self.counts_fit(),
            list.len() <= usize::MAX,
            self.plans_of(list, list.len() as int) is Ok,
            0 <= i < list.len(),
            l <= usize::MAX,
            list[i].0@ == "layers."@ + decimal(l) + "."@ + rest,
            !stands_at(rest, "block_sparse_moe.experts."@, 0),
            self.layers@.contains(l as usize),
        ensures
            ({
                let p = self.plans_of(list, list.len() as int)->Ok_0[j];
                let d = self.channels@.len();
                let from = list[i].1@.dims;
                let latent = l < self.mla@.len() && self.mla@[l as int];
                &&& 0 <= j < self.plans_of(list, list.len() as int)->Ok_0.len()
                &&& p.src == Some(i as usize)
                &&& lies_along_hidden(rest) ==> p.dims == seq![d as u32]
                &&& reads_hidden(rest) && !gates_hidden(rest, self.arch, latent) ==> p.dims == seq![
                    from[0],
                    d as u32,
                ]
                &&& gates_hidden(rest, self.arch, latent) ==> p.dims == seq![d as u32, d as u32]
                &&& writes_hidden(rest) ==> p.dims == seq![d as u32, from[1]]
                &&& stays_inside(rest) ==> p.dims == from
                &&& rest == "block_sparse_moe.gate.weight"@ ==> p.dims.len() == 2 && p.dims[1] == d
                    && p.dims[0] == if self.experts is Some {
                    self.experts->Some_0@[l as int]->Some_0@.len() as u32
                } else {
                    from[0]
                }
                &&& rest == "block_sparse_moe.gate.e_score_correction_bias"@ ==> p.dims.len() == 1
                    && p.dims[0] == if self.experts is Some {
                    self.experts->Some_0@[l as int]->Some_0@.len() as u32
                } else {
                    from[0]
                }
                &&& (rest == "block_sparse_moe.gate.weight"@ || rest
                    == "block_sparse_moe.gate.e_score_correction_bias"@) && self.experts is Some
                    ==> p.experts == Some(self.experts->Some_0@[l as int]->Some_0@)
            }),
    {
        let plans = self.plans_of(list, list.len() as int)->Ok_0;
        let name = list[i].0@;
        assert(name == layer_name(l, rest));
        law_layer_name_splits(l, rest);
        self.lemma_row_is_planned(list, i, list.len() as int);
        lemma_layer_is_no_vocabulary(l, rest);
        lemma_expert_role(name, self.mla@, self.arch, l, rest);
        lemma_position_holds(self.layers@, l);
        let role = role_in(name, self.mla@, self.arch)->Some_0;
        lemma_roles_of_a_layer(rest, self.mla@, self.arch, l, role);
        let p = self.planned(name, list[i].1@, i as usize)->Ok_0->Some_0;
        lemma_tensor_names();
        choose|j: int| 0 <= j < plans.len() && #[trigger] plans[j] == p
    }
}

/// A tensor of a layer that the planner knows what to do with.
pub open spec fn known_in_layer(r: Seq<char>) -> bool {
    ||| lies_along_hidden(r)
    ||| reads_hidden(r)
    ||| writes_hidden(r)
    ||| stays_inside(r)
    ||| r == "block_sparse_moe.gate.weight"@
    ||| r == "block_sparse_moe.gate.e_score_correction_bias"@
    ||| stands_at(r, "block_sparse_moe.experts."@, 0)
}

impl Selection {
    /// Nothing is planned blindly: where a directory is planned, every tensor of it is one that
    /// the planner knows, and a directory with any other is refused.
    pub proof fn law_unknown_tensors_are_refused(&self, list: Seq<(String, Entry)>, i: int)
        requires
            list.len() <= usize::MAX,
            self.plans_of(list, list.len() as int) is Ok,
            0 <= i < list.len(),
        ensures
            ({
                let name = list[i].0@;
                ||| name == "embed_tokens.weight"@ || name == "lm_head.weight"@
                ||| name == "norm.weight"@
                ||| self.arch != Arch::Dense && (name == "output_attn_res_norm.weight"@ || name
                    == "output_attn_res_proj.weight"@)
                ||| layer_of(name) is Some && known_in_layer(layer_of(name)->Some_0.1)
            }),
    {
        self.lemma_row_is_planned(list, i, list.len() as int);
    }
}

/// The row of the directory that an error names.
pub open spec fn row_at_fault(e: PlanError) -> int {
    match e {
        PlanError::UnknownTensor(row) => row as int,
        PlanError::BadExpert(row) => row as int,
        PlanError::NoExpertList(row) => row as int,
        PlanError::BadDims(row) => row as int,
    }
}

impl Selection {
    /// A directory that is refused is refused for its first tensor that cannot be planned, and
    /// the error names that one.
    pub proof fn law_refusal_names_the_first_fault(&self, list: Seq<(String, Entry)>, n: int)
        requires
            0 <= n <= list.len() <= usize::MAX,
            self.plans_of(list, n) is Err,
        ensures
            ({
                let e = self.plans_of(list, n)->Err_0;
                let i = row_at_fault(e);
                &&& 0 <= i < n
                &&& self.plans_of(list, i) is Ok
                &&& self.planned(list[i].0@, list[i].1@, i as usize) == Err::<
                    Option<PlanView>,
                    PlanError,
                >(e)
            }),
        decreases n,
    {
        if n > 0 && self.plans_of(list, n - 1) is Err {
            self.law_refusal_names_the_first_fault(list, n - 1);
        }
    }
}

} // verus!
