//! What the configuration of a sliced checkpoint records.

use crate::jsontext::number_list;
use crate::jsontext::pair_list;
use crate::jsontext::pair_text;
use crate::jsontext::pairs_view;
use crate::names::begins_with;
use crate::names::contains_text;
use crate::numtext::csv;
use crate::slice_args::opt_text;
use crate::slice_config::config_text;
use crate::slice_config::experts_recorded;
use crate::slice_config::field;
use crate::slice_config::layers_text;
use crate::slice_config::opt_field;
use crate::slice_config::order_rows;
use crate::slice_config::order_text;
use crate::slice_config::places;
use crate::slice_config::pruning_text;
use crate::slice_config::sizes_text;
use crate::slice_config::specials_text;
use crate::slice_config::tokenizer_text;
use crate::slice_config::top_k_recorded;
use crate::slice_config::widened;
use crate::slice_config::Sliced;
use crate::slice_config::SourceConfig;
use crate::slice_plan::list_of;
use crate::text::decimal;
use crate::text::stands_at;
use vstd::prelude::*;

verus! {

/// A text records a number under a name: the name in quotes, a colon, the number and the
/// comma after it stand in it.
pub open spec fn records(text: Seq<char>, name: Seq<char>, n: nat) -> bool {
    contains_text(text, ", \""@ + name + "\": "@ + decimal(n) + ","@)
}

proof fn lemma_longer(text: Seq<char>, a: Seq<char>, b: Seq<char>)
    requires
        begins_with(text, a + b),
    ensures
        begins_with(text, a),
{
    assert(text.subrange(0, a.len() as int) =~= (a + b).subrange(0, a.len() as int));
    assert((a + b).subrange(0, a.len() as int) =~= a);
}

proof fn lemma_recorded(text: Seq<char>, t: Seq<char>, name: Seq<char>, n: nat, next: Seq<char>)
    requires
        begins_with(text, t + field(name, n) + next),
        next.len() > 0,
        next[0] == ',',
    ensures
        records(text, name, n),
        begins_with(text, t),
{
    reveal_strlit(",");
    let part = ", \""@ + name + "\": "@ + decimal(n) + ","@;
    let all = t + field(name, n) + next;
    assert(part =~= field(name, n) + ","@);
    assert(text.subrange(0, all.len() as int) == all);
    let at = t.len() as int;
    assert forall|k: int| 0 <= k < part.len() implies text.subrange(at, at + part.len())[k]
        == part[k] by {
        assert(text[at + k] == text.subrange(0, all.len() as int)[at + k]);
        if k < field(name, n).len() {
            assert(all[at + k] == field(name, n)[k]);
        } else {
            assert(all[at + k] == next[0]);
            assert(","@[0] == ',');
        }
    }
    assert(text.subrange(at, at + part.len()) =~= part);
    assert(stands_at(text, part, at));
    lemma_longer(text, t + field(name, n), next);
    lemma_longer(text, t, field(name, n));
}

proof fn lemma_field_starts(name: Seq<char>, n: nat)
    ensures
        field(name, n).len() > 0,
        field(name, n)[0] == ',',
{
    reveal_strlit(", \"");
    assert(", \""@[0] == ',');
    assert(field(name, n)[0] == ", \""@[0]);
}

proof fn lemma_sizes_come_first(c: SourceConfig, s: Sliced)
    ensures
        begins_with(config_text(c, s), sizes_text(c, s)),
{
    let text = config_text(c, s);
    let a = sizes_text(c, s);
    let rest = tokenizer_text(opt_text(c.tokenizer)) + layers_text(c, s) + ", \"specials\": {"@
        + specials_text(c, s) + "}"@ + pruning_text(c, s) + order_text(s) + "}"@;
    assert(text =~= a + rest);
    assert(text.subrange(0, a.len() as int) =~= a);
}

/// The configuration records the sizes of the slice: the number of its layers, its hidden
/// size and its vocabulary, the experts that are left and among how many of them a token is
/// shared, and the source's own numbers for what slicing does not change.
pub proof fn law_configuration_records_the_sizes(c: SourceConfig, s: Sliced)
    ensures
        ({
            let text = config_text(c, s);
            let experts: int = if s.experts is Some && s.experts->Some_0 <= c.n_experts {
                s.experts->Some_0 as int
            } else {
                c.n_experts as int
            };
            let shared: int = if c.top_k <= experts {
                c.top_k as int
            } else {
                experts
            };
            &&& records(text, "n_experts"@, experts as nat)
            &&& records(text, "top_k"@, shared as nat)
            &&& records(text, "n_layers"@, s.layers@.len())
            &&& records(text, "hidden"@, s.hidden as nat)
            &&& records(text, "vocab"@, s.vocab as nat)
            &&& records(text, "n_shared"@, c.n_shared as nat)
            &&& records(text, "kda_heads"@, c.kda_heads as nat)
            &&& records(text, "kda_dim"@, c.kda_dim as nat)
            &&& records(text, "kda_conv"@, c.kda_conv as nat)
            &&& records(text, "kda_fa_rank"@, c.kda_fa as nat)
            &&& records(text, "mla_heads"@, c.mla_heads as nat)
            &&& records(text, "mla_q_lora"@, c.mla_qa as nat)
            &&& records(text, "mla_kv_lora"@, c.mla_kva as nat)
            &&& records(text, "mla_nope"@, c.mla_nope as nat)
            &&& records(text, "mla_rope"@, c.mla_rope as nat)
            &&& records(text, "mla_v"@, c.mla_v as nat)
            &&& records(text, "routed_hidden"@, c.routed_hidden as nat)
            &&& records(text, "moe_inter"@, c.moe_inter as nat)
            &&& records(text, "shared_inter"@, c.shared_inter as nat)
            &&& records(text, "dense_inter"@, c.dense_inter as nat)
            &&& records(text, "attn_res_block"@, c.attn_res_block as nat)
            &&& records(text, "first_k_dense"@, c.first_k_dense as nat)
        }),
{
    let text = config_text(c, s);
    reveal(sizes_text);
    let t0 = if c.dense_arch {
        "{\"format\": 2, \"arch\": \"dense\""@
    } else {
        "{\"format\": 2"@
    };
    let t1 = t0 + field("n_layers"@, s.layers@.len());
    let t2 = t1 + field("hidden"@, s.hidden as nat);
    let t3 = t2 + field("vocab"@, s.vocab as nat);
    let t4 = t3 + field("n_experts"@, experts_recorded(c, s));
    let t5 = t4 + field("top_k"@, top_k_recorded(c, s));
    let t6 = t5 + field("n_shared"@, c.n_shared as nat);
    let t7 = t6 + field("kda_heads"@, c.kda_heads as nat);
    let t8 = t7 + field("kda_dim"@, c.kda_dim as nat);
    let t9 = t8 + field("kda_conv"@, c.kda_conv as nat);
    let t10 = t9 + field("kda_fa_rank"@, c.kda_fa as nat);
    let t11 = t10 + ", \"gate_lower_bound\": "@;
    let t12 = t11 + c.gate_lb@;
    let t13 = t12 + field("mla_heads"@, c.mla_heads as nat);
    let t14 = t13 + field("mla_q_lora"@, c.mla_qa as nat);
    let t15 = t14 + field("mla_kv_lora"@, c.mla_kva as nat);
    let t16 = t15 + field("mla_nope"@, c.mla_nope as nat);
    let t17 = t16 + field("mla_rope"@, c.mla_rope as nat);
    let t18 = t17 + field("mla_v"@, c.mla_v as nat);
    let t19 = t18 + field("routed_hidden"@, c.routed_hidden as nat);
    let t20 = t19 + field("moe_inter"@, c.moe_inter as nat);
    let t21 = t20 + field("shared_inter"@, c.shared_inter as nat);
    let t22 = t21 + field("dense_inter"@, c.dense_inter as nat);
    let t23 = t22 + field("attn_res_block"@, c.attn_res_block as nat);
    let t24 = t23 + field("first_k_dense"@, c.first_k_dense as nat);
    let t25 = t24 + ", \"rms_eps\": "@;
    let t26 = t25 + c.rms_eps@;
    assert(t26 == sizes_text(c, s));
    lemma_sizes_come_first(c, s);
    reveal_strlit(", \"gate_lower_bound\": ");
    reveal_strlit(", \"rms_eps\": ");
    assert(", \"gate_lower_bound\": "@[0] == ',');
    assert(", \"rms_eps\": "@[0] == ',');
    lemma_longer(text, t25, c.rms_eps@);
    lemma_longer(text, t24, ", \"rms_eps\": "@);
    lemma_longer(text, t23, field("first_k_dense"@, c.first_k_dense as nat));
    lemma_longer(text, t22, field("attn_res_block"@, c.attn_res_block as nat));
    lemma_longer(text, t21, field("dense_inter"@, c.dense_inter as nat));
    lemma_longer(text, t20, field("shared_inter"@, c.shared_inter as nat));
    lemma_longer(text, t19, field("moe_inter"@, c.moe_inter as nat));
    lemma_longer(text, t18, field("routed_hidden"@, c.routed_hidden as nat));
    lemma_longer(text, t17, field("mla_v"@, c.mla_v as nat));
    lemma_longer(text, t16, field("mla_rope"@, c.mla_rope as nat));
    lemma_longer(text, t15, field("mla_nope"@, c.mla_nope as nat));
    lemma_longer(text, t14, field("mla_kv_lora"@, c.mla_kva as nat));
    lemma_longer(text, t13, field("mla_q_lora"@, c.mla_qa as nat));
    lemma_longer(text, t12, field("mla_heads"@, c.mla_heads as nat));
    lemma_longer(text, t11, c.gate_lb@);
    lemma_longer(text, t10, ", \"gate_lower_bound\": "@);
    lemma_longer(text, t9, field("kda_fa_rank"@, c.kda_fa as nat));
    lemma_longer(text, t8, field("kda_conv"@, c.kda_conv as nat));
    lemma_longer(text, t7, field("kda_dim"@, c.kda_dim as nat));
    lemma_longer(text, t6, field("kda_heads"@, c.kda_heads as nat));
    lemma_longer(text, t5, field("n_shared"@, c.n_shared as nat));
    lemma_longer(text, t4, field("top_k"@, top_k_recorded(c, s)));
    lemma_longer(text, t3, field("n_experts"@, experts_recorded(c, s)));
    lemma_longer(text, t2, field("vocab"@, s.vocab as nat));
    lemma_longer(text, t1, field("hidden"@, s.hidden as nat));
    lemma_longer(text, t0, field("n_layers"@, s.layers@.len()));
    lemma_field_starts("hidden"@, s.hidden as nat);
    lemma_recorded(text, t0, "n_layers"@, s.layers@.len(), field("hidden"@, s.hidden as nat));
    lemma_field_starts("vocab"@, s.vocab as nat);
    lemma_recorded(text, t1, "hidden"@, s.hidden as nat, field("vocab"@, s.vocab as nat));
    lemma_field_starts("n_experts"@, experts_recorded(c, s));
    lemma_recorded(text, t2, "vocab"@, s.vocab as nat, field("n_experts"@, experts_recorded(c, s)));
    lemma_field_starts("top_k"@, top_k_recorded(c, s));
    lemma_recorded(text, t3, "n_experts"@, experts_recorded(c, s), field("top_k"@, top_k_recorded(c, s)));
    lemma_field_starts("n_shared"@, c.n_shared as nat);
    lemma_recorded(text, t4, "top_k"@, top_k_recorded(c, s), field("n_shared"@, c.n_shared as nat));
    lemma_field_starts("kda_heads"@, c.kda_heads as nat);
    lemma_recorded(text, t5, "n_shared"@, c.n_shared as nat, field("kda_heads"@, c.kda_heads as nat));
    lemma_field_starts("kda_dim"@, c.kda_dim as nat);
    lemma_recorded(text, t6, "kda_heads"@, c.kda_heads as nat, field("kda_dim"@, c.kda_dim as nat));
    lemma_field_starts("kda_conv"@, c.kda_conv as nat);
    lemma_recorded(text, t7, "kda_dim"@, c.kda_dim as nat, field("kda_conv"@, c.kda_conv as nat));
    lemma_field_starts("kda_fa_rank"@, c.kda_fa as nat);
    lemma_recorded(text, t8, "kda_conv"@, c.kda_conv as nat, field("kda_fa_rank"@, c.kda_fa as nat));
    lemma_recorded(text, t9, "kda_fa_rank"@, c.kda_fa as nat, ", \"gate_lower_bound\": "@);
    lemma_field_starts("mla_q_lora"@, c.mla_qa as nat);
    lemma_recorded(text, t12, "mla_heads"@, c.mla_heads as nat, field("mla_q_lora"@, c.mla_qa as nat));
    lemma_field_starts("mla_kv_lora"@, c.mla_kva as nat);
    lemma_recorded(text, t13, "mla_q_lora"@, c.mla_qa as nat, field("mla_kv_lora"@, c.mla_kva as nat));
    lemma_field_starts("mla_nope"@, c.mla_nope as nat);
    lemma_recorded(text, t14, "mla_kv_lora"@, c.mla_kva as nat, field("mla_nope"@, c.mla_nope as nat));
    lemma_field_starts("mla_rope"@, c.mla_rope as nat);
    lemma_recorded(text, t15, "mla_nope"@, c.mla_nope as nat, field("mla_rope"@, c.mla_rope as nat));
    lemma_field_starts("mla_v"@, c.mla_v as nat);
    lemma_recorded(text, t16, "mla_rope"@, c.mla_rope as nat, field("mla_v"@, c.mla_v as nat));
    lemma_field_starts("routed_hidden"@, c.routed_hidden as nat);
    lemma_recorded(text, t17, "mla_v"@, c.mla_v as nat, field("routed_hidden"@, c.routed_hidden as nat));
    lemma_field_starts("moe_inter"@, c.moe_inter as nat);
    lemma_recorded(text, t18, "routed_hidden"@, c.routed_hidden as nat, field("moe_inter"@, c.moe_inter as nat));
    lemma_field_starts("shared_inter"@, c.shared_inter as nat);
    lemma_recorded(text, t19, "moe_inter"@, c.moe_inter as nat, field("shared_inter"@, c.shared_inter as nat));
    lemma_field_starts("dense_inter"@, c.dense_inter as nat);
    lemma_recorded(text, t20, "shared_inter"@, c.shared_inter as nat, field("dense_inter"@, c.dense_inter as nat));
    lemma_field_starts("attn_res_block"@, c.attn_res_block as nat);
    lemma_recorded(text, t21, "dense_inter"@, c.dense_inter as nat, field("attn_res_block"@, c.attn_res_block as nat));
    lemma_field_starts("first_k_dense"@, c.first_k_dense as nat);
    lemma_recorded(text, t22, "attn_res_block"@, c.attn_res_block as nat, field("first_k_dense"@, c.first_k_dense as nat));
    lemma_recorded(text, t23, "first_k_dense"@, c.first_k_dense as nat, ", \"rms_eps\": "@);
}

/// The places of layers with a flag are those whose layer has it, in order.
pub proof fn law_places_are_those_with_the_flag(
    layers: Seq<usize>,
    flags: Seq<bool>,
    value: bool,
    x: u64,
)
    requires
        layers.len() <= u64::MAX,
    ensures
        places(layers, flags, value).contains(x) <==> {
            &&& x < layers.len()
            &&& value == (layers[x as int] < flags.len() && flags[layers[x as int] as int])
        },
        forall|a: int, b: int|
            0 <= a < b < places(layers, flags, value).len() ==> #[trigger] places(
                layers,
                flags,
                value,
            )[a] < #[trigger] places(layers, flags, value)[b],
        forall|a: int|
            0 <= a < places(layers, flags, value).len() ==> (#[trigger] places(
                layers,
                flags,
                value,
            )[a]) < layers.len(),
    decreases layers.len(),
{
    if layers.len() > 0 {
        let front = layers.drop_last();
        law_places_are_those_with_the_flag(front, flags, value, x);
        let p = places(front, flags, value);
        let q = places(layers, flags, value);
        let last = (layers.len() - 1) as u64;
        if q.len() > p.len() {
            assert(q =~= p.push(last));
            if p.contains(x) {
                let k = choose|k: int| 0 <= k < p.len() && p[k] == x;
                assert(q[k] == x);
            }
            if x == last {
                assert(q[p.len() as int] == x);
            }
            if q.contains(x) {
                let k = choose|k: int| 0 <= k < q.len() && q[k] == x;
                if k < p.len() {
                    assert(p[k] == x);
                }
            }
        }
    }
}

/// The configuration lists the places of the layers with latent attention and of those
/// without routed experts.
pub proof fn law_configuration_lists_the_layers(c: SourceConfig, s: Sliced)
    ensures
        contains_text(
            config_text(c, s),
            ", \"mla_layers\": ["@ + number_list(places(s.layers@, c.mla@, true))
                + "], \"dense_layers\": ["@ + number_list(places(s.layers@, c.moe@, false)) + "]"@,
        ),
{
    let text = config_text(c, s);
    let a = sizes_text(c, s) + tokenizer_text(opt_text(c.tokenizer));
    let b = layers_text(c, s);
    let rest = ", \"specials\": {"@ + specials_text(c, s) + "}"@ + pruning_text(c, s) + order_text(s)
        + "}"@;
    assert(text =~= a + b + rest);
    assert(text.subrange(a.len() as int, a.len() as int + b.len()) =~= b);
    assert(stands_at(text, b, a.len() as int));
}

/// What stands in a part stands in the whole.
proof fn lemma_part(a: Seq<char>, b: Seq<char>, c: Seq<char>, x: Seq<char>)
    requires
        contains_text(b, x),
    ensures
        contains_text(a + b + c, x),
{
    let i = choose|i: int| stands_at(b, x, i);
    let t = a + b + c;
    assert(t.subrange(a.len() + i, a.len() + i + x.len()) =~= b.subrange(i, i + x.len()));
    assert(stands_at(t, x, a.len() + i));
}

/// A part of three stands in them.
proof fn lemma_middle(a: Seq<char>, b: Seq<char>, c: Seq<char>)
    ensures
        contains_text(a + b + c, b),
{
    let t = a + b + c;
    assert(t.subrange(a.len() as int, a.len() as int + b.len()) =~= b);
    assert(stands_at(t, b, a.len() as int));
}

proof fn lemma_pruning_stands(c: SourceConfig, s: Sliced)
    ensures
        contains_text(config_text(c, s), pruning_text(c, s)),
{
    let a = sizes_text(c, s) + tokenizer_text(opt_text(c.tokenizer)) + layers_text(c, s)
        + ", \"specials\": {"@ + specials_text(c, s) + "}"@;
    lemma_middle(a, pruning_text(c, s), order_text(s) + "}"@);
    assert(config_text(c, s) =~= a + pruning_text(c, s) + (order_text(s) + "}"@));
}

/// The configuration tells what was pruned: the hidden size and the experts that are left,
/// the kept layers by their numbers in the source, and, where they were given, how many
/// experts stay at full precision and how many rows of the vocabulary were asked for.
pub proof fn law_configuration_tells_what_was_pruned(c: SourceConfig, s: Sliced)
    ensures
        ({
            let text = config_text(c, s);
            let experts: int = if s.experts is Some && s.experts->Some_0 <= c.n_experts {
                s.experts->Some_0 as int
            } else {
                c.n_experts as int
            };
            &&& contains_text(
                text,
                ", \"pruning\": {\"method\": \"weight-magnitude-v1\", \"hidden\": "@ + decimal(
                    s.hidden as nat,
                ) + (", \""@ + "experts"@ + "\": "@ + decimal(experts as nat)),
            )
            &&& contains_text(text, ", \"layers\": \""@ + csv(s.layers@) + "\""@)
            &&& s.cold_vq is Some ==> contains_text(
                text,
                ", \""@ + "cold_vq"@ + "\": "@ + decimal(s.cold_vq->Some_0 as nat),
            )
            &&& s.vocab_top is Some ==> contains_text(
                text,
                ", \""@ + "vocab_top"@ + "\": "@ + decimal(s.vocab_top->Some_0 as nat),
            )
        }),
{
    reveal(pruning_text);
    let text = config_text(c, s);
    let p = pruning_text(c, s);
    lemma_pruning_stands(c, s);
    let head = ", \"pruning\": {\"method\": \"weight-magnitude-v1\", \"hidden\": "@;
    let hidden = decimal(s.hidden as nat);
    let experts = field("experts"@, experts_recorded(c, s));
    let (open, list, close) = (", \"layers\": \""@, csv(s.layers@), "\""@);
    let (cold, top) = (opt_field("cold_vq"@, s.cold_vq), opt_field("vocab_top"@, s.vocab_top));
    lemma_nine(head, hidden, experts, open, list, close, cold, top, "}"@);
    lemma_inside(text, p, head + hidden + experts);
    lemma_inside(text, p, open + list + close);
    lemma_inside(text, p, cold);
    lemma_inside(text, p, top);
}

/// Parts of nine stand in them.
proof fn lemma_nine(
    a: Seq<char>,
    b: Seq<char>,
    c: Seq<char>,
    d: Seq<char>,
    e: Seq<char>,
    f: Seq<char>,
    g: Seq<char>,
    h: Seq<char>,
    i: Seq<char>,
)
    ensures
        ({
            let p = a + b + c + d + e + f + g + h + i;
            &&& contains_text(p, a + b + c)
            &&& contains_text(p, d + e + f)
            &&& contains_text(p, g)
            &&& contains_text(p, h)
        }),
{
    let p = a + b + c + d + e + f + g + h + i;
    let none = Seq::<char>::empty();
    assert(p =~= none + (a + b + c) + (d + e + f + g + h + i));
    lemma_middle(none, a + b + c, d + e + f + g + h + i);
    assert(p =~= (a + b + c) + (d + e + f) + (g + h + i));
    lemma_middle(a + b + c, d + e + f, g + h + i);
    let front = a + b + c + d + e + f;
    assert(p =~= front + g + (h + i));
    lemma_middle(front, g, h + i);
    lemma_middle(front + g, h, i);
}

/// What stands in a part of a text stands in the text.
proof fn lemma_inside(text: Seq<char>, part: Seq<char>, x: Seq<char>)
    requires
        contains_text(text, part),
        contains_text(part, x),
    ensures
        contains_text(text, x),
{
    let i = choose|i: int| stands_at(text, part, i);
    let j = choose|j: int| stands_at(part, x, j);
    assert(text.subrange(i, i + part.len()) == part);
    assert(text.subrange(i + j, i + j + x.len()) =~= part.subrange(j, j + x.len())) by {
        assert forall|k: int| 0 <= k < x.len() implies #[trigger] text.subrange(
            i + j,
            i + j + x.len(),
        )[k] == part.subrange(j, j + x.len())[k] by {
            assert(text.subrange(i, i + part.len())[j + k] == part[j + k]);
        }
    }
    assert(stands_at(text, x, i + j));
}

/// The configuration names the special tokens of the slice at their new ids, and those of
/// the source where the vocabulary is whole.
pub proof fn law_configuration_names_the_specials(c: SourceConfig, s: Sliced, i: int)
    ensures
        s.specials is None ==> contains_text(
            config_text(c, s),
            ", \"specials\": {"@ + ("\"bos\": "@ + decimal(c.bos_id as nat) + ", \"end_of_msg\": "@
                + decimal(c.eos_id as nat)) + "}"@,
        ),
        s.specials is Some && 0 <= i < s.specials->Some_0@.len() ==> contains_text(
            config_text(c, s),
            "\""@ + s.specials->Some_0@[i].0@ + "\": "@ + decimal(
                s.specials->Some_0@[i].1 as nat,
            ),
        ),
{
    let text = config_text(c, s);
    let a = sizes_text(c, s) + tokenizer_text(opt_text(c.tokenizer)) + layers_text(c, s);
    let b = specials_text(c, s);
    let rest = pruning_text(c, s) + order_text(s) + "}"@;
    assert(text =~= (a + ", \"specials\": {"@) + b + ("}"@ + rest));
    if s.specials is None {
        let x = ", \"specials\": {"@ + b + "}"@;
        assert(text =~= a + x + rest);
        lemma_middle(a, x, rest);
    } else {
        let v = pairs_view(s.specials->Some_0@);
        if 0 <= i < v.len() {
            lemma_pair_stands(v, i);
            lemma_part(a + ", \"specials\": {"@, b, "}"@ + rest, pair_text(v[i].0, v[i].1 as nat));
        }
    }
}

/// Each pair stands in the list of pairs.
proof fn lemma_pair_stands(v: Seq<(Seq<char>, u32)>, i: int)
    requires
        0 <= i < v.len(),
    ensures
        contains_text(pair_list(v), pair_text(v[i].0, v[i].1 as nat)),
    decreases v.len(),
{
    let x = pair_text(v[i].0, v[i].1 as nat);
    let e = Seq::<char>::empty();
    if v.len() == 1 {
        assert(pair_list(v) =~= e + x + e);
        lemma_middle(e, x, e);
    } else {
        let front = pair_list(v.drop_last()) + ", "@;
        let last = pair_text(v.last().0, v.last().1 as nat);
        if i == v.len() - 1 {
            assert(pair_list(v) =~= front + last + e);
            lemma_middle(front, last, e);
        } else {
            lemma_pair_stands(v.drop_last(), i);
            assert(pair_list(v) =~= e + pair_list(v.drop_last()) + (", "@ + last));
            lemma_part(e, pair_list(v.drop_last()), ", "@ + last, x);
        }
    }
}

/// Where experts were reordered, the configuration gives, under the new number of each kept
/// layer that has a list, the experts' numbers in the source in their new order.
pub proof fn law_configuration_gives_the_expert_order(c: SourceConfig, s: Sliced, n: int)
    requires
        s.order is Some,
        0 <= n < s.layers@.len(),
        s.layers@[n] < s.order->Some_0.1@.len(),
        s.order->Some_0.1@[s.layers@[n] as int] is Some,
    ensures
        contains_text(
            config_text(c, s),
            "\""@ + decimal(n as nat) + "\": ["@ + number_list(
                widened(s.order->Some_0.1@[s.layers@[n] as int]->Some_0@),
            ) + "]"@,
        ),
{
    let lists = s.order->Some_0.1@;
    let row = "\""@ + decimal(n as nat) + "\": ["@ + number_list(
        widened(lists[s.layers@[n] as int]->Some_0@),
    ) + "]"@;
    let rows = order_rows(s.layers@, lists, s.layers@.len() as int);
    lemma_row_stands(s.layers@, lists, s.layers@.len() as int, n, row);
    let front = sizes_text(c, s) + tokenizer_text(opt_text(c.tokenizer)) + layers_text(c, s)
        + ", \"specials\": {"@ + specials_text(c, s) + "}"@ + pruning_text(c, s);
    let open = ", \"expert_order\": {\"method\": \"frequency\", \"source\": \""@
        + s.order->Some_0.0@ + "\", \"new_to_old\": {"@;
    assert(order_text(s) =~= open + rows + "}}"@);
    assert(config_text(c, s) =~= (front + open) + rows + ("}}"@ + "}"@));
    lemma_part(front + open, rows, "}}"@ + "}"@, row);
}

proof fn lemma_row_stands(
    layers: Seq<usize>,
    lists: Seq<Option<Vec<usize>>>,
    m: int,
    n: int,
    row: Seq<char>,
)
    requires
        0 <= n < m <= layers.len(),
        list_of(lists, layers[n] as nat) is Some,
        row == "\""@ + decimal(n as nat) + "\": ["@ + number_list(
            widened(list_of(lists, layers[n] as nat)->Some_0),
        ) + "]"@,
    ensures
        contains_text(order_rows(layers, lists, m), row),
    decreases m,
{
    let front = order_rows(layers, lists, m - 1);
    let all = order_rows(layers, lists, m);
    let e = Seq::<char>::empty();
    if n == m - 1 {
        let lead = if front.len() > 0 {
            front + ", "@
        } else {
            front
        };
        assert(all =~= lead + row + e);
        lemma_middle(lead, row, e);
    } else {
        lemma_row_stands(layers, lists, m - 1, n, row);
        match list_of(lists, layers[m - 1] as nat) {
            None => {},
            Some(list) => {
                let more = (if front.len() > 0 {
                    ", "@
                } else {
                    e
                }) + ("\""@ + decimal((m - 1) as nat) + "\": ["@ + number_list(widened(list))
                    + "]"@);
                assert(all =~= e + front + more);
                lemma_part(e, front, more, row);
            },
        }
    }
}

} // verus!
