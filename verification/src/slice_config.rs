//! The configuration that a sliced checkpoint carries.

use crate::jsontext::number_list;
use crate::jsontext::pair_list;
use crate::jsontext::pairs_view;
use crate::jsontext::push_list;
use crate::jsontext::push_pairs;
use crate::numtext::csv;
use crate::numtext::join_csv;
use crate::slice_args::opt_text;
use crate::slice_plan::list_of;
use crate::text::decimal;
use crate::text::push_decimal;
use crate::text::push_text;
use vstd::prelude::*;

verus! {

/// What the configuration of the source says and the slice leaves as it is; the two
/// real numbers in the form in which they are written.
pub struct SourceConfig {
    pub dense_arch: bool,
    pub n_experts: usize,
    pub top_k: usize,
    pub n_shared: usize,
    pub kda_heads: usize,
    pub kda_dim: usize,
    pub kda_conv: usize,
    pub kda_fa: usize,
    pub gate_lb: String,
    pub mla_heads: usize,
    pub mla_qa: usize,
    pub mla_kva: usize,
    pub mla_nope: usize,
    pub mla_rope: usize,
    pub mla_v: usize,
    pub routed_hidden: usize,
    pub moe_inter: usize,
    pub shared_inter: usize,
    pub dense_inter: usize,
    pub attn_res_block: usize,
    pub first_k_dense: usize,
    pub rms_eps: String,
    pub tokenizer: Option<String>,
    pub bos_id: u32,
    pub eos_id: u32,
    /// The latent-attention layers.
    pub mla: Vec<bool>,
    /// The layers with routed experts.
    pub moe: Vec<bool>,
}

/// What the slice changes.
pub struct Sliced {
    /// The kept layers, in their new order.
    pub layers: Vec<usize>,
    pub hidden: usize,
    pub vocab: usize,
    /// The number of experts asked for.
    pub experts: Option<usize>,
    pub cold_vq: Option<usize>,
    pub vocab_top: Option<usize>,
    /// The special tokens at their new ids, where the vocabulary is pruned.
    pub specials: Option<Vec<(String, u32)>>,
    /// The sketch that orders the experts and, per layer of the source, the experts in
    /// their new order.
    pub order: Option<(String, Vec<Option<Vec<usize>>>)>,
}

/// A field of the configuration.
pub open spec fn field(name: Seq<char>, n: nat) -> Seq<char> {
    ", \""@ + name + "\": "@ + decimal(n)
}

fn push_field(out: &mut String, name: &str, n: usize)
    ensures
        final(out)@ == old(out)@ + field(name@, n as nat),
{
    push_text(out, ", \"");
    push_text(out, name);
    push_text(out, "\": ");
    push_decimal(out, n as u64);
    proof {
        assert(out@ =~= old(out)@ + field(name@, n as nat));
    }
}

/// A field that is not always there.
pub open spec fn opt_field(name: Seq<char>, n: Option<usize>) -> Seq<char> {
    match n {
        Some(n) => field(name, n as nat),
        None => Seq::empty(),
    }
}

fn push_opt_field(out: &mut String, name: &str, n: Option<usize>)
    ensures
        final(out)@ == old(out)@ + opt_field(name@, n),
{
    match n {
        Some(n) => push_field(out, name, n),
        None => {
            proof {
                assert(out@ + Seq::<char>::empty() =~= out@);
            }
        },
    }
}

/// The places of the layers for which a flag has a value; a layer that the list of
/// flags does not reach has it off.
pub open spec fn places(layers: Seq<usize>, flags: Seq<bool>, value: bool) -> Seq<u64>
    decreases layers.len(),
{
    if layers.len() == 0 {
        Seq::empty()
    } else {
        let front = places(layers.drop_last(), flags, value);
        let l = layers.last();
        if (l < flags.len() && flags[l as int]) == value {
            front.push((layers.len() - 1) as u64)
        } else {
            front
        }
    }
}

/// The places of the layers for which a flag has a value.
pub fn find_places(layers: &[usize], flags: &[bool], value: bool) -> (out: Vec<u64>)
    ensures
        out@ == places(layers@, flags@, value),
{
    let mut out: Vec<u64> = Vec::new();
    for i in 0..layers.len()
        invariant
            out@ == places(layers@.take(i as int), flags@, value),
    {
        proof {
            assert(layers@.take(i + 1).drop_last() =~= layers@.take(i as int));
        }
        let l: usize = layers[i];
        if (l < flags.len() && flags[l]) == value {
            out.push(i as u64);
        }
    }
    proof {
        assert(layers@.take(layers@.len() as int) =~= layers@);
    }
    out
}

/// The number of experts that the configuration records: no more are kept than there are.
pub open spec fn experts_recorded(c: SourceConfig, s: Sliced) -> nat {
    match s.experts {
        Some(n) => if n <= c.n_experts {
            n as nat
        } else {
            c.n_experts as nat
        },
        None => c.n_experts as nat,
    }
}

fn record_experts(c: &SourceConfig, s: &Sliced) -> (n: usize)
    ensures
        n == experts_recorded(*c, *s),
{
    match s.experts {
        Some(n) => if n <= c.n_experts {
            n
        } else {
            c.n_experts
        },
        None => c.n_experts,
    }
}

/// How many experts a token goes to: no more than there are.
pub open spec fn top_k_recorded(c: SourceConfig, s: Sliced) -> nat {
    if c.top_k <= experts_recorded(c, s) {
        c.top_k as nat
    } else {
        experts_recorded(c, s)
    }
}

/// The sizes.
#[verifier::opaque]
pub open spec fn sizes_text(c: SourceConfig, s: Sliced) -> Seq<char> {
    (if c.dense_arch {
        "{\"format\": 2, \"arch\": \"dense\""@
    } else {
        "{\"format\": 2"@
    }) + field("n_layers"@, s.layers@.len()) + field("hidden"@, s.hidden as nat) + field(
        "vocab"@,
        s.vocab as nat,
    ) + field("n_experts"@, experts_recorded(c, s)) + field("top_k"@, top_k_recorded(c, s))
        + field("n_shared"@, c.n_shared as nat) + field("kda_heads"@, c.kda_heads as nat) + field(
        "kda_dim"@,
        c.kda_dim as nat,
    ) + field("kda_conv"@, c.kda_conv as nat) + field("kda_fa_rank"@, c.kda_fa as nat)
        + ", \"gate_lower_bound\": "@ + c.gate_lb@ + field("mla_heads"@, c.mla_heads as nat)
        + field("mla_q_lora"@, c.mla_qa as nat) + field("mla_kv_lora"@, c.mla_kva as nat) + field(
        "mla_nope"@,
        c.mla_nope as nat,
    ) + field("mla_rope"@, c.mla_rope as nat) + field("mla_v"@, c.mla_v as nat) + field(
        "routed_hidden"@,
        c.routed_hidden as nat,
    ) + field("moe_inter"@, c.moe_inter as nat) + field("shared_inter"@, c.shared_inter as nat)
        + field("dense_inter"@, c.dense_inter as nat) + field(
        "attn_res_block"@,
        c.attn_res_block as nat,
    ) + field("first_k_dense"@, c.first_k_dense as nat) + ", \"rms_eps\": "@ + c.rms_eps@
}

fn sizes(c: &SourceConfig, s: &Sliced) -> (out: String)
    ensures
        out@ == sizes_text(*c, *s),
{
    let mut out: String = String::new();
    proof {
        reveal(sizes_text);
        assert(out@ + "{\"format\": 2, \"arch\": \"dense\""@
            =~= "{\"format\": 2, \"arch\": \"dense\""@);
        assert(out@ + "{\"format\": 2"@ =~= "{\"format\": 2"@);
    }
    if c.dense_arch {
        push_text(&mut out, "{\"format\": 2, \"arch\": \"dense\"");
    } else {
        push_text(&mut out, "{\"format\": 2");
    }
    let experts: usize = record_experts(c, s);
    let top_k: usize = if c.top_k <= experts {
        c.top_k
    } else {
        experts
    };
    push_field(&mut out, "n_layers", s.layers.len());
    push_field(&mut out, "hidden", s.hidden);
    push_field(&mut out, "vocab", s.vocab);
    push_field(&mut out, "n_experts", experts);
    push_field(&mut out, "top_k", top_k);
    push_field(&mut out, "n_shared", c.n_shared);
    push_field(&mut out, "kda_heads", c.kda_heads);
    push_field(&mut out, "kda_dim", c.kda_dim);
    push_field(&mut out, "kda_conv", c.kda_conv);
    push_field(&mut out, "kda_fa_rank", c.kda_fa);
    push_text(&mut out, ", \"gate_lower_bound\": ");
    push_text(&mut out, c.gate_lb.as_str());
    push_field(&mut out, "mla_heads", c.mla_heads);
    push_field(&mut out, "mla_q_lora", c.mla_qa);
    push_field(&mut out, "mla_kv_lora", c.mla_kva);
    push_field(&mut out, "mla_nope", c.mla_nope);
    push_field(&mut out, "mla_rope", c.mla_rope);
    push_field(&mut out, "mla_v", c.mla_v);
    push_field(&mut out, "routed_hidden", c.routed_hidden);
    push_field(&mut out, "moe_inter", c.moe_inter);
    push_field(&mut out, "shared_inter", c.shared_inter);
    push_field(&mut out, "dense_inter", c.dense_inter);
    push_field(&mut out, "attn_res_block", c.attn_res_block);
    push_field(&mut out, "first_k_dense", c.first_k_dense);
    push_text(&mut out, ", \"rms_eps\": ");
    push_text(&mut out, c.rms_eps.as_str());
    out
}

/// The tokenizer of the source, where it names one.
pub open spec fn tokenizer_text(t: Option<Seq<char>>) -> Seq<char> {
    match t {
        Some(s) => ", \"tokenizer\": \""@ + s + "\""@,
        None => Seq::empty(),
    }
}

/// The special tokens: all that are known where the vocabulary is pruned, otherwise
/// the begin and end tokens of the source.
pub open spec fn specials_text(c: SourceConfig, s: Sliced) -> Seq<char> {
    match s.specials {
        Some(v) => pair_list(pairs_view(v@)),
        None => "\"bos\": "@ + decimal(c.bos_id as nat) + ", \"end_of_msg\": "@ + decimal(
            c.eos_id as nat,
        ),
    }
}

/// What was pruned.
#[verifier::opaque]
pub open spec fn pruning_text(c: SourceConfig, s: Sliced) -> Seq<char> {
    ", \"pruning\": {\"method\": \"weight-magnitude-v1\", \"hidden\": "@ + decimal(s.hidden as nat)
        + field("experts"@, experts_recorded(c, s)) + ", \"layers\": \""@ + csv(s.layers@) + "\""@
        + opt_field("cold_vq"@, s.cold_vq) + opt_field("vocab_top"@, s.vocab_top) + "}"@
}

fn push_pruning(out: &mut String, c: &SourceConfig, s: &Sliced)
    ensures
        final(out)@ == old(out)@ + pruning_text(*c, *s),
{
    let experts: usize = record_experts(c, s);
    push_text(out, ", \"pruning\": {\"method\": \"weight-magnitude-v1\", \"hidden\": ");
    push_decimal(out, s.hidden as u64);
    push_field(out, "experts", experts);
    push_text(out, ", \"layers\": \"");
    let list: String = join_csv(s.layers.as_slice());
    push_text(out, list.as_str());
    push_text(out, "\"");
    push_opt_field(out, "cold_vq", s.cold_vq);
    push_opt_field(out, "vocab_top", s.vocab_top);
    push_text(out, "}");
    proof {
        reveal(pruning_text);
        assert(out@ =~= old(out)@ + pruning_text(*c, *s));
    }
}

/// A list of numbers, widened.
pub open spec fn widened(v: Seq<usize>) -> Seq<u64> {
    Seq::new(v.len(), |i: int| v[i] as u64)
}

fn widen(v: &[usize]) -> (out: Vec<u64>)
    ensures
        out@ == widened(v@),
{
    let mut out: Vec<u64> = Vec::with_capacity(v.len());
    for i in 0..v.len()
        invariant
            out@ == widened(v@.take(i as int)),
    {
        out.push(v[i] as u64);
        proof {
            assert(out@ =~= widened(v@.take(i + 1)));
        }
    }
    proof {
        assert(v@.take(v@.len() as int) =~= v@);
    }
    out
}

/// The expert lists of the first `n` kept layers under their new numbers: the old
/// number of each expert at the place of its new one.
pub open spec fn order_rows(layers: Seq<usize>, lists: Seq<Option<Vec<usize>>>, n: int) -> Seq<char>
    decreases n,
{
    if n <= 0 {
        Seq::empty()
    } else {
        let front = order_rows(layers, lists, n - 1);
        match list_of(lists, layers[n - 1] as nat) {
            None => front,
            Some(list) => (if front.len() > 0 {
                front + ", "@
            } else {
                front
            }) + "\""@ + decimal((n - 1) as nat) + "\": ["@ + number_list(widened(list)) + "]"@,
        }
    }
}

fn join_rows(layers: &[usize], lists: &Vec<Option<Vec<usize>>>) -> (out: String)
    ensures
        out@ == order_rows(layers@, lists@, layers@.len() as int),
{
    let mut out: String = String::new();
    let mut some: bool = false;
    proof {
        assert(out@ =~= Seq::<char>::empty());
        reveal_strlit("\"");
    }
    for i in 0..layers.len()
        invariant
            out@ == order_rows(layers@, lists@, i as int),
            some == (out@.len() > 0),
    {
        let l: usize = layers[i];
        if l < lists.len() {
            if let Some(list) = &lists[l] {
                if some {
                    push_text(&mut out, ", ");
                }
                push_text(&mut out, "\"");
                push_decimal(&mut out, i as u64);
                push_text(&mut out, "\": [");
                let wide: Vec<u64> = widen(list.as_slice());
                push_list(&mut out, wide.as_slice());
                push_text(&mut out, "]");
                proof {
                    reveal_strlit("\"");
                }
                some = true;
            }
        }
    }
    out
}

/// How the experts were reordered.
pub open spec fn order_text(s: Sliced) -> Seq<char> {
    match s.order {
        None => Seq::empty(),
        Some((sketch, lists)) =>
            ", \"expert_order\": {\"method\": \"frequency\", \"source\": \""@ + sketch@
                + "\", \"new_to_old\": {"@ + order_rows(s.layers@, lists@, s.layers@.len() as int)
                + "}}"@,
    }
}

fn push_order(out: &mut String, s: &Sliced)
    ensures
        final(out)@ == old(out)@ + order_text(*s),
{
    match &s.order {
        None => {
            proof {
                assert(out@ + Seq::<char>::empty() =~= out@);
            }
        },
        Some((sketch, lists)) => {
            push_text(out, ", \"expert_order\": {\"method\": \"frequency\", \"source\": \"");
            push_text(out, sketch.as_str());
            push_text(out, "\", \"new_to_old\": {");
            let rows: String = join_rows(s.layers.as_slice(), lists);
            push_text(out, rows.as_str());
            push_text(out, "}}");
            proof {
                assert(out@ =~= old(out)@ + order_text(*s));
            }
        },
    }
}

/// Which layers have latent attention, and which are dense.
pub open spec fn layers_text(c: SourceConfig, s: Sliced) -> Seq<char> {
    ", \"mla_layers\": ["@ + number_list(places(s.layers@, c.mla@, true))
        + "], \"dense_layers\": ["@ + number_list(places(s.layers@, c.moe@, false)) + "]"@
}

fn push_layers(out: &mut String, c: &SourceConfig, s: &Sliced)
    ensures
        final(out)@ == old(out)@ + layers_text(*c, *s),
{
    push_text(out, ", \"mla_layers\": [");
    let mla: Vec<u64> = find_places(s.layers.as_slice(), c.mla.as_slice(), true);
    push_list(out, mla.as_slice());
    push_text(out, "], \"dense_layers\": [");
    let dense: Vec<u64> = find_places(s.layers.as_slice(), c.moe.as_slice(), false);
    push_list(out, dense.as_slice());
    push_text(out, "]");
    proof {
        assert(out@ =~= old(out)@ + layers_text(*c, *s));
    }
}

fn push_tokenizer(out: &mut String, c: &SourceConfig)
    ensures
        final(out)@ == old(out)@ + tokenizer_text(opt_text(c.tokenizer)),
{
    match &c.tokenizer {
        Some(t) => {
            push_text(out, ", \"tokenizer\": \"");
            push_text(out, t.as_str());
            push_text(out, "\"");
        },
        None => {},
    }
    proof {
        assert(out@ =~= old(out)@ + tokenizer_text(opt_text(c.tokenizer)));
    }
}

fn push_specials(out: &mut String, c: &SourceConfig, s: &Sliced)
    ensures
        final(out)@ == old(out)@ + specials_text(*c, *s),
{
    match &s.specials {
        Some(v) => push_pairs(out, v),
        None => {
            push_text(out, "\"bos\": ");
            push_decimal(out, c.bos_id as u64);
            push_text(out, ", \"end_of_msg\": ");
            push_decimal(out, c.eos_id as u64);
            proof {
                assert(out@ =~= old(out)@ + specials_text(*c, *s));
            }
        },
    }
}

/// The configuration of a sliced checkpoint.
pub open spec fn config_text(c: SourceConfig, s: Sliced) -> Seq<char> {
    sizes_text(c, s) + tokenizer_text(opt_text(c.tokenizer)) + layers_text(c, s)
        + ", \"specials\": {"@ + specials_text(c, s) + "}"@ + pruning_text(c, s) + order_text(s)
        + "}"@
}

/// Writes the configuration of a sliced checkpoint: the sizes of the slice, which of
/// its layers have latent attention and which are dense, the special tokens, what was
/// pruned and how the experts were reordered.
pub fn config_json(c: &SourceConfig, s: &Sliced) -> (out: String)
    ensures
        out@ == config_text(*c, *s),
{
    let mut out: String = sizes(c, s);
    push_tokenizer(&mut out, c);
    push_layers(&mut out, c, s);
    push_text(&mut out, ", \"specials\": {");
    push_specials(&mut out, c, s);
    push_text(&mut out, "}");
    push_pruning(&mut out, c, s);
    push_order(&mut out, s);
    push_text(&mut out, "}");
    out
}

} // verus!
