//! What the options of a slicing run mean.

use crate::numtext::is_digit;
use crate::numtext::law_decimal_reads_back;
use crate::numtext::lemma_decimal;
use crate::numtext::lemma_decimal_is_a_word;
use crate::numtext::lemma_split_none;
use crate::numtext::lemma_split_push;
use crate::numtext::parsed;
use crate::numtext::split;
use crate::slice_args::arg_from;
use crate::slice_args::flag_given;
use crate::slice_args::flag_value;
use crate::slice_args::layer_choice;
use crate::slice_args::layers_kept;
use crate::slice_args::options_of;
use crate::slice_args::part_range;
use crate::slice_args::part_ranges;
use crate::slice_args::range_covers;
use crate::slice_args::tail_from;
use crate::slice_roles::lemma_first_of;
use crate::text::decimal;
use crate::text::stands_at;
use crate::text::trim_back;
use crate::text::trim_front;
use crate::text::trimmed;
use crate::unicode::white_space;
use vstd::prelude::*;

verus! {

/// Ranges of layers, written: the first and the last of each with a dash between them, a
/// comma between two.
pub open spec fn ranges_text(v: Seq<(nat, nat)>) -> Seq<char>
    decreases v.len(),
{
    let last = decimal(v.last().0).push('-') + decimal(v.last().1);
    if v.len() <= 1 {
        last
    } else {
        ranges_text(v.drop_last()).push(',') + last
    }
}

proof fn lemma_trimmed_word(t: Seq<char>)
    requires
        t.len() > 0,
        !white_space(t[0]),
        !white_space(t.last()),
    ensures
        trimmed(t) == t,
{
    assert(trim_front(t) == t);
    assert(trim_back(t) == t);
}

proof fn lemma_range_reads_back(a: nat, b: nat)
    requires
        a <= b <= usize::MAX,
    ensures
        part_range(decimal(a).push('-') + decimal(b)) == Ok::<
            (nat, nat),
            crate::slice_args::LayerSpecError,
        >((a, b)),
        forall|i: int|
            0 <= i < (decimal(a).push('-') + decimal(b)).len() ==> #[trigger] (decimal(a).push('-')
                + decimal(b))[i] != ',',
{
    let (x, y) = (decimal(a), decimal(b));
    let p = x.push('-') + y;
    lemma_decimal(a);
    lemma_decimal(b);
    lemma_decimal_is_a_word(a);
    lemma_decimal_is_a_word(b);
    assert(p[0] == x[0] && p.last() == y.last());
    assert(y.last() == y[y.len() - 1]);
    lemma_trimmed_word(p);
    assert forall|k: int| 0 <= k < x.len() implies #[trigger] x[k] != '-' by {
        assert(is_digit(x[k]));
    }
    lemma_first_of(x, '-', y, 0);
    assert(p.take(x.len() as int) =~= x);
    assert(p.skip(x.len() as int + 1) =~= y);
    assert(x.last() == x[x.len() - 1]);
    lemma_trimmed_word(x);
    lemma_trimmed_word(y);
    law_decimal_reads_back(a, usize::MAX as nat);
    law_decimal_reads_back(b, usize::MAX as nat);
    assert forall|i: int| 0 <= i < p.len() implies #[trigger] p[i] != ',' by {
        if i < x.len() {
            assert(is_digit(x[i]));
        } else if i > x.len() {
            assert(is_digit(y[i - x.len() - 1]));
        }
    }
}

proof fn lemma_ranges_read_back(v: Seq<(nat, nat)>)
    requires
        v.len() > 0,
        forall|i: int| 0 <= i < v.len() ==> (#[trigger] v[i]).0 <= v[i].1 <= usize::MAX,
    ensures
        part_ranges(split(ranges_text(v), ',')) == Ok::<
            Seq<(nat, nat)>,
            crate::slice_args::LayerSpecError,
        >(v),
    decreases v.len(),
{
    let (a, b) = v.last();
    assert(v[v.len() - 1] == (a, b));
    let last = decimal(a).push('-') + decimal(b);
    lemma_range_reads_back(a, b);
    let none = Seq::<Seq<char>>::empty();
    if v.len() == 1 {
        lemma_split_none(last, ',');
        let parts = seq![last];
        assert(parts.drop_last() =~= none);
        assert(part_ranges(none) == Ok::<
            Seq<(nat, nat)>,
            crate::slice_args::LayerSpecError,
        >(Seq::empty()));
        assert(Seq::<(nat, nat)>::empty().push((a, b)) =~= v);
    } else {
        let front = v.drop_last();
        assert forall|i: int| 0 <= i < front.len() implies (#[trigger] front[i]).0 <= front[i].1
            <= usize::MAX by {
            assert(front[i] == v[i]);
        }
        lemma_ranges_read_back(front);
        lemma_split_push(ranges_text(front), ',', last);
        let parts = split(ranges_text(front), ',').push(last);
        assert(parts.drop_last() =~= split(ranges_text(front), ','));
        assert(front.push((a, b)) =~= v);
    }
}

/// A choice of layers means the ranges that are written: the layers kept are those from the
/// first of a range to its last, each once and in order.
pub proof fn law_layer_ranges_mean_their_layers(v: Seq<(nat, nat)>, n: int, out: Seq<usize>, l: usize)
    requires
        v.len() > 0,
        forall|i: int| 0 <= i < v.len() ==> (#[trigger] v[i]).0 <= v[i].1 < n,
        n <= usize::MAX,
        layer_choice(ranges_text(v), n) is Ok,
        layers_kept(layer_choice(ranges_text(v), n)->Ok_0, out),
    ensures
        out.contains(l) <==> exists|i: int| 0 <= i < v.len() && (#[trigger] v[i]).0 <= l <= v[i].1,
        forall|a: int, b: int| 0 <= a < b < out.len() ==> #[trigger] out[a] < #[trigger] out[b],
{
    lemma_ranges_read_back(v);
    if exists|i: int| 0 <= i < v.len() && (#[trigger] v[i]).0 <= l <= v[i].1 {
        let i = choose|i: int| 0 <= i < v.len() && (#[trigger] v[i]).0 <= l <= v[i].1;
        assert(range_covers(v, i, l as int));
    }
    if out.contains(l) {
        let i = choose|i: int| range_covers(v, i, l as int);
        assert(v[i].0 <= l <= v[i].1);
    }
}

/// Written ranges of layers that the model has are accepted, and one that ends behind its
/// last layer is not.
pub proof fn law_layer_ranges_are_checked(v: Seq<(nat, nat)>, n: int)
    requires
        v.len() > 0,
        forall|i: int| 0 <= i < v.len() ==> (#[trigger] v[i]).0 <= v[i].1 <= usize::MAX,
    ensures
        layer_choice(ranges_text(v), n) is Ok <==> forall|i: int|
            0 <= i < v.len() ==> (#[trigger] v[i]).1 < n,
{
    lemma_ranges_read_back(v);
}

/// The argument right behind the first `name`.
pub open spec fn follows_first(args: Seq<Seq<char>>, name: Seq<char>, value: Seq<char>) -> bool {
    exists|i: int|
        0 <= i < args.len() - 1 && #[trigger] args[i] == name && args[i + 1] == value && forall|
            k: int,
        |
            0 <= k < i ==> #[trigger] args[k] != name
}

proof fn lemma_arg_from(args: Seq<Seq<char>>, name: Seq<char>, i: int)
    requires
        0 <= i <= args.len(),
    ensures
        i <= arg_from(args, name, i) <= args.len(),
        arg_from(args, name, i) < args.len() ==> args[arg_from(args, name, i)] == name,
        forall|k: int| i <= k < arg_from(args, name, i) ==> #[trigger] args[k] != name,
    decreases args.len() - i,
{
    if i < args.len() && args[i] != name {
        lemma_arg_from(args, name, i + 1);
    }
}

proof fn lemma_flag_value(args: Seq<Seq<char>>, name: Seq<char>)
    ensures
        match flag_value(args, name) {
            Some(v) => follows_first(args, name, v),
            None => forall|i: int| 0 <= i < args.len() - 1 ==> #[trigger] args[i] != name,
        },
        flag_given(args, name) <==> args.contains(name),
{
    lemma_arg_from(args, name, 0);
    let i = arg_from(args, name, 0);
    if i + 1 < args.len() {
        assert(args[i] == name);
    }
    if args.contains(name) {
        let k = choose|k: int| 0 <= k < args.len() && args[k] == name;
        assert(args[k] == name);
    }
}

/// Options that are accepted are those that were given: each value is the argument behind
/// the first flag of its name, a number is what that argument says, and what is left out was
/// not given.
pub proof fn law_options_are_those_given(args: Seq<Seq<char>>)
    requires
        options_of(args) is Ok,
    ensures
        ({
            let o = options_of(args)->Ok_0;
            let max = usize::MAX as nat;
            let absent = |name: Seq<char>| forall|i: int|
                0 <= i < args.len() - 1 ==> #[trigger] args[i] != name;
            let number = |name: Seq<char>, n: usize| exists|v: Seq<char>|
                #[trigger] follows_first(args, name, v) && parsed(v, max) == Some(n as nat);
            &&& follows_first(args, "--model"@, o.model)
            &&& follows_first(args, "--out"@, o.out)
            &&& match o.hidden {
                Some(n) => number("--hidden"@, n),
                None => absent("--hidden"@),
            }
            &&& match o.experts {
                Some(n) => number("--experts"@, n),
                None => absent("--experts"@),
            }
            &&& match o.cold_vq {
                Some(n) => number("--cold-vq"@, n),
                None => absent("--cold-vq"@),
            }
            &&& match o.layers {
                Some(v) => follows_first(args, "--layers"@, v),
                None => absent("--layers"@),
            }
            &&& match o.vocab_base {
                Some(v) => follows_first(args, "--vocab-base"@, v),
                None => absent("--vocab-base"@),
            }
            &&& match o.imatrix {
                Some(v) => follows_first(args, "--imatrix"@, v),
                None => absent("--imatrix"@),
            }
            &&& match o.vocab_top {
                Some((n, _)) => number("--vocab-top"@, n),
                None => !args.contains("--vocab-top"@),
            }
            &&& o.imatrix_score_only <==> args.contains("--imatrix-score-only"@)
        }),
{
    lemma_flag_value(args, "--model"@);
    lemma_flag_value(args, "--out"@);
    lemma_flag_value(args, "--hidden"@);
    lemma_flag_value(args, "--experts"@);
    lemma_flag_value(args, "--cold-vq"@);
    lemma_flag_value(args, "--layers"@);
    lemma_flag_value(args, "--vocab-base"@);
    lemma_flag_value(args, "--imatrix"@);
    lemma_flag_value(args, "--vocab-top"@);
    lemma_flag_value(args, "--imatrix-score-only"@);
}

/// Options that are accepted ask for something and do not contradict one another: no more
/// experts stay at full precision than stay at all, precision tiering works on a local file,
/// and activation statistics come only with it.
pub proof fn law_accepted_options_agree(args: Seq<Seq<char>>)
    requires
        options_of(args) is Ok,
    ensures
        ({
            let o = options_of(args)->Ok_0;
            &&& o.hidden is Some || o.experts is Some || o.layers is Some || o.cold_vq is Some
                || o.vocab_top is Some || o.expert_order is Some
            &&& o.experts is Some && o.cold_vq is Some ==> o.cold_vq->Some_0 <= o.experts->Some_0
            &&& o.cold_vq is Some ==> !stands_at(o.model, "http://"@, 0) && !stands_at(
                o.model,
                "https://"@,
                0,
            )
            &&& o.imatrix is Some ==> o.cold_vq is Some
        }),
{
}

proof fn lemma_tail_from(args: Seq<Seq<char>>, head: Seq<char>, i: int)
    requires
        0 <= i,
    ensures
        match tail_from(args, head, i) {
            Some(v) => exists|k: int| i <= k < args.len() && #[trigger] args[k] == head + v,
            None => forall|k: int, v: Seq<char>|
                #![trigger args[k], head + v]
                i <= k < args.len() ==> args[k] != head + v,
        },
    decreases args.len() - i,
{
    if i < args.len() {
        if stands_at(args[i], head, 0) {
            let v = args[i].skip(head.len() as int);
            assert(args[i] =~= head + v) by {
                assert(args[i].subrange(0, head.len() as int) == head);
                assert forall|k: int| 0 <= k < head.len() implies args[i][k] == head[k] by {
                    assert(args[i].subrange(0, head.len() as int)[k] == head[k]);
                }
            }
        } else {
            lemma_tail_from(args, head, i + 1);
            assert forall|v: Seq<char>| args[i] != #[trigger] (head + v) by {
                if args[i] == head + v {
                    assert(args[i].subrange(0, head.len() as int) =~= head);
                }
            }
        }
    }
}

/// Experts are reordered only by a sketch that was given, behind its flag or in one argument
/// with it.
pub proof fn law_expert_order_names_its_sketch(args: Seq<Seq<char>>)
    requires
        options_of(args) is Ok,
        options_of(args)->Ok_0.expert_order is Some,
    ensures
        ({
            let sketch = options_of(args)->Ok_0.expert_order->Some_0;
            &&& follows_first(args, "--route-cms"@, sketch) || exists|k: int|
                0 <= k < args.len() && #[trigger] args[k] == "--route-cms="@ + sketch
            &&& follows_first(args, "--expert-order"@, "frequency"@) || exists|k: int|
                0 <= k < args.len() && #[trigger] args[k] == "--expert-order="@ + "frequency"@
        }),
{
    lemma_flag_value(args, "--route-cms"@);
    lemma_flag_value(args, "--expert-order"@);
    lemma_tail_from(args, "--route-cms="@, 0);
    lemma_tail_from(args, "--expert-order="@, 0);
}

/// The rows of a pruned vocabulary are chosen by the file that is named behind their number.
pub proof fn law_vocabulary_names_its_counts(args: Seq<Seq<char>>)
    requires
        options_of(args) is Ok,
        options_of(args)->Ok_0.vocab_top is Some,
    ensures
        ({
            let (n, file) = options_of(args)->Ok_0.vocab_top->Some_0;
            exists|i: int|
                0 <= i < args.len() - 2 && #[trigger] args[i] == "--vocab-top"@ && parsed(
                    args[i + 1],
                    usize::MAX as nat,
                ) == Some(n as nat) && args[i + 2] == file
        }),
{
    lemma_arg_from(args, "--vocab-top"@, 0);
    let i = arg_from(args, "--vocab-top"@, 0);
    assert(args[i] == "--vocab-top"@);
}

} // verus!
