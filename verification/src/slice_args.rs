//! What a slicing run is asked to do: its command line and its layer list.

use crate::names::has_head;
use crate::names::same_text;
use crate::numtext::find_first;
use crate::numtext::first_of;
use crate::numtext::parse_number;
use crate::numtext::parsed;
use crate::numtext::split;
use crate::numtext::split_on;
use crate::numtext::texts;
use crate::rank::ascending;
use crate::text::stands_at;
use crate::text::sub_chars;
use crate::text::trim_chars;
use crate::text::trimmed;
use crate::unicode::chars_of;
use crate::unicode::text_of;
use vstd::prelude::*;

verus! {

/// Why a layer list is refused.
#[derive(Debug, Clone, Copy, PartialEq, Eq, Structural)]
pub enum LayerSpecError {
    /// A part is empty or is no number.
    BadSpec,
    /// A range ends before it begins.
    BadRange,
    /// A layer that the model does not have.
    OutOfRange,
}

/// The layers from the first to the second number that a part of the list names.
pub open spec fn part_range(part: Seq<char>) -> Result<(nat, nat), LayerSpecError> {
    let p = trimmed(part);
    let cut = first_of(p, '-');
    if p.len() == 0 {
        Err(LayerSpecError::BadSpec)
    } else if cut < p.len() {
        let a = parsed(trimmed(p.take(cut)), usize::MAX as nat);
        let b = parsed(trimmed(p.skip(cut + 1)), usize::MAX as nat);
        match (a, b) {
            (Some(a), Some(b)) => if a <= b {
                Ok((a, b))
            } else {
                Err(LayerSpecError::BadRange)
            },
            _ => Err(LayerSpecError::BadSpec),
        }
    } else {
        match parsed(p, usize::MAX as nat) {
            Some(n) => Ok((n, n)),
            None => Err(LayerSpecError::BadSpec),
        }
    }
}

/// The ranges that the parts name, or what is wrong with the first bad part.
pub open spec fn part_ranges(parts: Seq<Seq<char>>) -> Result<Seq<(nat, nat)>, LayerSpecError>
    decreases parts.len(),
{
    if parts.len() == 0 {
        Ok(Seq::empty())
    } else {
        match part_ranges(parts.drop_last()) {
            Err(e) => Err(e),
            Ok(v) => match part_range(parts.last()) {
                Err(e) => Err(e),
                Ok(r) => Ok(v.push(r)),
            },
        }
    }
}

/// The range `i` covers layer `l`.
pub open spec fn range_covers(v: Seq<(nat, nat)>, i: int, l: int) -> bool {
    0 <= i < v.len() && v[i].0 <= l <= v[i].1
}

/// Some range covers layer `l`.
pub open spec fn covers(v: Seq<(nat, nat)>, l: int) -> bool {
    exists|i: int| range_covers(v, i, l)
}

/// `out` holds the layers that the ranges cover, each once, in ascending order.
pub open spec fn layers_kept(v: Seq<(nat, nat)>, out: Seq<usize>) -> bool {
    &&& ascending(out)
    &&& forall|l: usize| #[trigger] out.contains(l) <==> covers(v, l as int)
}

/// Every range lies among the first `n` layers.
pub open spec fn within(v: Seq<(nat, nat)>, n: int) -> bool {
    forall|i: int| 0 <= i < v.len() ==> (#[trigger] v[i]).1 < n
}

fn read_part(part: &[char]) -> (r: Result<(usize, usize), LayerSpecError>)
    ensures
        match r {
            Ok((a, b)) => part_range(part@) == Ok::<(nat, nat), LayerSpecError>(
                (a as nat, b as nat),
            ),
            Err(e) => part_range(part@) == Err::<(nat, nat), LayerSpecError>(e),
        },
{
    let p: Vec<char> = trim_chars(part);
    if p.len() == 0 {
        return Err(LayerSpecError::BadSpec);
    }
    let cut: usize = find_first(p.as_slice(), '-');
    if cut < p.len() {
        let front: Vec<char> = sub_chars(p.as_slice(), 0, cut);
        let back: Vec<char> = sub_chars(p.as_slice(), cut + 1, p.len());
        proof {
            assert(front@ =~= p@.take(cut as int));
            assert(back@ =~= p@.skip(cut + 1));
        }
        let ta: Vec<char> = trim_chars(front.as_slice());
        let tb: Vec<char> = trim_chars(back.as_slice());
        let a: Option<u64> = parse_number(ta.as_slice(), usize::MAX as u64);
        let b: Option<u64> = parse_number(tb.as_slice(), usize::MAX as u64);
        match (a, b) {
            (Some(a), Some(b)) => {
                if a <= b {
                    Ok((a as usize, b as usize))
                } else {
                    Err(LayerSpecError::BadRange)
                }
            },
            _ => Err(LayerSpecError::BadSpec),
        }
    } else {
        match parse_number(p.as_slice(), usize::MAX as u64) {
            Some(n) => Ok((n as usize, n as usize)),
            None => Err(LayerSpecError::BadSpec),
        }
    }
}

/// What ranges say.
pub open spec fn ranges_view(v: Seq<(usize, usize)>) -> Seq<(nat, nat)> {
    Seq::new(v.len(), |i: int| (v[i].0 as nat, v[i].1 as nat))
}

proof fn lemma_first_bad_part(parts: Seq<Seq<char>>, n: int, e: LayerSpecError)
    requires
        0 <= n <= parts.len(),
        part_ranges(parts.take(n)) == Err::<Seq<(nat, nat)>, LayerSpecError>(e),
    ensures
        part_ranges(parts) == Err::<Seq<(nat, nat)>, LayerSpecError>(e),
    decreases parts.len(),
{
    if n == parts.len() {
        assert(parts.take(n) =~= parts);
    } else {
        assert(parts.drop_last().take(n) =~= parts.take(n));
        lemma_first_bad_part(parts.drop_last(), n, e);
    }
}

fn read_parts(spec_text: &[char]) -> (r: Result<Vec<(usize, usize)>, LayerSpecError>)
    ensures
        match r {
            Ok(v) => part_ranges(split(spec_text@, ',')) == Ok::<
                Seq<(nat, nat)>,
                LayerSpecError,
            >(ranges_view(v@)),
            Err(e) => part_ranges(split(spec_text@, ',')) == Err::<
                Seq<(nat, nat)>,
                LayerSpecError,
            >(e),
        },
{
    let parts: Vec<Vec<char>> = split_on(spec_text, ',');
    let ghost all = texts(parts@);
    let mut out: Vec<(usize, usize)> = Vec::new();
    proof {
        assert(all.take(0) =~= Seq::<Seq<char>>::empty());
        assert(ranges_view(out@) =~= Seq::<(nat, nat)>::empty());
    }
    for i in 0..parts.len()
        invariant
            all == texts(parts@),
            all == split(spec_text@, ','),
            part_ranges(all.take(i as int)) == Ok::<Seq<(nat, nat)>, LayerSpecError>(
                ranges_view(out@),
            ),
    {
        proof {
            assert(all.take(i + 1).drop_last() =~= all.take(i as int));
            assert(all.take(i + 1).last() == parts@[i as int]@);
        }
        match read_part(parts[i].as_slice()) {
            Ok(r) => {
                let ghost before = out@;
                out.push(r);
                proof {
                    assert(ranges_view(out@) =~= ranges_view(before).push(
                        (r.0 as nat, r.1 as nat),
                    ));
                }
            },
            Err(e) => {
                proof {
                    lemma_first_bad_part(all, i + 1, e);
                }
                return Err(e);
            },
        }
    }
    proof {
        assert(all.take(all.len() as int) =~= all);
    }
    Ok(out)
}

/// What a layer list keeps of a model of `n` layers.
pub open spec fn layer_choice(t: Seq<char>, n: int) -> Result<Seq<(nat, nat)>, LayerSpecError> {
    match part_ranges(split(t, ',')) {
        Err(e) => Err(e),
        Ok(v) => if within(v, n) {
            Ok(v)
        } else {
            Err(LayerSpecError::OutOfRange)
        },
    }
}

/// Reads a layer list such as `0-11`, `0,10,20` or `0-3,7,9-11`, ranges inclusive: the
/// layers it keeps, each once, in ascending order.
pub fn parse_layer_spec(spec_text: &str, n_layers: usize) -> (r: Result<
    Vec<usize>,
    LayerSpecError,
>)
    ensures
        match r {
            Ok(keep) => {
                &&& layer_choice(spec_text@, n_layers as int) is Ok
                &&& layers_kept(layer_choice(spec_text@, n_layers as int)->Ok_0, keep@)
                &&& keep@.len() > 0
                &&& forall|i: int| 0 <= i < keep@.len() ==> (#[trigger] keep@[i]) < n_layers
            },
            Err(e) => layer_choice(spec_text@, n_layers as int) == Err::<
                Seq<(nat, nat)>,
                LayerSpecError,
            >(e),
        },
{
    let t: Vec<char> = chars_of(spec_text);
    let v: Vec<(usize, usize)> = match read_parts(t.as_slice()) {
        Ok(v) => v,
        Err(e) => {
            return Err(e);
        },
    };
    let ghost ranges = ranges_view(v@);
    for i in 0..v.len()
        invariant
            ranges == ranges_view(v@),
            part_ranges(split(spec_text@, ',')) == Ok::<Seq<(nat, nat)>, LayerSpecError>(ranges),
            forall|j: int| 0 <= j < i ==> (#[trigger] ranges[j]).1 < n_layers,
    {
        proof {
            assert(ranges[i as int].1 == v@[i as int].1);
        }
        if v[i].1 >= n_layers {
            return Err(LayerSpecError::OutOfRange);
        }
    }
    proof {
        assert(within(ranges, n_layers as int));
    }
    let mut keep: Vec<usize> = Vec::new();
    for l in 0..n_layers
        invariant
            ranges == ranges_view(v@),
            ascending(keep@),
            forall|a: int| 0 <= a < keep@.len() ==> (#[trigger] keep@[a]) < l,
            forall|x: usize|
                #[trigger] keep@.contains(x) <==> x < l && covers(ranges, x as int),
    {
        let mut hit: bool = false;
        let mut i: usize = 0;
        while i < v.len() && !hit
            invariant
                i <= v@.len(),
                ranges == ranges_view(v@),
                hit ==> covers(ranges, l as int),
                !hit ==> forall|j: int| 0 <= j < i ==> !#[trigger] range_covers(ranges, j, l as int),
            decreases v@.len() - i,
        {
            proof {
                assert(ranges[i as int] == (v@[i as int].0 as nat, v@[i as int].1 as nat));
            }
            if v[i].0 <= l && l <= v[i].1 {
                hit = true;
                proof {
                    assert(range_covers(ranges, i as int, l as int));
                }
            }
            i += 1;
        }
        let ghost before = keep@;
        if hit {
            keep.push(l);
        }
        proof {
            assert(hit == covers(ranges, l as int));
            assert forall|x: usize| #[trigger] keep@.contains(x) <==> x < l + 1 && covers(
                ranges,
                x as int,
            ) by {
                assert(before.contains(x) <==> x < l && covers(ranges, x as int));
                if hit {
                    assert(keep@[keep@.len() - 1] == l);
                    if keep@.contains(x) {
                        let k = choose|k: int| 0 <= k < keep@.len() && keep@[k] == x;
                        if k < before.len() {
                            assert(before[k] == x);
                        }
                    }
                    if before.contains(x) {
                        let k = choose|k: int| 0 <= k < before.len() && before[k] == x;
                        assert(keep@[k] == x);
                    }
                }
            }
        }
    }
    proof {
        assert forall|x: usize| #[trigger] keep@.contains(x) <==> covers(ranges, x as int) by {
            if covers(ranges, x as int) {
                let i = choose|i: int| range_covers(ranges, i, x as int);
                assert(ranges[i].1 < n_layers);
            }
        }
        lemma_split_not_empty(spec_text@);
        lemma_ranges_len(split(spec_text@, ','));
        assert(range_covers(ranges, 0, ranges[0].0 as int)) by {
            lemma_ranges_ordered(split(spec_text@, ','), 0);
        }
        assert(covers(ranges, ranges[0].0 as int));
        assert(ranges[0].0 == v@[0].0);
        assert(keep@.contains(v@[0].0));
    }
    Ok(keep)
}

proof fn lemma_split_not_empty(t: Seq<char>)
    ensures
        split(t, ',').len() > 0,
{
}

proof fn lemma_ranges_len(parts: Seq<Seq<char>>)
    requires
        part_ranges(parts) is Ok,
    ensures
        part_ranges(parts)->Ok_0.len() == parts.len(),
    decreases parts.len(),
{
    if parts.len() > 0 {
        lemma_ranges_len(parts.drop_last());
    }
}

proof fn lemma_ranges_ordered(parts: Seq<Seq<char>>, i: int)
    requires
        part_ranges(parts) is Ok,
        0 <= i < parts.len(),
    ensures
        part_ranges(parts)->Ok_0[i].0 <= part_ranges(parts)->Ok_0[i].1,
    decreases parts.len(),
{
    lemma_ranges_len(parts);
    if i < parts.len() - 1 {
        lemma_ranges_len(parts.drop_last());
        lemma_ranges_ordered(parts.drop_last(), i);
    } else {
        lemma_ranges_len(parts.drop_last());
    }
}

/// The texts of a command line.
pub open spec fn arg_texts(args: Seq<String>) -> Seq<Seq<char>> {
    Seq::new(args.len(), |i: int| args[i]@)
}

/// The first position from `i` on at which an argument is `name`, or the length.
pub open spec fn arg_from(args: Seq<Seq<char>>, name: Seq<char>, i: int) -> int
    decreases args.len() - i,
{
    if i >= args.len() || args[i] == name {
        i
    } else {
        arg_from(args, name, i + 1)
    }
}

/// Whether a flag is given.
pub open spec fn flag_given(args: Seq<Seq<char>>, name: Seq<char>) -> bool {
    arg_from(args, name, 0) < args.len()
}

/// The argument `k` behind the first `name`.
pub open spec fn arg_behind(args: Seq<Seq<char>>, name: Seq<char>, k: int) -> Option<Seq<char>> {
    let i = arg_from(args, name, 0);
    if i + k < args.len() {
        Some(args[i + k])
    } else {
        None
    }
}

/// The value of a flag: the argument behind its first occurrence.
pub open spec fn flag_value(args: Seq<Seq<char>>, name: Seq<char>) -> Option<Seq<char>> {
    arg_behind(args, name, 1)
}

/// What stands behind `head` in the first argument from `i` on that begins with it.
pub open spec fn tail_from(args: Seq<Seq<char>>, head: Seq<char>, i: int) -> Option<Seq<char>>
    decreases args.len() - i,
{
    if i >= args.len() {
        None
    } else if stands_at(args[i], head, 0) {
        Some(args[i].skip(head.len() as int))
    } else {
        tail_from(args, head, i + 1)
    }
}

/// The value of a flag that is written `name value` or `name=value`, the former first.
pub open spec fn either_value(
    args: Seq<Seq<char>>,
    name: Seq<char>,
    head: Seq<char>,
) -> Option<Seq<char>> {
    match flag_value(args, name) {
        Some(v) => Some(v),
        None => tail_from(args, head, 0),
    }
}

/// The view of an optional text.
pub open spec fn opt_text(o: Option<String>) -> Option<Seq<char>> {
    match o {
        Some(s) => Some(s@),
        None => None,
    }
}

/// The first place of an argument, or their number.
pub fn find_arg(args: &[String], name: &str) -> (i: usize)
    ensures
        i == arg_from(arg_texts(args@), name@, 0),
        i <= args@.len(),
{
    let n: usize = args.len();
    let mut i: usize = 0;
    while i < n
        invariant
            i <= n == args@.len(),
            arg_from(arg_texts(args@), name@, 0) == arg_from(arg_texts(args@), name@, i as int),
        decreases n - i,
    {
        let t: Vec<char> = chars_of(args[i].as_str());
        proof {
            assert(arg_texts(args@)[i as int] == args@[i as int]@);
        }
        if same_text(t.as_slice(), name) {
            return i;
        }
        i += 1;
    }
    n
}

fn copy_text(s: &String) -> (t: String)
    ensures
        t@ == s@,
{
    let chars: Vec<char> = chars_of(s.as_str());
    text_of(chars.as_slice())
}

/// The value of a flag: the argument behind its first occurrence, where there is one.
pub fn value_flag(args: &[String], name: &str) -> (value: Option<String>)
    ensures
        opt_text(value) == flag_value(arg_texts(args@), name@),
{
    let i: usize = find_arg(args, name);
    let n: usize = args.len();
    if i < n && i + 1 < n {
        proof {
            assert(arg_texts(args@)[i + 1] == args@[i + 1]@);
        }
        Some(copy_text(&args[i + 1]))
    } else {
        None
    }
}

/// The value of a flag that is written `name value` or `name=value`.
fn kv_flag(args: &[String], name: &str, head: &str) -> (value: Option<String>)
    ensures
        opt_text(value) == either_value(arg_texts(args@), name@, head@),
{
    let plain: Option<String> = value_flag(args, name);
    if plain.is_some() {
        return plain;
    }
    let n: usize = args.len();
    let h: Vec<char> = chars_of(head);
    let mut i: usize = 0;
    while i < n
        invariant
            i <= n == args@.len(),
            h@ == head@,
            flag_value(arg_texts(args@), name@) is None,
            tail_from(arg_texts(args@), head@, 0) == tail_from(
                arg_texts(args@),
                head@,
                i as int,
            ),
        decreases n - i,
    {
        let t: Vec<char> = chars_of(args[i].as_str());
        proof {
            assert(arg_texts(args@)[i as int] == args@[i as int]@);
        }
        if has_head(t.as_slice(), head) {
            let tail: Vec<char> = sub_chars(t.as_slice(), h.len(), t.len());
            proof {
                assert(tail@ =~= t@.skip(head@.len() as int));
            }
            return Some(text_of(tail.as_slice()));
        }
        i += 1;
    }
    None
}

/// A numeric flag: no flag, a number, or a value that is none.
pub enum NumFlag {
    Absent,
    Number(usize),
    Bad,
}

/// What a numeric flag says.
pub open spec fn num_flag(args: Seq<Seq<char>>, name: Seq<char>) -> NumFlag {
    match flag_value(args, name) {
        None => NumFlag::Absent,
        Some(v) => match parsed(v, usize::MAX as nat) {
            Some(n) => NumFlag::Number(n as usize),
            None => NumFlag::Bad,
        },
    }
}

/// What a numeric flag says.
pub fn number_flag(args: &[String], name: &str) -> (f: NumFlag)
    ensures
        f == num_flag(arg_texts(args@), name@),
{
    match value_flag(args, name) {
        None => NumFlag::Absent,
        Some(v) => {
            let t: Vec<char> = chars_of(v.as_str());
            match parse_number(t.as_slice(), usize::MAX as u64) {
                Some(n) => NumFlag::Number(n as usize),
                None => NumFlag::Bad,
            }
        },
    }
}

/// Why a command line is refused.
#[derive(Debug, Clone, Copy, PartialEq, Eq, Structural)]
pub enum OptionError {
    NoModel,
    NoOut,
    BadHidden,
    BadExperts,
    BadColdVq,
    BadVocabTop,
    NoFreqfile,
    UnknownExpertOrder,
    NoRouteCms,
    NothingToDo,
    /// More hot experts than kept ones.
    HotAboveKept,
    /// Precision tiering needs the expert blobs of a local checkpoint.
    ColdVqRemote,
    /// Activation statistics only serve precision tiering.
    ImatrixWithoutColdVq,
}

/// What a slicing run is asked to do.
pub struct SliceOptions {
    pub model: String,
    pub out: String,
    pub hidden: Option<usize>,
    pub experts: Option<usize>,
    pub layers: Option<String>,
    pub cold_vq: Option<usize>,
    pub vocab_top: Option<(usize, String)>,
    pub vocab_base: Option<String>,
    /// The sketch whose counts order the experts.
    pub expert_order: Option<String>,
    pub imatrix: Option<String>,
    pub imatrix_score_only: bool,
}

/// What options say.
pub ghost struct OptionsView {
    pub model: Seq<char>,
    pub out: Seq<char>,
    pub hidden: Option<usize>,
    pub experts: Option<usize>,
    pub layers: Option<Seq<char>>,
    pub cold_vq: Option<usize>,
    pub vocab_top: Option<(usize, Seq<char>)>,
    pub vocab_base: Option<Seq<char>>,
    pub expert_order: Option<Seq<char>>,
    pub imatrix: Option<Seq<char>>,
    pub imatrix_score_only: bool,
}

impl View for SliceOptions {
    type V = OptionsView;

    open spec fn view(&self) -> OptionsView {
        OptionsView {
            model: self.model@,
            out: self.out@,
            hidden: self.hidden,
            experts: self.experts,
            layers: opt_text(self.layers),
            cold_vq: self.cold_vq,
            vocab_top: match self.vocab_top {
                Some((n, f)) => Some((n, f@)),
                None => None,
            },
            vocab_base: opt_text(self.vocab_base),
            expert_order: opt_text(self.expert_order),
            imatrix: opt_text(self.imatrix),
            imatrix_score_only: self.imatrix_score_only,
        }
    }
}

/// The number of a numeric flag that is not bad.
pub open spec fn flag_number(f: NumFlag) -> Option<usize> {
    match f {
        NumFlag::Number(n) => Some(n),
        _ => None,
    }
}

/// The vocabulary flag: a row count and a frequency file behind it.
pub open spec fn vocab_flag(args: Seq<Seq<char>>) -> Result<
    Option<(usize, Seq<char>)>,
    OptionError,
> {
    if !flag_given(args, "--vocab-top"@) {
        Ok(None)
    } else {
        let n = match arg_behind(args, "--vocab-top"@, 1) {
            Some(t) => parsed(t, usize::MAX as nat),
            None => None,
        };
        match (n, arg_behind(args, "--vocab-top"@, 2)) {
            (None, _) => Err(OptionError::BadVocabTop),
            (_, None) => Err(OptionError::NoFreqfile),
            (Some(n), Some(f)) => Ok(Some((n as usize, f))),
        }
    }
}

/// The frequency order and its sketch.
pub open spec fn order_flag(args: Seq<Seq<char>>) -> Result<Option<Seq<char>>, OptionError> {
    let sketch = either_value(args, "--route-cms"@, "--route-cms="@);
    match either_value(args, "--expert-order"@, "--expert-order="@) {
        None => Ok(None),
        Some(o) => if o != "frequency"@ {
            Err(OptionError::UnknownExpertOrder)
        } else if sketch is None {
            Err(OptionError::NoRouteCms)
        } else {
            Ok(sketch)
        },
    }
}

/// A remote source.
pub open spec fn is_remote_name(model: Seq<char>) -> bool {
    stands_at(model, "http://"@, 0) || stands_at(model, "https://"@, 0)
}

/// What a command line asks for, or the first thing wrong with it.
pub open spec fn options_of(args: Seq<Seq<char>>) -> Result<OptionsView, OptionError> {
    let hidden = num_flag(args, "--hidden"@);
    let experts = num_flag(args, "--experts"@);
    let cold = num_flag(args, "--cold-vq"@);
    let layers = flag_value(args, "--layers"@);
    let imatrix = flag_value(args, "--imatrix"@);
    match (flag_value(args, "--model"@), flag_value(args, "--out"@)) {
        (None, _) => Err(OptionError::NoModel),
        (_, None) => Err(OptionError::NoOut),
        (Some(model), Some(out)) => if hidden is Bad {
            Err(OptionError::BadHidden)
        } else if experts is Bad {
            Err(OptionError::BadExperts)
        } else if cold is Bad {
            Err(OptionError::BadColdVq)
        } else {
            match (vocab_flag(args), order_flag(args)) {
                (Err(e), _) => Err(e),
                (_, Err(e)) => Err(e),
                (Ok(vocab_top), Ok(order)) => if hidden is Absent && experts is Absent
                    && layers is None && cold is Absent && vocab_top is None && order is None {
                    Err(OptionError::NothingToDo)
                } else if experts is Number && cold is Number && cold->Number_0
                    > experts->Number_0 {
                    Err(OptionError::HotAboveKept)
                } else if cold is Number && is_remote_name(model) {
                    Err(OptionError::ColdVqRemote)
                } else if imatrix is Some && cold is Absent {
                    Err(OptionError::ImatrixWithoutColdVq)
                } else {
                    Ok(
                        OptionsView {
                            model,
                            out,
                            hidden: flag_number(hidden),
                            experts: flag_number(experts),
                            layers,
                            cold_vq: flag_number(cold),
                            vocab_top,
                            vocab_base: flag_value(args, "--vocab-base"@),
                            expert_order: order,
                            imatrix,
                            imatrix_score_only: flag_given(args, "--imatrix-score-only"@),
                        },
                    )
                },
            }
        },
    }
}

fn read_vocab_flag(args: &[String]) -> (r: Result<Option<(usize, String)>, OptionError>)
    ensures
        match r {
            Ok(Some((n, f))) => vocab_flag(arg_texts(args@)) == Ok::<
                Option<(usize, Seq<char>)>,
                OptionError,
            >(Some((n, f@))),
            Ok(None) => vocab_flag(arg_texts(args@)) == Ok::<
                Option<(usize, Seq<char>)>,
                OptionError,
            >(None),
            Err(e) => vocab_flag(arg_texts(args@)) == Err::<
                Option<(usize, Seq<char>)>,
                OptionError,
            >(e),
        },
{
    let n: usize = args.len();
    let i: usize = find_arg(args, "--vocab-top");
    if i == n {
        return Ok(None);
    }
    proof {
        assert(forall|k: int|
            0 <= k < args@.len() ==> #[trigger] arg_texts(args@)[k] == args@[k]@);
    }
    if n - i < 2 {
        return Err(OptionError::BadVocabTop);
    }
    let t: Vec<char> = chars_of(args[i + 1].as_str());
    match parse_number(t.as_slice(), usize::MAX as u64) {
        None => Err(OptionError::BadVocabTop),
        Some(rows) => {
            if n - i < 3 {
                Err(OptionError::NoFreqfile)
            } else {
                Ok(Some((rows as usize, copy_text(&args[i + 2]))))
            }
        },
    }
}

fn read_order_flag(args: &[String]) -> (r: Result<Option<String>, OptionError>)
    ensures
        match r {
            Ok(o) => order_flag(arg_texts(args@)) == Ok::<Option<Seq<char>>, OptionError>(
                opt_text(o),
            ),
            Err(e) => order_flag(arg_texts(args@)) == Err::<Option<Seq<char>>, OptionError>(e),
        },
{
    match kv_flag(args, "--expert-order", "--expert-order=") {
        None => Ok(None),
        Some(o) => {
            let t: Vec<char> = chars_of(o.as_str());
            if !same_text(t.as_slice(), "frequency") {
                return Err(OptionError::UnknownExpertOrder);
            }
            match kv_flag(args, "--route-cms", "--route-cms=") {
                None => Err(OptionError::NoRouteCms),
                Some(p) => Ok(Some(p)),
            }
        },
    }
}

/// Reads the command line of a slicing run.
pub fn parse_options(args: &[String]) -> (r: Result<SliceOptions, OptionError>)
    ensures
        match r {
            Ok(o) => options_of(arg_texts(args@)) == Ok::<OptionsView, OptionError>(o@),
            Err(e) => options_of(arg_texts(args@)) == Err::<OptionsView, OptionError>(e),
        },
{
    let model: String = match value_flag(args, "--model") {
        Some(m) => m,
        None => {
            return Err(OptionError::NoModel);
        },
    };
    let out: String = match value_flag(args, "--out") {
        Some(m) => m,
        None => {
            return Err(OptionError::NoOut);
        },
    };
    let hidden: Option<usize> = match number_flag(args, "--hidden") {
        NumFlag::Absent => None,
        NumFlag::Number(n) => Some(n),
        NumFlag::Bad => {
            return Err(OptionError::BadHidden);
        },
    };
    let experts: Option<usize> = match number_flag(args, "--experts") {
        NumFlag::Absent => None,
        NumFlag::Number(n) => Some(n),
        NumFlag::Bad => {
            return Err(OptionError::BadExperts);
        },
    };
    let cold_vq: Option<usize> = match number_flag(args, "--cold-vq") {
        NumFlag::Absent => None,
        NumFlag::Number(n) => Some(n),
        NumFlag::Bad => {
            return Err(OptionError::BadColdVq);
        },
    };
    let vocab_top: Option<(usize, String)> = match read_vocab_flag(args) {
        Ok(v) => v,
        Err(e) => {
            return Err(e);
        },
    };
    let expert_order: Option<String> = match read_order_flag(args) {
        Ok(v) => v,
        Err(e) => {
            return Err(e);
        },
    };
    let layers: Option<String> = value_flag(args, "--layers");
    if hidden.is_none() && experts.is_none() && layers.is_none() && cold_vq.is_none()
        && vocab_top.is_none() && expert_order.is_none() {
        return Err(OptionError::NothingToDo);
    }
    if let (Some(m), Some(n)) = (experts, cold_vq) {
        if n > m {
            return Err(OptionError::HotAboveKept);
        }
    }
    let m: Vec<char> = chars_of(model.as_str());
    if cold_vq.is_some() && (has_head(m.as_slice(), "http://") || has_head(
        m.as_slice(),
        "https://",
    )) {
        return Err(OptionError::ColdVqRemote);
    }
    let imatrix: Option<String> = value_flag(args, "--imatrix");
    if imatrix.is_some() && cold_vq.is_none() {
        return Err(OptionError::ImatrixWithoutColdVq);
    }
    let at: usize = find_arg(args, "--imatrix-score-only");
    let vocab_base: Option<String> = value_flag(args, "--vocab-base");
    Ok(
        SliceOptions {
            model,
            out,
            hidden,
            experts,
            layers,
            cold_vq,
            vocab_top,
            vocab_base,
            expert_order,
            imatrix,
            imatrix_score_only: at < args.len(),
        },
    )
}

/// Why options do not suit a model.
#[derive(Debug, Clone, Copy, PartialEq, Eq, Structural)]
pub enum ModelFault {
    /// Precision tiering needs a checkpoint with packed experts.
    ColdVqNeedsBin,
    /// No hidden channels, or more than there are.
    HiddenRange,
    NoExperts,
    NoVocabRows,
}

/// The first thing that makes options unsuitable for a model of width `d`.
pub open spec fn model_fault(o: OptionsView, d: usize, is_bin: bool) -> Option<ModelFault> {
    if o.cold_vq is Some && !is_bin {
        Some(ModelFault::ColdVqNeedsBin)
    } else if o.hidden is Some && !(0 < o.hidden->Some_0 <= d) {
        Some(ModelFault::HiddenRange)
    } else if o.experts == Some(0usize) {
        Some(ModelFault::NoExperts)
    } else if o.vocab_top is Some && o.vocab_top->Some_0.0 == 0 {
        Some(ModelFault::NoVocabRows)
    } else {
        None
    }
}

impl SliceOptions {
    /// The first thing that makes the options unsuitable for a model of width `d`.
    pub fn fault(&self, d: usize, is_bin: bool) -> (f: Option<ModelFault>)
        ensures
            f == model_fault(self@, d, is_bin),
    {
        if self.cold_vq.is_some() && !is_bin {
            return Some(ModelFault::ColdVqNeedsBin);
        }
        if let Some(h) = self.hidden {
            if h == 0 || h > d {
                return Some(ModelFault::HiddenRange);
            }
        }
        if let Some(n) = self.experts {
            if n == 0 {
                return Some(ModelFault::NoExperts);
            }
        }
        if let Some((n, _)) = &self.vocab_top {
            if *n == 0 {
                return Some(ModelFault::NoVocabRows);
            }
        }
        None
    }
}

} // verus!
