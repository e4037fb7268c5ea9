//! What the commands are asked to do: their command lines, and what they pick and write.

use crate::le::le;
use crate::le::push_le;
use crate::numtext::parse_number;
use crate::numtext::parsed;
use crate::numtext::split;
use crate::numtext::split_on;
use crate::numtext::texts;
use crate::slice_args::arg_from;
use crate::slice_args::arg_texts;
use crate::slice_args::find_arg;
use crate::slice_args::flag_value;
use crate::slice_args::num_flag;
use crate::slice_args::number_flag;
use crate::slice_args::opt_text;
use crate::slice_args::value_flag;
use crate::slice_args::NumFlag;
use crate::unicode::chars_of;
use crate::weights::Entry;
use crate::weights::DTYPE_F32;
use vstd::prelude::*;

verus! {

/// An argument is given.
pub open spec fn given(args: Seq<Seq<char>>, name: Seq<char>) -> bool {
    arg_from(args, name, 0) < args.len()
}

/// Whether an argument is given.
pub fn has_flag(args: &[String], name: &str) -> (yes: bool)
    ensures
        yes == given(arg_texts(args@), name@),
{
    find_arg(args, name) < args.len()
}

/// The number of a flag; what is missing or is no number counts as `default`.
pub open spec fn number_given(args: Seq<Seq<char>>, name: Seq<char>, default: usize) -> usize {
    match num_flag(args, name) {
        NumFlag::Number(n) => n,
        _ => default,
    }
}

/// The number of a flag, or the default.
pub fn number_or(args: &[String], name: &str, default: usize) -> (n: usize)
    ensures
        n == number_given(arg_texts(args@), name@, default),
{
    match number_flag(args, name) {
        NumFlag::Number(n) => n,
        _ => default,
    }
}

/// Why a command line is refused.
#[derive(Debug, Clone, Copy, PartialEq, Eq, Structural)]
pub enum CommandError {
    NoModel,
    NoText,
    NoTokens,
    /// A token that is no number.
    BadToken,
    NoOut,
}

/// What a calibration is asked to do.
#[derive(Debug)]
pub struct CalibrateOptions {
    pub text: String,
    pub out: String,
    pub max_tokens: Option<usize>,
    /// Tokens after which the context starts anew.
    pub chunk: usize,
}

/// Reads the command line of a calibration.
pub fn calibrate_options(args: &[String]) -> (r: Result<CalibrateOptions, CommandError>)
    ensures
        ({
            let a = arg_texts(args@);
            match r {
                Ok(o) => {
                    &&& flag_value(a, "--text"@) == Some(o.text@)
                    &&& flag_value(a, "--out"@) == Some(o.out@)
                    &&& o.max_tokens == match num_flag(a, "--max-tokens"@) {
                        NumFlag::Number(n) => Some(n),
                        _ => None,
                    }
                    &&& o.chunk == number_given(a, "--chunk"@, 512)
                },
                Err(e) => if flag_value(a, "--text"@) is None {
                    e == CommandError::NoText
                } else {
                    e == CommandError::NoOut && flag_value(a, "--out"@) is None
                },
            }
        }),
{
    let text: String = match value_flag(args, "--text") {
        Some(t) => t,
        None => {
            return Err(CommandError::NoText);
        },
    };
    let out: String = match value_flag(args, "--out") {
        Some(o) => o,
        None => {
            return Err(CommandError::NoOut);
        },
    };
    let max_tokens: Option<usize> = match number_flag(args, "--max-tokens") {
        NumFlag::Number(n) => Some(n),
        _ => None,
    };
    Ok(CalibrateOptions { text, out, max_tokens, chunk: number_or(args, "--chunk", 512) })
}

/// What a benchmark of several lanes is asked to do.
#[derive(Debug)]
pub struct LaneBench {
    pub model: String,
    pub lanes: usize,
    pub steps: usize,
    /// The rounds in which one lane and all take turns, where that is asked for.
    pub rounds: Option<usize>,
}

/// Reads the command line of a benchmark.
pub fn lanebench_options(args: &[String]) -> (r: Result<LaneBench, CommandError>)
    ensures
        ({
            let a = arg_texts(args@);
            match r {
                Ok(o) => {
                    &&& flag_value(a, "--model"@) == Some(o.model@)
                    &&& o.lanes == number_given(a, "--lanes"@, 4)
                    &&& o.steps == number_given(a, "--steps"@, 32)
                    &&& o.rounds == if given(a, "--ab"@) {
                        Some(number_given(a, "--rounds"@, 6))
                    } else {
                        None
                    }
                },
                Err(e) => e == CommandError::NoModel && flag_value(a, "--model"@) is None,
            }
        }),
{
    match value_flag(args, "--model") {
        None => Err(CommandError::NoModel),
        Some(model) => Ok(
            LaneBench {
                model,
                lanes: number_or(args, "--lanes", 4),
                steps: number_or(args, "--steps", 32),
                rounds: if has_flag(args, "--ab") {
                    Some(number_or(args, "--rounds", 6))
                } else {
                    None
                },
            },
        ),
    }
}

/// The ids below which benchmark tokens are drawn.
pub open spec fn bench_ids(vocab: u32) -> int {
    if vocab < 50_000 {
        vocab as int
    } else {
        50_000
    }
}

/// The prompt of a lane.
pub fn lane_prompt(lane: u32, vocab: u32) -> (prompt: Vec<u32>)
    requires
        vocab > 0,
        17 * lane + 52 <= u32::MAX,
    ensures
        prompt@ == Seq::new(8, |j: int| ((3 + 17 * lane + 7 * j) % bench_ids(vocab)) as u32),
{
    let ids: u32 = if vocab < 50_000 {
        vocab
    } else {
        50_000
    };
    let mut out: Vec<u32> = Vec::new();
    for j in 0..8u32
        invariant
            ids == bench_ids(vocab),
            ids > 0,
            17 * lane + 52 <= u32::MAX,
            out@ == Seq::new(j as nat, |i: int| ((3 + 17 * lane + 7 * i) % bench_ids(vocab)) as u32),
    {
        out.push((3 + lane * 17 + j * 7) % ids);
        proof {
            assert(out@ =~= Seq::new(
                (j + 1) as nat,
                |i: int| ((3 + 17 * lane + 7 * i) % bench_ids(vocab)) as u32,
            ));
        }
    }
    out
}

/// The token that a lane begins with.
pub fn lane_token(lane: u32, vocab: u32) -> (token: u32)
    requires
        vocab > 0,
        13 * lane + 5 <= u32::MAX,
    ensures
        token == (5 + 13 * lane) % bench_ids(vocab),
{
    let ids: u32 = if vocab < 50_000 {
        vocab
    } else {
        50_000
    };
    (5 + lane * 13) % ids
}

/// The token ids of a list, where all are numbers.
pub open spec fn ids_of(pieces: Seq<Seq<char>>) -> Option<Seq<u32>>
    decreases pieces.len(),
{
    if pieces.len() == 0 {
        Some(Seq::empty())
    } else {
        match (ids_of(pieces.drop_last()), parsed(pieces.last(), u32::MAX as nat)) {
            (Some(s), Some(n)) => Some(s.push(n as u32)),
            _ => None,
        }
    }
}

proof fn lemma_ids_none(pieces: Seq<Seq<char>>, i: int)
    requires
        0 <= i < pieces.len(),
        parsed(pieces[i], u32::MAX as nat) is None,
    ensures
        ids_of(pieces) is None,
    decreases pieces.len(),
{
    if i < pieces.len() - 1 {
        lemma_ids_none(pieces.drop_last(), i);
    }
}

/// The token ids of a list that commas separate.
pub fn token_list(text: &str) -> (ids: Option<Vec<u32>>)
    ensures
        match ids {
            Some(v) => ids_of(split(text@, ',')) == Some(v@),
            None => ids_of(split(text@, ',')) is None,
        },
{
    let t: Vec<char> = chars_of(text);
    let pieces: Vec<Vec<char>> = split_on(t.as_slice(), ',');
    let ghost all = texts(pieces@);
    let mut out: Vec<u32> = Vec::new();
    proof {
        assert(all.take(0) =~= Seq::<Seq<char>>::empty());
    }
    for i in 0..pieces.len()
        invariant
            all == texts(pieces@),
            all == split(text@, ','),
            ids_of(all.take(i as int)) == Some(out@),
    {
        proof {
            assert(all.take(i + 1).drop_last() =~= all.take(i as int));
            assert(all.take(i + 1).last() == pieces@[i as int]@);
        }
        match parse_number(pieces[i].as_slice(), 0xffff_ffff) {
            Some(n) => {
                out.push(n as u32);
            },
            None => {
                proof {
                    lemma_ids_none(all, i as int);
                }
                return None;
            },
        }
    }
    proof {
        assert(all.take(all.len() as int) =~= all);
    }
    Some(out)
}

/// What a dump of logits is asked to do.
#[derive(Debug)]
pub struct DumpOptions {
    pub model: String,
    pub tokens: Vec<u32>,
    pub out: String,
    /// The draft head's logits in place of the trunk's.
    pub mtp: bool,
}

/// Reads the command line of a dump.
pub fn dump_options(args: &[String]) -> (r: Result<DumpOptions, CommandError>)
    ensures
        ({
            let a = arg_texts(args@);
            let list = match flag_value(a, "--tokens"@) {
                Some(t) => ids_of(split(t, ',')),
                None => None,
            };
            match r {
                Ok(o) => {
                    &&& flag_value(a, "--model"@) == Some(o.model@)
                    &&& list == Some(o.tokens@)
                    &&& flag_value(a, "--out"@) == Some(o.out@)
                    &&& o.mtp == given(a, "--mtp"@)
                },
                Err(e) => if flag_value(a, "--model"@) is None {
                    e == CommandError::NoModel
                } else if flag_value(a, "--tokens"@) is None {
                    e == CommandError::NoTokens
                } else if list is None {
                    e == CommandError::BadToken
                } else {
                    e == CommandError::NoOut && flag_value(a, "--out"@) is None
                },
            }
        }),
{
    let model: String = match value_flag(args, "--model") {
        Some(m) => m,
        None => {
            return Err(CommandError::NoModel);
        },
    };
    let text: String = match value_flag(args, "--tokens") {
        Some(t) => t,
        None => {
            return Err(CommandError::NoTokens);
        },
    };
    let tokens: Vec<u32> = match token_list(text.as_str()) {
        Some(v) => v,
        None => {
            return Err(CommandError::BadToken);
        },
    };
    let out: String = match value_flag(args, "--out") {
        Some(o) => o,
        None => {
            return Err(CommandError::NoOut);
        },
    };
    Ok(DumpOptions { model, tokens, out, mtp: has_flag(args, "--mtp") })
}

/// "QWLOGIT1" as a little-endian number.
pub const DUMP_MAGIC: u64 = 0x3154_4947_4f4c_5751;

/// The head of a file of logits: rows of `vocab` floats follow it.
pub fn dump_header(rows: u32, vocab: u32) -> (out: Vec<u8>)
    ensures
        out@ == le(DUMP_MAGIC as nat, 8) + le(rows as nat, 4) + le(vocab as nat, 4),
{
    let mut out: Vec<u8> = Vec::new();
    push_le(&mut out, DUMP_MAGIC, 8);
    push_le(&mut out, rows as u64, 4);
    push_le(&mut out, vocab as u64, 4);
    proof {
        assert(out@ =~= le(DUMP_MAGIC as nat, 8) + le(rows as nat, 4) + le(vocab as nat, 4));
    }
    out
}

/// What a tokenizer is asked to show.
#[derive(Debug)]
pub struct TokOptions {
    pub vocab: String,
    pub text: Option<String>,
    pub model_vocab: usize,
    pub chat: bool,
}

/// Reads the command line of a tokenizer dump; nothing where it names no vocabulary.
pub fn tok_options(args: &[String]) -> (r: Option<TokOptions>)
    ensures
        ({
            let a = arg_texts(args@);
            match r {
                Some(o) => {
                    &&& flag_value(a, "--vocab"@) == Some(o.vocab@)
                    &&& opt_text(o.text) == flag_value(a, "--text"@)
                    &&& o.model_vocab == number_given(a, "--model-vocab"@, 248_320)
                    &&& o.chat == given(a, "--chat"@)
                },
                None => flag_value(a, "--vocab"@) is None,
            }
        }),
{
    match value_flag(args, "--vocab") {
        None => None,
        Some(vocab) => Some(
            TokOptions {
                vocab,
                text: value_flag(args, "--text"),
                model_vocab: number_or(args, "--model-vocab", 248_320),
                chat: has_flag(args, "--chat"),
            },
        ),
    }
}

/// A tensor on which quantizations are compared: a float matrix of whole blocks that is
/// not too small.
pub open spec fn comparable(dtype: u8, dims: Seq<u32>) -> bool {
    &&& dtype == DTYPE_F32
    &&& dims.len() == 2
    &&& dims[1] % 32 == 0
    &&& dims[0] * dims[1] >= 16384
}

/// Text `a` stands before text `b` in a list that is sorted character by character.
pub open spec fn text_before(a: Seq<char>, b: Seq<char>) -> bool
    decreases b.len(),
{
    if b.len() == 0 {
        false
    } else if a.len() == 0 {
        true
    } else if a[0] != b[0] {
        a[0] < b[0]
    } else {
        text_before(a.skip(1), b.skip(1))
    }
}

proof fn lemma_before_trans(a: Seq<char>, b: Seq<char>, c: Seq<char>)
    requires
        text_before(a, b),
        text_before(b, c),
    ensures
        text_before(a, c),
    decreases c.len(),
{
    if a.len() > 0 && a[0] == b[0] && b[0] == c[0] {
        lemma_before_trans(a.skip(1), b.skip(1), c.skip(1));
    }
}

proof fn lemma_before_once(a: Seq<char>, b: Seq<char>)
    requires
        text_before(a, b),
    ensures
        !text_before(b, a),
    decreases b.len(),
{
    if a.len() > 0 && a[0] == b[0] {
        lemma_before_once(a.skip(1), b.skip(1));
    }
}

fn stands_before(x: &str, y: &str) -> (yes: bool)
    ensures
        yes == text_before(x@, y@),
{
    let a: Vec<char> = chars_of(x);
    let b: Vec<char> = chars_of(y);
    let mut i: usize = 0;
    let m: usize = a.len();
    let n: usize = b.len();
    proof {
        assert(x@.skip(0) =~= x@);
        assert(y@.skip(0) =~= y@);
    }
    while i < m && i < n
        invariant
            a@ == x@,
            b@ == y@,
            m == x@.len(),
            n == y@.len(),
            i <= m,
            i <= n,
            text_before(x@, y@) == text_before(x@.skip(i as int), y@.skip(i as int)),
        decreases m - i,
    {
        proof {
            assert(x@.skip(i as int).skip(1) =~= x@.skip(i + 1));
            assert(y@.skip(i as int).skip(1) =~= y@.skip(i + 1));
        }
        if a[i] != b[i] {
            return a[i] < b[i];
        }
        i += 1;
    }
    i < n
}

/// Positions of comparable tensors in the order of their names.
pub open spec fn in_name_order(list: Seq<(String, Entry)>, out: Seq<usize>) -> bool {
    &&& forall|a: int|
        0 <= a < out.len() ==> (#[trigger] out[a]) < list.len() && comparable(
            list[out[a] as int].1.dtype,
            list[out[a] as int].1.dims@,
        )
    &&& forall|a: int, b: int|
        0 <= a < b < out.len() ==> !text_before(
            list[(#[trigger] out[b]) as int].0@,
            list[(#[trigger] out[a]) as int].0@,
        )
    &&& out.no_duplicates()
}

/// How many of the first `n` tensors are comparable.
pub open spec fn comparable_count(list: Seq<(String, Entry)>, n: int) -> int
    decreases n,
{
    if n <= 0 {
        0
    } else if comparable(list[n - 1].1.dtype, list[n - 1].1.dims@) {
        comparable_count(list, n - 1) + 1
    } else {
        comparable_count(list, n - 1)
    }
}

fn insert_by_name(list: &Vec<(String, Entry)>, out: &mut Vec<usize>, at: usize)
    requires
        in_name_order(list@, old(out)@),
        at < list@.len(),
        comparable(list@[at as int].1.dtype, list@[at as int].1.dims@),
        forall|a: int| 0 <= a < old(out)@.len() ==> #[trigger] old(out)@[a] < at,
    ensures
        in_name_order(list@, final(out)@),
        final(out)@.len() == old(out)@.len() + 1,
        forall|j: usize| #[trigger] final(out)@.contains(j) <==> old(out)@.contains(j) || j == at,
{
    let ghost was = out@;
    let ghost name = list@[at as int].0@;
    let n: usize = out.len();
    let mut k: usize = 0;
    while k < n && !stands_before(list[at].0.as_str(), list[out[k]].0.as_str())
        invariant
            out@ == was,
            in_name_order(list@, was),
            k <= n == was.len(),
            at < list@.len(),
            name == list@[at as int].0@,
            forall|a: int|
                0 <= a < k ==> !text_before(name, list@[(#[trigger] was[a]) as int].0@),
        decreases n - k,
    {
        k += 1;
    }
    out.insert(k, at);
    proof {
        assert forall|a: int, b: int| 0 <= a < b < out@.len() implies !text_before(
            list@[(#[trigger] out@[b]) as int].0@,
            list@[(#[trigger] out@[a]) as int].0@,
        ) by {
            if a == k {
                let later = list@[was[b - 1] as int].0@;
                let first = list@[was[k as int] as int].0@;
                assert(out@[b] == was[b - 1]);
                if text_before(later, name) {
                    if b - 1 == k {
                        lemma_before_once(name, first);
                    } else {
                        lemma_before_trans(later, name, first);
                    }
                }
            }
        }
        assert forall|a: int, b: int| 0 <= a < b < out@.len() implies out@[a] != out@[b] by {}
        assert forall|j: usize| #[trigger] out@.contains(j) <==> was.contains(j) || j == at by {
            if out@.contains(j) {
                let a = choose|a: int| 0 <= a < out@.len() && out@[a] == j;
                if a < k {
                    assert(was[a] == j);
                } else if a > k {
                    assert(was[a - 1] == j);
                }
            }
            if was.contains(j) {
                let a = choose|a: int| 0 <= a < was.len() && was[a] == j;
                if a < k {
                    assert(out@[a] == j);
                } else {
                    assert(out@[a + 1] == j);
                }
            }
            assert(out@[k as int] == at);
        }
    }
}

/// The first tensors, in the order of their names, on which quantizations are compared:
/// at most `n`.
pub fn comparable_tensors(list: &Vec<(String, Entry)>, n: usize) -> (out: Vec<usize>)
    ensures
        in_name_order(list@, out@),
        ({
            let all = comparable_count(list@, list@.len() as int);
            out@.len() == if n < all {
                n as int
            } else {
                all
            }
        }),
        forall|j: usize, a: int|
            j < list@.len() && comparable(list@[j as int].1.dtype, list@[j as int].1.dims@)
                && !out@.contains(j) && 0 <= a < out@.len() ==> !#[trigger] text_before(
                list@[j as int].0@,
                list@[out@[a] as int].0@,
            ),
{
    let mut out: Vec<usize> = Vec::new();
    for i in 0..list.len()
        invariant
            in_name_order(list@, out@),
            out@.len() == comparable_count(list@, i as int),
            forall|a: int| 0 <= a < out@.len() ==> #[trigger] out@[a] < i,
            forall|j: usize|
                j < i && comparable(list@[j as int].1.dtype, list@[j as int].1.dims@)
                    ==> #[trigger] out@.contains(j),
    {
        let e: &Entry = &list[i].1;
        if e.dtype == DTYPE_F32 && e.dims.len() == 2 && e.dims[1] % 32 == 0 {
            let (r, c): (u32, u32) = (e.dims[0], e.dims[1]);
            proof {
                assert(r * c <= 0xffff_ffff * 0xffff_ffff) by (nonlinear_arith)
                    requires
                        r <= 0xffff_ffff,
                        c <= 0xffff_ffff,
                ;
            }
            if r as u64 * c as u64 >= 16384 {
                let ghost was = out@;
                insert_by_name(list, &mut out, i);
                proof {
                    assert forall|a: int| 0 <= a < out@.len() implies #[trigger] out@[a] < i + 1 by {
                        assert(out@.contains(out@[a]));
                        if was.contains(out@[a]) {
                            let b = choose|b: int| 0 <= b < was.len() && was[b] == out@[a];
                            assert(was[b] < i);
                        }
                    }
                }
            }
        }
    }
    let ghost full = out@;
    if out.len() > n {
        out.truncate(n);
    }
    proof {
        assert forall|j: usize, a: int|
            j < list@.len() && comparable(list@[j as int].1.dtype, list@[j as int].1.dims@)
                && !out@.contains(j) && 0 <= a < out@.len() implies !#[trigger] text_before(
            list@[j as int].0@,
            list@[out@[a] as int].0@,
        ) by {
            assert(full.contains(j));
            let b = choose|b: int| 0 <= b < full.len() && full[b] == j;
            if b < out@.len() {
                assert(out@[b] == j);
            }
            assert(out@[a] == full[a]);
        }
    }
    out
}

/// Names order as in a dictionary: at the first place where two differ the lower character
/// comes first, and a name comes before every longer one that it begins.
pub proof fn law_names_order_by_their_first_difference(
    common: Seq<char>,
    a: Seq<char>,
    b: Seq<char>,
)
    requires
        a.len() > 0 && b.len() > 0 ==> a[0] != b[0],
    ensures
        text_before(common + a, common + b) <==> b.len() > 0 && (a.len() == 0 || a[0] < b[0]),
    decreases common.len(),
{
    let (x, y) = (common + a, common + b);
    if common.len() > 0 {
        let rest = common.skip(1);
        assert(x.skip(1) =~= rest + a);
        assert(y.skip(1) =~= rest + b);
        assert(x[0] == common[0] && y[0] == common[0]);
        law_names_order_by_their_first_difference(rest, a, b);
    } else {
        assert(x =~= a);
        assert(y =~= b);
    }
}

} // verus!
