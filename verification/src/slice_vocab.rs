//! Vocabulary pruning: which rows of the embedding stay, and the table that maps the
//! new rows back to the ids of the full vocabulary.
//!
//! The most frequent rows stay, and every special token with them: specials hardly
//! occur in a corpus and are never ranked. Of a full vocabulary the whole reserved
//! block at its end stays.

use crate::jsontext::number_list;
use crate::jsontext::pair_list;
use crate::jsontext::pairs_view;
use crate::jsontext::push_list;
use crate::jsontext::push_pairs;
use crate::names::ends_with;
use crate::names::has_tail;
use crate::names::same_text;
use crate::numtext::first_of;
use crate::numtext::find_first;
use crate::numtext::parse_number;
use crate::numtext::parsed;
use crate::numtext::split;
use crate::numtext::split_on;
use crate::numtext::texts;
use crate::numtext::words;
use crate::numtext::words_of;
use crate::rank::ascending;
use crate::rank::is_top;
use crate::rank::top_n;
use crate::slice_plan::find_position;
use crate::slice_plan::position;
use crate::text::decimal;
use crate::text::push_decimal;
use crate::text::push_text;
use crate::text::sub_chars;
use crate::text::trim_front;
use crate::unicode::chars_of;
use crate::unicode::is_white_space;
use crate::unicode::text_of;
use vstd::prelude::*;

verus! {

/// Where the reserved block of the full vocabulary begins.
pub const NUM_BASE: usize = 163584;

/// The ids of the special tokens in the full vocabulary.
pub struct SpecialIds {
    pub bos: u32,
    pub eos: u32,
    pub open: u32,
    pub close: u32,
    pub sep: u32,
    pub end_of_msg: u32,
    pub unk: u32,
    pub pad: u32,
}

/// The id of a special token in the full vocabulary.
pub open spec fn special_id(ids: SpecialIds, name: Seq<char>) -> Option<u32> {
    if name == "bos"@ {
        Some(ids.bos)
    } else if name == "eos"@ {
        Some(ids.eos)
    } else if name == "open"@ {
        Some(ids.open)
    } else if name == "close"@ {
        Some(ids.close)
    } else if name == "sep"@ {
        Some(ids.sep)
    } else if name == "end_of_msg"@ {
        Some(ids.end_of_msg)
    } else if name == "unk"@ {
        Some(ids.unk)
    } else if name == "pad"@ {
        Some(ids.pad)
    } else {
        None
    }
}

/// The special tokens that a vocabulary table may carry, with their ids.
pub open spec fn special_table(ids: SpecialIds) -> Seq<(Seq<char>, u32)> {
    seq![
        ("bos"@, ids.bos),
        ("eos"@, ids.eos),
        ("open"@, ids.open),
        ("close"@, ids.close),
        ("sep"@, ids.sep),
        ("end_of_msg"@, ids.end_of_msg),
        ("unk"@, ids.unk),
        ("pad"@, ids.pad),
    ]
}

/// The id of a special token in the full vocabulary.
pub fn kimi_special_id(ids: &SpecialIds, name: &str) -> (id: Option<u32>)
    ensures
        id == special_id(*ids, name@),
{
    let t: Vec<char> = chars_of(name);
    let n: &[char] = t.as_slice();
    if same_text(n, "bos") {
        Some(ids.bos)
    } else if same_text(n, "eos") {
        Some(ids.eos)
    } else if same_text(n, "open") {
        Some(ids.open)
    } else if same_text(n, "close") {
        Some(ids.close)
    } else if same_text(n, "sep") {
        Some(ids.sep)
    } else if same_text(n, "end_of_msg") {
        Some(ids.end_of_msg)
    } else if same_text(n, "unk") {
        Some(ids.unk)
    } else if same_text(n, "pad") {
        Some(ids.pad)
    } else {
        None
    }
}

/// Entry `i` has the name.
pub open spec fn named_at(v: Seq<(Seq<char>, u32)>, name: Seq<char>, i: int) -> bool {
    0 <= i < v.len() && v[i].0 == name
}

/// Some entry has the name.
pub open spec fn named(v: Seq<(Seq<char>, u32)>, name: Seq<char>) -> bool {
    exists|i: int| named_at(v, name, i)
}

/// The entries with a known name.
pub open spec fn known_only(v: Seq<(Seq<char>, u32)>, ids: SpecialIds) -> Seq<(Seq<char>, u32)>
    decreases v.len(),
{
    if v.len() == 0 {
        Seq::empty()
    } else if special_id(ids, v.last().0) is Some {
        known_only(v.drop_last(), ids).push(v.last())
    } else {
        known_only(v.drop_last(), ids)
    }
}

/// Entries of a table whose names a list lacks are added to it, one after the other.
pub open spec fn completed(
    v: Seq<(Seq<char>, u32)>,
    table: Seq<(Seq<char>, u32)>,
) -> Seq<(Seq<char>, u32)>
    decreases table.len(),
{
    if table.len() == 0 {
        v
    } else {
        let w = completed(v, table.drop_last());
        if named(w, table.last().0) {
            w
        } else {
            w.push(table.last())
        }
    }
}

/// The entries whose id is below a bound.
pub open spec fn ids_below(v: Seq<(Seq<char>, u32)>, bound: int) -> Seq<(Seq<char>, u32)>
    decreases v.len(),
{
    if v.len() == 0 {
        Seq::empty()
    } else if v.last().1 < bound {
        ids_below(v.drop_last(), bound).push(v.last())
    } else {
        ids_below(v.drop_last(), bound)
    }
}

/// The special tokens of a model: those that its configuration lists, completed from
/// the full vocabulary where the model covers the reserved block, and in any case the
/// configured begin and end tokens; only ids that the model has.
pub open spec fn specials_of(
    listed: Seq<(Seq<char>, u32)>,
    ids: SpecialIds,
    vocab: int,
    bos_id: u32,
    eos_id: u32,
) -> Seq<(Seq<char>, u32)> {
    let known = known_only(listed, ids);
    let full = if vocab > 163584 {
        completed(known, special_table(ids))
    } else {
        known
    };
    ids_below(completed(full, seq![("bos"@, bos_id), ("end_of_msg"@, eos_id)]), vocab)
}

fn has_name(v: &Vec<(String, u32)>, name: &str) -> (yes: bool)
    ensures
        yes == named(pairs_view(v@), name@),
{
    let ghost all = pairs_view(v@);
    for i in 0..v.len()
        invariant
            all == pairs_view(v@),
            forall|j: int| 0 <= j < i ==> !#[trigger] named_at(all, name@, j),
    {
        let t: Vec<char> = chars_of(v[i].0.as_str());
        proof {
            assert(all[i as int].0 == v@[i as int].0@);
        }
        if same_text(t.as_slice(), name) {
            proof {
                assert(named_at(all, name@, i as int));
            }
            return true;
        }
    }
    false
}

fn copy_name(s: &str) -> (t: String)
    ensures
        t@ == s@,
{
    let chars: Vec<char> = chars_of(s);
    text_of(chars.as_slice())
}

fn add_missing(v: &mut Vec<(String, u32)>, name: &str, id: u32)
    ensures
        pairs_view(final(v)@) == if named(pairs_view(old(v)@), name@) {
            pairs_view(old(v)@)
        } else {
            pairs_view(old(v)@).push((name@, id))
        },
{
    if !has_name(v, name) {
        let ghost before = v@;
        v.push((copy_name(name), id));
        proof {
            assert(pairs_view(v@) =~= pairs_view(before).push((name@, id)));
        }
    }
}

proof fn lemma_completed_step(
    v: Seq<(Seq<char>, u32)>,
    table: Seq<(Seq<char>, u32)>,
    n: int,
)
    requires
        0 <= n < table.len(),
    ensures
        ({
            let w = completed(v, table.take(n));
            completed(v, table.take(n + 1)) == if named(w, table[n].0) {
                w
            } else {
                w.push(table[n])
            }
        }),
{
    assert(table.take(n + 1).drop_last() =~= table.take(n));
    assert(table.take(n + 1).last() == table[n]);
}

/// The special tokens of a model with their ids: `listed` are those of its
/// configuration.
pub fn known_specials(
    listed: &Vec<(String, u32)>,
    ids: &SpecialIds,
    vocab: usize,
    bos_id: u32,
    eos_id: u32,
) -> (out: Vec<(String, u32)>)
    ensures
        pairs_view(out@) == specials_of(pairs_view(listed@), *ids, vocab as int, bos_id, eos_id),
{
    let ghost all = pairs_view(listed@);
    let mut v: Vec<(String, u32)> = Vec::new();
    proof {
        assert(all.take(0) =~= Seq::<(Seq<char>, u32)>::empty());
        assert(pairs_view(v@) =~= Seq::<(Seq<char>, u32)>::empty());
    }
    for i in 0..listed.len()
        invariant
            all == pairs_view(listed@),
            pairs_view(v@) == known_only(all.take(i as int), *ids),
    {
        proof {
            assert(all.take(i + 1).drop_last() =~= all.take(i as int));
            assert(all.take(i + 1).last() == (listed@[i as int].0@, listed@[i as int].1));
        }
        if kimi_special_id(ids, listed[i].0.as_str()).is_some() {
            let ghost before = v@;
            v.push((copy_name(listed[i].0.as_str()), listed[i].1));
            proof {
                assert(pairs_view(v@) =~= pairs_view(before).push(
                    (listed@[i as int].0@, listed@[i as int].1),
                ));
            }
        }
    }
    proof {
        assert(all.take(all.len() as int) =~= all);
    }
    let ghost known = pairs_view(v@);
    if vocab > NUM_BASE {
        let ghost table = special_table(*ids);
        proof {
            assert(table.take(0) =~= Seq::<(Seq<char>, u32)>::empty());
            lemma_completed_step(known, table, 0);
            lemma_completed_step(known, table, 1);
            lemma_completed_step(known, table, 2);
            lemma_completed_step(known, table, 3);
            lemma_completed_step(known, table, 4);
            lemma_completed_step(known, table, 5);
            lemma_completed_step(known, table, 6);
            lemma_completed_step(known, table, 7);
            assert(table.take(8) =~= table);
        }
        add_missing(&mut v, "bos", ids.bos);
        add_missing(&mut v, "eos", ids.eos);
        add_missing(&mut v, "open", ids.open);
        add_missing(&mut v, "close", ids.close);
        add_missing(&mut v, "sep", ids.sep);
        add_missing(&mut v, "end_of_msg", ids.end_of_msg);
        add_missing(&mut v, "unk", ids.unk);
        add_missing(&mut v, "pad", ids.pad);
    }
    let ghost full = pairs_view(v@);
    let ghost ends = seq![("bos"@, bos_id), ("end_of_msg"@, eos_id)];
    proof {
        assert(ends.take(0) =~= Seq::<(Seq<char>, u32)>::empty());
        lemma_completed_step(full, ends, 0);
        lemma_completed_step(full, ends, 1);
        assert(ends.take(2) =~= ends);
    }
    add_missing(&mut v, "bos", bos_id);
    add_missing(&mut v, "end_of_msg", eos_id);
    let ghost whole = pairs_view(v@);
    let mut out: Vec<(String, u32)> = Vec::new();
    proof {
        assert(whole.take(0) =~= Seq::<(Seq<char>, u32)>::empty());
        assert(pairs_view(out@) =~= Seq::<(Seq<char>, u32)>::empty());
    }
    for i in 0..v.len()
        invariant
            whole == pairs_view(v@),
            pairs_view(out@) == ids_below(whole.take(i as int), vocab as int),
    {
        proof {
            assert(whole.take(i + 1).drop_last() =~= whole.take(i as int));
            assert(whole.take(i + 1).last() == (v@[i as int].0@, v@[i as int].1));
        }
        if (v[i].1 as usize) < vocab {
            let ghost before = out@;
            out.push((copy_name(v[i].0.as_str()), v[i].1));
            proof {
                assert(pairs_view(out@) =~= pairs_view(before).push(
                    (v@[i as int].0@, v@[i as int].1),
                ));
            }
        }
    }
    proof {
        assert(whole.take(whole.len() as int) =~= whole);
    }
    out
}

/// Why a frequency file is refused: the line, or the entry, that is at fault.
#[derive(Debug, Clone, Copy, PartialEq, Eq, Structural)]
pub enum FreqError {
    /// A line without an id and a count.
    BadLine(usize),
    BadId(usize),
    BadCount(usize),
    /// An id that the model does not have: the file counts another vocabulary.
    OutOfRange(usize),
}

/// What a line does to the counts: a comment begins at `#`, an empty line does nothing.
pub open spec fn line_counted(counts: Seq<u64>, line: Seq<char>, at: usize) -> Result<
    Seq<u64>,
    FreqError,
> {
    let w = words(line.take(first_of(line, '#')));
    if w.len() == 0 {
        Ok(counts)
    } else if w.len() < 2 {
        Err(FreqError::BadLine(at))
    } else {
        match (parsed(w[0], usize::MAX as nat), parsed(w[1], u64::MAX as nat)) {
            (None, _) => Err(FreqError::BadId(at)),
            (_, None) => Err(FreqError::BadCount(at)),
            (Some(id), Some(c)) => if id >= counts.len() {
                Err(FreqError::OutOfRange(at))
            } else {
                Ok(counts.update(id as int, c as u64))
            },
        }
    }
}

/// What the first `n` lines count.
pub open spec fn lines_counted(lines: Seq<Seq<char>>, vocab: nat, n: int) -> Result<
    Seq<u64>,
    FreqError,
>
    decreases n,
{
    if n <= 0 {
        Ok(Seq::new(vocab, |i: int| 0u64))
    } else {
        match lines_counted(lines, vocab, n - 1) {
            Err(e) => Err(e),
            Ok(counts) => line_counted(counts, lines[n - 1], (n - 1) as usize),
        }
    }
}

/// The counts that a frequency text gives to the ids of a vocabulary.
pub open spec fn counts_in(t: Seq<char>, vocab: nat) -> Result<Seq<u64>, FreqError> {
    let lines = split(t, '\n');
    lines_counted(lines, vocab, lines.len() as int)
}

proof fn lemma_first_bad_line(lines: Seq<Seq<char>>, vocab: nat, i: int, n: int)
    requires
        0 <= i <= n,
        lines_counted(lines, vocab, i) is Err,
    ensures
        lines_counted(lines, vocab, n) == lines_counted(lines, vocab, i),
    decreases n,
{
    if i < n {
        lemma_first_bad_line(lines, vocab, i, n - 1);
    }
}

proof fn lemma_counts_len(lines: Seq<Seq<char>>, vocab: nat, n: int)
    ensures
        lines_counted(lines, vocab, n) matches Ok(c) ==> c.len() == vocab,
    decreases n,
{
    if n > 0 {
        lemma_counts_len(lines, vocab, n - 1);
    }
}

/// Whether a frequency file is a JSON object: behind its white space it begins with a brace.
pub open spec fn is_object(text: Seq<char>) -> bool {
    trim_front(text).len() > 0 && trim_front(text)[0] == '{'
}

/// Whether a frequency file is a JSON object.
pub fn holds_object(text: &str) -> (yes: bool)
    ensures
        yes == is_object(text@),
{
    let t: Vec<char> = chars_of(text);
    let n: usize = t.len();
    let mut i: usize = 0;
    proof {
        assert(t@.skip(0) =~= t@);
    }
    while i < n && is_white_space(t[i])
        invariant
            i <= n == t@.len(),
            trim_front(t@) == trim_front(t@.skip(i as int)),
        decreases n - i,
    {
        proof {
            assert(t@.skip(i as int).skip(1) =~= t@.skip(i + 1));
        }
        i += 1;
    }
    i < n && t[i] == '{'
}

/// Reads a frequency file of lines `<id> <count>`: the count of every id, 0 where none
/// is given.
pub fn parse_freqfile(text: &str, vocab: usize) -> (r: Result<Vec<u64>, FreqError>)
    ensures
        match r {
            Ok(v) => counts_in(text@, vocab as nat) == Ok::<Seq<u64>, FreqError>(v@) && v@.len()
                == vocab,
            Err(e) => counts_in(text@, vocab as nat) == Err::<Seq<u64>, FreqError>(e),
        },
{
    let t: Vec<char> = chars_of(text);
    let pieces: Vec<Vec<char>> = split_on(t.as_slice(), '\n');
    let ghost lines = texts(pieces@);
    let mut counts: Vec<u64> = crate::cache::filled(0u64, vocab);
    proof {
        assert(counts@ =~= Seq::new(vocab as nat, |i: int| 0u64));
    }
    for i in 0..pieces.len()
        invariant
            lines == texts(pieces@),
            lines == split(text@, '\n'),
            counts@.len() == vocab,
            lines_counted(lines, vocab as nat, i as int) == Ok::<Seq<u64>, FreqError>(counts@),
    {
        proof {
            assert(lines[i as int] == pieces@[i as int]@);
            lemma_counts_len(lines, vocab as nat, i + 1);
            if lines_counted(lines, vocab as nat, i + 1) is Err {
                lemma_first_bad_line(lines, vocab as nat, i + 1, lines.len() as int);
            }
        }
        let hash: usize = find_first(pieces[i].as_slice(), '#');
        let front: Vec<char> = sub_chars(pieces[i].as_slice(), 0, hash);
        proof {
            assert(front@ =~= pieces@[i as int]@.take(hash as int));
        }
        let w: Vec<Vec<char>> = words_of(front.as_slice());
        let ghost ws = texts(w@);
        proof {
            assert(forall|k: int| 0 <= k < w@.len() ==> #[trigger] ws[k] == w@[k]@);
        }
        if w.len() > 0 {
            if w.len() < 2 {
                return Err(FreqError::BadLine(i));
            }
            let id: u64 = match parse_number(w[0].as_slice(), usize::MAX as u64) {
                Some(n) => n,
                None => {
                    return Err(FreqError::BadId(i));
                },
            };
            let c: u64 = match parse_number(w[1].as_slice(), u64::MAX) {
                Some(n) => n,
                None => {
                    return Err(FreqError::BadCount(i));
                },
            };
            if id >= vocab as u64 {
                return Err(FreqError::OutOfRange(i));
            }
            counts.set(id as usize, c);
        }
    }
    Ok(counts)
}

/// What an entry of a frequency object does to the counts.
pub open spec fn pairs_counted(pairs: Seq<(Seq<char>, u64)>, vocab: nat, n: int) -> Result<
    Seq<u64>,
    FreqError,
>
    decreases n,
{
    if n <= 0 {
        Ok(Seq::new(vocab, |i: int| 0u64))
    } else {
        match pairs_counted(pairs, vocab, n - 1) {
            Err(e) => Err(e),
            Ok(counts) => match parsed(pairs[n - 1].0, usize::MAX as nat) {
                None => Err(FreqError::BadId((n - 1) as usize)),
                Some(id) => if id >= vocab {
                    Err(FreqError::OutOfRange((n - 1) as usize))
                } else {
                    Ok(counts.update(id as int, pairs[n - 1].1))
                },
            },
        }
    }
}

/// The views of key-count pairs.
pub open spec fn counts_view(v: Seq<(String, u64)>) -> Seq<(Seq<char>, u64)> {
    Seq::new(v.len(), |i: int| (v[i].0@, v[i].1))
}

proof fn lemma_first_bad_pair(pairs: Seq<(Seq<char>, u64)>, vocab: nat, i: int, n: int)
    requires
        0 <= i <= n,
        pairs_counted(pairs, vocab, i) is Err,
    ensures
        pairs_counted(pairs, vocab, n) == pairs_counted(pairs, vocab, i),
    decreases n,
{
    if i < n {
        lemma_first_bad_pair(pairs, vocab, i, n - 1);
    }
}

/// Reads the entries of a frequency object whose keys are ids.
pub fn freq_of_pairs(pairs: &Vec<(String, u64)>, vocab: usize) -> (r: Result<Vec<u64>, FreqError>)
    ensures
        match r {
            Ok(v) => pairs_counted(counts_view(pairs@), vocab as nat, pairs@.len() as int) == Ok::<
                Seq<u64>,
                FreqError,
            >(v@) && v@.len() == vocab,
            Err(e) => pairs_counted(counts_view(pairs@), vocab as nat, pairs@.len() as int)
                == Err::<Seq<u64>, FreqError>(e),
        },
{
    let ghost all = counts_view(pairs@);
    let mut counts: Vec<u64> = crate::cache::filled(0u64, vocab);
    proof {
        assert(counts@ =~= Seq::new(vocab as nat, |i: int| 0u64));
    }
    for i in 0..pairs.len()
        invariant
            all == counts_view(pairs@),
            counts@.len() == vocab,
            pairs_counted(all, vocab as nat, i as int) == Ok::<Seq<u64>, FreqError>(counts@),
    {
        proof {
            assert(all[i as int] == (pairs@[i as int].0@, pairs@[i as int].1));
            if pairs_counted(all, vocab as nat, i + 1) is Err {
                lemma_first_bad_pair(all, vocab as nat, i + 1, all.len() as int);
            }
        }
        let key: Vec<char> = chars_of(pairs[i].0.as_str());
        let id: u64 = match parse_number(key.as_slice(), usize::MAX as u64) {
            Some(n) => n,
            None => {
                return Err(FreqError::BadId(i));
            },
        };
        if id >= vocab as u64 {
            return Err(FreqError::OutOfRange(i));
        }
        counts.set(id as usize, pairs[i].1);
    }
    Ok(counts)
}

/// Some special token has the id.
pub open spec fn special_row(specials: Seq<(Seq<char>, u32)>, row: int) -> bool {
    exists|i: int| 0 <= i < specials.len() && (#[trigger] specials[i]).1 == row
}

/// A row that stays: one of the most frequent, a special token, or reserved.
pub open spec fn row_stays(
    top: Seq<usize>,
    specials: Seq<(Seq<char>, u32)>,
    vocab: int,
    row: usize,
) -> bool {
    row < vocab && (top.contains(row) || special_row(specials, row as int) || 163584 <= row)
}

/// `keep` holds the rows that stay, in ascending order.
pub open spec fn rows_kept(
    counts: Seq<u64>,
    n_top: int,
    specials: Seq<(Seq<char>, u32)>,
    keep: Seq<usize>,
) -> bool {
    exists|top: Seq<usize>|
        #![trigger is_top(counts, n_top, top)]
        is_top(counts, n_top, top) && ascending(keep) && forall|row: usize|
            #[trigger] keep.contains(row) <==> row_stays(top, specials, counts.len() as int, row)
}

fn keep_rows(counts: &Vec<u64>, n_top: usize, specials: &Vec<(String, u32)>) -> (keep: Vec<usize>)
    requires
        forall|i: int| 0 <= i < specials@.len() ==> (#[trigger] specials@[i]).1 < counts@.len(),
    ensures
        rows_kept(counts@, n_top as int, pairs_view(specials@), keep@),
        forall|i: int| 0 <= i < keep@.len() ==> (#[trigger] keep@[i]) < counts@.len(),
        forall|i: int|
            0 <= i < specials@.len() ==> keep@.contains((#[trigger] specials@[i]).1 as usize),
{
    let vocab: usize = counts.len();
    let ghost sp = pairs_view(specials@);
    let top: Vec<usize> = top_n(counts.as_slice(), n_top);
    let mut marks: Vec<bool> = crate::cache::filled(false, vocab);
    for i in 0..top.len()
        invariant
            vocab == counts@.len(),
            is_top(counts@, n_top as int, top@),
            marks@.len() == vocab,
            forall|x: int|
                0 <= x < vocab ==> (#[trigger] marks@[x] <==> top@.take(i as int).contains(
                    x as usize,
                )),
    {
        proof {
            assert(top@[i as int] < vocab);
        }
        let ghost before = marks@;
        marks.set(top[i], true);
        proof {
            assert forall|x: int| 0 <= x < vocab implies (#[trigger] marks@[x] <==> top@.take(
                i + 1,
            ).contains(x as usize)) by {
                lemma_take_contains(top@, i as int, x as usize);
                assert(before[x] <==> top@.take(i as int).contains(x as usize));
            }
        }
    }
    proof {
        assert(top@.take(top@.len() as int) =~= top@);
    }
    for i in 0..specials.len()
        invariant
            vocab == counts@.len(),
            sp == pairs_view(specials@),
            marks@.len() == vocab,
            forall|k: int| 0 <= k < specials@.len() ==> (#[trigger] specials@[k]).1 < vocab,
            forall|x: int|
                0 <= x < vocab ==> (#[trigger] marks@[x] <==> top@.contains(x as usize)
                    || special_row(sp.take(i as int), x)),
    {
        proof {
            assert(specials@[i as int].1 < vocab);
        }
        let ghost before = marks@;
        let id: usize = specials[i].1 as usize;
        marks.set(id, true);
        proof {
            assert forall|x: int| 0 <= x < vocab implies (#[trigger] marks@[x] <==> top@.contains(
                x as usize,
            ) || special_row(sp.take(i + 1), x)) by {
                assert(before[x] <==> top@.contains(x as usize) || special_row(
                    sp.take(i as int),
                    x,
                ));
                let more = sp.take(i + 1);
                assert(more[i as int].1 == id);
                if special_row(sp.take(i as int), x) {
                    let k = choose|k: int|
                        0 <= k < sp.take(i as int).len() && (#[trigger] sp.take(i as int)[k]).1
                            == x;
                    assert(more[k].1 == x);
                }
                if special_row(more, x) {
                    let k = choose|k: int| 0 <= k < more.len() && (#[trigger] more[k]).1 == x;
                    if k < i {
                        assert(sp.take(i as int)[k].1 == x);
                    }
                }
            }
        }
    }
    proof {
        assert(sp.take(sp.len() as int) =~= sp);
    }
    let mut keep: Vec<usize> = Vec::new();
    for row in 0..vocab
        invariant
            vocab == counts@.len(),
            marks@.len() == vocab,
            forall|x: int|
                0 <= x < vocab ==> (#[trigger] marks@[x] <==> top@.contains(x as usize)
                    || special_row(sp, x)),
            ascending(keep@),
            forall|i: int| 0 <= i < keep@.len() ==> (#[trigger] keep@[i]) < row,
            forall|x: usize|
                #[trigger] keep@.contains(x) <==> x < row && row_stays(top@, sp, vocab as int, x),
    {
        let ghost before = keep@;
        let stays: bool = marks[row] || row >= NUM_BASE;
        if stays {
            keep.push(row);
        }
        proof {
            assert(marks@[row as int] <==> top@.contains(row) || special_row(sp, row as int));
            assert(stays == row_stays(top@, sp, vocab as int, row));
            assert forall|x: usize| #[trigger] keep@.contains(x) <==> x < row + 1 && row_stays(
                top@,
                sp,
                vocab as int,
                x,
            ) by {
                assert(before.contains(x) <==> x < row && row_stays(top@, sp, vocab as int, x));
                if stays {
                    assert(keep@ == before.push(row));
                    assert(keep@[keep@.len() - 1] == row);
                    if keep@.contains(x) {
                        let k = choose|k: int| 0 <= k < keep@.len() && keep@[k] == x;
                        if k < before.len() {
                            assert(before[k] == x);
                        }
                    }
                    if before.contains(x) {
                        let k = choose|k: int| 0 <= k < before.len() && before[k] == x;
                        assert(keep@[k] == x);
                    }
                }
            }
        }
    }
    proof {
        assert forall|i: int| 0 <= i < specials@.len() implies keep@.contains(
            (#[trigger] specials@[i]).1 as usize,
        ) by {
            assert(sp[i].1 == specials@[i].1);
            assert(special_row(sp, specials@[i].1 as int));
        }
        assert forall|row: usize| #[trigger] keep@.contains(row) <==> row_stays(
            top@,
            sp,
            counts@.len() as int,
            row,
        ) by {}
        assert(is_top(counts@, n_top as int, top@));
    }
    keep
}

proof fn lemma_take_contains(s: Seq<usize>, i: int, x: usize)
    requires
        0 <= i < s.len(),
    ensures
        s.take(i + 1).contains(x) <==> s.take(i).contains(x) || s[i] == x,
{
    let a = s.take(i);
    let b = s.take(i + 1);
    if b.contains(x) {
        let k = choose|k: int| 0 <= k < b.len() && b[k] == x;
        if k < i {
            assert(a[k] == x);
        }
    }
    if a.contains(x) {
        let k = choose|k: int| 0 <= k < a.len() && a[k] == x;
        assert(b[k] == x);
    }
    if s[i] == x {
        assert(b[i] == x);
    }
}

/// Only ids below the bound are left.
pub proof fn lemma_ids_below(v: Seq<(Seq<char>, u32)>, bound: int)
    ensures
        forall|i: int| 0 <= i < ids_below(v, bound).len() ==> (#[trigger] ids_below(v, bound)[i]).1
            < bound,
    decreases v.len(),
{
    if v.len() > 0 {
        lemma_ids_below(v.drop_last(), bound);
        let front = ids_below(v.drop_last(), bound);
        let out = ids_below(v, bound);
        assert forall|i: int| 0 <= i < out.len() implies (#[trigger] out[i]).1 < bound by {
            if i < front.len() {
                assert(out[i] == front[i]);
            }
        }
    }
}

/// The names without which a vocabulary table cannot be loaded.
pub open spec fn required_names() -> Seq<Seq<char>> {
    seq!["bos"@, "eos"@, "open"@, "close"@, "sep"@, "end_of_msg"@, "unk"@]
}

/// Every required name is among the special tokens.
pub open spec fn loadable(specials: Seq<(Seq<char>, u32)>) -> bool {
    forall|i: int| 0 <= i < 7 ==> named(specials, #[trigger] required_names()[i])
}

fn has_required(v: &Vec<(String, u32)>) -> (yes: bool)
    ensures
        yes == loadable(pairs_view(v@)),
{
    let yes: bool = has_name(v, "bos") && has_name(v, "eos") && has_name(v, "open") && has_name(
        v,
        "close",
    ) && has_name(v, "sep") && has_name(v, "end_of_msg") && has_name(v, "unk");
    proof {
        let r = required_names();
        let sp = pairs_view(v@);
        assert(r[0] == "bos"@ && r[1] == "eos"@ && r[2] == "open"@ && r[3] == "close"@ && r[4]
            == "sep"@ && r[5] == "end_of_msg"@ && r[6] == "unk"@);
        if yes {
            assert forall|i: int| 0 <= i < 7 implies named(sp, #[trigger] r[i]) by {
                assert(i == 0 || i == 1 || i == 2 || i == 3 || i == 4 || i == 5 || i == 6);
            }
        }
        if loadable(sp) {
            assert(named(sp, r[0]) && named(sp, r[1]) && named(sp, r[2]) && named(sp, r[3])
                && named(sp, r[4]) && named(sp, r[5]) && named(sp, r[6]));
        }
    }
    yes
}

/// The special tokens at their new ids: their places among the kept rows.
pub open spec fn new_ids(specials: Seq<(Seq<char>, u32)>, keep: Seq<usize>) -> Seq<
    (Seq<char>, u32),
> {
    Seq::new(
        specials.len(),
        |i: int| (specials[i].0, position(keep, specials[i].1 as nat)->Some_0 as u32),
    )
}

/// The first special token with the id.
pub open spec fn special_at(specials: Seq<(Seq<char>, u32)>, row: int, i: int) -> Option<
    Seq<char>,
>
    decreases specials.len() - i,
{
    if i >= specials.len() {
        None
    } else if specials[i].1 == row {
        Some(specials[i].0)
    } else {
        special_at(specials, row, i + 1)
    }
}

/// The id of a row in the full vocabulary: the row itself, or what the table of a
/// vocabulary that is already mapped says; a row behind the table is a special token.
pub open spec fn full_id(
    base: Option<Seq<u32>>,
    specials: Seq<(Seq<char>, u32)>,
    ids: SpecialIds,
    row: usize,
) -> u32 {
    match base {
        None => row as u32,
        Some(m) => if row < m.len() {
            m[row as int]
        } else {
            match special_at(specials, row as int, 0) {
                Some(name) => match special_id(ids, name) {
                    Some(id) => id,
                    None => ids.unk,
                },
                None => ids.unk,
            }
        },
    }
}

/// The ids of rows in the full vocabulary.
pub open spec fn full_ids(
    base: Option<Seq<u32>>,
    specials: Seq<(Seq<char>, u32)>,
    ids: SpecialIds,
    keep: Seq<usize>,
) -> Seq<u64> {
    Seq::new(keep.len(), |i: int| full_id(base, specials, ids, keep[i]) as u64)
}

/// The view of an optional table.
pub open spec fn table_view(base: Option<&Vec<u32>>) -> Option<Seq<u32>> {
    match base {
        Some(m) => Some(m@),
        None => None,
    }
}

fn find_full_id(
    base: Option<&Vec<u32>>,
    specials: &Vec<(String, u32)>,
    ids: &SpecialIds,
    row: usize,
) -> (id: u32)
    requires
        row <= u32::MAX,
    ensures
        id == full_id(table_view(base), pairs_view(specials@), *ids, row),
{
    match base {
        None => row as u32,
        Some(m) => {
            if row < m.len() {
                return m[row];
            }
            let ghost sp = pairs_view(specials@);
            let n: usize = specials.len();
            let mut i: usize = 0;
            while i < n
                invariant
                    i <= n == specials@.len(),
                    sp == pairs_view(specials@),
                    base == Some(m),
                    row >= m@.len(),
                    special_at(sp, row as int, 0) == special_at(sp, row as int, i as int),
                decreases n - i,
            {
                proof {
                    assert(sp[i as int] == (specials@[i as int].0@, specials@[i as int].1));
                }
                if specials[i].1 as usize == row {
                    return match kimi_special_id(ids, specials[i].0.as_str()) {
                        Some(id) => id,
                        None => ids.unk,
                    };
                }
                i += 1;
            }
            ids.unk
        },
    }
}

/// The table that a runtime loads next to the checkpoint.
pub open spec fn remap_text(
    source_vocab: nat,
    rows: nat,
    full: Seq<u64>,
    specials: Seq<(Seq<char>, u32)>,
    ids: SpecialIds,
) -> Seq<char> {
    "{\n \"format\": \"microkimi-vocab-remap-1\",\n \"source_vocab\": "@ + decimal(source_vocab)
        + ",\n \"vocab_size\": "@ + decimal(rows) + ",\n \"nano_to_kimi\": ["@ + number_list(full)
        + "],\n \"specials\": {"@ + pair_list(specials) + "},\n \"kimi_special_ids\": {\"open\": "@
        + decimal(ids.open as nat) + ", \"close\": "@ + decimal(ids.close as nat) + ", \"sep\": "@
        + decimal(ids.sep as nat) + ", \"end_of_msg\": "@ + decimal(ids.end_of_msg as nat)
        + "}\n}\n"@
}

/// Where the table goes: next to the checkpoint, under its stem.
pub open spec fn remap_name(out: Seq<char>) -> Seq<char> {
    (if ends_with(out, ".bin"@) {
        out.take(out.len() - ".bin"@.len())
    } else {
        out
    }) + ".vocab.json"@
}

/// The kept rows of a vocabulary and the table that goes with them.
pub struct VocabPlan {
    /// The kept rows, in ascending order.
    pub keep: Vec<usize>,
    /// The special tokens at their new ids.
    pub specials_new: Vec<(String, u32)>,
    pub remap_path: String,
    pub remap_json: String,
}

fn new_specials(specials: &Vec<(String, u32)>, keep: &Vec<usize>) -> (out: Vec<(String, u32)>)
    requires
        keep@.len() <= u32::MAX,
        forall|i: int|
            0 <= i < specials@.len() ==> keep@.contains((#[trigger] specials@[i]).1 as usize),
    ensures
        pairs_view(out@) == new_ids(pairs_view(specials@), keep@),
{
    let mut out: Vec<(String, u32)> = Vec::new();
    for i in 0..specials.len()
        invariant
            keep@.len() <= u32::MAX,
            forall|k: int|
                0 <= k < specials@.len() ==> keep@.contains((#[trigger] specials@[k]).1 as usize),
            out@.len() == i,
            forall|k: int|
                0 <= k < i ==> pairs_view(out@)[k] == #[trigger] new_ids(
                    pairs_view(specials@),
                    keep@,
                )[k],
    {
        proof {
            assert(keep@.contains(specials@[i as int].1 as usize));
        }
        let id: usize = specials[i].1 as usize;
        let at: usize = match find_position(keep.as_slice(), id) {
            Some(p) => p,
            None => 0,
        };
        let ghost before = pairs_view(out@);
        out.push((copy_name(specials[i].0.as_str()), at as u32));
        proof {
            assert forall|k: int| 0 <= k < i + 1 implies pairs_view(out@)[k] == #[trigger] new_ids(
                pairs_view(specials@),
                keep@,
            )[k] by {
                if k < i {
                    assert(pairs_view(out@)[k] == before[k]);
                }
            }
        }
    }
    proof {
        assert(pairs_view(out@) =~= new_ids(pairs_view(specials@), keep@));
    }
    out
}

fn join_remap(
    source_vocab: usize,
    full: &Vec<u64>,
    specials: &Vec<(String, u32)>,
    ids: &SpecialIds,
) -> (text: String)
    ensures
        text@ == remap_text(
            source_vocab as nat,
            full@.len(),
            full@,
            pairs_view(specials@),
            *ids,
        ),
{
    let mut out: String = String::new();
    push_text(
        &mut out,
        "{\n \"format\": \"microkimi-vocab-remap-1\",\n \"source_vocab\": ",
    );
    push_decimal(&mut out, source_vocab as u64);
    push_text(&mut out, ",\n \"vocab_size\": ");
    push_decimal(&mut out, full.len() as u64);
    push_text(&mut out, ",\n \"nano_to_kimi\": [");
    push_list(&mut out, full.as_slice());
    push_text(&mut out, "],\n \"specials\": {");
    push_pairs(&mut out, specials);
    push_text(&mut out, "},\n \"kimi_special_ids\": {\"open\": ");
    push_decimal(&mut out, ids.open as u64);
    push_text(&mut out, ", \"close\": ");
    push_decimal(&mut out, ids.close as u64);
    push_text(&mut out, ", \"sep\": ");
    push_decimal(&mut out, ids.sep as u64);
    push_text(&mut out, ", \"end_of_msg\": ");
    push_decimal(&mut out, ids.end_of_msg as u64);
    push_text(&mut out, "}\n}\n");
    proof {
        assert(out@ =~= remap_text(
            source_vocab as nat,
            full@.len(),
            full@,
            pairs_view(specials@),
            *ids,
        ));
    }
    out
}

fn join_path(out_path: &str) -> (path: String)
    ensures
        path@ == remap_name(out_path@),
{
    let t: Vec<char> = chars_of(out_path);
    let mut path: String = if has_tail(t.as_slice(), ".bin") {
        let suffix: Vec<char> = chars_of(".bin");
        let stem: Vec<char> = sub_chars(t.as_slice(), 0, t.len() - suffix.len());
        proof {
            assert(stem@ =~= out_path@.take(out_path@.len() - ".bin"@.len()));
        }
        text_of(stem.as_slice())
    } else {
        text_of(t.as_slice())
    };
    push_text(&mut path, ".vocab.json");
    path
}

/// Selects the vocabulary: the `n_top` rows with the highest counts, every special
/// token and the reserved block. Nothing where a special token is missing that a
/// runtime cannot do without.
pub fn build_vocab_plan(
    out: &str,
    counts: &Vec<u64>,
    n_top: usize,
    specials: &Vec<(String, u32)>,
    ids: &SpecialIds,
    base: Option<&Vec<u32>>,
) -> (plan: Option<VocabPlan>)
    requires
        counts@.len() <= u32::MAX,
        forall|i: int| 0 <= i < specials@.len() ==> (#[trigger] specials@[i]).1 < counts@.len(),
    ensures
        match plan {
            None => !loadable(pairs_view(specials@)),
            Some(p) => {
                &&& loadable(pairs_view(specials@))
                &&& rows_kept(counts@, n_top as int, pairs_view(specials@), p.keep@)
                &&& pairs_view(p.specials_new@) == new_ids(pairs_view(specials@), p.keep@)
                &&& p.remap_path@ == remap_name(out@)
                &&& p.remap_json@ == remap_text(
                    counts@.len(),
                    p.keep@.len(),
                    full_ids(table_view(base), pairs_view(specials@), *ids, p.keep@),
                    new_ids(pairs_view(specials@), p.keep@),
                    *ids,
                )
            },
        },
{
    if !has_required(specials) {
        return None;
    }
    let keep: Vec<usize> = keep_rows(counts, n_top, specials);
    proof {
        assert(ascending(keep@));
        lemma_ascending_len(keep@, counts@.len() as int);
    }
    let specials_new: Vec<(String, u32)> = new_specials(specials, &keep);
    let ghost full_want = full_ids(table_view(base), pairs_view(specials@), *ids, keep@);
    let mut full: Vec<u64> = Vec::new();
    for i in 0..keep.len()
        invariant
            counts@.len() <= u32::MAX,
            forall|k: int| 0 <= k < keep@.len() ==> (#[trigger] keep@[k]) < counts@.len(),
            full_want == full_ids(table_view(base), pairs_view(specials@), *ids, keep@),
            full@ == full_want.take(i as int),
    {
        proof {
            assert(keep@[i as int] < counts@.len());
        }
        full.push(find_full_id(base, specials, ids, keep[i]) as u64);
        proof {
            assert(full_want.take(i + 1) =~= full_want.take(i as int).push(full_want[i as int]));
        }
    }
    proof {
        assert(full_want.take(full_want.len() as int) =~= full_want);
    }
    let remap_json: String = join_remap(counts.len(), &full, &specials_new, ids);
    let remap_path: String = join_path(out);
    Some(VocabPlan { keep, specials_new, remap_path, remap_json })
}

proof fn lemma_ascending_len(s: Seq<usize>, bound: int)
    requires
        ascending(s),
        forall|i: int| 0 <= i < s.len() ==> (#[trigger] s[i]) < bound,
        bound >= 0,
    ensures
        s.len() <= bound,
    decreases s.len(),
{
    if s.len() > 0 {
        let t = s.drop_last();
        let last = s[s.len() - 1] as int;
        assert forall|i: int| 0 <= i < t.len() implies (#[trigger] t[i]) < last by {
            assert(s[i] < s[s.len() - 1]);
        }
        assert(ascending(t)) by {
            assert forall|p: int, q: int| 0 <= p < q < t.len() implies #[trigger] t[p]
                < #[trigger] t[q] by {
                assert(s[p] < s[q]);
            }
        }
        lemma_ascending_len(t, last);
    }
}

/// No special token is dropped: each is among the kept rows, and its new id is the
/// place of its row.
pub proof fn law_specials_survive(
    counts: Seq<u64>,
    n_top: int,
    specials: Seq<(Seq<char>, u32)>,
    keep: Seq<usize>,
    i: int,
)
    requires
        rows_kept(counts, n_top, specials, keep),
        counts.len() <= u32::MAX,
        0 <= i < specials.len(),
        specials[i].1 < counts.len(),
    ensures
        new_ids(specials, keep)[i].0 == specials[i].0,
        new_ids(specials, keep)[i].1 < keep.len(),
        keep[new_ids(specials, keep)[i].1 as int] == specials[i].1,
{
    let top = choose|top: Seq<usize>|
        #![trigger is_top(counts, n_top, top)]
        is_top(counts, n_top, top) && ascending(keep) && forall|row: usize|
            #[trigger] keep.contains(row) <==> row_stays(top, specials, counts.len() as int, row);
    let row = specials[i].1 as usize;
    assert(special_row(specials, row as int));
    assert(row_stays(top, specials, counts.len() as int, row));
    assert(keep.contains(row));
    assert forall|k: int| 0 <= k < keep.len() implies (#[trigger] keep[k]) < counts.len() by {
        assert(keep.contains(keep[k]));
    }
    lemma_ascending_len(keep, counts.len() as int);
    lemma_found(keep, row, 0);
    crate::slice_plan::lemma_position(keep, row as nat, 0);
}

proof fn lemma_found(s: Seq<usize>, x: usize, i: int)
    requires
        0 <= i,
        exists|k: int| i <= k < s.len() && s[k] == x,
    ensures
        crate::slice_plan::position_from(s, x as nat, i) is Some,
    decreases s.len() - i,
{
    if i < s.len() && s[i] != x {
        let k = choose|k: int| i <= k < s.len() && s[k] == x;
        assert(i + 1 <= k);
        lemma_found(s, x, i + 1);
    }
}

/// Why no table maps a vocabulary back.
#[derive(Debug, Clone, Copy, PartialEq, Eq, Structural)]
pub enum BaseError {
    /// The given table is not one of this vocabulary.
    Mismatch,
    /// A vocabulary that is already mapped needs its table.
    Needed,
}

/// Chooses the table of a vocabulary that is already mapped: the one asked for, which
/// has to match, else one found next to the model, else none, which only a full
/// vocabulary can do without. Tables that do not match the vocabulary are passed as none.
pub fn base_vocab_map(
    asked: bool,
    given: Option<Vec<u32>>,
    near: Option<Vec<u32>>,
    vocab: usize,
) -> (r: Result<Option<Vec<u32>>, BaseError>)
    ensures
        r == if asked {
            match given {
                Some(m) => Ok::<Option<Vec<u32>>, BaseError>(Some(m)),
                None => Err(BaseError::Mismatch),
            }
        } else {
            match near {
                Some(m) => Ok(Some(m)),
                None => if vocab > 163584 {
                    Ok(None)
                } else {
                    Err(BaseError::Needed)
                },
            }
        },
{
    if asked {
        return match given {
            Some(m) => Ok(Some(m)),
            None => Err(BaseError::Mismatch),
        };
    }
    match near {
        Some(m) => Ok(Some(m)),
        None => {
            if vocab > NUM_BASE {
                Ok(None)
            } else {
                Err(BaseError::Needed)
            }
        },
    }
}

} // verus!
