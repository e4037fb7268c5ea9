//! What vocabulary pruning keeps, and how the kept rows lead back to the full vocabulary.

use crate::jsontext::number_list;
use crate::jsontext::pair_list;
use crate::names::contains_text;
use crate::names::ends_with;
use crate::numtext::first_of;
use crate::numtext::parsed;
use crate::numtext::words;
use crate::rank::ascending;
use crate::rank::is_top;
use crate::rank::lemma_ascending_distinct;
use crate::slice_vocab::completed;
use crate::slice_vocab::full_ids;
use crate::slice_vocab::ids_below;
use crate::slice_vocab::known_only;
use crate::slice_vocab::lines_counted;
use crate::slice_vocab::loadable;
use crate::slice_vocab::named;
use crate::slice_vocab::named_at;
use crate::slice_vocab::pairs_counted;
use crate::slice_vocab::remap_name;
use crate::slice_vocab::remap_text;
use crate::slice_vocab::required_names;
use crate::slice_vocab::row_stays;
use crate::slice_vocab::rows_kept;
use crate::slice_vocab::special_at;
use crate::slice_vocab::special_id;
use crate::slice_vocab::special_row;
use crate::slice_vocab::special_table;
use crate::slice_vocab::specials_of;
use crate::slice_vocab::SpecialIds;
use crate::text::decimal;
use crate::text::stands_at;
use vstd::prelude::*;

verus! {

/// The rows `from..to` as a set.
spec fn rows_between(from: int, to: int) -> Set<usize>
    decreases to - from,
{
    if from >= to {
        Set::empty()
    } else {
        rows_between(from, to - 1).insert((to - 1) as usize)
    }
}

proof fn lemma_rows_between(from: int, to: int)
    requires
        0 <= from,
        to <= u32::MAX,
    ensures
        rows_between(from, to).finite(),
        rows_between(from, to).len() <= if to > from {
            to - from
        } else {
            0
        },
        forall|x: usize| rows_between(from, to).contains(x) <==> from <= x < to,
    decreases to - from,
{
    if from < to {
        lemma_rows_between(from, to - 1);
    }
}

/// The ids of special tokens as rows.
spec fn special_rows(specials: Seq<(Seq<char>, u32)>) -> Set<usize>
    decreases specials.len(),
{
    if specials.len() == 0 {
        Set::empty()
    } else {
        special_rows(specials.drop_last()).insert(specials.last().1 as usize)
    }
}

proof fn lemma_special_rows(specials: Seq<(Seq<char>, u32)>)
    ensures
        special_rows(specials).finite(),
        special_rows(specials).len() <= specials.len(),
        forall|x: usize| special_row(specials, x as int) ==> special_rows(specials).contains(x),
    decreases specials.len(),
{
    if specials.len() > 0 {
        lemma_special_rows(specials.drop_last());
        assert forall|x: usize| special_row(specials, x as int) implies special_rows(
            specials,
        ).contains(x) by {
            let i = choose|i: int| 0 <= i < specials.len() && (#[trigger] specials[i]).1 == x;
            if i < specials.len() - 1 {
                assert(specials.drop_last()[i].1 == x);
                assert(special_row(specials.drop_last(), x as int));
            }
        }
    }
}

/// Pruning keeps every special token and the reserved block, and of the other rows the most
/// frequent: one that stays is more frequent than one that goes, or as frequent and before
/// it. It keeps no fewer than were asked for and only as many more as those two ask.
pub proof fn law_most_frequent_rows_stay(
    counts: Seq<u64>,
    n_top: int,
    specials: Seq<(Seq<char>, u32)>,
    keep: Seq<usize>,
)
    requires
        rows_kept(counts, n_top, specials, keep),
        counts.len() <= u32::MAX,
        0 <= n_top,
    ensures
        forall|a: int, b: int| 0 <= a < b < keep.len() ==> #[trigger] keep[a] < #[trigger] keep[b],
        forall|a: int| 0 <= a < keep.len() ==> (#[trigger] keep[a]) < counts.len(),
        forall|row: usize| 163584 <= row < counts.len() ==> #[trigger] keep.contains(row),
        forall|i: int|
            0 <= i < specials.len() && (#[trigger] specials[i]).1 < counts.len() ==> keep.contains(
                specials[i].1 as usize,
            ),
        forall|stays: usize, goes: usize|
            #![trigger keep.contains(stays), keep.contains(goes)]
            keep.contains(stays) && !keep.contains(goes) && goes < counts.len() && stays < 163584
                && (forall|i: int| 0 <= i < specials.len() ==> (#[trigger] specials[i]).1 != stays)
                ==> counts[stays as int] > counts[goes as int] || (counts[stays as int]
                == counts[goes as int] && stays < goes),
        n_top <= counts.len() ==> keep.len() >= n_top,
        n_top > counts.len() ==> keep.len() == counts.len(),
        keep.len() <= n_top + specials.len() + (if counts.len() > 163584 {
            counts.len() - 163584
        } else {
            0
        }),
{
    let vocab = counts.len() as int;
    let top = choose|top: Seq<usize>|
        #![trigger is_top(counts, n_top, top)]
        is_top(counts, n_top, top) && ascending(keep) && forall|row: usize|
            #[trigger] keep.contains(row) <==> row_stays(top, specials, vocab, row);
    assert forall|a: int| 0 <= a < keep.len() implies (#[trigger] keep[a]) < counts.len() by {
        assert(keep.contains(keep[a]));
    }
    assert forall|i: int|
        0 <= i < specials.len() && (#[trigger] specials[i]).1 < counts.len() implies keep.contains(
        specials[i].1 as usize,
    ) by {
        assert(special_row(specials, specials[i].1 as int));
        assert(row_stays(top, specials, vocab, specials[i].1 as usize));
    }
    assert forall|stays: usize, goes: usize|
        #![trigger keep.contains(stays), keep.contains(goes)]
        keep.contains(stays) && !keep.contains(goes) && goes < counts.len() && stays < 163584 && (
        forall|i: int| 0 <= i < specials.len() ==> (#[trigger] specials[i]).1 != stays) implies
        counts[stays as int] > counts[goes as int] || (counts[stays as int] == counts[goes as int]
        && stays < goes) by {
        assert(row_stays(top, specials, vocab, stays));
        assert(!row_stays(top, specials, vocab, goes));
        assert(top.contains(stays) && !top.contains(goes));
        let a = choose|a: int| 0 <= a < top.len() && top[a] == stays;
        assert(crate::rank::better(counts, top[a] as int, goes as int));
    }
    lemma_special_rows(specials);
    lemma_rows_between(163584, vocab);
    lemma_ascending_distinct(top);
    lemma_ascending_distinct(keep);
    let (t, k) = (top.to_set(), keep.to_set());
    top.unique_seq_to_set();
    keep.unique_seq_to_set();
    let (s, r) = (special_rows(specials), rows_between(163584, vocab));
    assert(t.subset_of(k)) by {
        assert forall|x: usize| t.contains(x) implies k.contains(x) by {
            let a = choose|a: int| 0 <= a < top.len() && top[a] == x;
            assert(top[a] < counts.len());
            assert(top.contains(x));
            assert(row_stays(top, specials, vocab, x));
            assert(keep.contains(x));
        }
    }
    vstd::set_lib::lemma_len_subset(t, k);
    assert(k.subset_of(t.union(s).union(r))) by {
        assert forall|x: usize| k.contains(x) implies t.union(s).union(r).contains(x) by {
            assert(keep.contains(x));
            assert(row_stays(top, specials, vocab, x));
        }
    }
    vstd::set_lib::lemma_len_union(t, s);
    vstd::set_lib::lemma_len_union(t.union(s), r);
    vstd::set_lib::lemma_len_subset(k, t.union(s).union(r));
    lemma_rows_between(0, vocab);
    let all = rows_between(0, vocab);
    assert(k.subset_of(all)) by {
        assert forall|x: usize| k.contains(x) implies all.contains(x) by {
            let a = choose|a: int| 0 <= a < keep.len() && keep[a] == x;
            assert(keep[a] < counts.len());
        }
    }
    vstd::set_lib::lemma_len_subset(k, all);
}

proof fn lemma_special_at(specials: Seq<(Seq<char>, u32)>, row: int, i: int, k: int)
    requires
        0 <= i <= k < specials.len(),
        specials[k].1 == row,
        forall|j: int| i <= j < k ==> (#[trigger] specials[j]).1 != row,
    ensures
        special_at(specials, row, i) == Some(specials[k].0),
    decreases k - i,
{
    if i < k {
        assert(specials[i].1 != row);
        lemma_special_at(specials, row, i + 1, k);
    }
}

proof fn lemma_special_names(ids: SpecialIds)
    ensures
        special_id(ids, "bos"@) == Some(ids.bos),
        special_id(ids, "eos"@) == Some(ids.eos),
        special_id(ids, "open"@) == Some(ids.open),
        special_id(ids, "close"@) == Some(ids.close),
        special_id(ids, "sep"@) == Some(ids.sep),
        special_id(ids, "end_of_msg"@) == Some(ids.end_of_msg),
        special_id(ids, "unk"@) == Some(ids.unk),
        special_id(ids, "pad"@) == Some(ids.pad),
{
    reveal_strlit("bos");
    reveal_strlit("eos");
    reveal_strlit("open");
    reveal_strlit("close");
    reveal_strlit("sep");
    reveal_strlit("end_of_msg");
    reveal_strlit("unk");
    reveal_strlit("pad");
    assert("bos"@[0] == 'b' && "eos"@[0] == 'e' && "sep"@[0] == 's' && "unk"@[0] == 'u'
        && "pad"@[0] == 'p');
    assert("bos"@.len() == 3 && "open"@.len() == 4 && "close"@.len() == 5 && "end_of_msg"@.len()
        == 10);
}

/// The table of a pruned vocabulary leads each kept row back to the full vocabulary: to the
/// same id where the source has the full vocabulary, and otherwise to what the source's own
/// table gives; a row behind that table is the special token that the source has there.
pub proof fn law_rows_lead_back(
    base: Option<Seq<u32>>,
    specials: Seq<(Seq<char>, u32)>,
    ids: SpecialIds,
    keep: Seq<usize>,
    i: int,
    k: int,
)
    requires
        0 <= i < keep.len(),
        keep[i] <= u32::MAX,
    ensures
        ({
            let id = full_ids(base, specials, ids, keep)[i];
            let m = base->Some_0;
            let row = keep[i];
            &&& full_ids(base, specials, ids, keep).len() == keep.len()
            &&& base is None ==> id == row
            &&& base is Some && row < m.len() ==> id == m[row as int]
            &&& base is Some && row >= m.len() && 0 <= k < specials.len() && specials[k].1 == row
                && (forall|j: int| 0 <= j < k ==> (#[trigger] specials[j]).1 != row) ==> {
                let name = specials[k].0;
                &&& name == "bos"@ ==> id == ids.bos
                &&& name == "eos"@ ==> id == ids.eos
                &&& name == "open"@ ==> id == ids.open
                &&& name == "close"@ ==> id == ids.close
                &&& name == "sep"@ ==> id == ids.sep
                &&& name == "end_of_msg"@ ==> id == ids.end_of_msg
                &&& name == "unk"@ ==> id == ids.unk
                &&& name == "pad"@ ==> id == ids.pad
            }
        }),
{
    lemma_special_names(ids);
    let row = keep[i];
    if base is Some && row >= base->Some_0.len() && 0 <= k < specials.len() && specials[k].1 == row
        && (forall|j: int| 0 <= j < k ==> (#[trigger] specials[j]).1 != row) {
        lemma_special_at(specials, row as int, 0, k);
    }
}

/// One of the eight names that a vocabulary table knows.
pub open spec fn known_name(name: Seq<char>) -> bool {
    ||| name == "bos"@
    ||| name == "eos"@
    ||| name == "open"@
    ||| name == "close"@
    ||| name == "sep"@
    ||| name == "end_of_msg"@
    ||| name == "unk"@
    ||| name == "pad"@
}

proof fn lemma_known_only(v: Seq<(Seq<char>, u32)>, ids: SpecialIds, x: (Seq<char>, u32))
    ensures
        known_only(v, ids).contains(x) <==> v.contains(x) && known_name(x.0),
    decreases v.len(),
{
    lemma_special_names(ids);
    if v.len() > 0 {
        lemma_known_only(v.drop_last(), ids, x);
        lemma_last_contains(v, x);
        let front = known_only(v.drop_last(), ids);
        lemma_push_contains(front, v.last(), x);
    }
}

proof fn lemma_ids_below_contains(v: Seq<(Seq<char>, u32)>, bound: int, x: (Seq<char>, u32))
    ensures
        ids_below(v, bound).contains(x) <==> v.contains(x) && x.1 < bound,
    decreases v.len(),
{
    if v.len() > 0 {
        lemma_ids_below_contains(v.drop_last(), bound, x);
        lemma_last_contains(v, x);
        lemma_push_contains(ids_below(v.drop_last(), bound), v.last(), x);
    }
}

proof fn lemma_last_contains(v: Seq<(Seq<char>, u32)>, x: (Seq<char>, u32))
    requires
        v.len() > 0,
    ensures
        v.contains(x) <==> v.drop_last().contains(x) || v.last() == x,
{
    assert(v =~= v.drop_last().push(v.last()));
    lemma_push_contains(v.drop_last(), v.last(), x);
}

proof fn lemma_push_contains(v: Seq<(Seq<char>, u32)>, y: (Seq<char>, u32), x: (Seq<char>, u32))
    ensures
        v.push(y).contains(x) <==> v.contains(x) || y == x,
{
    let w = v.push(y);
    if v.contains(x) {
        let k = choose|k: int| 0 <= k < v.len() && v[k] == x;
        assert(w[k] == x);
    }
    if y == x {
        assert(w[v.len() as int] == x);
    }
    if w.contains(x) {
        let k = choose|k: int| 0 <= k < w.len() && w[k] == x;
        if k < v.len() {
            assert(v[k] == x);
        }
    }
}

/// What a list gains from a table: the entry of a name that the list lacks, the first one
/// of that name.
proof fn lemma_completed(
    v: Seq<(Seq<char>, u32)>,
    table: Seq<(Seq<char>, u32)>,
    x: (Seq<char>, u32),
)
    ensures
        v.contains(x) ==> completed(v, table).contains(x),
        completed(v, table).contains(x) ==> v.contains(x) || (table.contains(x) && !named(v, x.0)),
        named(v, x.0) ==> named(completed(v, table), x.0),
        table.contains(x) ==> named(completed(v, table), x.0),
        table.contains(x) && !named(v, x.0) && (forall|i: int|
            0 <= i < table.len() && (#[trigger] table[i]).0 == x.0 ==> table[i] == x)
            ==> completed(v, table).contains(x),
        named(completed(v, table), x.0) ==> named(v, x.0) || named(table, x.0),
    decreases table.len(),
{
    if table.len() > 0 {
        let front = table.drop_last();
        lemma_completed(v, front, x);
        lemma_last_contains(table, x);
        let w = completed(v, front);
        let y = table.last();
        lemma_push_contains(w, y, x);
        lemma_push_named(w, y, x.0);
        assert(table =~= front.push(y));
        lemma_push_named(front, y, x.0);
        lemma_completed_names(v, front, y.0);
        if table.contains(x) && !named(v, x.0) && (forall|i: int|
            0 <= i < table.len() && (#[trigger] table[i]).0 == x.0 ==> table[i] == x) {
            assert forall|i: int| 0 <= i < front.len() && (#[trigger] front[i]).0 == x.0 implies
                front[i] == x by {
                assert(table[i] == front[i]);
            }
            if !front.contains(x) {
                assert(y == x);
                if named(front, x.0) {
                    let i = choose|i: int| named_at(front, x.0, i);
                    assert(front[i] == x);
                }
                assert(!named(w, x.0));
            }
        }
    }
}

proof fn lemma_completed_names(
    v: Seq<(Seq<char>, u32)>,
    table: Seq<(Seq<char>, u32)>,
    name: Seq<char>,
)
    ensures
        named(v, name) ==> named(completed(v, table), name),
        named(completed(v, table), name) ==> named(v, name) || named(table, name),
    decreases table.len(),
{
    if table.len() > 0 {
        let front = table.drop_last();
        lemma_completed_names(v, front, name);
        lemma_push_named(completed(v, front), table.last(), name);
        assert(table =~= front.push(table.last()));
        lemma_push_named(front, table.last(), name);
    }
}

proof fn lemma_push_named(v: Seq<(Seq<char>, u32)>, y: (Seq<char>, u32), name: Seq<char>)
    ensures
        named(v.push(y), name) <==> named(v, name) || y.0 == name,
{
    let w = v.push(y);
    if named(v, name) {
        let k = choose|k: int| named_at(v, name, k);
        assert(named_at(w, name, k));
    }
    if y.0 == name {
        assert(named_at(w, name, v.len() as int));
    }
    if named(w, name) {
        let k = choose|k: int| named_at(w, name, k);
        if k < v.len() {
            assert(named_at(v, name, k));
        }
    }
}

/// A special token that a model's configuration lists under a known name stays with the id
/// that is listed, and no id is taken that the model lacks.
pub proof fn law_listed_specials_stay(
    listed: Seq<(Seq<char>, u32)>,
    ids: SpecialIds,
    vocab: int,
    bos_id: u32,
    eos_id: u32,
    x: (Seq<char>, u32),
)
    ensures
        listed.contains(x) && known_name(x.0) && x.1 < vocab ==> specials_of(
            listed,
            ids,
            vocab,
            bos_id,
            eos_id,
        ).contains(x),
        specials_of(listed, ids, vocab, bos_id, eos_id).contains(x) ==> x.1 < vocab && known_name(
            x.0,
        ),
        named(listed, x.0) && specials_of(listed, ids, vocab, bos_id, eos_id).contains(x)
            ==> listed.contains(x),
{
    let known = known_only(listed, ids);
    let full = if vocab > 163584 {
        completed(known, special_table(ids))
    } else {
        known
    };
    let ends = seq![("bos"@, bos_id), ("end_of_msg"@, eos_id)];
    let done = completed(full, ends);
    lemma_known_only(listed, ids, x);
    lemma_completed(known, special_table(ids), x);
    lemma_completed(full, ends, x);
    lemma_ids_below_contains(done, vocab, x);
    if named(listed, x.0) && known_name(x.0) {
        let k = choose|k: int| named_at(listed, x.0, k);
        let y = listed[k];
        assert(listed.contains(y));
        lemma_known_only(listed, ids, y);
        let n = choose|n: int| 0 <= n < known.len() && known[n] == y;
        assert(named_at(known, x.0, n));
    }
}

/// A model that covers the reserved block has every special token of the full vocabulary
/// under the id that it has there, unless its configuration lists another under that name.
pub proof fn law_full_vocabulary_completes_the_specials(
    listed: Seq<(Seq<char>, u32)>,
    ids: SpecialIds,
    vocab: int,
    bos_id: u32,
    eos_id: u32,
    x: (Seq<char>, u32),
)
    requires
        vocab > 163584,
        !named(listed, x.0),
        x.1 < vocab,
        x == ("bos"@, ids.bos) || x == ("eos"@, ids.eos) || x == ("open"@, ids.open) || x == (
            "close"@,
            ids.close,
        ) || x == ("sep"@, ids.sep) || x == ("end_of_msg"@, ids.end_of_msg) || x == (
            "unk"@,
            ids.unk,
        ) || x == ("pad"@, ids.pad),
    ensures
        specials_of(listed, ids, vocab, bos_id, eos_id).contains(x),
{
    let known = known_only(listed, ids);
    let table = special_table(ids);
    let full = completed(known, table);
    let ends = seq![("bos"@, bos_id), ("end_of_msg"@, eos_id)];
    lemma_special_names(ids);
    assert(table[0].0 == "bos"@ && table[1].0 == "eos"@ && table[2].0 == "open"@ && table[3].0
        == "close"@ && table[4].0 == "sep"@ && table[5].0 == "end_of_msg"@ && table[6].0 == "unk"@
        && table[7].0 == "pad"@);
    assert(table.contains(x)) by {
        assert(table[0] == x || table[1] == x || table[2] == x || table[3] == x || table[4] == x
            || table[5] == x || table[6] == x || table[7] == x);
    }
    lemma_known_lacks(listed, ids, x.0);
    lemma_table_names(ids, x);
    lemma_completed(known, table, x);
    lemma_completed(full, ends, x);
    lemma_ids_below_contains(completed(full, ends), vocab, x);
}

proof fn lemma_table_names(ids: SpecialIds, x: (Seq<char>, u32))
    requires
        special_table(ids).contains(x),
    ensures
        forall|i: int|
            0 <= i < special_table(ids).len() && (#[trigger] special_table(ids)[i]).0 == x.0
                ==> special_table(ids)[i] == x,
{
    lemma_special_names(ids);
    let table = special_table(ids);
    assert forall|i: int| 0 <= i < table.len() implies special_id(ids, (#[trigger] table[i]).0)
        == Some(table[i].1) by {}
    let k = choose|k: int| 0 <= k < table.len() && table[k] == x;
    assert(special_id(ids, table[k].0) == Some(table[k].1));
}

proof fn lemma_known_lacks(listed: Seq<(Seq<char>, u32)>, ids: SpecialIds, name: Seq<char>)
    ensures
        named(known_only(listed, ids), name) ==> named(listed, name),
{
    let known = known_only(listed, ids);
    if named(known, name) {
        let k = choose|k: int| named_at(known, name, k);
        assert(known.contains(known[k]));
        lemma_known_only(listed, ids, known[k]);
        let n = choose|n: int| 0 <= n < listed.len() && listed[n] == known[k];
        assert(named_at(listed, name, n));
    }
}

/// A model that lists neither has the configured begin and end tokens.
pub proof fn law_begin_and_end_are_there(
    listed: Seq<(Seq<char>, u32)>,
    ids: SpecialIds,
    vocab: int,
    bos_id: u32,
    eos_id: u32,
)
    requires
        vocab <= 163584,
        bos_id < vocab,
        eos_id < vocab,
    ensures
        !named(listed, "bos"@) ==> specials_of(listed, ids, vocab, bos_id, eos_id).contains(
            ("bos"@, bos_id),
        ),
        !named(listed, "end_of_msg"@) ==> specials_of(
            listed,
            ids,
            vocab,
            bos_id,
            eos_id,
        ).contains(("end_of_msg"@, eos_id)),
{
    let known = known_only(listed, ids);
    let ends = seq![("bos"@, bos_id), ("end_of_msg"@, eos_id)];
    let (b, e) = (("bos"@, bos_id), ("end_of_msg"@, eos_id));
    reveal_strlit("bos");
    reveal_strlit("end_of_msg");
    assert("bos"@.len() == 3 && "end_of_msg"@.len() == 10);
    assert(ends[0] == b && ends[1] == e);
    assert(ends.contains(b) && ends.contains(e));
    lemma_known_lacks(listed, ids, "bos"@);
    lemma_known_lacks(listed, ids, "end_of_msg"@);
    lemma_completed(known, ends, b);
    lemma_completed(known, ends, e);
    lemma_ids_below_contains(completed(known, ends), vocab, b);
    lemma_ids_below_contains(completed(known, ends), vocab, e);
}

/// A line of a frequency file gives an id a count: before any comment its first word is the
/// id and its second the count.
pub open spec fn gives(line: Seq<char>, id: nat, count: nat) -> bool {
    let w = words(line.take(first_of(line, '#')));
    &&& w.len() >= 2
    &&& parsed(w[0], usize::MAX as nat) == Some(id)
    &&& parsed(w[1], u64::MAX as nat) == Some(count)
}

/// The last line that gives an id a count decides; an id that no line names counts nothing.
pub proof fn law_last_line_decides(lines: Seq<Seq<char>>, vocab: nat, n: int, id: nat)
    requires
        0 <= n <= lines.len(),
        lines_counted(lines, vocab, n) is Ok,
        id < vocab,
    ensures
        ({
            let c = lines_counted(lines, vocab, n)->Ok_0;
            &&& c.len() == vocab
            &&& (exists|k: int|
                0 <= k < n && #[trigger] gives(lines[k], id, c[id as int] as nat) && forall|
                    j: int,
                    other: nat,
                |
                    k < j < n ==> !#[trigger] gives(lines[j], id, other)) || (c[id as int] == 0
                && forall|j: int, other: nat|
                0 <= j < n ==> !#[trigger] gives(lines[j], id, other))
        }),
    decreases n,
{
    if n > 0 {
        law_last_line_decides(lines, vocab, n - 1, id);
        let before = lines_counted(lines, vocab, n - 1)->Ok_0;
        let c = lines_counted(lines, vocab, n)->Ok_0;
        let line = lines[n - 1];
        let w = words(line.take(first_of(line, '#')));
        if w.len() >= 2 && parsed(w[0], usize::MAX as nat) == Some(id) {
            assert(gives(lines[n - 1], id, c[id as int] as nat));
        } else {
            assert(c[id as int] == before[id as int]);
            assert forall|other: nat| !#[trigger] gives(lines[n - 1], id, other) by {}
            if exists|k: int|
                0 <= k < n - 1 && #[trigger] gives(lines[k], id, c[id as int] as nat) && forall|
                    j: int,
                    other: nat,
                |
                    k < j < n - 1 ==> !#[trigger] gives(lines[j], id, other) {
                let k = choose|k: int|
                    0 <= k < n - 1 && #[trigger] gives(lines[k], id, c[id as int] as nat)
                        && forall|j: int, other: nat|
                        k < j < n - 1 ==> !#[trigger] gives(lines[j], id, other);
                assert forall|j: int, other: nat| k < j < n implies !#[trigger] gives(
                    lines[j],
                    id,
                    other,
                ) by {
                    if j == n - 1 {
                        assert(!gives(lines[n - 1], id, other));
                    }
                }
            } else {
                assert forall|j: int, other: nat| 0 <= j < n implies !#[trigger] gives(
                    lines[j],
                    id,
                    other,
                ) by {
                    if j == n - 1 {
                        assert(!gives(lines[n - 1], id, other));
                    }
                }
            }
        }
    }
}

/// The last entry of a frequency object for an id decides; an id without one counts nothing.
pub proof fn law_last_entry_decides(pairs: Seq<(Seq<char>, u64)>, vocab: nat, n: int, id: nat)
    requires
        0 <= n <= pairs.len(),
        pairs_counted(pairs, vocab, n) is Ok,
        id < vocab,
    ensures
        ({
            let c = pairs_counted(pairs, vocab, n)->Ok_0;
            &&& c.len() == vocab
            &&& forall|k: int|
                0 <= k < n && parsed((#[trigger] pairs[k]).0, usize::MAX as nat) == Some(id) && (
                forall|j: int|
                    k < j < n ==> parsed((#[trigger] pairs[j]).0, usize::MAX as nat) != Some(id))
                    ==> c[id as int] == pairs[k].1
            &&& (forall|j: int|
                0 <= j < n ==> parsed((#[trigger] pairs[j]).0, usize::MAX as nat) != Some(id))
                ==> c[id as int] == 0
        }),
    decreases n,
{
    if n > 0 {
        law_last_entry_decides(pairs, vocab, n - 1, id);
        let before = pairs_counted(pairs, vocab, n - 1)->Ok_0;
        let c = pairs_counted(pairs, vocab, n)->Ok_0;
        assert(pairs[n - 1] == pairs[n - 1]);
        if parsed(pairs[n - 1].0, usize::MAX as nat) != Some(id) {
            assert(c[id as int] == before[id as int]);
        }
    }
}

/// A vocabulary can be loaded exactly where it has all the special tokens that a runtime
/// asks for.
pub proof fn law_loadable_has_what_is_asked(specials: Seq<(Seq<char>, u32)>)
    ensures
        loadable(specials) <==> {
            &&& named(specials, "bos"@)
            &&& named(specials, "eos"@)
            &&& named(specials, "open"@)
            &&& named(specials, "close"@)
            &&& named(specials, "sep"@)
            &&& named(specials, "end_of_msg"@)
            &&& named(specials, "unk"@)
        },
{
    let r = required_names();
    assert(r[0] == "bos"@ && r[1] == "eos"@ && r[2] == "open"@ && r[3] == "close"@ && r[4]
        == "sep"@ && r[5] == "end_of_msg"@ && r[6] == "unk"@);
    if loadable(specials) {
        assert(named(specials, r[0]) && named(specials, r[1]) && named(specials, r[2]) && named(
            specials,
            r[3],
        ) && named(specials, r[4]) && named(specials, r[5]) && named(specials, r[6]));
    }
}

/// The table goes next to the checkpoint: `model.bin` has `model.vocab.json`, and a name
/// that does not end so only gains the ending.
pub proof fn law_table_stands_beside_the_checkpoint(stem: Seq<char>)
    ensures
        remap_name(stem + ".bin"@) == stem + ".vocab.json"@,
        (forall|front: Seq<char>| front + ".bin"@ != stem) ==> remap_name(stem) == stem
            + ".vocab.json"@,
{
    let out = stem + ".bin"@;
    assert(out.subrange(stem.len() as int, out.len() as int) =~= ".bin"@);
    assert(out.take(stem.len() as int) =~= stem);
    if ends_with(stem, ".bin"@) {
        let front = stem.take(stem.len() - ".bin"@.len());
        assert(front + ".bin"@ =~= stem);
    }
}

/// The table tells the rows of the source and of the slice, gives the id of each kept row in
/// the full vocabulary, and names the special tokens at their new ids and at their own.
pub proof fn law_table_tells_what_it_maps(
    source_vocab: nat,
    rows: nat,
    full: Seq<u64>,
    specials: Seq<(Seq<char>, u32)>,
    ids: SpecialIds,
)
    ensures
        ({
            let text = remap_text(source_vocab, rows, full, specials, ids);
            &&& contains_text(
                text,
                ",\n \"vocab_size\": "@ + decimal(rows) + ",\n \"nano_to_kimi\": ["@ + number_list(
                    full,
                ) + "],\n \"specials\": {"@ + pair_list(specials)
                    + "},\n \"kimi_special_ids\": {\"open\": "@,
            )
            &&& contains_text(
                text,
                decimal(ids.open as nat) + ", \"close\": "@ + decimal(ids.close as nat)
                    + ", \"sep\": "@ + decimal(ids.sep as nat) + ", \"end_of_msg\": "@ + decimal(
                    ids.end_of_msg as nat,
                ) + "}\n}\n"@,
            )
        }),
{
    let text = remap_text(source_vocab, rows, full, specials, ids);
    let a = "{\n \"format\": \"microkimi-vocab-remap-1\",\n \"source_vocab\": "@ + decimal(
        source_vocab,
    );
    let (b, c, d, e) = (
        ",\n \"vocab_size\": "@,
        ",\n \"nano_to_kimi\": ["@,
        "],\n \"specials\": {"@,
        "},\n \"kimi_special_ids\": {\"open\": "@,
    );
    let (n, l, p) = (decimal(rows), number_list(full), pair_list(specials));
    let front = a + b + n + c + l + d + p + e;
    let mid = b + n + c + l + d + p + e;
    lemma_seven(a, b, n, c, l, d, p, e);
    let (o, k, s, m) = (
        decimal(ids.open as nat),
        decimal(ids.close as nat),
        decimal(ids.sep as nat),
        decimal(ids.end_of_msg as nat),
    );
    let back = o + ", \"close\": "@ + k + ", \"sep\": "@ + s + ", \"end_of_msg\": "@ + m
        + "}\n}\n"@;
    lemma_eight(front, o, ", \"close\": "@, k, ", \"sep\": "@, s, ", \"end_of_msg\": "@, m, "}\n}\n"@);
    assert(text == front + back);
    assert(text == a + mid + back);
    lemma_stands(a, mid, back);
    let none = Seq::<char>::empty();
    assert(text =~= front + back + none);
    lemma_stands(front, back, none);
}

proof fn lemma_seven(
    t: Seq<char>,
    a: Seq<char>,
    b: Seq<char>,
    c: Seq<char>,
    d: Seq<char>,
    e: Seq<char>,
    f: Seq<char>,
    g: Seq<char>,
)
    ensures
        t + a + b + c + d + e + f + g == t + (a + b + c + d + e + f + g),
{
    assert(t + a + b + c + d + e + f + g =~= t + (a + b + c + d + e + f + g));
}

proof fn lemma_eight(
    t: Seq<char>,
    a: Seq<char>,
    b: Seq<char>,
    c: Seq<char>,
    d: Seq<char>,
    e: Seq<char>,
    f: Seq<char>,
    g: Seq<char>,
    h: Seq<char>,
)
    ensures
        t + a + b + c + d + e + f + g + h == t + (a + b + c + d + e + f + g + h),
{
    lemma_seven(t, a, b, c, d, e, f, g);
    assert(t + (a + b + c + d + e + f + g) + h =~= t + (a + b + c + d + e + f + g + h));
}

/// A part of three stands in them.
proof fn lemma_stands(a: Seq<char>, b: Seq<char>, c: Seq<char>)
    ensures
        contains_text(a + b + c, b),
{
    let t = a + b + c;
    assert(t.subrange(a.len() as int, a.len() as int + b.len()) =~= b);
    assert(stands_at(t, b, a.len() as int));
}

} // verus!
