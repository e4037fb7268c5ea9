//! Where the routed experts lie in a checkpoint file, and the file without them.

use crate::directory::Directory;
use crate::sort::lemma_sorted_pairs;
use crate::sort::pair_le;
use crate::sort::pairs_sorted;
use crate::sort::sorted;
use crate::sort::sorted_pairs;
use crate::weights::align_up;
use crate::weights::expert_name;
use crate::weights::is_expert_tensor;
use crate::weights::lemma_align_up;
use crate::weights::Entry;
use crate::weights::EntryView;
use vstd::prelude::*;

verus! {

/// The page size that read-ahead advice works in.
pub const PAGE: u64 = 4096;

/// The bytes of a blob, its end padded to the format's alignment and capped at the
/// file's length.
pub open spec fn span_of(e: EntryView, file_len: u64) -> (u64, u64) {
    let end = align_up(e.offset + e.size, 64);
    (e.offset, if end < file_len { end as u64 } else { file_len })
}

/// The spans of the experts among the first `n` tensors.
pub open spec fn raw_spans(list: Seq<(String, Entry)>, file_len: u64, n: int) -> Seq<(u64, u64)>
    decreases n,
{
    if n <= 0 {
        Seq::empty()
    } else if expert_name(list[n - 1].0@) {
        raw_spans(list, file_len, n - 1).push(span_of(list[n - 1].1@, file_len))
    } else {
        raw_spans(list, file_len, n - 1)
    }
}

/// The first `n` spans, with spans that touch or overlap joined.
pub open spec fn merged(s: Seq<(u64, u64)>, n: int) -> Seq<(u64, u64)>
    decreases n,
{
    if n <= 0 {
        Seq::empty()
    } else {
        let m = merged(s, n - 1);
        if m.len() > 0 && s[n - 1].0 <= m.last().1 {
            m.drop_last().push(
                (m.last().0, if s[n - 1].1 > m.last().1 { s[n - 1].1 } else { m.last().1 }),
            )
        } else {
            m.push(s[n - 1])
        }
    }
}

/// The sorted, joined spans of a directory's experts.
pub open spec fn spans_of(list: Seq<(String, Entry)>, file_len: u64) -> Seq<(u64, u64)> {
    let raw = sorted_pairs(raw_spans(list, file_len, list.len() as int));
    merged(raw, raw.len() as int)
}

/// The blob ends of every expert are numbers of a file.
pub open spec fn spans_ok(list: Seq<(String, Entry)>) -> bool {
    forall|i: int|
        0 <= i < list.len() && expert_name((#[trigger] list[i]).0@) ==> list[i].1.offset
            + list[i].1.size <= u64::MAX
}

/// No expert blob starts behind the end of the file.
pub open spec fn starts_within(list: Seq<(String, Entry)>, file_len: u64) -> bool {
    forall|i: int|
        0 <= i < list.len() && expert_name((#[trigger] list[i]).0@) ==> list[i].1.offset
            <= file_len
}

/// The sorted, joined byte ranges of the routed expert blobs.
pub fn expert_spans(dir: &Directory, file_len: u64) -> (out: Vec<(u64, u64)>)
    requires
        spans_ok(dir.list@),
    ensures
        out@ == spans_of(dir.list@, file_len),
        starts_within(dir.list@, file_len) ==> separated(out@),
{
    let mut raw: Vec<(u64, u64)> = Vec::new();
    for i in 0..dir.list.len()
        invariant
            spans_ok(dir.list@),
            raw@ == raw_spans(dir.list@, file_len, i as int),
            starts_within(dir.list@, file_len) ==> forall|k: int|
                0 <= k < raw@.len() ==> (#[trigger] raw@[k]).0 <= raw@[k].1,
    {
        let row = &dir.list[i];
        if is_expert_tensor(row.0.as_str()) {
            proof {
                assert(expert_name(dir.list@[i as int].0@));
            }
            let end: u64 = row.1.offset + row.1.size;
            proof {
                lemma_align_up(end as int, 64);
            }
            let capped: u64 = if end > u64::MAX - 63 {
                file_len
            } else {
                let padded: u64 = (end + 63) / 64 * 64;
                if padded < file_len {
                    padded
                } else {
                    file_len
                }
            };
            raw.push((row.1.offset, capped));
        }
    }
    let order: Vec<(u64, u64)> = sorted(&raw);
    proof {
        if starts_within(dir.list@, file_len) {
            assert forall|k: int| 0 <= k < order@.len() implies (#[trigger] order@[k]).0
                <= order@[k].1 by {
                broadcast use vstd::seq_lib::group_to_multiset_ensures;

                assert(order@.contains(order@[k]));
                assert(raw@.to_multiset().count(order@[k]) > 0);
                assert(raw@.contains(order@[k]));
            }
            lemma_merged(order@, order@.len() as int);
        }
    }
    let mut out: Vec<(u64, u64)> = Vec::new();
    for i in 0..order.len()
        invariant
            out@ == merged(order@, i as int),
    {
        let (s, e) = order[i];
        let n: usize = out.len();
        if n > 0 && s <= out[n - 1].1 {
            let last = out[n - 1];
            let ghost before = out@;
            out.set(n - 1, (last.0, if e > last.1 { e } else { last.1 }));
            proof {
                assert(out@ =~= before.drop_last().push(out@.last()));
            }
        } else {
            out.push((s, e));
        }
    }
    out
}

/// A byte position lies in one of the spans.
pub open spec fn covered(s: Seq<(u64, u64)>, b: int) -> bool {
    exists|i: int| 0 <= i < s.len() && (#[trigger] s[i]).0 <= b < s[i].1
}

/// Spans in ascending order with a gap between any two.
pub open spec fn separated(s: Seq<(u64, u64)>) -> bool {
    &&& forall|i: int| 0 <= i < s.len() ==> (#[trigger] s[i]).0 <= s[i].1
    &&& forall|i: int, j: int| 0 <= i < j < s.len() ==> (#[trigger] s[i]).1 < (#[trigger] s[j]).0
}

proof fn lemma_merged(s: Seq<(u64, u64)>, n: int)
    requires
        pairs_sorted(s),
        0 <= n <= s.len(),
        forall|i: int| 0 <= i < s.len() ==> (#[trigger] s[i]).0 <= s[i].1,
    ensures
        separated(merged(s, n)),
        n > 0 ==> merged(s, n).len() > 0 && merged(s, n).last().0 <= s[n - 1].0,
        forall|b: int| #[trigger] covered(merged(s, n), b) <==> covered(s.take(n), b),
    decreases n,
{
    let out = merged(s, n);
    if n == 0 {
        assert(s.take(0) =~= Seq::<(u64, u64)>::empty());
    } else {
        lemma_merged(s, n - 1);
        let m = merged(s, n - 1);
        let x = s[n - 1];
        if n > 1 {
            assert(pair_le(s[n - 2], s[n - 1]));
        }
        if m.len() > 0 && x.0 <= m.last().1 {
            let k = m.len() - 1;
            assert(out.len() == m.len());
            assert forall|i: int| 0 <= i < k implies out[i] == #[trigger] m[i] by {}
            assert forall|b: int| #[trigger] covered(out, b) <==> covered(s.take(n), b) by {
                if covered(out, b) {
                    let i = choose|i: int| 0 <= i < out.len() && (#[trigger] out[i]).0 <= b < out[i].1;
                    if i < k {
                        assert(m[i].0 <= b < m[i].1);
                        assert(covered(m, b));
                        let q = choose|q: int|
                            0 <= q < n - 1 && (#[trigger] s.take(n - 1)[q]).0 <= b < s.take(n - 1)[q].1;
                        assert(s.take(n)[q] == s.take(n - 1)[q]);
                    } else if b < m[k].1 {
                        assert(m[k].0 <= b < m[k].1);
                        assert(covered(m, b));
                        let q = choose|q: int|
                            0 <= q < n - 1 && (#[trigger] s.take(n - 1)[q]).0 <= b < s.take(n - 1)[q].1;
                        assert(s.take(n)[q] == s.take(n - 1)[q]);
                    } else {
                        assert(s.take(n)[n - 1] == x);
                    }
                }
                if covered(s.take(n), b) {
                    let q = choose|q: int|
                        0 <= q < n && (#[trigger] s.take(n)[q]).0 <= b < s.take(n)[q].1;
                    if q < n - 1 {
                        assert(s.take(n - 1)[q] == s.take(n)[q]);
                        assert(covered(m, b));
                        let i = choose|i: int| 0 <= i < m.len() && (#[trigger] m[i]).0 <= b < m[i].1;
                        if i < k {
                            assert(out[i] == m[i]);
                        } else {
                            assert(out[k].0 <= b < out[k].1);
                        }
                    } else {
                        assert(out[k].0 <= b < out[k].1);
                    }
                }
            }
            assert(separated(out)) by {
                assert forall|i: int, j: int| 0 <= i < j < out.len() implies (#[trigger] out[i]).1
                    < (#[trigger] out[j]).0 by {
                    assert(m[i].1 < m[j].0);
                    assert(out[i] == m[i]);
                }
            }
        } else {
            assert forall|b: int| #[trigger] covered(out, b) <==> covered(s.take(n), b) by {
                if covered(out, b) {
                    let i = choose|i: int| 0 <= i < out.len() && (#[trigger] out[i]).0 <= b < out[i].1;
                    if i < m.len() {
                        assert(m[i].0 <= b < m[i].1);
                        assert(covered(m, b));
                        let q = choose|q: int|
                            0 <= q < n - 1 && (#[trigger] s.take(n - 1)[q]).0 <= b < s.take(n - 1)[q].1;
                        assert(s.take(n)[q] == s.take(n - 1)[q]);
                    } else {
                        assert(s.take(n)[n - 1] == x);
                    }
                }
                if covered(s.take(n), b) {
                    let q = choose|q: int|
                        0 <= q < n && (#[trigger] s.take(n)[q]).0 <= b < s.take(n)[q].1;
                    if q < n - 1 {
                        assert(s.take(n - 1)[q] == s.take(n)[q]);
                        assert(covered(m, b));
                        let i = choose|i: int| 0 <= i < m.len() && (#[trigger] m[i]).0 <= b < m[i].1;
                        assert(out[i] == m[i]);
                    } else {
                        assert(out[m.len() as int] == x);
                    }
                }
            }
            assert(separated(out)) by {
                assert forall|i: int, j: int| 0 <= i < j < out.len() implies (#[trigger] out[i]).1
                    < (#[trigger] out[j]).0 by {
                    if j < m.len() {
                        assert(m[i].1 < m[j].0);
                    } else {
                        assert(out[i] == m[i]);
                        if i < m.len() - 1 {
                            assert(m[i].1 < m[m.len() - 1].0);
                        }
                    }
                }
            }
        }
    }
}

/// Joining keeps what the spans cover and leaves a gap between any two, for spans in
/// order that do not run backwards.
pub proof fn law_merged_spans_cover_the_same(s: Seq<(u64, u64)>, b: int)
    requires
        pairs_sorted(s),
        forall|i: int| 0 <= i < s.len() ==> (#[trigger] s[i]).0 <= s[i].1,
    ensures
        separated(merged(s, s.len() as int)),
        covered(merged(s, s.len() as int), b) <==> covered(s, b),
{
    lemma_merged(s, s.len() as int);
    assert(s.take(s.len() as int) =~= s);
}

/// Spans that hold a byte are joined to spans that hold one.
proof fn lemma_merged_filled(s: Seq<(u64, u64)>, n: int)
    requires
        0 <= n <= s.len(),
        forall|i: int| 0 <= i < s.len() ==> (#[trigger] s[i]).0 < s[i].1,
    ensures
        forall|i: int| 0 <= i < merged(s, n).len() ==> (#[trigger] merged(s, n)[i]).0 < merged(
            s,
            n,
        )[i].1,
    decreases n,
{
    if n > 0 {
        lemma_merged_filled(s, n - 1);
        let m = merged(s, n - 1);
        let out = merged(s, n);
        assert(s[n - 1].0 < s[n - 1].1);
        assert forall|i: int| 0 <= i < out.len() implies (#[trigger] out[i]).0 < out[i].1 by {
            if i < m.len() {
                assert(m[i].0 < m[i].1);
            }
        }
    }
}

/// The spans of the experts among the first `n` tensors are those of the tensors that are
/// experts.
proof fn lemma_raw_spans(list: Seq<(String, Entry)>, file_len: u64, n: int, x: (u64, u64))
    requires
        0 <= n <= list.len(),
    ensures
        raw_spans(list, file_len, n).contains(x) <==> exists|i: int|
            0 <= i < n && expert_name((#[trigger] list[i]).0@) && span_of(list[i].1@, file_len)
                == x,
    decreases n,
{
    if n > 0 {
        lemma_raw_spans(list, file_len, n - 1, x);
        let before = raw_spans(list, file_len, n - 1);
        let raw = raw_spans(list, file_len, n);
        let last = list[n - 1];
        if raw.contains(x) {
            let k = choose|k: int| 0 <= k < raw.len() && raw[k] == x;
            if k < before.len() {
                assert(before[k] == x);
                assert(before.contains(x));
            } else {
                assert(expert_name(list[n - 1].0@) && span_of(list[n - 1].1@, file_len) == x);
            }
        }
        if exists|i: int|
            0 <= i < n && expert_name((#[trigger] list[i]).0@) && span_of(list[i].1@, file_len)
                == x {
            let i = choose|i: int|
                0 <= i < n && expert_name((#[trigger] list[i]).0@) && span_of(
                    list[i].1@,
                    file_len,
                ) == x;
            if i < n - 1 {
                assert(before.contains(x));
                let k = choose|k: int| 0 <= k < before.len() && before[k] == x;
                assert(raw[k] == x);
            } else {
                assert(raw[raw.len() - 1] == x);
            }
        }
    }
}

/// The spans of a directory whose experts lie in the file hold the bytes of the experts with
/// their padding, and no others: they are not empty, in order and apart.
pub proof fn law_expert_spans_cover_the_experts(
    list: Seq<(String, Entry)>,
    file_len: u64,
    b: int,
)
    requires
        forall|i: int|
            0 <= i < list.len() && expert_name((#[trigger] list[i]).0@) ==> list[i].1.size > 0
                && list[i].1.offset + list[i].1.size <= file_len,
    ensures
        separated(spans_of(list, file_len)),
        forall|i: int|
            0 <= i < spans_of(list, file_len).len() ==> (#[trigger] spans_of(list, file_len)[i]).0
                < spans_of(list, file_len)[i].1,
        covered(spans_of(list, file_len), b) <==> exists|i: int|
            0 <= i < list.len() && expert_name((#[trigger] list[i]).0@) && span_of(
                list[i].1@,
                file_len,
            ).0 <= b < span_of(list[i].1@, file_len).1,
{
    broadcast use vstd::seq_lib::group_to_multiset_ensures;

    let raw = raw_spans(list, file_len, list.len() as int);
    let s = sorted_pairs(raw);
    lemma_sorted_pairs(raw);
    assert forall|x: (u64, u64)| #[trigger] s.contains(x) == raw.contains(x) by {
        assert(s.to_multiset().count(x) == raw.to_multiset().count(x));
    }
    assert forall|k: int| 0 <= k < s.len() implies (#[trigger] s[k]).0 < s[k].1 by {
        assert(s.contains(s[k]));
        lemma_raw_spans(list, file_len, list.len() as int, s[k]);
        let i = choose|i: int|
            0 <= i < list.len() && expert_name((#[trigger] list[i]).0@) && span_of(
                list[i].1@,
                file_len,
            ) == s[k];
        lemma_align_up(list[i].1.offset + list[i].1.size, 64);
    }
    law_merged_spans_cover_the_same(s, b);
    lemma_merged_filled(s, s.len() as int);
    if covered(s, b) {
        let k = choose|k: int| 0 <= k < s.len() && (#[trigger] s[k]).0 <= b < s[k].1;
        assert(s.contains(s[k]));
        lemma_raw_spans(list, file_len, list.len() as int, s[k]);
    }
    if exists|i: int|
        0 <= i < list.len() && expert_name((#[trigger] list[i]).0@) && span_of(
            list[i].1@,
            file_len,
        ).0 <= b < span_of(list[i].1@, file_len).1 {
        let i = choose|i: int|
            0 <= i < list.len() && expert_name((#[trigger] list[i]).0@) && span_of(
                list[i].1@,
                file_len,
            ).0 <= b < span_of(list[i].1@, file_len).1;
        let x = span_of(list[i].1@, file_len);
        lemma_raw_spans(list, file_len, list.len() as int, x);
        assert(s.contains(x));
        let k = choose|k: int| 0 <= k < s.len() && s[k] == x;
        assert(s[k].0 <= b < s[k].1);
    }
}

// ── the file without its experts ──

/// The bytes of a file from `cursor` on without the spans from `k` on.
pub open spec fn spine_from(
    file: Seq<u8>,
    s: Seq<(u64, u64)>,
    k: int,
    cursor: int,
) -> Seq<u8>
    decreases s.len() - k,
{
    if k < 0 || k >= s.len() {
        file.subrange(cursor, file.len() as int)
    } else {
        file.subrange(cursor, s[k].0 as int) + spine_from(file, s, k + 1, s[k].1 as int)
    }
}

/// A file without its expert spans.
pub open spec fn spine(file: Seq<u8>, s: Seq<(u64, u64)>) -> Seq<u8> {
    spine_from(file, s, 0, 0)
}

/// The bytes of the spans `k..` that end at or before `off`.
pub open spec fn skipped_from(s: Seq<(u64, u64)>, k: int, off: int) -> int
    decreases s.len() - k,
{
    if k < 0 || k >= s.len() || s[k].1 > off {
        0
    } else {
        (s[k].1 - s[k].0) + skipped_from(s, k + 1, off)
    }
}

/// The bytes of the spans that end at or before `off`.
pub open spec fn skipped_before(s: Seq<(u64, u64)>, off: int) -> int {
    skipped_from(s, 0, off)
}

proof fn lemma_skipped_bound(s: Seq<(u64, u64)>, k: int, off: int, cursor: int)
    requires
        separated(s),
        0 <= k <= s.len(),
        0 <= cursor <= off,
        k < s.len() ==> cursor <= s[k].0,
    ensures
        0 <= skipped_from(s, k, off) <= off - cursor,
    decreases s.len() - k,
{
    if k < s.len() && s[k].1 <= off {
        assert(s[k].0 <= s[k].1);
        if k + 1 < s.len() {
            assert(s[k].1 < s[k + 1].0);
        }
        lemma_skipped_bound(s, k + 1, off, s[k].1 as int);
    }
}

/// The bytes removed before an offset.
pub fn skipped_bytes(s: &Vec<(u64, u64)>, off: u64) -> (n: u64)
    requires
        separated(s@),
    ensures
        n == skipped_before(s@, off as int),
        n <= off,
{
    let mut n: u64 = 0;
    let mut k: usize = 0;
    proof {
        lemma_skipped_bound(s@, 0, off as int, 0);
    }
    while k < s.len() && s[k].1 <= off
        invariant
            k <= s@.len(),
            separated(s@),
            skipped_before(s@, off as int) == n + skipped_from(s@, k as int, off as int),
            skipped_before(s@, off as int) <= off,
        decreases s@.len() - k,
    {
        proof {
            assert(s@[k as int].0 <= s@[k as int].1);
            if k + 1 < s@.len() {
                assert(s@[k as int].1 < s@[k + 1].0);
            }
            lemma_skipped_bound(s@, k + 1, off as int, s@[k as int].1 as int);
        }
        n = n + (s[k].1 - s[k].0);
        k += 1;
    }
    n
}

/// The ranges of a file that are kept, from `cursor` on.
pub open spec fn gaps_from(
    s: Seq<(u64, u64)>,
    file_len: u64,
    k: int,
    cursor: u64,
) -> Seq<(u64, u64)>
    decreases s.len() - k,
{
    if k < 0 || k >= s.len() {
        seq![(cursor, file_len)]
    } else {
        seq![(cursor, s[k].0)] + gaps_from(s, file_len, k + 1, s[k].1)
    }
}

/// The ranges of a file between and around its expert spans, in order.
pub fn spine_gaps(s: &Vec<(u64, u64)>, file_len: u64) -> (out: Vec<(u64, u64)>)
    ensures
        out@ == gaps_from(s@, file_len, 0, 0),
{
    let mut out: Vec<(u64, u64)> = Vec::new();
    let mut cursor: u64 = 0;
    let ghost goal = gaps_from(s@, file_len, 0, 0);
    proof {
        assert(goal =~= out@ + gaps_from(s@, file_len, 0, 0));
    }
    for k in 0..s.len()
        invariant
            goal == out@ + gaps_from(s@, file_len, k as int, cursor),
    {
        let ghost before = out@;
        out.push((cursor, s[k].0));
        proof {
            let rest = gaps_from(s@, file_len, k + 1, s@[k as int].1);
            assert(before + (seq![(cursor, s@[k as int].0)] + rest) =~= out@ + rest);
        }
        cursor = s[k].1;
    }
    out.push((cursor, file_len));
    proof {
        assert(goal =~= out@);
    }
    out
}

/// A range of the file that meets no span.
pub open spec fn clear_of(s: Seq<(u64, u64)>, off: int, size: int) -> bool {
    forall|i: int| 0 <= i < s.len() ==> off + size <= (#[trigger] s[i]).0 || s[i].1 <= off
}

proof fn lemma_spine_reads(
    file: Seq<u8>,
    s: Seq<(u64, u64)>,
    k: int,
    cursor: int,
    off: int,
    size: int,
)
    requires
        separated(s),
        0 <= k <= s.len(),
        forall|i: int| 0 <= i < s.len() ==> (#[trigger] s[i]).1 <= file.len(),
        clear_of(s, off, size),
        0 <= size,
        0 <= cursor <= off,
        off + size <= file.len(),
        k < s.len() ==> cursor <= s[k].0,
    ensures
        ({
            let at = off - cursor - skipped_from(s, k, off);
            &&& 0 <= at
            &&& at + size <= spine_from(file, s, k, cursor).len()
            &&& spine_from(file, s, k, cursor).subrange(at, at + size) == file.subrange(
                off,
                off + size,
            )
        }),
    decreases s.len() - k,
{
    let out = spine_from(file, s, k, cursor);
    if k >= s.len() {
        let at = off - cursor;
        assert(out.subrange(at, at + size) =~= file.subrange(off, off + size));
    } else {
        let (a, e) = (s[k].0 as int, s[k].1 as int);
        assert(s[k].0 <= s[k].1 && s[k].1 <= file.len());
        let head = file.subrange(cursor, a);
        let rest = spine_from(file, s, k + 1, e);
        if e <= off {
            if k + 1 < s.len() {
                assert(s[k].1 < s[k + 1].0);
            }
            lemma_spine_reads(file, s, k + 1, e, off, size);
            let inner = off - e - skipped_from(s, k + 1, off);
            let at = off - cursor - skipped_from(s, k, off);
            assert(at == inner + head.len());
            assert(out.subrange(at, at + size) =~= rest.subrange(inner, inner + size));
        } else {
            assert(off + size <= a);
            let at = off - cursor;
            assert(out.subrange(at, at + size) =~= file.subrange(off, off + size));
        }
    }
}

/// Dropping the experts loses nothing else: a tensor that meets no expert span reads
/// from the compacted bytes, at its remapped offset, as it reads from the file.
pub proof fn law_spine_keeps_tensors(file: Seq<u8>, s: Seq<(u64, u64)>, off: int, size: int)
    requires
        separated(s),
        forall|i: int| 0 <= i < s.len() ==> (#[trigger] s[i]).1 <= file.len(),
        clear_of(s, off, size),
        0 <= off,
        0 <= size,
        off + size <= file.len(),
    ensures
        0 <= off - skipped_before(s, off),
        off - skipped_before(s, off) + size <= spine(file, s).len(),
        spine(file, s).subrange(
            off - skipped_before(s, off),
            off - skipped_before(s, off) + size,
        ) == file.subrange(off, off + size),
{
    lemma_spine_reads(file, s, 0, 0, off, size);
}

/// Compaction keeps alignment: where every span starts and ends on a multiple of 64,
/// an offset and its remapped offset agree modulo 64.
pub proof fn law_spine_keeps_alignment(s: Seq<(u64, u64)>, off: int)
    requires
        forall|i: int|
            0 <= i < s.len() ==> (#[trigger] s[i]).0 % 64 == 0 && s[i].1 % 64 == 0,
    ensures
        (off - skipped_before(s, off)) % 64 == off % 64,
{
    lemma_skipped_aligned(s, 0, off);
}

proof fn lemma_skipped_aligned(s: Seq<(u64, u64)>, k: int, off: int)
    requires
        0 <= k <= s.len(),
        forall|i: int|
            0 <= i < s.len() ==> (#[trigger] s[i]).0 % 64 == 0 && s[i].1 % 64 == 0,
    ensures
        skipped_from(s, k, off) % 64 == 0,
    decreases s.len() - k,
{
    if k < s.len() && s[k].1 <= off {
        lemma_skipped_aligned(s, k + 1, off);
        assert(s[k].0 % 64 == 0 && s[k].1 % 64 == 0);
    }
}

/// The offset of a tensor in the compacted file: experts keep theirs.
pub open spec fn spine_offset(s: Seq<(u64, u64)>, name: Seq<char>, offset: u64) -> u64 {
    if expert_name(name) {
        offset
    } else {
        (offset - skipped_before(s, offset as int)) as u64
    }
}

impl Directory {
    /// Moves the offsets of everything but the experts to the compacted file.
    pub fn remap_spine(&mut self, s: &Vec<(u64, u64)>)
        requires
            old(self).wf(),
            separated(s@),
        ensures
            final(self).wf(),
            final(self).list@.len() == old(self).list@.len(),
            forall|i: int|
                0 <= i < old(self).list@.len() ==> {
                    let (a, b) = (old(self).list@[i], #[trigger] final(self).list@[i]);
                    &&& b.0 == a.0
                    &&& b.1.dtype == a.1.dtype && b.1.dims == a.1.dims && b.1.size == a.1.size
                    &&& b.1.offset == spine_offset(s@, a.0@, a.1.offset)
                },
    {
        let ghost before = self.list@;
        let n: usize = self.list.len();
        for i in 0..n
            invariant
                separated(s@),
                n == self.list@.len(),
                n == before.len(),
                self.index == old(self).index,
                forall|j: int| i <= j < n ==> #[trigger] self.list@[j] == before[j],
                forall|j: int|
                    0 <= j < i ==> {
                        let (a, b) = (before[j], #[trigger] self.list@[j]);
                        &&& b.0 == a.0
                        &&& b.1.dtype == a.1.dtype && b.1.dims == a.1.dims && b.1.size == a.1.size
                        &&& b.1.offset == spine_offset(s@, a.0@, a.1.offset)
                    },
        {
            if !is_expert_tensor(self.list[i].0.as_str()) {
                let off: u64 = self.list[i].1.offset;
                let moved: u64 = off - skipped_bytes(s, off);
                self.list[i].1.offset = moved;
            }
        }
        proof {
            assert forall|i: int| 0 <= i < n implies self.list@[i].0 == before[i].0 by {}
            assert forall|k: Seq<u8>| #[trigger]
                self.index@.contains_key(k) implies crate::directory::row_named(
                self.list@,
                self.index@[k] as int,
                k,
            ) by {
                assert(crate::directory::row_named(before, old(self).index@[k] as int, k));
            }
        }
    }
}

/// The whole pages that advice on a byte range covers: the enclosing pages, capped at
/// the end of the file, or only the pages that lie within.
pub open spec fn advice_range(
    off: int,
    len: int,
    file_end: int,
    outward: bool,
) -> (int, int) {
    let page = PAGE as int;
    if outward {
        (
            off / page * page,
            if align_up(off + len, page) < file_end { align_up(off + len, page) } else { file_end },
        )
    } else {
        (
            align_up(off, page),
            (if off + len < file_end { off + len } else { file_end }) / page * page,
        )
    }
}

/// The byte range to advise on, if it holds a page.
pub fn advise(off: u64, len: u64, file_end: u64, outward: bool) -> (r: Option<(u64, u64)>)
    requires
        off + len + PAGE <= u64::MAX,
    ensures
        ({
            let (s, e) = advice_range(off as int, len as int, file_end as int, outward);
            r == (if e <= s {
                None
            } else {
                Some((s as u64, e as u64))
            })
        }),
{
    let end: u64 = off + len;
    proof {
        lemma_align_up(off as int, PAGE as int);
        lemma_align_up(end as int, PAGE as int);
    }
    let (s, e) = if outward {
        let up: u64 = (end + (PAGE - 1)) / PAGE * PAGE;
        (off / PAGE * PAGE, if up < file_end { up } else { file_end })
    } else {
        let cap: u64 = if end < file_end { end } else { file_end };
        ((off + (PAGE - 1)) / PAGE * PAGE, cap / PAGE * PAGE)
    };
    if e <= s {
        None
    } else {
        Some((s, e))
    }
}

/// The bytes of the routed experts among the first `n` tensors.
pub open spec fn expert_bytes_of(list: Seq<(String, Entry)>, n: int) -> int
    decreases n,
{
    if n <= 0 {
        0
    } else if expert_name(list[n - 1].0@) {
        expert_bytes_of(list, n - 1) + list[n - 1].1.size
    } else {
        expert_bytes_of(list, n - 1)
    }
}

proof fn lemma_expert_bytes_rise(list: Seq<(String, Entry)>, n: int, m: int)
    requires
        0 <= n <= m <= list.len(),
    ensures
        0 <= expert_bytes_of(list, n) <= expert_bytes_of(list, m),
    decreases m,
{
    if m > 0 {
        let k = if n < m { n } else { n - 1 };
        lemma_expert_bytes_rise(list, k, m - 1);
    }
}

/// The bytes of a file that are not a routed expert's.
pub fn spine_bytes(dir: &Directory, file_len: u64) -> (n: u64)
    requires
        expert_bytes_of(dir.list@, dir.list@.len() as int) <= file_len,
    ensures
        n == file_len - expert_bytes_of(dir.list@, dir.list@.len() as int),
{
    let total: usize = dir.list.len();
    let mut sum: u64 = 0;
    for i in 0..total
        invariant
            total == dir.list@.len(),
            expert_bytes_of(dir.list@, total as int) <= file_len,
            sum == expert_bytes_of(dir.list@, i as int),
    {
        proof {
            lemma_expert_bytes_rise(dir.list@, i + 1, total as int);
        }
        if is_expert_tensor(dir.list[i].0.as_str()) {
            sum = sum + dir.list[i].1.size;
        }
    }
    file_len - sum
}

/// What the gaps hold, one behind the other.
pub open spec fn gap_bytes(file: Seq<u8>, gaps: Seq<(u64, u64)>) -> Seq<u8>
    decreases gaps.len(),
{
    if gaps.len() == 0 {
        Seq::empty()
    } else {
        file.subrange(gaps[0].0 as int, gaps[0].1 as int) + gap_bytes(file, gaps.skip(1))
    }
}

/// Reading the gaps between the spans one behind the other gives the spine.
pub proof fn law_gaps_make_the_spine(file: Seq<u8>, s: Seq<(u64, u64)>)
    requires
        file.len() <= u64::MAX,
    ensures
        gap_bytes(file, gaps_from(s, file.len() as u64, 0, 0)) == spine(file, s),
        gaps_from(s, file.len() as u64, 0, 0).len() == s.len() + 1,
{
    lemma_gaps(file, s, 0, 0);
}

proof fn lemma_gaps(file: Seq<u8>, s: Seq<(u64, u64)>, k: int, cursor: u64)
    requires
        file.len() <= u64::MAX,
        0 <= k <= s.len(),
    ensures
        gap_bytes(file, gaps_from(s, file.len() as u64, k, cursor)) == spine_from(
            file,
            s,
            k,
            cursor as int,
        ),
        gaps_from(s, file.len() as u64, k, cursor).len() == s.len() - k + 1,
    decreases s.len() - k,
{
    let gaps = gaps_from(s, file.len() as u64, k, cursor);
    if k < s.len() {
        lemma_gaps(file, s, k + 1, s[k].1);
        assert(gaps.skip(1) =~= gaps_from(s, file.len() as u64, k + 1, s[k].1));
    } else {
        assert(gaps.skip(1) =~= Seq::<(u64, u64)>::empty());
        assert(gap_bytes(file, gaps.skip(1)) =~= Seq::<u8>::empty());
        assert(gap_bytes(file, gaps) =~= file.subrange(cursor as int, file.len() as int));
    }
}

/// No byte of a gap lies in a span, and each byte outside the spans lies in a gap.
pub proof fn law_gaps_are_what_spans_leave(s: Seq<(u64, u64)>, file_len: u64, b: int)
    requires
        separated(s),
        s.len() > 0 ==> s.last().1 <= file_len,
        0 <= b < file_len,
    ensures
        covered(gaps_from(s, file_len, 0, 0), b) <==> !covered(s, b),
{
    lemma_gaps_cover(s, file_len, 0, 0, b);
}

proof fn lemma_gaps_cover(s: Seq<(u64, u64)>, file_len: u64, k: int, cursor: u64, b: int)
    requires
        separated(s),
        s.len() > 0 ==> s.last().1 <= file_len,
        0 <= k <= s.len(),
        k == 0 ==> cursor == 0,
        k > 0 ==> cursor == s[k - 1].1,
        0 <= b < file_len,
    ensures
        covered(gaps_from(s, file_len, k, cursor), b) <==> cursor <= b && forall|i: int|
            k <= i < s.len() ==> !((#[trigger] s[i]).0 <= b < s[i].1),
    decreases s.len() - k,
{
    let gaps = gaps_from(s, file_len, k, cursor);
    if k < s.len() {
        lemma_gaps_cover(s, file_len, k + 1, s[k].1, b);
        let rest = gaps_from(s, file_len, k + 1, s[k].1);
        assert(gaps[0] == (cursor, s[k].0));
        assert(cursor <= s[k].0) by {
            if k > 0 {
                assert(s[k - 1].1 < s[k].0);
            }
        }
        assert(s[k].0 <= s[k].1);
        if covered(gaps, b) {
            let i = choose|i: int| 0 <= i < gaps.len() && (#[trigger] gaps[i]).0 <= b < gaps[i].1;
            if i > 0 {
                assert(gaps[i] == rest[i - 1]);
                assert(covered(rest, b));
            } else {
                assert forall|j: int| k <= j < s.len() implies !((#[trigger] s[j]).0 <= b
                    < s[j].1) by {
                    if j > k {
                        assert(s[k].1 < s[j].0);
                    }
                }
            }
        }
        if cursor <= b && (forall|i: int|
            k <= i < s.len() ==> !((#[trigger] s[i]).0 <= b < s[i].1)) {
            assert(!(s[k].0 <= b < s[k].1));
            if b < s[k].0 {
                assert(gaps[0].0 <= b < gaps[0].1);
            } else {
                assert(covered(rest, b));
                let i = choose|i: int|
                    0 <= i < rest.len() && (#[trigger] rest[i]).0 <= b < rest[i].1;
                assert(gaps[i + 1] == rest[i]);
            }
        }
    } else {
        assert(gaps[0] == (cursor, file_len));
    }
}

/// Advice speaks of whole pages: what is to be read in takes every page that the range
/// touches, what is to be dropped only pages that lie in it.
pub proof fn law_advice_speaks_of_whole_pages(off: int, len: int, file_end: int)
    requires
        0 <= off,
        0 <= len,
        off + len <= file_end,
    ensures
        ({
            let (a, b) = advice_range(off, len, file_end, true);
            let (c, d) = advice_range(off, len, file_end, false);
            &&& a % 4096 == 0 && a <= off < a + 4096
            &&& off + len <= b <= file_end && b < off + len + 4096
            &&& b % 4096 == 0 || b == file_end
            &&& c % 4096 == 0 && off <= c < off + 4096
            &&& d % 4096 == 0 && d <= off + len < d + 4096
        }),
{
    crate::weights::lemma_align_up(off + len, 4096);
    crate::weights::lemma_align_up(off, 4096);
}

} // verus!
