//! Cutting rows and columns out of matrices, whole or in chunks of rows.

use crate::rank::ascending;
use crate::slice_roles::Role;
use crate::weights::product;
use vstd::prelude::*;

verus! {

/// Values per chunk of rows.
pub const CHUNK_VALS: usize = 0x400_0000;

/// The numbers below `n`, in order.
pub open spec fn iota(n: int) -> Seq<usize> {
    Seq::new(n as nat, |i: int| i as usize)
}

/// The numbers below `n`.
pub fn first_numbers(n: usize) -> (out: Vec<usize>)
    ensures
        out@ == iota(n as int),
{
    let mut out: Vec<usize> = Vec::with_capacity(n);
    for i in 0..n
        invariant
            out@ == iota(i as int),
    {
        out.push(i);
        proof {
            assert(iota(i as int).push(i) =~= iota(i + 1));
        }
    }
    out
}

/// The rows of a tensor: a vector is one row.
pub open spec fn rows_in(dims: Seq<u32>) -> int {
    if dims.len() <= 1 {
        1
    } else {
        dims[0] as int
    }
}

/// The values of a row.
pub open spec fn width_in(dims: Seq<u32>) -> nat {
    if dims.len() <= 1 {
        dims[0] as nat
    } else {
        product(dims.skip(1))
    }
}

/// The rows of a tensor.
pub fn n_rows(dims: &[u32]) -> (n: usize)
    ensures
        n == rows_in(dims@),
{
    if dims.len() <= 1 {
        1
    } else {
        dims[0] as usize
    }
}

/// The values of a row of a tensor.
pub fn row_width(dims: &[u32]) -> (n: usize)
    requires
        dims@.len() >= 1,
        forall|i: int| 1 <= i <= dims@.len() ==> product(#[trigger] dims@.subrange(1, i)) <= usize::MAX,
    ensures
        n == width_in(dims@),
{
    if dims.len() == 1 {
        return dims[0] as usize;
    }
    let mut n: usize = 1;
    proof {
        assert(dims@.subrange(1, 1) =~= Seq::<u32>::empty());
    }
    for i in 1..dims.len()
        invariant
            n == product(dims@.subrange(1, i as int)),
            forall|j: int|
                1 <= j <= dims@.len() ==> product(#[trigger] dims@.subrange(1, j)) <= usize::MAX,
    {
        proof {
            assert(dims@.subrange(1, i + 1).drop_last() =~= dims@.subrange(1, i as int));
            assert(product(dims@.subrange(1, i + 1)) <= usize::MAX);
        }
        n = n * (dims[i] as usize);
    }
    proof {
        assert(dims@.subrange(1, dims@.len() as int) =~= dims@.skip(1));
    }
    n
}

/// The rows of a chunk: as many as hold the chunk's values, at least one.
pub open spec fn chunk_rows(cols: int) -> int {
    let per = 0x400_0000int / if cols > 1 {
        cols
    } else {
        1
    };
    if per > 1 {
        per
    } else {
        1
    }
}

/// Chunk `k` of `rows` rows.
pub open spec fn chunk_at(rows: int, per: int, k: int) -> (usize, usize) {
    ((k * per) as usize, if (k + 1) * per < rows {
        ((k + 1) * per) as usize
    } else {
        rows as usize
    })
}

/// Where the chunk before `i` ends.
pub open spec fn prev_end(chunks: Seq<(usize, usize)>, i: int) -> int {
    if i == 0 {
        0
    } else {
        chunks[i - 1].1 as int
    }
}

/// The chunks lie end to end from 0 to `rows`, and none is empty.
pub open spec fn end_to_end(chunks: Seq<(usize, usize)>, rows: int) -> bool {
    &&& forall|i: int| 0 <= i < chunks.len() ==> (#[trigger] chunks[i]).0 < chunks[i].1
    &&& forall|i: int| 0 <= i < chunks.len() ==> chunks[i].0 == #[trigger] prev_end(chunks, i)
    &&& if chunks.len() == 0 {
        rows == 0
    } else {
        chunks.last().1 == rows
    }
}

/// Cuts rows into chunks.
pub fn row_chunks(rows: usize, cols: usize) -> (out: Vec<(usize, usize)>)
    ensures
        end_to_end(out@, rows as int),
        forall|k: int|
            0 <= k < out@.len() ==> #[trigger] out@[k] == chunk_at(
                rows as int,
                chunk_rows(cols as int),
                k,
            ),
{
    let width: usize = if cols > 1 {
        cols
    } else {
        1
    };
    let mut per: usize = CHUNK_VALS / width;
    if per < 1 {
        per = 1;
    }
    let mut out: Vec<(usize, usize)> = Vec::new();
    let mut r0: usize = 0;
    let ghost mut k: int = 0;
    while r0 < rows
        invariant
            per == chunk_rows(cols as int),
            per >= 1,
            r0 <= rows,
            k == out@.len(),
            r0 == prev_end(out@, k),
            r0 == k * per || r0 == rows,
            forall|i: int| 0 <= i < k ==> (#[trigger] out@[i]).0 < out@[i].1,
            forall|i: int| 0 <= i < k ==> out@[i].0 == #[trigger] prev_end(out@, i),
            forall|i: int|
                0 <= i < k ==> #[trigger] out@[i] == chunk_at(rows as int, per as int, i),
        decreases rows - r0,
    {
        let r1: usize = if rows - r0 > per {
            r0 + per
        } else {
            rows
        };
        proof {
            assert((k + 1) * per == k * per + per) by (nonlinear_arith);
        }
        let ghost before = out@;
        out.push((r0, r1));
        proof {
            assert forall|i: int| 0 <= i < k + 1 implies out@[i].0 == #[trigger] prev_end(
                out@,
                i,
            ) by {
                assert(prev_end(out@, i) == prev_end(before, i));
            }
            assert(out@[k] == chunk_at(rows as int, per as int, k));
            k = k + 1;
        }
        r0 = r1;
    }
    out
}

/// The values of row `r` at some columns.
pub open spec fn row_part<T>(w: Seq<T>, c: int, r: int, cols: Seq<usize>) -> Seq<T> {
    Seq::new(cols.len(), |j: int| w[r * c + cols[j]])
}

/// Some columns of some rows of a matrix of width `c`, row after row.
pub open spec fn gathered<T>(w: Seq<T>, c: int, rows: Seq<usize>, cols: Seq<usize>) -> Seq<T>
    decreases rows.len(),
{
    if rows.len() == 0 {
        Seq::empty()
    } else {
        gathered(w, c, rows.drop_last(), cols) + row_part(w, c, rows.last() as int, cols)
    }
}

/// The rows and columns exist.
pub open spec fn inside(len: int, c: int, rows: Seq<usize>, cols: Seq<usize>) -> bool {
    &&& forall|i: int| 0 <= i < rows.len() ==> ((#[trigger] rows[i]) + 1) * c <= len
    &&& forall|j: int| 0 <= j < cols.len() ==> (#[trigger] cols[j]) < c
}

/// Takes some columns of some rows of a matrix of width `c`.
pub fn gather<T: Copy>(w: &[T], c: usize, rows: &[usize], cols: &[usize]) -> (out: Vec<T>)
    requires
        inside(w@.len() as int, c as int, rows@, cols@),
    ensures
        out@ == gathered(w@, c as int, rows@, cols@),
{
    let total: usize = w.len();
    let mut out: Vec<T> = Vec::new();
    for i in 0..rows.len()
        invariant
            total == w@.len(),
            inside(w@.len() as int, c as int, rows@, cols@),
            out@ == gathered(w@, c as int, rows@.take(i as int), cols@),
    {
        let r: usize = rows[i];
        let ghost start = out@;
        if cols.len() > 0 {
            proof {
                assert(0 <= r * c && r * c + c <= total) by (nonlinear_arith)
                    requires
                        (r + 1) * c <= total,
                        r >= 0,
                        c >= 0,
                ;
            }
            let base: usize = r * c;
            for j in 0..cols.len()
                invariant
                    total == w@.len(),
                    base == r * c,
                    base + c <= total,
                    inside(w@.len() as int, c as int, rows@, cols@),
                    out@ == start + row_part(w@, c as int, r as int, cols@).take(j as int),
            {
                proof {
                    assert(cols@[j as int] < c);
                }
                out.push(w[base + cols[j]]);
                proof {
                    let part = row_part(w@, c as int, r as int, cols@);
                    assert(part.take(j + 1) =~= part.take(j as int).push(part[j as int]));
                    assert(out@ =~= start + part.take(j + 1));
                }
            }
        }
        proof {
            let part = row_part(w@, c as int, r as int, cols@);
            assert(part.take(cols@.len() as int) =~= part);
            assert(out@ =~= start + part);
            assert(rows@.take(i + 1).drop_last() =~= rows@.take(i as int));
        }
    }
    proof {
        assert(rows@.take(rows@.len() as int) =~= rows@);
    }
    out
}

/// As many values as rows times columns.
pub proof fn lemma_gathered_len<T>(w: Seq<T>, c: int, rows: Seq<usize>, cols: Seq<usize>)
    ensures
        gathered(w, c, rows, cols).len() == rows.len() * cols.len(),
    decreases rows.len(),
{
    if rows.len() > 0 {
        lemma_gathered_len(w, c, rows.drop_last(), cols);
        assert(rows.len() * cols.len() == (rows.len() - 1) * cols.len() + cols.len())
            by (nonlinear_arith);
    } else {
        assert(0 * cols.len() == 0);
    }
}

/// Value `j` of row `i`.
pub proof fn lemma_gathered_index<T>(
    w: Seq<T>,
    c: int,
    rows: Seq<usize>,
    cols: Seq<usize>,
    i: int,
    j: int,
)
    requires
        0 <= i < rows.len(),
        0 <= j < cols.len(),
    ensures
        0 <= i * cols.len() + j < gathered(w, c, rows, cols).len(),
        gathered(w, c, rows, cols)[i * cols.len() + j] == w[rows[i] * c + cols[j]],
    decreases rows.len(),
{
    let front = rows.drop_last();
    lemma_gathered_len(w, c, rows, cols);
    lemma_gathered_len(w, c, front, cols);
    let n = cols.len() as int;
    assert(0 <= i * n) by (nonlinear_arith)
        requires
            i >= 0,
            n >= 0,
    ;
    if i < front.len() {
        lemma_gathered_index(w, c, front, cols, i, j);
        assert(i * n + n <= front.len() * n) by (nonlinear_arith)
            requires
                i + 1 <= front.len(),
                n >= 0,
        ;
        assert(front.len() * n + n == rows.len() * n) by (nonlinear_arith)
            requires
                front.len() + 1 == rows.len(),
        ;
    } else {
        assert(i == front.len());
        assert(front.len() * n + n == rows.len() * n) by (nonlinear_arith)
            requires
                front.len() + 1 == rows.len(),
        ;
    }
}

/// Rows behind one another are cut behind one another.
pub proof fn lemma_gathered_concat<T>(
    w: Seq<T>,
    c: int,
    a: Seq<usize>,
    b: Seq<usize>,
    cols: Seq<usize>,
)
    ensures
        gathered(w, c, a + b, cols) == gathered(w, c, a, cols) + gathered(w, c, b, cols),
    decreases b.len(),
{
    if b.len() == 0 {
        assert(a + b =~= a);
        assert(gathered(w, c, a, cols) + gathered(w, c, b, cols) =~= gathered(w, c, a, cols));
    } else {
        lemma_gathered_concat(w, c, a, b.drop_last(), cols);
        assert((a + b).drop_last() =~= a + b.drop_last());
        assert((a + b).last() == b.last());
        assert(gathered(w, c, a + b, cols) =~= gathered(w, c, a, cols) + gathered(w, c, b, cols));
    }
}

/// The items below `x` of an ascending list.
pub open spec fn below(s: Seq<usize>, x: int) -> int
    decreases s.len(),
{
    if s.len() == 0 || s.last() < x {
        s.len() as int
    } else {
        below(s.drop_last(), x)
    }
}

/// What is below a bound and what is not.
pub proof fn lemma_below(s: Seq<usize>, x: int)
    requires
        ascending(s),
    ensures
        0 <= below(s, x) <= s.len(),
        forall|i: int| 0 <= i < below(s, x) ==> (#[trigger] s[i]) < x,
        forall|i: int| below(s, x) <= i < s.len() ==> (#[trigger] s[i]) >= x,
    decreases s.len(),
{
    if s.len() > 0 {
        if s.last() < x {
            assert forall|i: int| 0 <= i < s.len() implies (#[trigger] s[i]) < x by {
                if i < s.len() - 1 {
                    assert(s[i] < s[s.len() - 1]);
                }
            }
        } else {
            let t = s.drop_last();
            assert(ascending(t)) by {
                assert forall|p: int, q: int| 0 <= p < q < t.len() implies #[trigger] t[p]
                    < #[trigger] t[q] by {
                    assert(s[p] < s[q]);
                }
            }
            lemma_below(t, x);
            assert forall|i: int| 0 <= i < below(s, x) implies (#[trigger] s[i]) < x by {
                assert(t[i] < x);
            }
            assert forall|i: int| below(s, x) <= i < s.len() implies (#[trigger] s[i]) >= x by {
                if i < t.len() {
                    assert(t[i] >= x);
                }
            }
        }
    }
}

fn count_below(s: &[usize], x: usize) -> (n: usize)
    requires
        ascending(s@),
    ensures
        n == below(s@, x as int),
        n <= s@.len(),
{
    let mut n: usize = s.len();
    proof {
        assert(s@.take(n as int) =~= s@);
    }
    while n > 0 && s[n - 1] >= x
        invariant
            n <= s@.len(),
            below(s@, x as int) == below(s@.take(n as int), x as int),
        decreases n,
    {
        proof {
            assert(s@.take(n as int).drop_last() =~= s@.take(n - 1));
        }
        n -= 1;
    }
    n
}

/// The listed rows from `r0` to `r1`, counted from `r0`.
pub open spec fn rows_between(s: Seq<usize>, r0: int, r1: int) -> Seq<usize> {
    let part = s.subrange(below(s, r0), below(s, r1));
    Seq::new(part.len(), |i: int| (part[i] - r0) as usize)
}

fn list_between(s: &[usize], r0: usize, r1: usize) -> (out: Vec<usize>)
    requires
        ascending(s@),
        r0 <= r1,
    ensures
        out@ == rows_between(s@, r0 as int, r1 as int),
        forall|i: int| 0 <= i < out@.len() ==> (#[trigger] out@[i]) < r1 - r0,
{
    let lo: usize = count_below(s, r0);
    let hi: usize = count_below(s, r1);
    proof {
        lemma_below(s@, r0 as int);
        lemma_below(s@, r1 as int);
        if lo > hi {
            assert(s@[hi as int] < r0 && s@[hi as int] >= r1);
        }
    }
    let mut out: Vec<usize> = Vec::new();
    for i in lo..hi
        invariant
            lo <= hi <= s@.len(),
            hi == below(s@, r1 as int),
            lo == below(s@, r0 as int),
            ascending(s@),
            out@.len() == i - lo,
            forall|k: int| 0 <= k < out@.len() ==> #[trigger] out@[k] == s@[lo + k] - r0,
            forall|k: int| 0 <= k < out@.len() ==> (#[trigger] out@[k]) < r1 - r0,
    {
        proof {
            lemma_below(s@, r0 as int);
            lemma_below(s@, r1 as int);
        }
        out.push(s[i] - r0);
    }
    proof {
        assert(out@ =~= rows_between(s@, r0 as int, r1 as int));
    }
    out
}

/// The chunk of rows `r0` to `r1` of what is cut out of a matrix: the listed rows
/// among them, at some columns. `vals` holds those rows.
pub open spec fn chunk_cut<T>(
    vals: Seq<T>,
    c: int,
    rows: Seq<usize>,
    cols: Seq<usize>,
    r0: int,
    r1: int,
) -> Seq<T> {
    gathered(vals, c, rows_between(rows, r0, r1), cols)
}

/// Whole rows, at some columns, of a chunk of rows.
pub open spec fn cols_cut<T>(vals: Seq<T>, c: int, n: int, cols: Seq<usize>) -> Seq<T> {
    gathered(vals, c, iota(n), cols)
}

proof fn lemma_rows_inside(len: int, c: int, n: int, rows: Seq<usize>, cols: Seq<usize>)
    requires
        n * c <= len,
        c >= 0,
        forall|i: int| 0 <= i < rows.len() ==> (#[trigger] rows[i]) < n,
        forall|j: int| 0 <= j < cols.len() ==> (#[trigger] cols[j]) < c,
    ensures
        inside(len, c, rows, cols),
{
    assert forall|i: int| 0 <= i < rows.len() implies ((#[trigger] rows[i]) + 1) * c <= len by {
        let r = rows[i] as int;
        assert((r + 1) * c <= n * c) by (nonlinear_arith)
            requires
                r + 1 <= n,
                c >= 0,
        ;
    }
}

/// What `slice_f32_rows` cuts: hidden columns of every row, or the hidden rows whole.
pub open spec fn rows_cut<T>(
    role: Role,
    vals: Seq<T>,
    r0: int,
    r1: int,
    cols: int,
    ch: Seq<usize>,
) -> Seq<T> {
    if role == Role::ColsD {
        cols_cut(vals, cols, r1 - r0, ch)
    } else {
        chunk_cut(vals, cols, ch, iota(cols), r0, r1)
    }
}

/// Slices a chunk of rows of a tensor that is cut along one axis.
pub fn slice_f32_rows<T: Copy>(
    role: Role,
    vals: &[T],
    r0: usize,
    r1: usize,
    cols: usize,
    ch: &[usize],
) -> (out: Vec<T>)
    requires
        role == Role::ColsD || role == Role::RowsD,
        r0 <= r1,
        vals@.len() == (r1 - r0) * cols,
        ascending(ch@),
        role == Role::ColsD ==> forall|j: int| 0 <= j < ch@.len() ==> (#[trigger] ch@[j]) < cols,
    ensures
        out@ == rows_cut(role, vals@, r0 as int, r1 as int, cols as int, ch@),
{
    if role == Role::ColsD {
        let rows: Vec<usize> = first_numbers(r1 - r0);
        proof {
            lemma_rows_inside(vals@.len() as int, cols as int, r1 - r0, rows@, ch@);
        }
        gather(vals, cols, rows.as_slice(), ch)
    } else {
        let rows: Vec<usize> = list_between(ch, r0, r1);
        let all: Vec<usize> = first_numbers(cols);
        proof {
            lemma_rows_inside(vals@.len() as int, cols as int, r1 - r0, rows@, all@);
        }
        gather(vals, cols, rows.as_slice(), all.as_slice())
    }
}

/// Slices a chunk of rows of a vocabulary matrix: the kept rows among them, at the
/// hidden columns.
pub fn slice_vocab_rows<T: Copy>(
    vals: &[T],
    r0: usize,
    r1: usize,
    cols: usize,
    ch: &[usize],
    keep: &[usize],
) -> (out: Vec<T>)
    requires
        r0 <= r1,
        vals@.len() == (r1 - r0) * cols,
        ascending(keep@),
        forall|j: int| 0 <= j < ch@.len() ==> (#[trigger] ch@[j]) < cols,
    ensures
        out@ == chunk_cut(vals@, cols as int, keep@, ch@, r0 as int, r1 as int),
{
    let rows: Vec<usize> = list_between(keep, r0, r1);
    proof {
        lemma_rows_inside(vals@.len() as int, cols as int, r1 - r0, rows@, ch@);
    }
    gather(vals, cols, rows.as_slice(), ch)
}

/// Rows shifted together with their matrix give the same values.
proof fn lemma_gathered_shift<T>(
    w: Seq<T>,
    c: int,
    a: int,
    b: int,
    rows: Seq<usize>,
    cols: Seq<usize>,
)
    requires
        0 <= a <= b,
        c >= 0,
        0 <= a * c,
        b * c <= w.len(),
        forall|i: int| 0 <= i < rows.len() ==> a <= (#[trigger] rows[i]) < b,
        forall|j: int| 0 <= j < cols.len() ==> (#[trigger] cols[j]) < c,
    ensures
        gathered(
            w.subrange(a * c, b * c),
            c,
            Seq::new(rows.len(), |i: int| (rows[i] - a) as usize),
            cols,
        ) == gathered(w, c, rows, cols),
    decreases rows.len(),
{
    let shifted = Seq::new(rows.len(), |i: int| (rows[i] - a) as usize);
    let sub = w.subrange(a * c, b * c);
    if rows.len() > 0 {
        let front = rows.drop_last();
        lemma_gathered_shift(w, c, a, b, front, cols);
        assert(shifted.drop_last() =~= Seq::new(front.len(), |i: int| (front[i] - a) as usize));
        let r = rows.last() as int;
        assert(a <= rows[rows.len() - 1] < b);
        assert(shifted.last() == r - a);
        assert(row_part(sub, c, r - a, cols) =~= row_part(w, c, r, cols)) by {
            assert forall|j: int| 0 <= j < cols.len() implies sub[(r - a) * c + cols[j]] == w[r * c
                + cols[j]] by {
                let x = cols[j] as int;
                assert(cols[j] < c);
                assert((r - a) * c == r * c - a * c) by (nonlinear_arith);
                assert(r * c + c <= b * c) by (nonlinear_arith)
                    requires
                        r + 1 <= b,
                        c >= 0,
                ;
                assert(a * c <= r * c) by (nonlinear_arith)
                    requires
                        a <= r,
                        c >= 0,
                ;
            }
        }
    }
}

/// A chunk holds what the whole cut holds of its rows.
proof fn lemma_chunk_is_part<T>(
    w: Seq<T>,
    c: int,
    rows: Seq<usize>,
    cols: Seq<usize>,
    a: int,
    b: int,
)
    requires
        ascending(rows),
        0 <= a <= b,
        c >= 0,
        b * c <= w.len(),
        forall|j: int| 0 <= j < cols.len() ==> (#[trigger] cols[j]) < c,
    ensures
        0 <= a * c <= b * c,
        0 <= below(rows, a) <= below(rows, b) <= rows.len(),
        chunk_cut(w.subrange(a * c, b * c), c, rows, cols, a, b) == gathered(
            w,
            c,
            rows.subrange(below(rows, a), below(rows, b)),
            cols,
        ),
{
    assert(0 <= a * c <= b * c) by (nonlinear_arith)
        requires
            0 <= a <= b,
            c >= 0,
    ;
    lemma_below(rows, a);
    lemma_below(rows, b);
    if below(rows, a) > below(rows, b) {
        assert(rows[below(rows, b)] < a && rows[below(rows, b)] >= b);
    }
    let part = rows.subrange(below(rows, a), below(rows, b));
    assert forall|i: int| 0 <= i < part.len() implies a <= (#[trigger] part[i]) < b by {
        assert(part[i] == rows[below(rows, a) + i]);
    }
    lemma_gathered_shift(w, c, a, b, part, cols);
    assert(rows_between(rows, a, b) =~= Seq::new(part.len(), |i: int| (part[i] - a) as usize));
}

/// What the first `n` chunks give, one behind the other.
pub open spec fn chunks_joined<T>(
    w: Seq<T>,
    c: int,
    rows: Seq<usize>,
    cols: Seq<usize>,
    chunks: Seq<(usize, usize)>,
    n: int,
) -> Seq<T>
    decreases n,
{
    if n <= 0 {
        Seq::empty()
    } else {
        let a = chunks[n - 1].0 as int;
        let b = chunks[n - 1].1 as int;
        chunks_joined(w, c, rows, cols, chunks, n - 1) + chunk_cut(
            w.subrange(a * c, b * c),
            c,
            rows,
            cols,
            a,
            b,
        )
    }
}

proof fn lemma_chunks_prefix<T>(
    w: Seq<T>,
    c: int,
    rows: Seq<usize>,
    cols: Seq<usize>,
    chunks: Seq<(usize, usize)>,
    total: int,
    n: int,
)
    requires
        ascending(rows),
        end_to_end(chunks, total),
        c >= 0,
        total * c <= w.len(),
        0 <= n <= chunks.len(),
        forall|j: int| 0 <= j < cols.len() ==> (#[trigger] cols[j]) < c,
    ensures
        ({
            let end = prev_end(chunks, n);
            &&& 0 <= below(rows, end) <= rows.len()
            &&& chunks_joined(w, c, rows, cols, chunks, n) == gathered(
                w,
                c,
                rows.take(below(rows, end)),
                cols,
            )
        }),
    decreases n,
{
    if n == 0 {
        lemma_below(rows, 0);
        assert(below(rows, 0) == 0) by {
            if below(rows, 0) > 0 {
                assert(rows[0] < 0);
            }
        }
        assert(rows.take(0) =~= Seq::<usize>::empty());
    } else {
        lemma_chunks_prefix(w, c, rows, cols, chunks, total, n - 1);
        let a = chunks[n - 1].0 as int;
        let b = chunks[n - 1].1 as int;
        lemma_chunk_end(chunks, total, n - 1);
        assert(a == prev_end(chunks, n - 1));
        assert(chunks[n - 1].0 < chunks[n - 1].1);
        assert(b * c <= total * c) by (nonlinear_arith)
            requires
                b <= total,
                c >= 0,
        ;
        lemma_chunk_is_part(w, c, rows, cols, a, b);
        let lo = below(rows, a);
        let hi = below(rows, b);
        lemma_gathered_concat(w, c, rows.take(lo), rows.subrange(lo, hi), cols);
        assert(rows.take(lo) + rows.subrange(lo, hi) =~= rows.take(hi));
    }
}

proof fn lemma_chunk_end(chunks: Seq<(usize, usize)>, total: int, i: int)
    requires
        end_to_end(chunks, total),
        0 <= i < chunks.len(),
    ensures
        chunks[i].1 <= total,
    decreases chunks.len() - i,
{
    if i < chunks.len() - 1 {
        lemma_chunk_end(chunks, total, i + 1);
        assert(chunks[i + 1].0 == prev_end(chunks, i + 1));
        assert(chunks[i + 1].0 < chunks[i + 1].1);
    }
}

/// Cutting a matrix chunk by chunk gives what cutting it whole gives.
pub proof fn law_chunks_rebuild_the_cut<T>(
    w: Seq<T>,
    c: int,
    rows: Seq<usize>,
    cols: Seq<usize>,
    chunks: Seq<(usize, usize)>,
    total: int,
)
    requires
        ascending(rows),
        end_to_end(chunks, total),
        c >= 0,
        total * c <= w.len(),
        forall|i: int| 0 <= i < rows.len() ==> (#[trigger] rows[i]) < total,
        forall|j: int| 0 <= j < cols.len() ==> (#[trigger] cols[j]) < c,
    ensures
        chunks_joined(w, c, rows, cols, chunks, chunks.len() as int) == gathered(w, c, rows, cols),
{
    let n = chunks.len() as int;
    lemma_chunks_prefix(w, c, rows, cols, chunks, total, n);
    assert(prev_end(chunks, n) == total);
    lemma_below(rows, total);
    if below(rows, total) < rows.len() {
        assert(rows[below(rows, total)] >= total);
    }
    assert(rows.take(rows.len() as int) =~= rows);
}

/// Hidden columns of whole rows are the cut that lists every row.
proof fn lemma_cols_cut_lists_all<T>(
    vals: Seq<T>,
    c: int,
    r0: int,
    r1: int,
    cols: Seq<usize>,
    total: int,
)
    requires
        0 <= r0 <= r1 <= total <= usize::MAX,
    ensures
        cols_cut(vals, c, r1 - r0, cols) == chunk_cut(vals, c, iota(total), cols, r0, r1),
{
    let all = iota(total);
    assert(ascending(all));
    lemma_iota_below(total, r0);
    lemma_iota_below(total, r1);
    assert(rows_between(all, r0, r1) =~= iota(r1 - r0));
}

proof fn lemma_iota_below(n: int, x: int)
    requires
        0 <= x <= n <= usize::MAX,
    ensures
        below(iota(n), x) == x,
{
    let all = iota(n);
    assert(ascending(all));
    lemma_below(all, x);
    let b = below(all, x);
    if b < x {
        assert(all[b] >= x);
    }
    if b > x {
        assert(all[x] < x);
    }
}

/// What slicing the first `n` chunks of a tensor by its role gives.
pub open spec fn rows_joined<T>(
    role: Role,
    w: Seq<T>,
    c: int,
    ch: Seq<usize>,
    chunks: Seq<(usize, usize)>,
    n: int,
) -> Seq<T>
    decreases n,
{
    if n <= 0 {
        Seq::empty()
    } else {
        let a = chunks[n - 1].0 as int;
        let b = chunks[n - 1].1 as int;
        rows_joined(role, w, c, ch, chunks, n - 1) + rows_cut(
            role,
            w.subrange(a * c, b * c),
            a,
            b,
            c,
            ch,
        )
    }
}

proof fn lemma_rows_joined<T>(
    role: Role,
    w: Seq<T>,
    c: int,
    ch: Seq<usize>,
    chunks: Seq<(usize, usize)>,
    total: int,
    n: int,
)
    requires
        role == Role::ColsD || role == Role::RowsD,
        end_to_end(chunks, total),
        total <= usize::MAX,
        0 <= n <= chunks.len(),
    ensures
        rows_joined(role, w, c, ch, chunks, n) == if role == Role::ColsD {
            chunks_joined(w, c, iota(total), ch, chunks, n)
        } else {
            chunks_joined(w, c, ch, iota(c), chunks, n)
        },
    decreases n,
{
    if n > 0 {
        lemma_rows_joined(role, w, c, ch, chunks, total, n - 1);
        let a = chunks[n - 1].0 as int;
        let b = chunks[n - 1].1 as int;
        lemma_chunk_end(chunks, total, n - 1);
        assert(chunks[n - 1].0 < chunks[n - 1].1);
        lemma_cols_cut_lists_all(w.subrange(a * c, b * c), c, a, b, ch, total);
    }
}

/// Slicing a tensor chunk by chunk gives the hidden columns of every row, or the
/// hidden rows whole, of the entire tensor.
pub proof fn law_sliced_chunks_rebuild_the_tensor<T>(
    role: Role,
    w: Seq<T>,
    c: int,
    ch: Seq<usize>,
    chunks: Seq<(usize, usize)>,
    total: int,
)
    requires
        role == Role::ColsD || role == Role::RowsD,
        end_to_end(chunks, total),
        0 <= c <= usize::MAX,
        total <= usize::MAX,
        total * c <= w.len(),
        ascending(ch),
        forall|j: int|
            0 <= j < ch.len() ==> (#[trigger] ch[j]) < if role == Role::ColsD {
                c
            } else {
                total
            },
    ensures
        rows_joined(role, w, c, ch, chunks, chunks.len() as int) == if role == Role::ColsD {
            gathered(w, c, iota(total), ch)
        } else {
            gathered(w, c, ch, iota(c))
        },
{
    lemma_rows_joined(role, w, c, ch, chunks, total, chunks.len() as int);
    if role == Role::ColsD {
        assert(ascending(iota(total)));
        law_chunks_rebuild_the_cut(w, c, iota(total), ch, chunks, total);
    } else {
        law_chunks_rebuild_the_cut(w, c, ch, iota(c), chunks, total);
    }
}

/// What a role cuts out of a tensor: the width to count by, the rows and the columns.
pub open spec fn cut_of(
    role: Role,
    dims: Seq<u32>,
    len: int,
    ch: Seq<usize>,
    experts: Option<Seq<usize>>,
) -> (int, Seq<usize>, Seq<usize>) {
    let r = dims[0] as int;
    let c = if dims.len() > 1 {
        dims[1] as int
    } else {
        1
    };
    let rows = match experts {
        Some(e) => e,
        None => iota(r),
    };
    match role {
        Role::VecD => (len, seq![0usize], ch),
        Role::ColsD => (c, iota(r), ch),
        Role::RowsD => (c, ch, iota(c)),
        Role::BothD => (c, ch, ch),
        Role::RouterW => (c, rows, ch),
        _ => (1, rows, seq![0usize]),
    }
}

/// The dimensions of what a role cuts out of a tensor; `rows` is the number of kept
/// vocabulary rows, where they are cut.
pub open spec fn cut_dims(
    role: Role,
    dims: Seq<u32>,
    channels: int,
    experts: Option<int>,
    rows: Option<int>,
) -> Seq<u32> {
    let r = dims[0] as int;
    let kept = match experts {
        Some(n) => n,
        None => r,
    };
    let out_rows = match rows {
        Some(n) => n,
        None => r,
    };
    match role {
        Role::Copy | Role::Expert => dims,
        Role::VecD => seq![channels as u32],
        Role::ColsD => seq![out_rows as u32, channels as u32],
        Role::RowsD => seq![channels as u32, dims[1]],
        Role::BothD => seq![channels as u32, channels as u32],
        Role::RouterW => seq![kept as u32, channels as u32],
        Role::RouterB => seq![kept as u32],
    }
}

/// The length of an optional list.
pub open spec fn opt_len(list: Option<Seq<usize>>) -> Option<int> {
    match list {
        Some(e) => Some(e.len() as int),
        None => None,
    }
}

/// The view of an optional list.
pub open spec fn opt_list(list: Option<&Vec<usize>>) -> Option<Seq<usize>> {
    match list {
        Some(e) => Some(e@),
        None => None,
    }
}

/// A tensor with `len` values can be sliced in a role.
pub open spec fn sliceable(
    role: Role,
    dims: Seq<u32>,
    len: int,
    ch: Seq<usize>,
    experts: Option<Seq<usize>>,
) -> bool {
    let (c, rows, cols) = cut_of(role, dims, len, ch, experts);
    &&& dims.len() >= 1
    &&& role == Role::RowsD || role == Role::BothD || role == Role::ColsD || role == Role::RouterW
        ==> dims.len() >= 2
    &&& role != Role::Copy && role != Role::Expert
    &&& role == Role::ColsD ==> len == dims[0] * dims[1]
    &&& inside(len, c, rows, cols)
    &&& ch.len() <= u32::MAX
    &&& experts is Some ==> experts->Some_0.len() <= u32::MAX
}

/// Slices a tensor by its role: the values and the new dimensions.
pub fn slice_f32<T: Copy>(
    dims: &[u32],
    w: &[T],
    role: Role,
    ch: &[usize],
    experts: Option<&Vec<usize>>,
) -> (out: (Vec<T>, Vec<u32>))
    requires
        sliceable(role, dims@, w@.len() as int, ch@, opt_list(experts)),
    ensures
        ({
            let (c, rows, cols) = cut_of(role, dims@, w@.len() as int, ch@, opt_list(experts));
            out.0@ == gathered(w@, c, rows, cols)
        }),
        out.1@ == cut_dims(
            role,
            dims@,
            ch@.len() as int,
            opt_len(opt_list(experts)),
            None,
        ),
{
    let r: usize = dims[0] as usize;
    let c: usize = if dims.len() > 1 {
        dims[1] as usize
    } else {
        1
    };
    let n: u32 = ch.len() as u32;
    let ghost want = cut_dims(
        role,
        dims@,
        ch@.len() as int,
        opt_len(opt_list(experts)),
        None,
    );
    match role {
        Role::VecD => {
            let one: Vec<usize> = vec![0];
            let shape: Vec<u32> = vec![n];
            proof {
                assert(one@ =~= seq![0usize]);
                assert(shape@ =~= want);
            }
            (gather(w, w.len(), one.as_slice(), ch), shape)
        },
        Role::ColsD => {
            let rows: Vec<usize> = first_numbers(r);
            let shape: Vec<u32> = vec![dims[0], n];
            proof {
                assert(shape@ =~= want);
            }
            (gather(w, c, rows.as_slice(), ch), shape)
        },
        Role::RowsD => {
            let cols: Vec<usize> = first_numbers(c);
            let shape: Vec<u32> = vec![n, dims[1]];
            proof {
                assert(shape@ =~= want);
            }
            (gather(w, c, ch, cols.as_slice()), shape)
        },
        Role::BothD => {
            let shape: Vec<u32> = vec![n, n];
            proof {
                assert(shape@ =~= want);
            }
            (gather(w, c, ch, ch), shape)
        },
        Role::RouterW => {
            match experts {
                Some(e) => {
                    let shape: Vec<u32> = vec![e.len() as u32, n];
                    proof {
                        assert(shape@ =~= want);
                    }
                    (gather(w, c, e.as_slice(), ch), shape)
                },
                None => {
                    let rows: Vec<usize> = first_numbers(r);
                    let shape: Vec<u32> = vec![dims[0], n];
                    proof {
                        assert(shape@ =~= want);
                    }
                    (gather(w, c, rows.as_slice(), ch), shape)
                },
            }
        },
        _ => {
            let one: Vec<usize> = vec![0];
            proof {
                assert(one@ =~= seq![0usize]);
            }
            match experts {
                Some(e) => {
                    let shape: Vec<u32> = vec![e.len() as u32];
                    proof {
                        assert(shape@ =~= want);
                    }
                    (gather(w, 1, e.as_slice(), one.as_slice()), shape)
                },
                None => {
                    let rows: Vec<usize> = first_numbers(r);
                    let shape: Vec<u32> = vec![dims[0]];
                    proof {
                        assert(shape@ =~= want);
                    }
                    (gather(w, 1, rows.as_slice(), one.as_slice()), shape)
                },
            }
        },
    }
}

/// A sliced tensor has as many values as its new dimensions say.
pub proof fn law_sliced_tensor_fits_its_dims<T>(
    role: Role,
    dims: Seq<u32>,
    w: Seq<T>,
    ch: Seq<usize>,
    experts: Option<Seq<usize>>,
)
    requires
        sliceable(role, dims, w.len() as int, ch, experts),
    ensures
        ({
            let (c, rows, cols) = cut_of(role, dims, w.len() as int, ch, experts);
            gathered(w, c, rows, cols).len() == product(
                cut_dims(role, dims, ch.len() as int, opt_len(experts), None),
            )
        }),
{
    let (c, rows, cols) = cut_of(role, dims, w.len() as int, ch, experts);
    let out = cut_dims(role, dims, ch.len() as int, opt_len(experts), None);
    lemma_gathered_len(w, c, rows, cols);
    if out.len() == 1 {
        lemma_product_one(out);
        assert(1 * cols.len() == cols.len());
        assert(rows.len() * 1 == rows.len());
    } else {
        lemma_product_two(out);
        assert(out[0] == rows.len() && out[1] == cols.len());
    }
}

proof fn lemma_product_one(dims: Seq<u32>)
    requires
        dims.len() == 1,
    ensures
        product(dims) == dims[0],
{
    assert(product(dims.drop_last()) == 1);
    assert(1 * (dims[0] as nat) == dims[0]);
}

/// The product of two dimensions.
pub proof fn lemma_product_two(dims: Seq<u32>)
    requires
        dims.len() == 2,
    ensures
        product(dims) == dims[0] * dims[1],
{
    lemma_product_one(dims.drop_last());
}

/// Slicing picks what is kept and nothing else: of a vector the kept channels, of a matrix
/// that reads the hidden state its columns at the kept channels, of one that adds to it its
/// rows there, of one that does both, both; of a router the rows of the kept experts in their
/// new order.
pub proof fn law_slicing_picks_what_is_kept<T>(
    role: Role,
    dims: Seq<u32>,
    w: Seq<T>,
    ch: Seq<usize>,
    experts: Option<Seq<usize>>,
    i: int,
    j: int,
)
    requires
        sliceable(role, dims, w.len() as int, ch, experts),
    ensures
        ({
            let (c, rows, cols) = cut_of(role, dims, w.len() as int, ch, experts);
            let out = gathered(w, c, rows, cols);
            let n = ch.len() as int;
            let (height, width) = (dims[0] as int, dims[1] as int);
            let row: int = if experts is Some {
                experts->Some_0[i] as int
            } else {
                i
            };
            let kept: int = if experts is Some {
                experts->Some_0.len() as int
            } else {
                height
            };
            &&& role == Role::VecD && 0 <= i < n ==> out[i] == w[ch[i] as int]
            &&& role == Role::ColsD && 0 <= i < height && 0 <= j < n ==> out[i * n + j] == w[i
                * width + ch[j]]
            &&& role == Role::RowsD && 0 <= i < n && 0 <= j < width ==> out[i * width + j]
                == w[ch[i] * width + j]
            &&& role == Role::BothD && 0 <= i < n && 0 <= j < n ==> out[i * n + j] == w[ch[i]
                * width + ch[j]]
            &&& role == Role::RouterW && 0 <= i < kept && 0 <= j < n ==> out[i * n + j] == w[row
                * width + ch[j]]
            &&& role == Role::RouterB && 0 <= i < kept ==> out[i] == w[row]
        }),
{
    let (c, rows, cols) = cut_of(role, dims, w.len() as int, ch, experts);
    if role == Role::VecD {
        if 0 <= i < ch.len() {
            lemma_gathered_index(w, c, rows, cols, 0, i);
            assert(0 * cols.len() + i == i);
            assert(rows[0] * c + cols[i] == cols[i]) by (nonlinear_arith)
                requires
                    rows[0] == 0,
            ;
        }
    } else if role == Role::RouterB {
        if 0 <= i < rows.len() {
            lemma_gathered_index(w, c, rows, cols, i, 0);
            assert(i * 1 + 0 == i);
            assert(rows[i] * 1 + 0 == rows[i]);
        }
    } else if 0 <= i < rows.len() && 0 <= j < cols.len() {
        lemma_gathered_index(w, c, rows, cols, i, j);
    }
}

/// A vocabulary matrix is cut to the kept rows and the kept channels.
pub proof fn law_vocabulary_rows_are_picked<T>(
    w: Seq<T>,
    width: int,
    keep: Seq<usize>,
    ch: Seq<usize>,
    i: int,
    j: int,
)
    requires
        0 <= i < keep.len(),
        0 <= j < ch.len(),
    ensures
        gathered(w, width, keep, ch).len() == keep.len() * ch.len(),
        gathered(w, width, keep, ch)[i * ch.len() + j] == w[keep[i] * width + ch[j]],
{
    lemma_gathered_len(w, width, keep, ch);
    lemma_gathered_index(w, width, keep, ch, i, j);
}

} // verus!
