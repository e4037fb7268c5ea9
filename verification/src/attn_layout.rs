//! How attention lays out its numbers: the convolution history of each channel, the heads
//! inside a projected row, and the rows of a key or value cache. `T` is their type.

use vstd::prelude::*;

verus! {

/// The history of a channel: the last inputs before the current one, oldest first.
pub open spec fn history<T>(conv: Seq<T>, k: int, i: int) -> Seq<T> {
    conv.subrange(i * (k - 1), i * (k - 1) + (k - 1))
}

/// A history once another input is in.
pub open spec fn shifted<T>(h: Seq<T>, a: T) -> Seq<T> {
    h.skip(1).push(a)
}

/// A history once several inputs are in.
pub open spec fn shifted_all<T>(h: Seq<T>, inputs: Seq<T>) -> Seq<T>
    decreases inputs.len(),
{
    if inputs.len() == 0 {
        h
    } else {
        shifted(shifted_all(h, inputs.drop_last()), inputs.last())
    }
}

/// A history always holds the latest inputs, in order.
pub proof fn law_history_is_the_latest<T>(h: Seq<T>, inputs: Seq<T>)
    requires
        h.len() > 0,
    ensures
        shifted_all(h, inputs) == (h + inputs).skip(inputs.len() as int),
    decreases inputs.len(),
{
    if inputs.len() == 0 {
        assert((h + inputs).skip(0) =~= h);
    } else {
        let before = inputs.drop_last();
        law_history_is_the_latest(h, before);
        assert(shifted_all(h, inputs) =~= (h + inputs).skip(inputs.len() as int));
    }
}

/// Shifts one input per channel into the histories of a convolution of width `k`.
pub fn push_conv<T: Copy>(conv: &mut Vec<T>, k: usize, x: &[T])
    requires
        k >= 2,
        old(conv)@.len() == x@.len() * (k - 1),
    ensures
        final(conv)@.len() == old(conv)@.len(),
        forall|i: int|
            0 <= i < x@.len() ==> #[trigger] history(final(conv)@, k as int, i) == shifted(
                history(old(conv)@, k as int, i),
                x@[i],
            ),
{
    let ghost was = conv@;
    let ghost w = k - 1;
    let n: usize = x.len();
    let total: usize = conv.len();
    let taps: usize = k - 1;
    proof {
        assert forall|i: int, j: int| 0 <= i < n && 0 <= j < w implies 0 <= #[trigger] (i * w + j)
            < n * w by {
            assert(i * w + j < n * w && 0 <= i * w) by (nonlinear_arith)
                requires
                    0 <= i < n,
                    0 <= j < w,
            ;
        }
    }
    for i in 0..n
        invariant
            taps == w == k - 1,
            w >= 1,
            n == x@.len(),
            total == was.len() == conv@.len() == n * w,
            forall|m: int| i * w <= m < n * w ==> conv@[m] == was[m],
            forall|c: int|
                0 <= c < i ==> #[trigger] history(conv@, k as int, c) == shifted(
                    history(was, k as int, c),
                    x@[c],
                ),
    {
        proof {
            assert(i * w + w <= n * w && 0 <= i * w) by (nonlinear_arith)
                requires
                    0 <= i,
                    i + 1 <= n,
                    w >= 1,
            ;
            assert((i + 1) * w == i * w + w) by (nonlinear_arith);
        }
        let from: usize = i * taps;
        let ghost start = conv@;
        let mut j: usize = 0;
        while j + 1 < taps
            invariant
                taps == w,
                w >= 1,
                from == i * w,
                from + w <= total == conv@.len() == start.len(),
                j < taps,
                forall|m: int| 0 <= m < from ==> conv@[m] == start[m],
                forall|m: int| 0 <= m < j ==> #[trigger] conv@[from + m] == start[from + m + 1],
                forall|m: int| from + j <= m < total ==> conv@[m] == start[m],
            decreases taps - j,
        {
            let a: T = conv[from + j + 1];
            conv.set(from + j, a);
            j += 1;
        }
        conv.set(from + taps - 1, x[i]);
        proof {
            assert forall|m: int| (i + 1) * w <= m < n * w implies conv@[m] == was[m] by {
                assert(conv@[m] == start[m]);
            }
            assert forall|c: int| 0 <= c < i + 1 implies #[trigger] history(conv@, k as int, c)
                == shifted(history(was, k as int, c), x@[c]) by {
                if c < i {
                    assert(c * w + w <= i * w && 0 <= c * w) by (nonlinear_arith)
                        requires
                            0 <= c,
                            c + 1 <= i,
                            w >= 1,
                    ;
                    assert(history(conv@, k as int, c) =~= history(start, k as int, c));
                } else {
                    let h = history(was, k as int, c);
                    assert forall|m: int| 0 <= m < w implies history(conv@, k as int, c)[m]
                        == shifted(h, x@[c])[m] by {
                        assert(conv@[from + m] == history(conv@, k as int, c)[m]);
                        if m + 1 < w {
                            assert(conv@[from + m] == start[from + m + 1]);
                            assert(h[m + 1] == was[from + m + 1]);
                        }
                    }
                    assert(history(conv@, k as int, c) =~= shifted(h, x@[c]));
                }
            }
        }
    }
}

/// Cell `j` of head `h` of token `t` in a head-major buffer.
pub open spec fn head_major(h: int, t: int, j: int, t_count: int, width: int) -> int {
    (h * t_count + t) * width + j
}

/// Cell `j` of head `h` of token `t` in a token-major buffer.
pub open spec fn token_major(h: int, t: int, j: int, heads: int, width: int) -> int {
    (t * heads + h) * width + j
}

/// Turns a head-major buffer into a token-major one.
pub fn gather_heads<T: Copy>(mixed: &[T], heads: usize, t_count: usize, width: usize) -> (out: Vec<
    T,
>)
    requires
        mixed@.len() == heads * t_count * width,
        heads * t_count <= usize::MAX,
    ensures
        out@.len() == mixed@.len(),
        forall|h: int, t: int, j: int|
            0 <= h < heads && 0 <= t < t_count && 0 <= j < width
                ==> out@[#[trigger] token_major(h, t, j, heads as int, width as int)]
                == mixed@[head_major(h, t, j, t_count as int, width as int)],
{
    let mut out: Vec<T> = Vec::new();
    let total: usize = mixed.len();
    let ghost hn = heads as int;
    let ghost tn = t_count as int;
    let ghost wn = width as int;
    proof {
        assert(0 * hn * wn == 0) by (nonlinear_arith);
    }
    for t in 0..t_count
        invariant
            total == mixed@.len() == hn * tn * wn,
            hn == heads,
            tn == t_count,
            wn == width,
            hn * tn <= usize::MAX,
            out@.len() == t * hn * wn,
            forall|h: int, u: int, j: int|
                0 <= h < hn && 0 <= u < t && 0 <= j < wn ==> out@[#[trigger] token_major(
                    h,
                    u,
                    j,
                    hn,
                    wn,
                )] == mixed@[head_major(h, u, j, tn, wn)],
    {
        proof {
            assert((t * hn + 0) * wn == t * hn * wn);
            assert forall|g: int, u: int, j: int|
                0 <= g < hn && 0 <= u < tn && 0 <= j < wn && u * hn + g < t * hn
                    + 0 implies out@[#[trigger] token_major(g, u, j, hn, wn)]
                == mixed@[head_major(g, u, j, tn, wn)] by {
                assert(u < t) by (nonlinear_arith)
                    requires
                        u * hn + g < t * hn,
                        0 <= g < hn,
                ;
            }
        }
        for h in 0..heads
            invariant
                total == mixed@.len() == hn * tn * wn,
                hn == heads,
                tn == t_count,
                wn == width,
                hn * tn <= usize::MAX,
                t < t_count,
                out@.len() == (t * hn + h) * wn,
                forall|g: int, u: int, j: int|
                    0 <= g < hn && 0 <= u < tn && 0 <= j < wn && u * hn + g < t * hn + h
                        ==> out@[#[trigger] token_major(g, u, j, hn, wn)] == mixed@[head_major(
                        g,
                        u,
                        j,
                        tn,
                        wn,
                    )],
        {
            proof {
                assert(0 <= h * tn + t < hn * tn && 0 <= h * tn) by (nonlinear_arith)
                    requires
                        0 <= h < hn,
                        0 <= t < tn,
                ;
                let r = h * tn + t;
                assert(0 <= r * wn && r * wn + wn <= hn * tn * wn) by (nonlinear_arith)
                    requires
                        0 <= r < hn * tn,
                        0 <= wn,
                ;
                assert((t * hn + (h + 1)) * wn == (t * hn + h) * wn + wn) by (nonlinear_arith);
            }
            let from: usize = (h * t_count + t) * width;
            let row: &[T] = vstd::slice::slice_subrange(mixed, from, from + width);
            let ghost before = out@;
            crate::cache::append(&mut out, row);
            proof {
                assert forall|g: int, u: int, j: int|
                    0 <= g < hn && 0 <= u < tn && 0 <= j < wn && u * hn + g < t * hn + (h
                        + 1) implies out@[#[trigger] token_major(g, u, j, hn, wn)]
                    == mixed@[head_major(g, u, j, tn, wn)] by {
                    let r = u * hn + g;
                    let s = t * hn + h;
                    assert(0 <= r) by (nonlinear_arith)
                        requires
                            r == u * hn + g,
                            u >= 0,
                            hn >= 0,
                            g >= 0,
                    ;
                    if r < s {
                        assert(0 <= r * wn + j < s * wn) by (nonlinear_arith)
                            requires
                                0 <= r < s,
                                0 <= j < wn,
                        ;
                    } else {
                        assert(u == t && g == h) by (nonlinear_arith)
                            requires
                                u * hn + g == t * hn + h,
                                0 <= g < hn,
                                0 <= h < hn,
                        ;
                        assert(out@[s * wn + j] == row@[j]);
                    }
                }
            }
        }
        proof {
            assert((t * hn + hn) * wn == (t + 1) * hn * wn) by (nonlinear_arith);
            assert forall|h: int, u: int, j: int|
                0 <= h < hn && 0 <= u < t + 1 && 0 <= j < wn implies out@[#[trigger] token_major(
                h,
                u,
                j,
                hn,
                wn,
            )] == mixed@[head_major(h, u, j, tn, wn)] by {
                assert(u * hn + h < t * hn + hn) by (nonlinear_arith)
                    requires
                        0 <= h < hn,
                        0 <= u <= t,
                ;
            }
        }
    }
    proof {
        assert(tn * hn * wn == hn * tn * wn) by (nonlinear_arith);
    }
    out
}

/// Splits a projected row into the queries and the gates of its heads, which take turns
/// in it.
pub fn split_gate<T: Copy>(qg: &[T], heads: usize, width: usize) -> (r: (Vec<T>, Vec<T>))
    requires
        qg@.len() == 2 * (heads * width),
    ensures
        r.0@.len() == heads * width,
        r.1@.len() == heads * width,
        forall|h: int, j: int|
            0 <= h < heads && 0 <= j < width ==> r.0@[#[trigger] (h * width + j)] == qg@[2 * (h
                * width) + j] && r.1@[h * width + j] == qg@[2 * (h * width) + width + j],
{
    let mut q: Vec<T> = Vec::new();
    let mut gate: Vec<T> = Vec::new();
    let total: usize = qg.len();
    let ghost hn = heads as int;
    let ghost wn = width as int;
    proof {
        assert(0 * wn == 0);
    }
    for h in 0..heads
        invariant
            hn == heads,
            wn == width,
            total == qg@.len() == 2 * (hn * wn),
            q@.len() == h * wn,
            gate@.len() == h * wn,
            forall|g: int, j: int|
                0 <= g < h && 0 <= j < wn ==> q@[#[trigger] (g * wn + j)] == qg@[2 * (g * wn) + j]
                    && gate@[g * wn + j] == qg@[2 * (g * wn) + wn + j],
    {
        proof {
            assert(0 <= h * wn && h * wn + wn <= hn * wn) by (nonlinear_arith)
                requires
                    0 <= h < hn,
                    0 <= wn,
            ;
            assert((h + 1) * wn == h * wn + wn) by (nonlinear_arith);
        }
        let from: usize = 2 * (h * width);
        let ghost q0 = q@;
        let ghost g0 = gate@;
        crate::cache::append(&mut q, vstd::slice::slice_subrange(qg, from, from + width));
        crate::cache::append(
            &mut gate,
            vstd::slice::slice_subrange(qg, from + width, from + width + width),
        );
        proof {
            assert forall|g: int, j: int| 0 <= g < h + 1 && 0 <= j < wn implies q@[#[trigger] (g * wn
                + j)] == qg@[2 * (g * wn) + j] && gate@[g * wn + j] == qg@[2 * (g * wn) + wn + j] by {
                assert(0 <= g * wn) by (nonlinear_arith)
                    requires
                        0 <= g,
                        0 <= wn,
                ;
                if g < h {
                    assert(g * wn + wn <= h * wn) by (nonlinear_arith)
                        requires
                            0 <= g < h,
                            0 <= wn,
                    ;
                    assert(q@[g * wn + j] == q0[g * wn + j]);
                    assert(gate@[g * wn + j] == g0[g * wn + j]);
                }
            }
        }
    }
    (q, gate)
}

/// Where the parts of a linear-attention head begin in a convolved row: its query, its
/// key and its value.
#[derive(Debug, Clone, Copy, PartialEq, Eq, Structural)]
pub struct LinHead {
    pub q: usize,
    pub k: usize,
    pub v: usize,
}

/// The key head that a value head shares.
pub open spec fn key_head(h: int, k_heads: int, v_heads: int) -> int {
    let rep = v_heads / (if k_heads < 1 { 1 } else { k_heads });
    h / (if rep < 1 { 1 } else { rep })
}

/// The parts of value head `h` in a convolved row, which holds the queries and then the
/// keys of all key heads, `k_dim` wide each, and then the values, `v_dim` wide each.
pub fn lin_head(h: usize, k_heads: usize, v_heads: usize, k_dim: usize, v_dim: usize) -> (r: LinHead)
    requires
        h < v_heads,
        k_heads >= 1,
        v_heads % k_heads == 0,
        2 * (k_heads * k_dim) + v_heads * v_dim <= usize::MAX,
    ensures
        key_head(h as int, k_heads as int, v_heads as int) < k_heads,
        r.q == key_head(h as int, k_heads as int, v_heads as int) * k_dim,
        r.k == k_heads * k_dim + r.q,
        r.v == 2 * (k_heads * k_dim) + h * v_dim,
        r.q + k_dim <= k_heads * k_dim,
        r.k + k_dim <= 2 * (k_heads * k_dim),
        r.v + v_dim <= 2 * (k_heads * k_dim) + v_heads * v_dim,
{
    let rep: usize = v_heads / k_heads;
    proof {
        assert(rep >= 1 && rep * k_heads == v_heads) by (nonlinear_arith)
            requires
                rep == v_heads / k_heads,
                v_heads % k_heads == 0,
                v_heads > 0,
                k_heads >= 1,
        ;
    }
    let kh: usize = h / rep;
    proof {
        assert(kh < k_heads) by (nonlinear_arith)
            requires
                kh == h / rep,
                h < rep * k_heads,
                rep >= 1,
                h >= 0,
        ;
        assert(kh * k_dim + k_dim <= k_heads * k_dim && 0 <= kh * k_dim) by (nonlinear_arith)
            requires
                0 <= kh < k_heads,
                k_dim >= 0,
        ;
        assert(h * v_dim + v_dim <= v_heads * v_dim && 0 <= h * v_dim) by (nonlinear_arith)
            requires
                0 <= h < v_heads,
                v_dim >= 0,
        ;
    }
    let kt: usize = k_heads * k_dim;
    LinHead { q: kh * k_dim, k: kt + kh * k_dim, v: 2 * kt + h * v_dim }
}

/// Where the key or value that query head `h` reads of row `u` begins in a cache whose
/// rows hold `kv_heads` heads, each shared by as many query heads.
pub fn kv_offset(u: usize, rows: usize, h: usize, heads: usize, kv_heads: usize, width: usize) -> (at:
    usize)
    requires
        u < rows,
        h < heads,
        kv_heads >= 1,
        heads % kv_heads == 0,
        rows * (kv_heads * width) <= usize::MAX,
    ensures
        at == u * (kv_heads * width) + (h / ((heads / kv_heads) as usize)) * width,
        h as int / (heads as int / kv_heads as int) < kv_heads,
        at + width <= (u + 1) * (kv_heads * width) <= rows * (kv_heads * width),
{
    let groups: usize = heads / kv_heads;
    proof {
        assert(groups >= 1 && groups * kv_heads == heads) by (nonlinear_arith)
            requires
                groups == heads / kv_heads,
                heads % kv_heads == 0,
                heads > 0,
                kv_heads >= 1,
        ;
    }
    let kh: usize = h / groups;
    proof {
        assert(kh < kv_heads) by (nonlinear_arith)
            requires
                kh == h / groups,
                h < groups * kv_heads,
                groups >= 1,
                h >= 0,
        ;
        assert(kh * width + width <= kv_heads * width && 0 <= kh * width) by (nonlinear_arith)
            requires
                0 <= kh < kv_heads,
                width >= 0,
        ;
        let kw = kv_heads * width;
        assert(u * kw + kw == (u + 1) * kw) by (nonlinear_arith);
        assert((u + 1) * kw <= rows * kw && 0 <= u * kw) by (nonlinear_arith)
            requires
                0 <= u,
                u + 1 <= rows,
                kw >= 0,
        ;
        assert(kw <= rows * kw) by (nonlinear_arith)
            requires
                rows >= 1,
                kw >= 0,
        ;
    }
    u * (kv_heads * width) + kh * width
}

/// How the MLPs of a batch are run.
#[derive(Debug, Clone, Copy, PartialEq, Eq, Structural)]
pub enum MlpPath {
    /// All tokens together, each matrix read once.
    Batch,
    /// One token, its rows shared out over the workers.
    Single,
    /// Token by token, the tokens shared out over the workers.
    PerToken,
}

/// How the MLPs of a batch are run: dense ones without a budget of blocks to leave out
/// together.
pub fn mlp_path(tokens: usize, dense: bool, budgeted: bool) -> (p: MlpPath)
    ensures
        p is Batch <==> tokens > 1 && dense && !budgeted,
        p is Single <==> tokens == 1,
{
    if tokens > 1 && !budgeted && dense {
        MlpPath::Batch
    } else if tokens == 1 {
        MlpPath::Single
    } else {
        MlpPath::PerToken
    }
}

/// The heads share the key heads in blocks: each key head serves the same number of heads,
/// one behind the other.
pub proof fn law_heads_share_keys_in_blocks(h: int, k: int, k_heads: int, v_heads: int)
    requires
        k_heads >= 1,
        v_heads > 0,
        v_heads % k_heads == 0,
        0 <= h < v_heads,
    ensures
        ({
            let each = v_heads / k_heads;
            &&& each >= 1
            &&& each * k_heads == v_heads
            &&& key_head(h, k_heads, v_heads) == k <==> k * each <= h < (k + 1) * each
        }),
{
    let each = v_heads / k_heads;
    vstd::arithmetic::div_mod::lemma_fundamental_div_mod(v_heads, k_heads);
    assert(each * k_heads == k_heads * each) by (nonlinear_arith);
    assert(each >= 1) by (nonlinear_arith)
        requires
            v_heads > 0,
            k_heads >= 1,
            k_heads * each == v_heads,
    ;
    let q = h / each;
    vstd::arithmetic::div_mod::lemma_fundamental_div_mod(h, each);
    let r = h % each;
    assert(0 <= r < each);
    assert(h == each * q + r);
    assert(q * each <= h < (q + 1) * each) by (nonlinear_arith)
        requires
            h == each * q + r,
            0 <= r < each,
    ;
    if k != q {
        assert(!(k * each <= h < (k + 1) * each)) by (nonlinear_arith)
            requires
                q * each <= h < (q + 1) * each,
                k != q,
                each >= 1,
        ;
    }
}

} // verus!
