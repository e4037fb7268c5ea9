//! The decoder's state: recurrent caches, key/value histories, and the rollback point
//! of a speculative batch. `T` is the number type of the state.

use vstd::prelude::*;

verus! {

/// The dimensions that the caches depend on.
#[derive(Clone, Copy)]
pub struct CacheShape {
    /// Cells of a recurrent state.
    pub state_len: usize,
    /// Cells of a convolution history.
    pub conv_len: usize,
    /// Cells of one key or value row.
    pub kv_width: usize,
}

/// A linear-attention layer's recurrent state and convolution history.
pub struct LinCache<T> {
    pub state: Vec<T>,
    pub conv: Vec<T>,
}

/// A full-attention layer's key/value history, token-major, with a quantized mirror of
/// the keys and one mirror scale per 32 cells.
pub struct FullCache<T> {
    pub k: Vec<T>,
    pub v: Vec<T>,
    pub kq: Vec<i8>,
    pub kqs: Vec<T>,
    pub len: usize,
}

/// A layer's cache.
pub enum QwenCache<T> {
    Linear(LinCache<T>),
    Full(FullCache<T>),
}

/// The decoder's state.
pub struct DecoderState<T> {
    pub shape: CacheShape,
    pub caches: Vec<QwenCache<T>>,
    pub mtp_cache: FullCache<T>,
    pub pos: usize,
}

/// Rollback point: recurrent states are copied, append-only histories only record
/// their lengths.
pub struct QwenSnapshot<T> {
    pub lin: Vec<(Vec<T>, Vec<T>)>,
    pub full_lens: Vec<usize>,
    pub mtp_len: usize,
    pub pos: usize,
}

/// The cells of a mirror row: none where the width is not a multiple of 32.
pub open spec fn mirror_width(width: int) -> int {
    if width % 32 == 0 {
        width
    } else {
        0
    }
}

impl<T> FullCache<T> {
    /// Every history holds `len` rows.
    pub open spec fn wf(&self, width: int) -> bool {
        &&& self.k@.len() == self.len * width
        &&& self.v@.len() == self.len * width
        &&& self.kq@.len() == self.len * mirror_width(width)
        &&& self.kqs@.len() == self.len * mirror_width(width) / 32
    }

    /// The first `n` rows.
    pub open spec fn rows(&self, n: int, width: int) -> (Seq<T>, Seq<T>, Seq<i8>, Seq<T>) {
        (
            self.k@.take(n * width),
            self.v@.take(n * width),
            self.kq@.take(n * mirror_width(width)),
            self.kqs@.take(n * mirror_width(width) / 32),
        )
    }

    /// All that is cached.
    pub open spec fn contents(&self) -> (Seq<T>, Seq<T>, Seq<i8>, Seq<T>) {
        (self.k@, self.v@, self.kq@, self.kqs@)
    }

    /// An empty history.
    pub fn new() -> (c: FullCache<T>)
        ensures
            c.len == 0,
            c.k@.len() == 0 && c.v@.len() == 0 && c.kq@.len() == 0 && c.kqs@.len() == 0,
    {
        FullCache { k: Vec::new(), v: Vec::new(), kq: Vec::new(), kqs: Vec::new(), len: 0 }
    }

    /// Drops every row behind the first `n`.
    pub fn truncate_rows(&mut self, n: usize, width: usize)
        requires
            old(self).wf(width as int),
            n <= old(self).len,
        ensures
            final(self).wf(width as int),
            final(self).len == n,
            final(self).contents() == old(self).rows(n as int, width as int),
    {
        let total: usize = self.k.len();
        let ghost l = self.len as int;
        let ghost nn = n as int;
        let ghost w = width as int;
        let ghost m = mirror_width(w);
        proof {
            assert(nn * w <= l * w) by (nonlinear_arith)
                requires
                    nn <= l,
                    w >= 0,
            ;
            assert(0 <= nn * m <= l * m) by (nonlinear_arith)
                requires
                    0 <= nn <= l,
                    m >= 0,
            ;
            assert(0 <= nn * w) by (nonlinear_arith)
                requires
                    nn >= 0,
                    w >= 0,
            ;
            if m == 0 {
                assert(l * m == 0 && nn * m == 0) by (nonlinear_arith)
                    requires
                        m == 0,
                ;
            }
        }
        let cells: usize = n * width;
        let mirror: usize = if width % 32 == 0 { cells } else { 0 };
        self.k.truncate(cells);
        self.v.truncate(cells);
        self.kq.truncate(mirror);
        self.kqs.truncate(mirror / 32);
        self.len = n;
        proof {
            assert(self.k@ =~= old(self).k@.take(nn * w));
            assert(self.v@ =~= old(self).v@.take(nn * w));
            assert(self.kq@ =~= old(self).kq@.take(nn * m));
            assert(self.kqs@ =~= old(self).kqs@.take(nn * m / 32));
        }
    }
}

impl<T: Copy> FullCache<T> {
    /// Appends one row of keys and values and, where the width allows it, the key row's
    /// quantized mirror.
    pub fn push_row(&mut self, width: usize, k: &[T], v: &[T], kq: &[i8], kqs: &[T])
        requires
            old(self).wf(width as int),
            k@.len() == width,
            v@.len() == width,
            width % 32 == 0 ==> kq@.len() == width && kqs@.len() == width / 32,
            old(self).len < usize::MAX,
        ensures
            final(self).wf(width as int),
            final(self).len == old(self).len + 1,
            final(self).k@ == old(self).k@ + k@,
            final(self).v@ == old(self).v@ + v@,
            final(self).kq@ == (if width % 32 == 0 {
                old(self).kq@ + kq@
            } else {
                old(self).kq@
            }),
            final(self).kqs@ == (if width % 32 == 0 {
                old(self).kqs@ + kqs@
            } else {
                old(self).kqs@
            }),
    {
        let ghost l = self.len as int;
        let ghost w = width as int;
        append(&mut self.k, k);
        append(&mut self.v, v);
        if width % 32 == 0 {
            append(&mut self.kq, kq);
            append(&mut self.kqs, kqs);
        }
        self.len = self.len + 1;
        proof {
            assert((l + 1) * w == l * w + w) by (nonlinear_arith);
            let m = mirror_width(w);
            assert((l + 1) * m == l * m + m) by (nonlinear_arith);
            if m == 0 {
                assert(l * m == 0) by (nonlinear_arith)
                    requires
                        m == 0,
                ;
            } else {
                let q = w / 32;
                assert(l * w == 32 * (l * q)) by (nonlinear_arith)
                    requires
                        w == 32 * q,
                ;
            }
        }
    }
}

impl<T: Copy> FullCache<T> {
    /// Appends the rows of a batch of `n` tokens, and where the width allows it their
    /// mirror.
    pub fn push_rows(&mut self, width: usize, n: usize, k: &[T], v: &[T], kq: &[i8], kqs: &[T])
        requires
            old(self).wf(width as int),
            k@.len() == n * width,
            v@.len() == n * width,
            width % 32 == 0 ==> kq@.len() == n * width && kqs@.len() == n * (width as int / 32),
            old(self).len + n <= usize::MAX,
        ensures
            final(self).wf(width as int),
            final(self).len == old(self).len + n,
            final(self).k@ == old(self).k@ + k@,
            final(self).v@ == old(self).v@ + v@,
            final(self).kq@ == (if width % 32 == 0 {
                old(self).kq@ + kq@
            } else {
                old(self).kq@
            }),
            final(self).kqs@ == (if width % 32 == 0 {
                old(self).kqs@ + kqs@
            } else {
                old(self).kqs@
            }),
    {
        let ghost l = self.len as int;
        let ghost w = width as int;
        let ghost m = mirror_width(w);
        append(&mut self.k, k);
        append(&mut self.v, v);
        if width % 32 == 0 {
            append(&mut self.kq, kq);
            append(&mut self.kqs, kqs);
        }
        self.len = self.len + n;
        proof {
            assert((l + n) * w == l * w + n * w) by (nonlinear_arith);
            if w % 32 == 0 {
                let q = w / 32;
                assert(l * w == 32 * (l * q) && (l + n) * w == 32 * (l * q + n * q))
                    by (nonlinear_arith)
                    requires
                        w == 32 * q,
                ;
            } else {
                assert((l + n) * m == 0 && l * m == 0) by (nonlinear_arith)
                    requires
                        m == 0,
                ;
            }
        }
    }
}

/// Appends a copy of a slice.
pub fn append<T: Copy>(out: &mut Vec<T>, more: &[T])
    ensures
        final(out)@ == old(out)@ + more@,
{
    for i in 0..more.len()
        invariant
            out@ == old(out)@ + more@.take(i as int),
    {
        out.push(more[i]);
        proof {
            assert(old(out)@ + more@.take(i + 1) =~= (old(out)@ + more@.take(i as int)).push(
                more@[i as int],
            ));
        }
    }
    proof {
        assert(more@.take(more@.len() as int) =~= more@);
    }
}

/// A copy of a slice.
pub fn copy_of<T: Copy>(s: &[T]) -> (out: Vec<T>)
    ensures
        out@ == s@,
{
    let mut out: Vec<T> = Vec::with_capacity(s.len());
    append(&mut out, s);
    proof {
        assert(out@ =~= s@);
    }
    out
}

/// `n` copies of a value.
pub fn filled<T: Copy>(x: T, n: usize) -> (out: Vec<T>)
    ensures
        out@ == Seq::new(n as nat, |i: int| x),
{
    let mut out: Vec<T> = Vec::with_capacity(n);
    for i in 0..n
        invariant
            out@ == Seq::new(i as nat, |j: int| x),
    {
        out.push(x);
        proof {
            assert(out@ =~= Seq::new((i + 1) as nat, |j: int| x));
        }
    }
    out
}

/// What a layer's cache holds.
pub ghost enum CacheView<T> {
    Linear(Seq<T>, Seq<T>),
    Full(Seq<T>, Seq<T>, Seq<i8>, Seq<T>, int),
}

impl<T> QwenCache<T> {
    /// What the cache holds.
    pub open spec fn holds(&self) -> CacheView<T> {
        match *self {
            QwenCache::Linear(c) => CacheView::Linear(c.state@, c.conv@),
            QwenCache::Full(c) => CacheView::Full(c.k@, c.v@, c.kq@, c.kqs@, c.len as int),
        }
    }

    /// The sizes fit the shape.
    pub open spec fn wf(&self, shape: CacheShape) -> bool {
        match *self {
            QwenCache::Linear(c) => c.state@.len() == shape.state_len && c.conv@.len()
                == shape.conv_len,
            QwenCache::Full(c) => c.wf(shape.kv_width as int),
        }
    }
}

/// The linear caches among the first `n`, in order.
pub open spec fn linear_parts<T>(caches: Seq<QwenCache<T>>, n: int) -> Seq<(Seq<T>, Seq<T>)>
    decreases n,
{
    if n <= 0 {
        Seq::empty()
    } else {
        match caches[n - 1] {
            QwenCache::Linear(c) => linear_parts(caches, n - 1).push((c.state@, c.conv@)),
            QwenCache::Full(_) => linear_parts(caches, n - 1),
        }
    }
}

/// The lengths of the full caches among the first `n`, in order.
pub open spec fn full_parts<T>(caches: Seq<QwenCache<T>>, n: int) -> Seq<usize>
    decreases n,
{
    if n <= 0 {
        Seq::empty()
    } else {
        match caches[n - 1] {
            QwenCache::Linear(_) => full_parts(caches, n - 1),
            QwenCache::Full(c) => full_parts(caches, n - 1).push(c.len),
        }
    }
}

/// The copied states of a snapshot.
pub open spec fn lin_view<T>(lin: Seq<(Vec<T>, Vec<T>)>) -> Seq<(Seq<T>, Seq<T>)> {
    Seq::new(lin.len(), |i: int| (lin[i].0@, lin[i].1@))
}

impl<T> DecoderState<T> {
    /// Every cache fits the shape.
    pub open spec fn wf(&self) -> bool {
        &&& forall|l: int|
            0 <= l < self.caches@.len() ==> (#[trigger] self.caches@[l]).wf(self.shape)
        &&& self.mtp_cache.wf(self.shape.kv_width as int)
    }

    /// A snapshot of this state, taken layer by layer.
    pub open spec fn snapshot_of(&self, snap: QwenSnapshot<T>) -> bool {
        &&& lin_view(snap.lin@) == linear_parts(self.caches@, self.caches@.len() as int)
        &&& snap.full_lens@ == full_parts(self.caches@, self.caches@.len() as int)
        &&& snap.mtp_len == self.mtp_cache.len
        &&& snap.pos == self.pos
    }

    /// This state can be reached from `before` by ingesting tokens: the layers are of
    /// the same kinds, histories have only grown, recurrent states may hold anything.
    pub open spec fn grown_from(&self, before: DecoderState<T>) -> bool {
        &&& self.shape == before.shape
        &&& self.caches@.len() == before.caches@.len()
        &&& forall|l: int|
            0 <= l < self.caches@.len() ==> cache_grown(
                #[trigger] self.caches@[l],
                before.caches@[l],
                self.shape.kv_width as int,
            )
        &&& history_grown(self.mtp_cache, before.mtp_cache, self.shape.kv_width as int)
    }

    /// Drops every draft pair behind the first `len`.
    pub fn rollback_mtp(&mut self, len: usize)
        requires
            old(self).wf(),
            len <= old(self).mtp_cache.len,
        ensures
            final(self).wf(),
            final(self).mtp_cache.len == len,
            final(self).mtp_cache.contents() == old(self).mtp_cache.rows(
                len as int,
                old(self).shape.kv_width as int,
            ),
            final(self).caches == old(self).caches,
            final(self).pos == old(self).pos,
            final(self).shape == old(self).shape,
    {
        self.mtp_cache.truncate_rows(len, self.shape.kv_width);
    }
}

/// A history that begins with the rows of another.
pub open spec fn history_grown<T>(now: FullCache<T>, before: FullCache<T>, width: int) -> bool {
    &&& before.len <= now.len
    &&& now.rows(before.len as int, width) == before.contents()
}

/// A cache of the same kind, grown if it is a history.
pub open spec fn cache_grown<T>(now: QwenCache<T>, before: QwenCache<T>, width: int) -> bool {
    match (now, before) {
        (QwenCache::Linear(_), QwenCache::Linear(_)) => true,
        (QwenCache::Full(a), QwenCache::Full(b)) => history_grown(a, b, width),
        _ => false,
    }
}

proof fn lemma_parts_grow<T>(caches: Seq<QwenCache<T>>, n: int, m: int)
    requires
        0 <= n <= m,
    ensures
        linear_parts(caches, n).len() <= linear_parts(caches, m).len(),
        full_parts(caches, n).len() <= full_parts(caches, m).len(),
        forall|i: int|
            0 <= i < linear_parts(caches, n).len() ==> #[trigger] linear_parts(caches, n)[i]
                == linear_parts(caches, m)[i],
        forall|i: int|
            0 <= i < full_parts(caches, n).len() ==> #[trigger] full_parts(caches, n)[i]
                == full_parts(caches, m)[i],
    decreases m,
{
    if n < m {
        lemma_parts_grow(caches, n, m - 1);
    }
}

/// What the cache of a layer holds before the first token.
pub open spec fn fresh_cache<T>(shape: CacheShape, full: bool, zero: T) -> CacheView<T> {
    if full {
        CacheView::Full(
            Seq::<T>::empty(),
            Seq::<T>::empty(),
            Seq::<i8>::empty(),
            Seq::<T>::empty(),
            0,
        )
    } else {
        CacheView::Linear(
            Seq::new(shape.state_len as nat, |i: int| zero),
            Seq::new(shape.conv_len as nat, |i: int| zero),
        )
    }
}

impl<T> DecoderState<T> {
    /// The state before the first token.
    pub open spec fn is_fresh(&self, full: Seq<bool>, zero: T) -> bool {
        &&& self.pos == 0
        &&& self.mtp_cache.len == 0
        &&& self.caches@.len() == full.len()
        &&& forall|l: int|
            0 <= l < full.len() ==> (#[trigger] self.caches@[l]).holds() == fresh_cache(
                self.shape,
                full[l],
                zero,
            )
    }
}

impl<T: Copy> DecoderState<T> {
    /// Fresh state for a model whose layer `l` is full attention where `full[l]` says
    /// so; recurrent states start at `zero`.
    pub fn new(shape: CacheShape, full: &[bool], zero: T) -> (s: DecoderState<T>)
        ensures
            s.wf(),
            s.shape == shape,
            s.is_fresh(full@, zero),
    {
        let mut caches: Vec<QwenCache<T>> = Vec::with_capacity(full.len());
        for l in 0..full.len()
            invariant
                caches@.len() == l,
                forall|i: int| 0 <= i < l ==> (#[trigger] caches@[i]).wf(shape),
                forall|i: int|
                    0 <= i < l ==> (#[trigger] caches@[i]).holds() == fresh_cache(
                        shape,
                        full@[i],
                        zero,
                    ),
        {
            let cache: QwenCache<T> = if full[l] {
                let c: FullCache<T> = FullCache::new();
                proof {
                    lemma_no_rows(shape.kv_width as int);
                    assert(c.k@ =~= Seq::<T>::empty());
                    assert(c.v@ =~= Seq::<T>::empty());
                    assert(c.kq@ =~= Seq::<i8>::empty());
                    assert(c.kqs@ =~= Seq::<T>::empty());
                }
                QwenCache::Full(c)
            } else {
                QwenCache::Linear(
                    LinCache {
                        state: filled(zero, shape.state_len),
                        conv: filled(zero, shape.conv_len),
                    },
                )
            };
            caches.push(cache);
        }
        proof {
            lemma_no_rows(shape.kv_width as int);
        }
        DecoderState { shape, caches, mtp_cache: FullCache::new(), pos: 0 }
    }

    /// Forgets every token: the state is that of a model which has read none.
    pub fn reset(&mut self, full: &[bool], zero: T)
        ensures
            final(self).wf(),
            final(self).shape == old(self).shape,
            final(self).is_fresh(full@, zero),
    {
        let shape: CacheShape = CacheShape {
            state_len: self.shape.state_len,
            conv_len: self.shape.conv_len,
            kv_width: self.shape.kv_width,
        };
        *self = DecoderState::new(shape, full, zero);
    }

    /// Captures the rollback point for a speculative batch.
    pub fn snapshot(&self) -> (snap: QwenSnapshot<T>)
        ensures
            self.snapshot_of(snap),
    {
        let mut lin: Vec<(Vec<T>, Vec<T>)> = Vec::new();
        let mut full_lens: Vec<usize> = Vec::new();
        proof {
            assert(lin_view(lin@) =~= linear_parts(self.caches@, 0));
            assert(full_lens@ =~= full_parts(self.caches@, 0));
        }
        for l in 0..self.caches.len()
            invariant
                lin_view(lin@) == linear_parts(self.caches@, l as int),
                full_lens@ == full_parts(self.caches@, l as int),
        {
            match &self.caches[l] {
                QwenCache::Linear(c) => {
                    let ghost before = lin@;
                    let state: Vec<T> = copy_of(c.state.as_slice());
                    let conv: Vec<T> = copy_of(c.conv.as_slice());
                    lin.push((state, conv));
                    proof {
                        assert(lin_view(lin@) =~= lin_view(before).push((c.state@, c.conv@)));
                    }
                },
                QwenCache::Full(c) => {
                    full_lens.push(c.len);
                },
            }
        }
        QwenSnapshot { lin, full_lens, mtp_len: self.mtp_cache.len, pos: self.pos }
    }

    /// Puts a snapshot back: recurrent states are copied, histories cut to their
    /// recorded lengths.
    pub fn restore(&mut self, snap: &QwenSnapshot<T>)
        requires
            old(self).wf(),
            old(self).accepts(*snap),
        ensures
            final(self).wf(),
            final(self).shape == old(self).shape,
            final(self).pos == snap.pos,
            final(self).caches@.len() == old(self).caches@.len(),
            forall|l: int|
                0 <= l < old(self).caches@.len() ==> (#[trigger] final(self).caches@[l]).holds()
                    == old(self).restored(*snap, l),
            final(self).mtp_cache.len == snap.mtp_len,
            final(self).mtp_cache.contents() == old(self).mtp_cache.rows(
                snap.mtp_len as int,
                old(self).shape.kv_width as int,
            ),
    {
        let ghost before = *self;
        let n: usize = self.caches.len();
        let width: usize = self.shape.kv_width;
        let lin_count: usize = snap.lin.len();
        let full_count: usize = snap.full_lens.len();
        let mut li: usize = 0;
        let mut fi: usize = 0;
        for l in 0..n
            invariant
                n == self.caches@.len(),
                n == before.caches@.len(),
                before.wf(),
                before.accepts(*snap),
                self.shape == before.shape,
                width == before.shape.kv_width,
                self.mtp_cache == before.mtp_cache,
                lin_count == snap.lin@.len(),
                full_count == snap.full_lens@.len(),
                li == linear_parts(before.caches@, l as int).len(),
                fi == full_parts(before.caches@, l as int).len(),
                forall|j: int| l <= j < n ==> #[trigger] self.caches@[j] == before.caches@[j],
                forall|j: int| 0 <= j < l ==> (#[trigger] self.caches@[j]).wf(self.shape),
                forall|j: int|
                    0 <= j < l ==> (#[trigger] self.caches@[j]).holds() == before.restored(
                        *snap,
                        j,
                    ),
        {
            proof {
                lemma_parts_grow(before.caches@, l + 1, n as int);
                assert(self.caches@[l as int] == before.caches@[l as int]);
                assert(before.caches@[l as int].wf(before.shape));
                assert(before.layer_accepts(*snap, l as int));
            }
            match &mut self.caches[l] {
                QwenCache::Linear(c) => {
                    c.state = copy_of(snap.lin[li].0.as_slice());
                    c.conv = copy_of(snap.lin[li].1.as_slice());
                    li += 1;
                },
                QwenCache::Full(c) => {
                    c.truncate_rows(snap.full_lens[fi], width);
                    fi += 1;
                },
            }
        }
        self.mtp_cache.truncate_rows(snap.mtp_len, width);
        self.pos = snap.pos;
    }
}

impl<T> DecoderState<T> {
    /// A snapshot fits layer `l`.
    pub open spec fn layer_accepts(&self, snap: QwenSnapshot<T>, l: int) -> bool {
        match self.caches@[l] {
            QwenCache::Linear(_) => {
                let r = linear_parts(self.caches@, l).len() as int;
                &&& r < snap.lin@.len()
                &&& snap.lin@[r].0@.len() == self.shape.state_len
                &&& snap.lin@[r].1@.len() == self.shape.conv_len
            },
            QwenCache::Full(c) => {
                let r = full_parts(self.caches@, l).len() as int;
                r < snap.full_lens@.len() && snap.full_lens@[r] <= c.len
            },
        }
    }

    /// A snapshot fits this state: it has the layers, and no history is longer in it.
    pub open spec fn accepts(&self, snap: QwenSnapshot<T>) -> bool {
        &&& forall|l: int| 0 <= l < self.caches@.len() ==> #[trigger] self.layer_accepts(snap, l)
        &&& snap.mtp_len <= self.mtp_cache.len
    }

    /// What layer `l` holds after a snapshot is put back.
    pub open spec fn restored(&self, snap: QwenSnapshot<T>, l: int) -> CacheView<T> {
        match self.caches@[l] {
            QwenCache::Linear(_) => {
                let r = linear_parts(self.caches@, l).len() as int;
                CacheView::Linear(snap.lin@[r].0@, snap.lin@[r].1@)
            },
            QwenCache::Full(c) => {
                let n = snap.full_lens@[full_parts(self.caches@, l).len() as int] as int;
                let rows = c.rows(n, self.shape.kv_width as int);
                CacheView::Full(rows.0, rows.1, rows.2, rows.3, n)
            },
        }
    }

    proof fn lemma_same_kinds(&self, before: DecoderState<T>, n: int)
        requires
            self.grown_from(before),
            0 <= n <= self.caches@.len(),
        ensures
            linear_parts(self.caches@, n).len() == linear_parts(before.caches@, n).len(),
            full_parts(self.caches@, n).len() == full_parts(before.caches@, n).len(),
        decreases n,
    {
        if n > 0 {
            self.lemma_same_kinds(before, n - 1);
            assert(cache_grown(
                self.caches@[n - 1],
                before.caches@[n - 1],
                self.shape.kv_width as int,
            ));
        }
    }

    /// Rolling back is exact: whatever was ingested since a snapshot was taken leaves no
    /// trace once the snapshot is put back.
    pub proof fn law_restore_undoes_ingestion(
        &self,
        before: DecoderState<T>,
        snap: QwenSnapshot<T>,
        l: int,
    )
        requires
            before.wf(),
            before.snapshot_of(snap),
            self.wf(),
            self.grown_from(before),
            0 <= l < before.caches@.len(),
        ensures
            self.layer_accepts(snap, l),
            snap.mtp_len <= self.mtp_cache.len,
            self.restored(snap, l) == before.caches@[l].holds(),
            self.mtp_cache.rows(snap.mtp_len as int, self.shape.kv_width as int)
                == before.mtp_cache.contents(),
    {
        let n = before.caches@.len() as int;
        self.lemma_same_kinds(before, l);
        lemma_parts_grow(before.caches@, l + 1, n);
        assert(cache_grown(self.caches@[l], before.caches@[l], self.shape.kv_width as int));
        assert(before.caches@[l].wf(before.shape));
        match before.caches@[l] {
            QwenCache::Linear(c) => {
                let r = linear_parts(before.caches@, l).len() as int;
                assert(linear_parts(before.caches@, l + 1)[r] == (c.state@, c.conv@));
                assert(lin_view(snap.lin@)[r] == (c.state@, c.conv@));
            },
            QwenCache::Full(c) => {
                let r = full_parts(before.caches@, l).len() as int;
                assert(full_parts(before.caches@, l + 1)[r] == c.len);
            },
        }
    }
}

proof fn lemma_no_rows(width: int)
    ensures
        0 * width == 0,
        0 * mirror_width(width) / 32 == 0,
        0 * mirror_width(width) == 0,
{
    assert(0 * width == 0) by (nonlinear_arith);
    assert(0 * mirror_width(width) == 0) by (nonlinear_arith);
}

/// One of several streams that are decoded together: its own caches and position.
pub struct DecodeLane<T> {
    pub caches: Vec<QwenCache<T>>,
    pub pos: usize,
}

impl<T: Copy> DecodeLane<T> {
    /// A fresh stream of a model.
    pub fn new(shape: CacheShape, full: &[bool], zero: T) -> (lane: DecodeLane<T>)
        ensures
            lane.pos == 0,
            lane.caches@.len() == full@.len(),
            forall|l: int| 0 <= l < full@.len() ==> (#[trigger] lane.caches@[l]).wf(shape),
            forall|l: int|
                0 <= l < full@.len() ==> (#[trigger] lane.caches@[l]).holds() == fresh_cache(
                    shape,
                    full@[l],
                    zero,
                ),
    {
        let s: DecoderState<T> = DecoderState::new(shape, full, zero);
        DecodeLane { caches: s.caches, pos: s.pos }
    }

    /// Exchanges the stream with the one that the decoder works on.
    pub fn swap_with(&mut self, state: &mut DecoderState<T>)
        ensures
            final(self).caches == old(state).caches,
            final(self).pos == old(state).pos,
            *final(state) == (DecoderState {
                caches: old(self).caches,
                pos: old(self).pos,
                ..*old(state)
            }),
    {
        std::mem::swap(&mut self.caches, &mut state.caches);
        std::mem::swap(&mut self.pos, &mut state.pos);
    }
}

} // verus!
