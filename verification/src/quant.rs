//! Sampling for the shared codebook: the generator, the reservoir and the distinct
//! start vectors, and the gathering of vectors from a codebook.

use crate::decode::above;
use crate::decode::exceeds;
use crate::decode::not_a_number;
use crate::rank::any_nan;
use crate::rank::is_nan;
use vstd::prelude::*;

verus! {

/// Values per codebook vector.
pub const VQ_DIM: usize = 16;

/// Vectors of a codebook.
pub const VQ_K: usize = 256;

/// Rounds of codebook training.
pub const VQ_ITERS: usize = 30;

/// A splitmix64 generator.
pub struct Rng {
    pub state: u64,
}

/// The state after a draw.
pub open spec fn next_state(state: u64) -> u64 {
    ((state + 0x9E37_79B9_7F4A_7C15) % 0x1_0000_0000_0000_0000) as u64
}

/// The product of two 64-bit numbers, modulo 2^64.
pub open spec fn wrapped_product(a: u64, b: u64) -> u64 {
    ((a * b) % 0x1_0000_0000_0000_0000) as u64
}

/// The number that a state gives.
pub open spec fn output(state: u64) -> u64 {
    let a = wrapped_product(state ^ (state >> 30), 0xBF58_476D_1CE4_E5B9);
    let b = wrapped_product(a ^ (a >> 27), 0x94D0_49BB_1331_11EB);
    b ^ (b >> 31)
}

/// The state after `n` draws.
pub open spec fn state_after(state: u64, n: nat) -> u64
    decreases n,
{
    if n == 0 {
        state
    } else {
        next_state(state_after(state, (n - 1) as nat))
    }
}

/// The index that draw `n` gives among `bound` ones.
pub open spec fn drawn(state: u64, n: nat, bound: usize) -> usize {
    (output(state_after(state, n + 1)) % (bound as u64)) as usize
}

impl Rng {
    /// A generator with a seed.
    pub fn new(seed: u64) -> (r: Rng)
        ensures
            r.state == seed,
    {
        Rng { state: seed }
    }

    /// The next number.
    pub fn next_u64(&mut self) -> (n: u64)
        ensures
            final(self).state == next_state(old(self).state),
            n == output(final(self).state),
    {
        self.state = self.state.wrapping_add(0x9E37_79B9_7F4A_7C15);
        let z: u64 = self.state;
        let a: u64 = (z ^ (z >> 30)).wrapping_mul(0xBF58_476D_1CE4_E5B9);
        let b: u64 = (a ^ (a >> 27)).wrapping_mul(0x94D0_49BB_1331_11EB);
        b ^ (b >> 31)
    }

    /// An index below `n`.
    pub fn below(&mut self, n: usize) -> (i: usize)
        requires
            n > 0,
        ensures
            final(self).state == next_state(old(self).state),
            i == output(final(self).state) % (n as u64),
            i < n,
    {
        let z: u64 = self.next_u64();
        (z % (n as u64)) as usize
    }
}

/// What becomes of an offered item: it is added, it replaces one, or it is passed over.
#[derive(Debug, Clone, Copy, PartialEq, Eq, Structural)]
pub enum Slot {
    Append,
    Replace(usize),
    Skip,
}

/// What becomes of the item that is offered after `seen` others: the first `cap` are
/// added; of the later ones a draw among all that were offered decides.
pub open spec fn slot_of(state: u64, seen: u64, cap: usize) -> Slot {
    if seen < cap {
        Slot::Append
    } else {
        let j = output(next_state(state)) % ((seen + 1) as u64);
        if j < cap {
            Slot::Replace(j as usize)
        } else {
            Slot::Skip
        }
    }
}

/// A sample of fixed size of vectors that are offered one by one.
pub struct Reservoir<T> {
    pub cap: usize,
    pub seen: u64,
    pub rng: Rng,
    /// The vectors, one behind the other.
    pub values: Vec<T>,
}

/// Vectors with one of them replaced.
pub open spec fn replaced<T>(values: Seq<T>, j: int, v: Seq<T>) -> Seq<T> {
    values.take(16 * j) + v + values.skip(16 * j + 16)
}

/// Vectors after an offer.
pub open spec fn offered<T>(values: Seq<T>, slot: Slot, v: Seq<T>) -> Seq<T> {
    match slot {
        Slot::Append => values + v,
        Slot::Replace(j) => replaced(values, j as int, v),
        Slot::Skip => values,
    }
}

impl<T: Copy> Reservoir<T> {
    /// As many vectors as were offered, at most the size of the sample.
    pub open spec fn wf(&self) -> bool {
        &&& self.values@.len() == 16 * if self.seen < self.cap {
            self.seen as int
        } else {
            self.cap as int
        }
        &&& 16 * self.cap <= usize::MAX
    }

    /// An empty sample of `cap` vectors.
    pub fn new(cap: usize, seed: u64) -> (r: Reservoir<T>)
        requires
            16 * cap <= usize::MAX,
        ensures
            r.wf(),
            r.cap == cap,
            r.seen == 0,
            r.rng.state == seed,
            r.values@ == Seq::<T>::empty(),
    {
        Reservoir { cap, seen: 0, rng: Rng::new(seed), values: Vec::new() }
    }

    /// Offers a vector.
    pub fn offer(&mut self, v: &[T]) -> (slot: Slot)
        requires
            old(self).wf(),
            v@.len() == VQ_DIM,
            old(self).seen < usize::MAX,
        ensures
            final(self).wf(),
            final(self).cap == old(self).cap,
            final(self).seen == old(self).seen + 1,
            slot == slot_of(old(self).rng.state, old(self).seen, old(self).cap),
            final(self).rng.state == if old(self).seen < old(self).cap {
                old(self).rng.state
            } else {
                next_state(old(self).rng.state)
            },
            final(self).values@ == offered(old(self).values@, slot, v@),
    {
        let t: u64 = self.seen;
        self.seen = t + 1;
        if t < self.cap as u64 {
            crate::cache::append(&mut self.values, v);
            return Slot::Append;
        }
        let j: usize = self.rng.below(t as usize + 1);
        if j < self.cap {
            replace_at(&mut self.values, j, v);
            Slot::Replace(j)
        } else {
            Slot::Skip
        }
    }
}

/// Replaces vector `j`.
pub fn replace_at<T: Copy>(values: &mut Vec<T>, j: usize, v: &[T])
    requires
        v@.len() == VQ_DIM,
        16 * j + 16 <= old(values)@.len(),
    ensures
        final(values)@ == replaced(old(values)@, j as int, v@),
{
    let ghost start = values@;
    let total: usize = values.len();
    for k in 0..VQ_DIM
        invariant
            v@.len() == VQ_DIM,
            total == start.len(),
            16 * j + 16 <= total,
            values@.len() == total,
            forall|i: int|
                0 <= i < total ==> #[trigger] values@[i] == if 16 * j <= i < 16 * j + k {
                    v@[i - 16 * j]
                } else {
                    start[i]
                },
    {
        values.set(16 * j + k, v[k]);
    }
    proof {
        assert(values@ =~= replaced(start, j as int, v@));
    }
}

/// Treats values that go along with a sample as the sample treated its vector.
pub fn follow_slot<T: Copy>(values: &mut Vec<T>, slot: Slot, v: &[T])
    requires
        v@.len() == VQ_DIM,
        slot matches Slot::Replace(j) ==> 16 * j + 16 <= old(values)@.len(),
    ensures
        final(values)@ == offered(old(values)@, slot, v@),
{
    match slot {
        Slot::Append => crate::cache::append(values, v),
        Slot::Replace(j) => replace_at(values, j, v),
        Slot::Skip => {},
    }
}

/// A sample and what became of the vectors offered to it.
pub ghost struct Sample<T> {
    pub values: Seq<T>,
    pub state: u64,
    pub seen: int,
    pub slots: Seq<Slot>,
}

/// A sample once the first `n` vectors of a tensor were offered.
pub open spec fn fed<T>(start: Sample<T>, cap: usize, w: Seq<T>, n: nat) -> Sample<T>
    decreases n,
{
    if n == 0 {
        start
    } else {
        let s = fed(start, cap, w, (n - 1) as nat);
        let slot = slot_of(s.state, s.seen as u64, cap);
        Sample {
            values: offered(s.values, slot, w.subrange(16 * (n - 1), 16 * (n - 1) + 16)),
            state: if s.seen < cap {
                s.state
            } else {
                next_state(s.state)
            },
            seen: s.seen + 1,
            slots: s.slots.push(slot),
        }
    }
}

impl<T: Copy> Reservoir<T> {
    /// Offers the vectors of a tensor one by one; values behind the last whole vector
    /// are left out.
    pub fn offer_all(&mut self, w: &[T]) -> (slots: Vec<Slot>)
        requires
            old(self).wf(),
            old(self).seen + w@.len() / 16 < usize::MAX,
        ensures
            final(self).wf(),
            final(self).cap == old(self).cap,
            ({
                let end = fed(
                    (Sample {
                        values: old(self).values@,
                        state: old(self).rng.state,
                        seen: old(self).seen as int,
                        slots: Seq::empty(),
                    }),
                    old(self).cap,
                    w@,
                    w@.len() / 16,
                );
                &&& final(self).values@ == end.values
                &&& final(self).rng.state == end.state
                &&& final(self).seen == end.seen
                &&& slots@ == end.slots
            }),
    {
        let mut slots: Vec<Slot> = Vec::new();
        let ghost start = Sample {
            values: self.values@,
            state: self.rng.state,
            seen: self.seen as int,
            slots: Seq::<Slot>::empty(),
        };
        let total: usize = w.len();
        let n: usize = total / 16;
        for i in 0..n
            invariant
                total == w@.len(),
                n == total / 16,
                self.wf(),
                self.cap == old(self).cap,
                old(self).seen + n < usize::MAX,
                ({
                    let s = fed(start, old(self).cap, w@, i as nat);
                    &&& self.values@ == s.values
                    &&& self.rng.state == s.state
                    &&& self.seen == s.seen
                    &&& self.seen == old(self).seen + i
                    &&& slots@ == s.slots
                }),
        {
            let v: &[T] = vstd::slice::slice_subrange(w, 16 * i, 16 * i + 16);
            let slot: Slot = self.offer(v);
            slots.push(slot);
        }
        slots
    }
}

/// The weights of the 16 columns that a vector of a matrix covers: `per_row` vectors make
/// a row. Without column weights each is `one`.
pub fn column_weights<T: Copy>(cw: Option<&[T]>, vector: usize, per_row: usize, one: T) -> (out: Vec<
    T,
>)
    requires
        per_row > 0,
        cw matches Some(w) ==> w@.len() == 16 * per_row,
    ensures
        out@ == match cw {
            Some(w) => w@.subrange(
                16 * (vector as int % per_row as int),
                16 * (vector as int % per_row as int) + 16,
            ),
            None => Seq::new(16, |i: int| one),
        },
{
    match cw {
        Some(w) => {
            let total: usize = w.len();
            let at: usize = vector % per_row;
            proof {
                assert(vector as int % per_row as int == at);
            }
            crate::cache::copy_of(vstd::slice::slice_subrange(w, 16 * at, 16 * at + 16))
        },
        None => crate::cache::filled(one, VQ_DIM),
    }
}

/// The bits of infinity.
pub const INFINITE: u64 = 0x7ff0_0000_0000_0000;

/// The codebook vector at the smallest distance, and that distance: of equal ones the
/// first, and the first vector where no distance is finite.
pub open spec fn nearest_in(distances: Seq<u64>) -> (int, u64)
    decreases distances.len(),
{
    if distances.len() == 0 {
        (0, INFINITE)
    } else {
        let (k, d) = nearest_in(distances.drop_last());
        if above(d, distances.last()) {
            (distances.len() - 1, distances.last())
        } else {
            (k, d)
        }
    }
}

/// No distance is smaller than the one that was picked, and every earlier one is greater.
pub proof fn law_nearest_is_the_first_minimum(distances: Seq<u64>, i: int)
    requires
        !any_nan(distances),
        0 <= i < distances.len(),
        above(INFINITE, distances[i]),
    ensures
        0 <= nearest_in(distances).0 < distances.len(),
        distances[nearest_in(distances).0] == nearest_in(distances).1,
        !above(nearest_in(distances).1, distances[i]),
        i < nearest_in(distances).0 ==> above(distances[i], nearest_in(distances).1),
    decreases distances.len(),
{
    let before = distances.drop_last();
    assert forall|k: int| 0 <= k < before.len() implies !is_nan(#[trigger] before[k]) by {
        assert(!is_nan(distances[k]));
    }
    assert(!is_nan(distances.last()));
    lemma_nearest_bounds(before);
    if i < distances.len() - 1 {
        law_nearest_is_the_first_minimum(before, i);
    }
}

proof fn lemma_nearest_bounds(distances: Seq<u64>)
    ensures
        !is_nan(nearest_in(distances).1),
        !above(nearest_in(distances).1, INFINITE),
        nearest_in(distances).1 == INFINITE || (0 <= nearest_in(distances).0 < distances.len()
            && distances[nearest_in(distances).0] == nearest_in(distances).1),
        distances.len() > 0 ==> 0 <= nearest_in(distances).0 < distances.len(),
    decreases distances.len(),
{
    if distances.len() > 0 {
        lemma_nearest_bounds(distances.drop_last());
    }
}

/// The codebook vector at the smallest of the distances, which are floats given by their
/// bits.
pub fn nearest(distances: &[u64]) -> (k: usize)
    ensures
        k == nearest_in(distances@).0,
{
    let mut best: usize = 0;
    let mut best_d: u64 = INFINITE;
    proof {
        assert(distances@.take(0) =~= Seq::<u64>::empty());
    }
    for k in 0..distances.len()
        invariant
            (best as int, best_d) == nearest_in(distances@.take(k as int)),
    {
        proof {
            assert(distances@.take(k + 1).drop_last() =~= distances@.take(k as int));
        }
        if exceeds(best_d, distances[k]) {
            best_d = distances[k];
            best = k;
        }
    }
    proof {
        assert(distances@.take(distances@.len() as int) =~= distances@);
    }
    best
}

/// `i` is the first of the greatest errors.
pub open spec fn is_worst(errors: Seq<u64>, i: int) -> bool {
    &&& 0 <= i < errors.len()
    &&& forall|j: int| 0 <= j < errors.len() ==> !above(#[trigger] errors[j], errors[i])
    &&& forall|j: int| 0 <= j < i ==> above(errors[i], #[trigger] errors[j])
}

/// The vector that an empty cluster is seeded with: the first of those with the greatest
/// error, the first of all where there is none. Nothing where errors cannot be compared.
pub fn worst(errors: &[u64]) -> (i: Option<usize>)
    ensures
        match i {
            Some(i) => if errors@.len() <= 1 {
                i == 0
            } else {
                !any_nan(errors@) && is_worst(errors@, i as int)
            },
            None => errors@.len() > 1 && any_nan(errors@),
        },
{
    let n: usize = errors.len();
    if n <= 1 {
        return Some(0);
    }
    let mut best: usize = 0;
    for k in 0..n
        invariant
            n == errors@.len(),
            n > 1,
            best < n,
            k > 0 ==> best < k,
            k == 0 ==> best == 0,
            forall|j: int| 0 <= j < k ==> !is_nan(#[trigger] errors@[j]),
            forall|j: int| 0 <= j < k ==> !above(#[trigger] errors@[j], errors@[best as int]),
            forall|j: int| 0 <= j < best ==> above(errors@[best as int], #[trigger] errors@[j]),
    {
        if not_a_number(errors[k]) {
            proof {
                assert(is_nan(errors@[k as int]));
            }
            return None;
        }
        if exceeds(errors[k], errors[best]) {
            best = k;
        }
    }
    Some(best)
}

/// A sample always holds vectors that were offered: replacing one keeps the others.
pub proof fn law_replacing_keeps_the_others<T>(values: Seq<T>, j: int, v: Seq<T>, k: int)
    requires
        v.len() == VQ_DIM,
        0 <= j,
        16 * j + 16 <= values.len(),
        0 <= k,
        16 * k + 16 <= values.len(),
    ensures
        replaced(values, j, v).len() == values.len(),
        replaced(values, j, v).subrange(16 * k, 16 * k + 16) == if k == j {
            v
        } else {
            values.subrange(16 * k, 16 * k + 16)
        },
{
    let out = replaced(values, j, v);
    assert(out.subrange(16 * k, 16 * k + 16) =~= if k == j {
        v
    } else {
        values.subrange(16 * k, 16 * k + 16)
    });
}

/// The different indices among the first `n` draws, in the order of their first draw,
/// at most `k` of them.
pub open spec fn first_distinct(state: u64, bound: usize, k: nat, n: nat) -> Seq<usize>
    decreases n,
{
    if n == 0 {
        Seq::empty()
    } else {
        let s = first_distinct(state, bound, k, (n - 1) as nat);
        let i = drawn(state, (n - 1) as nat, bound);
        if s.len() < k && !s.contains(i) {
            s.push(i)
        } else {
            s
        }
    }
}

/// The start vectors of a codebook over `n` samples.
pub open spec fn start_count(n: usize) -> nat {
    if n < 256 {
        n as nat
    } else {
        256
    }
}

/// `chosen` are the start vectors after a number of draws.
pub open spec fn start_drawn(
    seed: u64,
    n: usize,
    draws: nat,
    chosen: Seq<usize>,
    after: u64,
) -> bool {
    let k = start_count(n);
    &&& chosen == first_distinct(seed, n, k, draws)
    &&& after == state_after(seed, draws)
    &&& chosen.len() == k || (chosen.len() < k && draws == u64::MAX)
}

/// Draws different indices below `n`, as many as a codebook has vectors or all where
/// there are fewer. The count is reached unless the draws of a whole counter's range
/// give out.
pub fn distinct_start(rng: &mut Rng, n: usize) -> (chosen: Vec<usize>)
    requires
        n > 0,
    ensures
        chosen@.no_duplicates(),
        forall|i: int| 0 <= i < chosen@.len() ==> (#[trigger] chosen@[i]) < n,
        exists|draws: nat|
            start_drawn(old(rng).state, n, draws, chosen@, final(rng).state),
{
    let want: usize = if n < VQ_K {
        n
    } else {
        VQ_K
    };
    let ghost seed = rng.state;
    let mut chosen: Vec<usize> = Vec::new();
    let mut draws: u64 = 0;
    while chosen.len() < want && draws < u64::MAX
        invariant
            n > 0,
            want <= n,
            chosen@ == first_distinct(seed, n, want as nat, draws as nat),
            rng.state == state_after(seed, draws as nat),
            chosen@.len() <= want,
            chosen@.no_duplicates(),
            forall|i: int| 0 <= i < chosen@.len() ==> (#[trigger] chosen@[i]) < n,
        decreases u64::MAX - draws,
    {
        let i: usize = rng.below(n);
        proof {
            assert(i == drawn(seed, draws as nat, n));
        }
        match crate::slice_plan::find_position(chosen.as_slice(), i) {
            Some(at) => {
                proof {
                    assert(chosen@[at as int] == i);
                }
            },
            None => {
                chosen.push(i);
            },
        }
        draws += 1;
    }
    proof {
        assert(start_drawn(seed, n, draws as nat, chosen@, rng.state));
    }
    chosen
}

/// The vectors that index bytes pick from a codebook, one behind the other.
pub open spec fn gathered<T>(indices: Seq<u8>, codebook: Seq<T>) -> Seq<T> {
    Seq::new(16 * indices.len(), |i: int| codebook[16 * indices[i / 16] + i % 16])
}

/// Gathers the vectors that index bytes pick from a codebook.
pub fn gather_vq<T: Copy>(indices: &[u8], codebook: &[T]) -> (out: Vec<T>)
    requires
        codebook@.len() == VQ_K * VQ_DIM,
    ensures
        out@ == gathered(indices@, codebook@),
{
    let mut out: Vec<T> = Vec::new();
    for v in 0..indices.len()
        invariant
            codebook@.len() == 4096,
            out@ == gathered(indices@.take(v as int), codebook@),
    {
        let base: usize = 16 * (indices[v] as usize);
        let ghost start = out@;
        for j in 0..VQ_DIM
            invariant
                codebook@.len() == 4096,
                base == 16 * indices@[v as int],
                0 <= v < indices@.len(),
                start.len() == 16 * v,
                start == gathered(indices@.take(v as int), codebook@),
                out@.len() == 16 * v + j,
                forall|i: int| 0 <= i < 16 * v ==> #[trigger] out@[i] == start[i],
                forall|i: int|
                    16 * v <= i < 16 * v + j ==> #[trigger] out@[i] == codebook@[base + i - 16 * v],
        {
            out.push(codebook[base + j]);
        }
        proof {
            let next = gathered(indices@.take(v + 1), codebook@);
            assert(out@ =~= next) by {
                assert forall|i: int| 0 <= i < 16 * v + 16 implies out@[i] == next[i] by {
                    if i < 16 * v {
                        assert(i / 16 < v);
                        assert(indices@.take(v + 1)[i / 16] == indices@.take(v as int)[i / 16]);
                    } else {
                        assert(i / 16 == v && i % 16 == i - 16 * v);
                    }
                }
            }
        }
    }
    proof {
        assert(indices@.take(indices@.len() as int) =~= indices@);
    }
    out
}

/// The generator steps by one constant: after `n` steps the state is the first plus `n` times
/// it, modulo `2^64`.
pub proof fn law_states_are_evenly_spaced(state: u64, n: nat)
    ensures
        state_after(state, n) as int == (state + n * 0x9E37_79B9_7F4A_7C15)
            % 0x1_0000_0000_0000_0000,
    decreases n,
{
    let g = 0x9E37_79B9_7F4A_7C15int;
    let m = 0x1_0000_0000_0000_0000int;
    if n > 0 {
        law_states_are_evenly_spaced(state, (n - 1) as nat);
        let a = state + (n - 1) * g;
        assert(a + g == state + n * g) by (nonlinear_arith)
            requires
                a == state + (n - 1) * g,
        ;
        vstd::arithmetic::div_mod::lemma_add_mod_noop(a, g, m);
        vstd::arithmetic::div_mod::lemma_mod_twice(a, m);
        assert(g % m == g);
    }
}

/// A full sample takes each newcomer in with what the generator draws among all that were
/// seen: into the place that is drawn where the sample has it, and else not at all; a sample
/// that is not full takes all.
pub proof fn law_sample_fills_before_it_replaces(state: u64, seen: u64, cap: usize)
    requires
        seen < u64::MAX,
    ensures
        seen < cap ==> slot_of(state, seen, cap) is Append,
        seen >= cap ==> {
            let j = output(next_state(state)) as int % (seen + 1);
            slot_of(state, seen, cap) == if j < cap {
                Slot::Replace(j as usize)
            } else {
                Slot::Skip
            }
        },
{
}

/// Whatever a sample holds was there before or was offered.
pub proof fn law_sample_holds_what_was_offered<T>(
    start: Sample<T>,
    cap: usize,
    w: Seq<T>,
    n: nat,
    i: int,
)
    requires
        16 * n <= w.len(),
        start.values.len() == 16 * if start.seen < cap {
            start.seen
        } else {
            cap as int
        },
        0 <= start.seen,
        start.seen + n < u64::MAX,
        0 <= i,
        16 * i + 16 <= fed(start, cap, w, n).values.len(),
    ensures
        ({
            let v = fed(start, cap, w, n).values.subrange(16 * i, 16 * i + 16);
            ||| 16 * i + 16 <= start.values.len() && v == start.values.subrange(16 * i, 16 * i + 16)
            ||| exists|k: int| 0 <= k < n && v == #[trigger] offered_at(w, k)
        }),
        fed(start, cap, w, n).seen == start.seen + n,
        fed(start, cap, w, n).values.len() == 16 * if start.seen + n < cap {
            start.seen + n
        } else {
            cap as int
        },
    decreases n,
{
    if n > 0 {
        let m = (n - 1) as nat;
        let before = fed(start, cap, w, m);
        let now = fed(start, cap, w, n);
        let new = offered_at(w, m as int);
        lemma_sample_len(start, cap, w, m);
        let slot = slot_of(before.state, before.seen as u64, cap);
        let v = now.values.subrange(16 * i, 16 * i + 16);
        match slot {
            Slot::Append => {
                if 16 * i + 16 <= before.values.len() {
                    law_sample_holds_what_was_offered(start, cap, w, m, i);
                    assert(v =~= before.values.subrange(16 * i, 16 * i + 16));
                } else {
                    assert(v =~= new);
                }
            },
            Slot::Replace(j) => {
                assert(16 * j + 16 <= before.values.len());
                if i == j {
                    assert(v =~= new);
                } else {
                    law_sample_holds_what_was_offered(start, cap, w, m, i);
                    assert(v =~= before.values.subrange(16 * i, 16 * i + 16));
                }
            },
            Slot::Skip => {
                law_sample_holds_what_was_offered(start, cap, w, m, i);
            },
        }
        lemma_sample_len(start, cap, w, n);
    }
}

/// Vector `k` of those offered.
pub open spec fn offered_at<T>(w: Seq<T>, k: int) -> Seq<T> {
    w.subrange(16 * k, 16 * k + 16)
}

proof fn lemma_sample_len<T>(start: Sample<T>, cap: usize, w: Seq<T>, n: nat)
    requires
        16 * n <= w.len(),
        start.values.len() == 16 * if start.seen < cap {
            start.seen
        } else {
            cap as int
        },
        0 <= start.seen,
        start.seen + n < u64::MAX,
    ensures
        fed(start, cap, w, n).seen == start.seen + n,
        fed(start, cap, w, n).values.len() == 16 * if start.seen + n < cap {
            start.seen + n
        } else {
            cap as int
        },
    decreases n,
{
    if n > 0 {
        lemma_sample_len(start, cap, w, (n - 1) as nat);
    }
}

/// An index stands for its entry of the codebook: the vectors that the indices give are those
/// entries, one behind the other.
pub proof fn law_indices_stand_for_entries<T>(indices: Seq<u8>, codebook: Seq<T>, v: int)
    requires
        0 <= v < indices.len(),
        codebook.len() == 16 * 256,
    ensures
        gathered(indices, codebook).len() == 16 * indices.len(),
        gathered(indices, codebook).subrange(16 * v, 16 * v + 16) == codebook.subrange(
            16 * indices[v],
            16 * indices[v] + 16,
        ),
{
    let out = gathered(indices, codebook).subrange(16 * v, 16 * v + 16);
    let row = codebook.subrange(16 * indices[v], 16 * indices[v] + 16);
    assert forall|k: int| 0 <= k < 16 implies out[k] == row[k] by {
        assert((16 * v + k) / 16 == v && (16 * v + k) % 16 == k);
    }
    assert(out =~= row);
}

} // verus!
