//! Packed 4-bit weights: two levels per byte, the even column in the low half, and one
//! power-of-two scale byte per 32 columns. The weight at a row and a column is its
//! level times 2^(scale - 127).

use crate::decode::above;
use crate::decode::exceeds;
use crate::minifloat::is_negative;
use crate::minifloat::mag32;
use crate::minifloat::magnitude;
use crate::minifloat::pack_units;
use crate::q8::doubled_level;
use crate::q8::level_x2;
use crate::q8::nibble;
use crate::rank::is_nan;
use vstd::arithmetic::power2::lemma_pow2_adds;
use vstd::arithmetic::power2::lemma_pow2_pos;
use vstd::arithmetic::power2::pow2;
use vstd::prelude::*;

verus! {

/// The bits of 2^(byte - 127): the byte is the exponent field, and the lowest one a
/// value below the normal range.
pub fn scale_from_byte(sb: u8) -> (bits: u32)
    ensures
        sb < 255 ==> bits < 0x7f80_0000 && mag32(bits as nat) == pow2((sb + 22) as nat),
        sb == 255 ==> bits == 0x7f80_0000,
{
    proof {
        vstd::arithmetic::power2::lemma2_to64();
    }
    if sb == 0 {
        0x0040_0000
    } else {
        proof {
            if sb < 255 {
                let b = (sb as nat) * 0x80_0000;
                assert(b / 0x80_0000 == sb && b % 0x80_0000 == 0);
                lemma_pow2_adds(23, (sb - 1) as nat);
                assert(pow2(23) == 0x80_0000);
            }
        }
        (sb as u32) * 0x80_0000
    }
}

/// The magnitude of a weight in units of 2^-149: the doubled level times half its scale.
pub open spec fn weight_units(level2: nat, sb: u8) -> nat {
    level2 * pow2((sb + 21) as nat)
}

/// `bits` are those of the weight with a level and a scale byte: the exact product, an
/// infinity above the range. The highest scale byte is itself an infinity, which gives
/// an infinity, and no number for a level of zero.
#[verifier::opaque]
pub open spec fn is_weight(bits: u32, nib: int, sb: u8) -> bool {
    let l = doubled_level(nib);
    let size = (if l < 0 {
        -l
    } else {
        l
    }) as nat;
    if sb == 255 && size == 0 {
        magnitude(bits) > 0x7f80_0000
    } else {
        &&& is_negative(bits) == (nib >= 8)
        &&& if sb == 255 || weight_units(size, sb) >= pow2(277) {
            magnitude(bits) == 0x7f80_0000
        } else {
            magnitude(bits) < 0x7f80_0000 && mag32(magnitude(bits)) == weight_units(size, sb)
        }
    }
}

/// The bits of a weight.
pub fn weight_bits(nib: u8, sb: u8) -> (bits: u32)
    requires
        nib < 16,
    ensures
        is_weight(bits, nib as int, sb),
{
    proof {
        reveal(is_weight);
    }
    let level: i32 = level_x2(nib);
    let negative: bool = nib >= 8;
    let sign: u32 = if negative {
        0x8000_0000
    } else {
        0
    };
    let size: i32 = if level < 0 {
        -level
    } else {
        level
    };
    if size == 0 {
        if sb == 255 {
            return 0x7fc0_0000;
        }
        proof {
            lemma_pow2_pos(277);
            assert(0 * pow2((sb + 21) as nat) == 0) by (nonlinear_arith);
        }
        return sign;
    }
    if sb == 255 {
        return sign + 0x7f80_0000;
    }
    let b: u32 = pack_units(size as u32, sb as u32 + 21);
    sign + b
}

/// A packed matrix with its scales is whole.
pub open spec fn packed_ok(packed: int, scales: int, rows: int, cols: int) -> bool {
    &&& cols % 32 == 0
    &&& packed == rows * cols / 2
    &&& scales == rows * cols / 32
}

/// `bits` are those of the weight at place `i`, counted row by row.
#[verifier::opaque]
pub open spec fn weight_at(packed: Seq<u8>, scales: Seq<u8>, i: int, bits: u32) -> bool {
    is_weight(bits, nibble(packed, i), scales[i / 32])
}

fn weight_of(packed: &[u8], scales: &[u8], i: usize) -> (w: u32)
    requires
        i / 2 < packed@.len(),
        i / 32 < scales@.len(),
    ensures
        weight_at(packed@, scales@, i as int, w),
{
    proof {
        reveal(weight_at);
    }
    let byte: u8 = packed[i / 2];
    let nib: u8 = if i % 2 == 0 {
        byte % 16
    } else {
        byte / 16
    };
    weight_bits(nib, scales[i / 32])
}

/// Unpacks a matrix: the bits of every weight, row by row.
pub fn dequant(packed: &[u8], scales: &[u8], rows: usize, cols: usize) -> (out: Vec<u32>)
    requires
        packed_ok(packed@.len() as int, scales@.len() as int, rows as int, cols as int),
        rows * cols <= usize::MAX,
    ensures
        out@.len() == rows * cols,
        forall|i: int|
            0 <= i < out@.len() ==> weight_at(packed@, scales@, i, #[trigger] out@[i]),
{
    let n: usize = rows * cols;
    proof {
        let q = (cols / 32) as int;
        assert(cols == 32 * q);
        assert(n == 32 * (rows * q)) by (nonlinear_arith)
            requires
                n == rows * cols,
                cols == 32 * q,
        ;
    }
    let mut out: Vec<u32> = Vec::new();
    for i in 0..n
        invariant
            2 * packed@.len() == n,
            32 * scales@.len() == n,
            out@.len() == i,
            forall|k: int| 0 <= k < i ==> weight_at(packed@, scales@, k, #[trigger] out@[k]),
    {
        proof {
            assert(i / 2 < packed@.len() && i / 32 < scales@.len());
        }
        let w: u32 = weight_of(packed, scales, i);
        out.push(w);
    }
    out
}

/// Packs levels, two per byte, the even column in the low half.
pub fn pack_levels(levels: &[u8]) -> (packed: Vec<u8>)
    requires
        levels@.len() % 2 == 0,
        forall|i: int| 0 <= i < levels@.len() ==> (#[trigger] levels@[i]) < 16,
    ensures
        packed@.len() == levels@.len() / 2,
        forall|c: int| 0 <= c < levels@.len() ==> nibble(packed@, c) == #[trigger] levels@[c],
{
    let total: usize = levels.len();
    let n: usize = total / 2;
    let mut packed: Vec<u8> = Vec::new();
    for j in 0..n
        invariant
            total == levels@.len(),
            total % 2 == 0,
            n == total / 2,
            forall|i: int| 0 <= i < levels@.len() ==> (#[trigger] levels@[i]) < 16,
            packed@.len() == j,
            forall|c: int| 0 <= c < 2 * j ==> nibble(packed@, c) == #[trigger] levels@[c],
    {
        proof {
            assert(levels@[2 * j] < 16 && levels@[2 * j + 1] < 16);
        }
        let lo: u8 = levels[2 * j];
        let hi: u8 = levels[2 * j + 1];
        let ghost before = packed@;
        packed.push(lo + 16 * hi);
        proof {
            assert forall|c: int| 0 <= c < 2 * j + 2 implies nibble(packed@, c)
                == #[trigger] levels@[c] by {
                if c < 2 * j {
                    assert(nibble(before, c) == levels@[c]);
                    assert(packed@[c / 2] == before[c / 2]);
                }
            }
        }
    }
    packed
}

/// A blob of packed weights falls into nibbles, scales and, in the quadratic flavour,
/// the bits of the largest scale.
pub struct PackedParts<'a> {
    pub packed: &'a [u8],
    pub scales: &'a [u8],
    pub smax: Option<u32>,
}

/// Takes apart a blob of either flavour; nothing for another type or a blob that is
/// too short.
pub fn packed_parts<'a>(dtype: u8, blob: &'a [u8], rows: usize, cols: usize) -> (r: Option<
    PackedParts<'a>,
>)
    requires
        rows * cols <= usize::MAX,
    ensures
        ({
            let np = rows * cols / 2;
            let ns = rows * cols / 32;
            match r {
                None => {
                    ||| dtype != crate::weights::DTYPE_MXFP4 && dtype
                        != crate::weights::DTYPE_MXFP4SQ
                    ||| dtype == crate::weights::DTYPE_MXFP4 && blob@.len() < np
                    ||| dtype == crate::weights::DTYPE_MXFP4SQ && blob@.len() < np + ns + 4
                },
                Some(p) => {
                    &&& p.packed@ == blob@.take(np)
                    &&& if dtype == crate::weights::DTYPE_MXFP4 {
                        p.scales@ == blob@.skip(np) && p.smax is None
                    } else {
                        &&& dtype == crate::weights::DTYPE_MXFP4SQ
                        &&& p.scales@ == blob@.subrange(np, np + ns)
                        &&& p.smax is Some
                        &&& p.smax->Some_0 == crate::directory::num_at(blob@, np + ns, 4)
                    }
                },
            }
        }),
{
    let n: usize = rows * cols;
    let np: usize = n / 2;
    let ns: usize = n / 32;
    let len: usize = blob.len();
    if dtype == crate::weights::DTYPE_MXFP4 {
        if len < np {
            return None;
        }
        let packed: &'a [u8] = vstd::slice::slice_subrange(blob, 0, np);
        let scales: &'a [u8] = vstd::slice::slice_subrange(blob, np, len);
        proof {
            assert(packed@ =~= blob@.take(np as int));
            assert(scales@ =~= blob@.skip(np as int));
        }
        return Some(PackedParts { packed, scales, smax: None });
    }
    if dtype == crate::weights::DTYPE_MXFP4SQ {
        if len < 4 || len - 4 < np || len - 4 - np < ns {
            return None;
        }
        let packed: &'a [u8] = vstd::slice::slice_subrange(blob, 0, np);
        let scales: &'a [u8] = vstd::slice::slice_subrange(blob, np, np + ns);
        proof {
            crate::le::lemma_pow256();
            assert(packed@ =~= blob@.take(np as int));
        }
        let smax: u32 = crate::le::read_le(blob, np + ns, 4) as u32;
        return Some(PackedParts { packed, scales, smax: Some(smax) });
    }
    None
}

/// The bits of 2^e.
pub fn exp2_i(e: i32) -> (bits: u32)
    requires
        -127 <= e <= 128,
    ensures
        e < 128 ==> bits < 0x7f80_0000 && mag32(bits as nat) == pow2((e + 149) as nat),
        e == 128 ==> bits == 0x7f80_0000,
{
    scale_from_byte((e + 127) as u8)
}

/// The level whose range a magnitude lies in, in units of 2^-149; the ranges meet
/// halfway between two levels.
pub open spec fn level_for(x: nat) -> int {
    let q = pow2(147);
    if x < q {
        0
    } else if x < 3 * q {
        1
    } else if x < 5 * q {
        2
    } else if x < 7 * q {
        3
    } else if x < 10 * q {
        4
    } else if x < 14 * q {
        5
    } else if x < 20 * q {
        6
    } else {
        7
    }
}

/// The distance of a magnitude from a level, in units of 2^-149.
pub open spec fn level_error(x: nat, level: int) -> int {
    let d = x - doubled_level(level) * pow2(148);
    if d < 0 {
        -d
    } else {
        d
    }
}

/// The chosen level is a nearest one.
pub proof fn law_level_is_nearest(x: nat, other: int)
    requires
        0 <= other < 8,
    ensures
        level_error(x, level_for(x)) <= level_error(x, other),
{
    lemma_pow2_adds(1, 147);
    vstd::arithmetic::power2::lemma2_to64();
    let q = pow2(147) as int;
    assert(pow2(148) == 2 * q);
    lemma_pow2_pos(147);
    let a = doubled_level(level_for(x));
    let b = doubled_level(other);
    assert(a * (2 * q) == (2 * a) * q) by (nonlinear_arith);
    assert(b * (2 * q) == (2 * b) * q) by (nonlinear_arith);
    assert(other == 0 || other == 1 || other == 2 || other == 3 || other == 4 || other == 5
        || other == 6 || other == 7);
}

proof fn lemma_bounds()
    ensures
        mag32(0x3e80_0000) == pow2(147),
        mag32(0x3f40_0000) == 3 * pow2(147),
        mag32(0x3fa0_0000) == 5 * pow2(147),
        mag32(0x3fe0_0000) == 7 * pow2(147),
        mag32(0x4020_0000) == 10 * pow2(147),
        mag32(0x4060_0000) == 14 * pow2(147),
        mag32(0x40a0_0000) == 20 * pow2(147),
{
    vstd::arithmetic::power2::lemma2_to64();
    assert(pow2(23) == 0x80_0000 && pow2(22) == 0x40_0000 && pow2(21) == 0x20_0000 && pow2(20)
        == 0x10_0000);
    lemma_pow2_adds(23, 124);
    lemma_pow2_adds(22, 125);
    lemma_pow2_adds(21, 126);
    lemma_pow2_adds(20, 127);
    lemma_pow2_adds(19, 128);
    assert(pow2(19) == 0x8_0000);
    assert(pow2(147) == 0x80_0000 * pow2(124));
    assert(pow2(147) == 0x40_0000 * pow2(125));
    assert(pow2(147) == 0x20_0000 * pow2(126));
    assert(pow2(147) == 0x10_0000 * pow2(127));
    assert(pow2(147) == 0x8_0000 * pow2(128));
    assert(mag32(0x3f40_0000) == 0xc0_0000 * pow2(125));
    assert(mag32(0x3fa0_0000) == 0xa0_0000 * pow2(126));
    assert(mag32(0x3fe0_0000) == 0xe0_0000 * pow2(126));
    assert(mag32(0x4020_0000) == 0xa0_0000 * pow2(127));
    assert(mag32(0x4060_0000) == 0xe0_0000 * pow2(127));
    assert(mag32(0x40a0_0000) == 0xa0_0000 * pow2(128));
}

/// The level for the bits of a float: the nearest magnitude, halfway up; negative
/// floats take the negative levels. What is no number counts as zero.
pub fn nearest_level(bits: u32) -> (nib: u8)
    ensures
        nib < 16,
        (nib >= 8) == is_negative(bits),
        magnitude(bits) <= 0x7f80_0000 ==> nib % 8 == level_for(mag32(magnitude(bits))),
        magnitude(bits) > 0x7f80_0000 ==> nib % 8 == 0,
{
    let sign: u8 = if bits >= 0x8000_0000 {
        8
    } else {
        0
    };
    let m: u32 = bits % 0x8000_0000;
    if m > 0x7f80_0000 {
        return sign;
    }
    let level: u8 = if m < 0x3e80_0000 {
        0
    } else if m < 0x3f40_0000 {
        1
    } else if m < 0x3fa0_0000 {
        2
    } else if m < 0x3fe0_0000 {
        3
    } else if m < 0x4020_0000 {
        4
    } else if m < 0x4060_0000 {
        5
    } else if m < 0x40a0_0000 {
        6
    } else {
        7
    };
    proof {
        lemma_bounds();
        lemma_at_bound(m as nat, 0x3e80_0000);
        lemma_at_bound(m as nat, 0x3f40_0000);
        lemma_at_bound(m as nat, 0x3fa0_0000);
        lemma_at_bound(m as nat, 0x3fe0_0000);
        lemma_at_bound(m as nat, 0x4020_0000);
        lemma_at_bound(m as nat, 0x4060_0000);
        lemma_at_bound(m as nat, 0x40a0_0000);
    }
    sign + level
}

proof fn lemma_at_bound(m: nat, bound: nat)
    ensures
        m < bound <==> mag32(m) < mag32(bound),
{
    if m < bound {
        crate::minifloat::lemma_mag_rises(m, bound);
    } else if bound < m {
        crate::minifloat::lemma_mag_rises(bound, m);
    }
}

/// The scale exponent chosen among `e` and its neighbours by their errors: a neighbour in
/// range with a lower error than what was chosen before wins.
pub open spec fn chosen_scale(e: int, here: u64, below: u64, beyond: u64) -> int {
    let down = e > -127 && above(here, below);
    let least = if down {
        below
    } else {
        here
    };
    if e < 128 && above(least, beyond) {
        e + 1
    } else if down {
        e - 1
    } else {
        e
    }
}

/// The error of a candidate.
pub open spec fn error_at(e: int, here: u64, below: u64, beyond: u64, candidate: int) -> u64 {
    if candidate < e {
        below
    } else if candidate > e {
        beyond
    } else {
        here
    }
}

/// The chosen exponent is never worse than `e`, nor than a neighbour in range where all
/// errors are numbers.
pub proof fn law_searched_scale_is_never_worse(e: int, here: u64, below: u64, beyond: u64)
    ensures
        !above(
            error_at(e, here, below, beyond, chosen_scale(e, here, below, beyond)),
            here,
        ),
        !is_nan(here) && !is_nan(below) && !is_nan(beyond) ==> {
            let best = error_at(e, here, below, beyond, chosen_scale(e, here, below, beyond));
            (e > -127 ==> !above(best, below)) && (e < 128 ==> !above(best, beyond))
        },
{
}

/// Chooses a scale exponent among `e` and its neighbours by their errors, which are
/// 64-bit floats given by their bits.
pub fn search_mx_scale(e: i32, here: u64, below: u64, beyond: u64) -> (best: i32)
    requires
        -127 <= e <= 128,
    ensures
        best == chosen_scale(e as int, here, below, beyond),
{
    let mut best: i32 = e;
    let mut least: u64 = here;
    if e > -127 && exceeds(here, below) {
        least = below;
        best = e - 1;
    }
    if e < 128 && exceeds(least, beyond) {
        best = e + 1;
    }
    best
}

/// Each 32 cells share a scale, and each cell has its own level.
pub proof fn law_blocks_share_a_scale(
    packed: Seq<u8>,
    scales: Seq<u8>,
    b: int,
    k: int,
    bits: u32,
)
    requires
        0 <= b,
        0 <= k < 32,
    ensures
        weight_at(packed, scales, 32 * b + k, bits) <==> is_weight(
            bits,
            nibble(packed, 32 * b + k),
            scales[b],
        ),
{
    assert((32 * b + k) / 32 == b);
    reveal(weight_at);
}

/// A weight is its level times a power of two: one more in the scale doubles it.
pub proof fn law_scales_double(level2: nat, sb: u8)
    requires
        sb < 255,
    ensures
        weight_units(level2, (sb + 1) as u8) == 2 * weight_units(level2, sb),
        weight_units(0, sb) == 0,
{
    vstd::arithmetic::power2::lemma_pow2_unfold((sb + 22) as nat);
    let p = pow2((sb + 21) as nat);
    assert(level2 * (2 * p) == 2 * (level2 * p)) by (nonlinear_arith);
}

} // verus!
