//! 8-bit weights with one power-of-two scale byte per block of 128 by 128.

use crate::minifloat::is_negative;
use crate::minifloat::mag32;
use crate::minifloat::magnitude;
use crate::minifloat::pack_units;
use crate::minifloat::steps;
use vstd::arithmetic::power2::lemma_pow2_adds;
use vstd::arithmetic::power2::pow2;
use vstd::prelude::*;

verus! {

/// `bits` are those of an 8-bit code times 2^(scale - 127): the exact product, an
/// infinity above the range. The code that is no number stays none, and the highest
/// scale is an infinity, which makes none of zero.
#[verifier::opaque]
pub open spec fn is_product(bits: u32, b: u8, sb: u8) -> bool {
    let m = (b % 0x80) as nat;
    let units = steps(m, 3) * pow2((sb + 13) as nat);
    if m == 0x7f || (sb == 255 && m == 0) {
        magnitude(bits) > 0x7f80_0000
    } else {
        &&& is_negative(bits) == (b >= 0x80)
        &&& if sb == 255 || units >= pow2(277) {
            magnitude(bits) == 0x7f80_0000
        } else {
            magnitude(bits) < 0x7f80_0000 && mag32(magnitude(bits)) == units
        }
    }
}

/// The bits of an 8-bit code times its scale.
pub fn product_bits(b: u8, sb: u8) -> (bits: u32)
    ensures
        is_product(bits, b, sb),
{
    proof {
        reveal(is_product);
        vstd::arithmetic::power2::lemma2_to64();
    }
    let m: u32 = (b % 0x80) as u32;
    if m == 0x7f || (sb == 255 && m == 0) {
        return 0x7fc0_0000;
    }
    let sign: u32 = if b >= 0x80 {
        0x8000_0000
    } else {
        0
    };
    if sb == 255 {
        return sign + 0x7f80_0000;
    }
    let e: u32 = m / 8;
    let man: u32 = m % 8;
    if e == 0 {
        let w: u32 = pack_units(man, sb as u32 + 13);
        return sign + w;
    }
    let w: u32 = pack_units(man + 8, sb as u32 + 13 + (e - 1));
    proof {
        lemma_pow2_adds((e - 1) as nat, (sb + 13) as nat);
        let t = pow2((e - 1) as nat);
        let u = pow2((sb + 13) as nat);
        assert((man + 8) * (t * u) == (man + 8) * t * u) by (nonlinear_arith);
    }
    sign + w
}

/// Blocks of 128 along an axis.
pub open spec fn blocks(n: int) -> int {
    (n + 127) / 128
}

/// The scale byte of a place.
pub open spec fn scale_at(scales: Seq<u8>, cols: int, r: int, c: int) -> u8 {
    scales[(r / 128) * blocks(cols) + c / 128]
}

proof fn lemma_block_inside(rows: int, cols: int, r: int, c: int)
    requires
        0 <= r < rows,
        0 <= c < cols,
    ensures
        0 <= (r / 128) * blocks(cols) + c / 128 < blocks(rows) * blocks(cols),
{
    let a = r / 128;
    let b = c / 128;
    let n = blocks(rows);
    let m = blocks(cols);
    assert(a < n && b < m && 0 <= a && 0 <= b);
    assert(0 <= a * m && a * m + m <= n * m) by (nonlinear_arith)
        requires
            0 <= a,
            a + 1 <= n,
            0 <= m,
    ;
}

/// Unpacks a matrix of 8-bit codes: the bits of every weight, row by row.
pub fn dequant_fp8(w: &[u8], scales: &[u8], rows: usize, cols: usize) -> (out: Vec<u32>)
    requires
        w@.len() == rows * cols,
        scales@.len() == blocks(rows as int) * blocks(cols as int),
    ensures
        out@.len() == rows * cols,
        forall|r: int, c: int|
            0 <= r < rows && 0 <= c < cols ==> is_product(
                out@[r * cols + c],
                #[trigger] w@[r * cols + c],
                scale_at(scales@, cols as int, r, c),
            ),
{
    let total: usize = w.len();
    let n_scales: usize = scales.len();
    let per: usize = cols / 128 + if cols % 128 == 0 {
        0
    } else {
        1
    };
    proof {
        assert(per == blocks(cols as int));
    }
    let mut out: Vec<u32> = Vec::new();
    let mut r: usize = 0;
    while r < rows
        invariant
            r <= rows,
            total == w@.len() == rows * cols,
            n_scales == scales@.len() == blocks(rows as int) * blocks(cols as int),
            per == blocks(cols as int),
            out@.len() == r * cols,
            forall|y: int, c: int|
                0 <= y < r && 0 <= c < cols ==> is_product(
                    out@[y * cols + c],
                    #[trigger] w@[y * cols + c],
                    scale_at(scales@, cols as int, y, c),
                ),
        decreases rows - r,
    {
        let ghost start = out@;
        proof {
            assert(r * cols + cols <= rows * cols) by (nonlinear_arith)
                requires
                    r + 1 <= rows,
            ;
        }
        let mut c: usize = 0;
        while c < cols
            invariant
                r < rows,
                c <= cols,
                total == w@.len() == rows * cols,
                n_scales == scales@.len() == blocks(rows as int) * blocks(cols as int),
                per == blocks(cols as int),
                r * cols + cols <= total,
                start.len() == r * cols,
                out@.len() == r * cols + c,
                forall|i: int| 0 <= i < start.len() ==> #[trigger] out@[i] == start[i],
                forall|x: int|
                    0 <= x < c ==> is_product(
                        out@[r * cols + x],
                        #[trigger] w@[r * cols + x],
                        scale_at(scales@, cols as int, r as int, x),
                    ),
            decreases cols - c,
        {
            proof {
                lemma_block_inside(rows as int, cols as int, r as int, c as int);
                assert(0 <= r * cols) by (nonlinear_arith);
                let a = (r / 128) as int;
                assert(0 <= a * per) by (nonlinear_arith)
                    requires
                        a >= 0,
                        per >= 0,
                ;
            }
            let at: usize = r * cols + c;
            let s: u8 = scales[(r / 128) * per + c / 128];
            let bits: u32 = product_bits(w[at], s);
            let ghost before = out@;
            out.push(bits);
            c += 1;
        }
        proof {
            assert(r * cols + cols == (r + 1) * cols) by (nonlinear_arith);
            assert forall|y: int, x: int| 0 <= y < r + 1 && 0 <= x < cols implies is_product(
                out@[y * cols + x],
                #[trigger] w@[y * cols + x],
                scale_at(scales@, cols as int, y, x),
            ) by {
                if y < r {
                    assert(0 <= y * cols && y * cols + x < r * cols) by (nonlinear_arith)
                        requires
                            0 <= y,
                            y + 1 <= r,
                            0 <= x < cols,
                    ;
                    assert(out@[y * cols + x] == start[y * cols + x]);
                }
            }
        }
        r += 1;
    }
    out
}

/// Each block of 128 rows and 128 columns has one scale, the blocks of a row of blocks one
/// behind the other; the last ones of a matrix may be cut short.
pub proof fn law_blocks_share_a_scale(
    scales: Seq<u8>,
    cols: int,
    a: int,
    b: int,
    i: int,
    j: int,
)
    requires
        0 <= cols,
        0 <= a,
        0 <= b,
        0 <= i < 128,
        0 <= j < 128,
    ensures
        scale_at(scales, cols, 128 * a + i, 128 * b + j) == scales[a * blocks(cols) + b],
        128 * (blocks(cols) - 1) < cols <= 128 * blocks(cols) || cols == 0,
{
    assert((128 * a + i) / 128 == a);
    assert((128 * b + j) / 128 == b);
}

} // verus!
