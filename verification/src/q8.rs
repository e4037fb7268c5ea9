//! Integer dot products between packed weights and 8-bit activations.
//!
//! The 4-bit levels hold halves, so the table holds them doubled; the missing factor
//! goes into the block's scale.

use crate::names::same_text;
use crate::unicode::chars_of;
use vstd::prelude::*;

verus! {

/// Twice the value of a 4-bit level; the negative zero is 0.
pub open spec fn doubled_level(nib: int) -> int {
    if nib == 0 || nib == 8 {
        0
    } else if nib == 1 {
        1
    } else if nib == 2 {
        2
    } else if nib == 3 {
        3
    } else if nib == 4 {
        4
    } else if nib == 5 {
        6
    } else if nib == 6 {
        8
    } else if nib == 7 {
        12
    } else if nib == 9 {
        -1
    } else if nib == 10 {
        -2
    } else if nib == 11 {
        -3
    } else if nib == 12 {
        -4
    } else if nib == 13 {
        -6
    } else if nib == 14 {
        -8
    } else {
        -12
    }
}

/// Twice the value of a 4-bit level.
pub fn level_x2(nib: u8) -> (v: i32)
    requires
        nib < 16,
    ensures
        v == doubled_level(nib as int),
        -12 <= v <= 12,
{
    match nib {
        0 | 8 => 0,
        1 => 1,
        2 => 2,
        3 => 3,
        4 => 4,
        5 => 6,
        6 => 8,
        7 => 12,
        9 => -1,
        10 => -2,
        11 => -3,
        12 => -4,
        13 => -6,
        14 => -8,
        _ => -12,
    }
}

/// The nibble of column `c`: the low half of its byte holds the even column.
pub open spec fn nibble(packed: Seq<u8>, c: int) -> int {
    if c % 2 == 0 {
        (packed[c / 2] % 16) as int
    } else {
        (packed[c / 2] / 16) as int
    }
}

/// The dot product of the first `n` packed weights, doubled, with activations.
pub open spec fn packed_dot(packed: Seq<u8>, x: Seq<i8>, n: int) -> int
    decreases n,
{
    if n <= 0 {
        0
    } else {
        packed_dot(packed, x, n - 1) + doubled_level(nibble(packed, n - 1)) * x[n - 1]
    }
}

/// The dot product of the first `n` 8-bit weights with activations.
pub open spec fn byte_dot(w: Seq<i8>, x: Seq<i8>, n: int) -> int
    decreases n,
{
    if n <= 0 {
        0
    } else {
        byte_dot(w, x, n - 1) + w[n - 1] * x[n - 1]
    }
}

/// The dot product of a block: 32 packed weights, doubled, with 32 activations.
pub fn block_dot(packed16: &[u8], x32: &[i8]) -> (s: i32)
    requires
        packed16@.len() == 16,
        x32@.len() == 32,
    ensures
        s == packed_dot(packed16@, x32@, 32),
{
    let mut s: i32 = 0;
    for j in 0..16usize
        invariant
            packed16@.len() == 16,
            x32@.len() == 32,
            s == packed_dot(packed16@, x32@, 2 * j),
            -3072 * j <= s <= 3072 * j,
    {
        let b: u8 = packed16[j];
        let lo: i32 = level_x2(b % 16);
        let hi: i32 = level_x2(b / 16);
        let x0: i32 = x32[2 * j] as i32;
        let x1: i32 = x32[2 * j + 1] as i32;
        proof {
            assert(nibble(packed16@, 2 * j) == b % 16);
            assert(nibble(packed16@, 2 * j + 1) == b / 16);
            assert(packed_dot(packed16@, x32@, 2 * j + 1) == packed_dot(packed16@, x32@, 2 * j)
                + lo * x0);
            assert(packed_dot(packed16@, x32@, 2 * j + 2) == packed_dot(
                packed16@,
                x32@,
                2 * j + 1,
            ) + hi * x1);
            assert(-1536 <= lo * x0 <= 1536) by (nonlinear_arith)
                requires
                    -12 <= lo <= 12,
                    -128 <= x0 <= 127,
            ;
            assert(-1536 <= hi * x1 <= 1536) by (nonlinear_arith)
                requires
                    -12 <= hi <= 12,
                    -128 <= x1 <= 127,
            ;
        }
        s = s + lo * x0;
        s = s + hi * x1;
    }
    s
}

/// The dot product of a block of 32 8-bit weights with 32 activations.
pub fn block_dot_i8(w32: &[i8], x32: &[i8]) -> (s: i32)
    requires
        w32@.len() == 32,
        x32@.len() == 32,
    ensures
        s == byte_dot(w32@, x32@, 32),
{
    let mut s: i32 = 0;
    for j in 0..32usize
        invariant
            w32@.len() == 32,
            x32@.len() == 32,
            s == byte_dot(w32@, x32@, j as int),
            -16384 * j <= s <= 16384 * j,
    {
        let a: i32 = w32[j] as i32;
        let b: i32 = x32[j] as i32;
        proof {
            assert(-16384 <= a * b <= 16384) by (nonlinear_arith)
                requires
                    -128 <= a <= 127,
                    -128 <= b <= 127,
            ;
        }
        s = s + a * b;
    }
    s
}

/// The dot products of a row's blocks: those of packed weights, doubled, with the
/// activations, for the blocks that are asked for.
pub fn row_block_dots(prow: &[u8], q: &[i8], blocks: &[usize]) -> (out: Vec<i32>)
    requires
        q@.len() == 2 * prow@.len(),
        forall|i: int| 0 <= i < blocks@.len() ==> 16 * (#[trigger] blocks@[i]) + 16 <= prow@.len(),
    ensures
        out@.len() == blocks@.len(),
        forall|i: int|
            0 <= i < out@.len() ==> #[trigger] out@[i] == packed_dot(
                prow@.subrange(16 * blocks@[i], 16 * blocks@[i] + 16),
                q@.subrange(32 * blocks@[i], 32 * blocks@[i] + 32),
                32,
            ),
{
    let total: usize = q.len();
    let mut out: Vec<i32> = Vec::new();
    for i in 0..blocks.len()
        invariant
            q@.len() == total == 2 * prow@.len(),
            forall|k: int|
                0 <= k < blocks@.len() ==> 16 * (#[trigger] blocks@[k]) + 16 <= prow@.len(),
            out@.len() == i,
            forall|k: int|
                0 <= k < i ==> #[trigger] out@[k] == packed_dot(
                    prow@.subrange(16 * blocks@[k], 16 * blocks@[k] + 16),
                    q@.subrange(32 * blocks@[k], 32 * blocks@[k] + 32),
                    32,
                ),
    {
        let g: usize = blocks[i];
        let w: &[u8] = vstd::slice::slice_subrange(prow, 16 * g, 16 * g + 16);
        let x: &[i8] = vstd::slice::slice_subrange(q, 32 * g, 32 * g + 32);
        out.push(block_dot(w, x));
    }
    out
}

/// The sum of the first `n` activations from `pos` on.
pub open spec fn sum_at(q: Seq<i8>, pos: int, n: int) -> int
    decreases n,
{
    if n <= 0 {
        0
    } else {
        sum_at(q, pos, n - 1) + q[pos + n - 1]
    }
}

/// Twelve times the sum of every whole block of 32 activations.
pub fn xsum12(q: &[i8]) -> (out: Vec<i32>)
    ensures
        out@.len() == q@.len() / 32,
        forall|g: int| 0 <= g < out@.len() ==> #[trigger] out@[g] == 12 * sum_at(q@, 32 * g, 32),
{
    let total: usize = q.len();
    let nb: usize = total / 32;
    let mut out: Vec<i32> = Vec::new();
    for g in 0..nb
        invariant
            total == q@.len(),
            nb == total / 32,
            out@.len() == g,
            forall|k: int| 0 <= k < g ==> #[trigger] out@[k] == 12 * sum_at(q@, 32 * k, 32),
    {
        let mut s: i32 = 0;
        for j in 0..32usize
            invariant
                32 * g + 32 <= total == q@.len(),
                s == sum_at(q@, 32 * g, j as int),
                -128 * j <= s <= 128 * j,
        {
            s = s + q[32 * g + j] as i32;
        }
        out.push(12 * s);
    }
    out
}

/// The dot product with a table that is shifted up by twelve.
pub open spec fn shifted_dot(packed: Seq<u8>, x: Seq<i8>, n: int) -> int
    decreases n,
{
    if n <= 0 {
        0
    } else {
        shifted_dot(packed, x, n - 1) + (doubled_level(nibble(packed, n - 1)) + 12) * x[n - 1]
    }
}

/// A kernel that uses the shifted, unsigned table is right once it takes off twelve
/// times the sum of the activations.
pub proof fn law_shifted_table_is_corrected(packed: Seq<u8>, x: Seq<i8>, n: int)
    requires
        0 <= n,
    ensures
        shifted_dot(packed, x, n) - 12 * sum_at(x, 0, n) == packed_dot(packed, x, n),
    decreases n,
{
    if n > 0 {
        law_shifted_table_is_corrected(packed, x, n - 1);
        let l = doubled_level(nibble(packed, n - 1));
        let v = x[n - 1] as int;
        assert((l + 12) * v == l * v + 12 * v) by (nonlinear_arith);
    }
}

/// Whether the integer path is on: forced off or on, or left to the environment.
pub struct Q8Toggle {
    pub force: i8,
}

impl Q8Toggle {
    /// Left to the environment.
    pub fn new() -> (t: Q8Toggle)
        ensures
            t.force == -1,
    {
        Q8Toggle { force: -1 }
    }

    /// Forces the path off (0) or on (1); anything else leaves it to the environment.
    pub fn force_q8(&mut self, v: i8)
        ensures
            final(self).force == v,
    {
        self.force = v;
    }

    /// Whether the path is on; `off_switch` is the value of the variable that turns it
    /// off.
    pub fn q8_enabled(&self, off_switch: Option<&str>) -> (on: bool)
        ensures
            on == if self.force == 0 {
                false
            } else if self.force == 1 {
                true
            } else {
                match off_switch {
                    Some(v) => v@ != "1"@,
                    None => true,
                }
            },
    {
        if self.force == 0 {
            return false;
        }
        if self.force == 1 {
            return true;
        }
        match off_switch {
            Some(v) => {
                let t: Vec<char> = chars_of(v);
                !same_text(t.as_slice(), "1")
            },
            None => true,
        }
    }
}

/// A level is a number of two exponent bits and one mantissa bit under a sign bit: doubled,
/// it is the mantissa where the exponent is zero, and otherwise `2 + mantissa` times a power
/// of two.
pub proof fn law_levels_are_small_floats(nib: int)
    requires
        0 <= nib < 16,
    ensures
        ({
            let (e, m) = ((nib / 2) % 4, nib % 2);
            let size = if e == 0 {
                m
            } else if e == 1 {
                2 + m
            } else if e == 2 {
                2 * (2 + m)
            } else {
                4 * (2 + m)
            };
            doubled_level(nib) == if nib < 8 {
                size
            } else {
                -size
            }
        }),
{
}

/// Two levels share a byte, the first in its low half.
pub proof fn law_low_half_comes_first(packed: Seq<u8>, k: int)
    requires
        0 <= k < packed.len(),
    ensures
        0 <= nibble(packed, 2 * k) < 16,
        packed[k] == nibble(packed, 2 * k) + 16 * nibble(packed, 2 * k + 1),
{
    assert((2 * k) / 2 == k && (2 * k + 1) / 2 == k);
    assert((2 * k) % 2 == 0 && (2 * k + 1) % 2 == 1);
}

/// A dot product with a vector that has one entry is that entry times the weight there.
pub proof fn law_dot_picks_its_weights(packed: Seq<u8>, w: Seq<i8>, x: Seq<i8>, n: int, k: int)
    requires
        0 <= k < n <= x.len(),
        forall|i: int| 0 <= i < n && i != k ==> #[trigger] x[i] == 0,
    ensures
        packed_dot(packed, x, n) == doubled_level(nibble(packed, k)) * x[k],
        byte_dot(w, x, n) == w[k] * x[k],
    decreases n,
{
    if k == n - 1 {
        lemma_dot_of_nothing(packed, w, x, n - 1);
    } else {
        law_dot_picks_its_weights(packed, w, x, n - 1, k);
        assert(x[n - 1] == 0);
        assert(doubled_level(nibble(packed, n - 1)) * x[n - 1] == 0) by (nonlinear_arith)
            requires
                x[n - 1] == 0,
        ;
        assert(w[n - 1] * x[n - 1] == 0) by (nonlinear_arith)
            requires
                x[n - 1] == 0,
        ;
    }
}

proof fn lemma_dot_of_nothing(packed: Seq<u8>, w: Seq<i8>, x: Seq<i8>, n: int)
    requires
        n <= x.len(),
        forall|i: int| 0 <= i < n ==> #[trigger] x[i] == 0,
    ensures
        packed_dot(packed, x, n) == 0,
        byte_dot(w, x, n) == 0,
    decreases n,
{
    if n > 0 {
        lemma_dot_of_nothing(packed, w, x, n - 1);
        assert(x[n - 1] == 0);
        assert(doubled_level(nibble(packed, n - 1)) * x[n - 1] == 0) by (nonlinear_arith)
            requires
                x[n - 1] == 0,
        ;
        assert(w[n - 1] * x[n - 1] == 0) by (nonlinear_arith)
            requires
                x[n - 1] == 0,
        ;
    }
}

/// Dot products add up: of a sum of vectors it is the sum of theirs.
pub proof fn law_dots_add(
    packed: Seq<u8>,
    w: Seq<i8>,
    x: Seq<i8>,
    y: Seq<i8>,
    sum: Seq<i8>,
    n: int,
)
    requires
        forall|i: int| 0 <= i < n ==> #[trigger] sum[i] == x[i] + y[i],
    ensures
        packed_dot(packed, sum, n) == packed_dot(packed, x, n) + packed_dot(packed, y, n),
        byte_dot(w, sum, n) == byte_dot(w, x, n) + byte_dot(w, y, n),
    decreases n,
{
    if n > 0 {
        law_dots_add(packed, w, x, y, sum, n - 1);
        assert(sum[n - 1] == x[n - 1] + y[n - 1]);
        let (l, a, b) = (doubled_level(nibble(packed, n - 1)), x[n - 1] as int, y[n - 1] as int);
        assert(l * (a + b) == l * a + l * b) by (nonlinear_arith);
        let v = w[n - 1] as int;
        assert(v * (a + b) == v * a + v * b) by (nonlinear_arith);
    }
}

} // verus!
