//! Little-endian integers in byte strings.

use vstd::prelude::*;

verus! {

/// The low `k` bytes of a number, least significant first.
pub open spec fn le(n: nat, k: nat) -> Seq<u8>
    decreases k,
{
    if k == 0 {
        Seq::empty()
    } else {
        seq![(n % 256) as u8] + le(n / 256, (k - 1) as nat)
    }
}

/// The number that bytes, least significant first, stand for.
pub open spec fn of_le(bytes: Seq<u8>) -> nat
    decreases bytes.len(),
{
    if bytes.len() == 0 {
        0
    } else {
        bytes[0] as nat + 256 * of_le(bytes.skip(1))
    }
}

/// 256 to the power `k`.
pub open spec fn pow256(k: nat) -> nat
    decreases k,
{
    if k == 0 {
        1
    } else {
        256 * pow256((k - 1) as nat)
    }
}

/// The encoding has the length asked for.
pub proof fn lemma_le_len(n: nat, k: nat)
    ensures
        le(n, k).len() == k,
    decreases k,
{
    if k > 0 {
        lemma_le_len(n / 256, (k - 1) as nat);
    }
}

/// Reading back a number that fits gives the number.
pub proof fn lemma_of_le_le(n: nat, k: nat)
    requires
        n < pow256(k),
    ensures
        of_le(le(n, k)) == n,
    decreases k,
{
    if k > 0 {
        let rest = le(n / 256, (k - 1) as nat);
        assert(le(n, k).skip(1) =~= rest);
        lemma_of_le_le(n / 256, (k - 1) as nat);
    }
}

/// What `k` bytes stand for is below `256^k`, and its encoding is those bytes.
pub proof fn lemma_le_of_le(bytes: Seq<u8>)
    ensures
        of_le(bytes) < pow256(bytes.len()),
        le(of_le(bytes), bytes.len()) == bytes,
    decreases bytes.len(),
{
    if bytes.len() > 0 {
        let rest = bytes.skip(1);
        lemma_le_of_le(rest);
        let n = of_le(bytes);
        assert(n / 256 == of_le(rest) && n % 256 == bytes[0]);
        assert(le(n, bytes.len()) =~= seq![bytes[0]] + rest);
        assert(seq![bytes[0]] + rest =~= bytes);
    } else {
        assert(le(0, 0) =~= bytes);
    }
}

/// The powers that machine integers need.
pub proof fn lemma_pow256()
    ensures
        pow256(1) == 0x100,
        pow256(2) == 0x1_0000,
        pow256(4) == 0x1_0000_0000,
        pow256(8) == 0x1_0000_0000_0000_0000,
{
    reveal_with_fuel(pow256, 9);
}

/// Appends the low `k` bytes of a number.
pub fn push_le(out: &mut Vec<u8>, n: u64, k: usize)
    ensures
        final(out)@ == old(out)@ + le(n as nat, k as nat),
{
    let mut left: u64 = n;
    let mut i: usize = 0;
    let ghost start = out@;
    proof {
        assert(start + le(n as nat, k as nat) =~= out@ + le(left as nat, (k - i) as nat));
    }
    while i < k
        invariant
            i <= k,
            start + le(n as nat, k as nat) == out@ + le(left as nat, (k - i) as nat),
        decreases k - i,
    {
        let b: u8 = (left % 256) as u8;
        let ghost before = out@;
        out.push(b);
        proof {
            let rest = le((left / 256) as nat, (k - i - 1) as nat);
            assert(le(left as nat, (k - i) as nat) == seq![b] + rest);
            assert(before + (seq![b] + rest) =~= out@ + rest);
        }
        left = left / 256;
        i += 1;
    }
    proof {
        assert(out@ + le(left as nat, 0) =~= out@);
    }
}

/// Reads `k` bytes at `pos` as a number.
pub fn read_le(bytes: &[u8], pos: usize, k: usize) -> (n: u64)
    requires
        k <= 8,
        pos + k <= bytes@.len(),
    ensures
        n == of_le(bytes@.subrange(pos as int, pos + k)),
        n < pow256(k as nat),
{
    let total: usize = bytes.len();
    let mut n: u64 = 0;
    let mut i: usize = k;
    let ghost all = bytes@.subrange(pos as int, pos + k);
    proof {
        lemma_le_of_le(all);
        assert(all.skip(k as int) =~= Seq::<u8>::empty());
    }
    while i > 0
        invariant
            i <= k <= 8,
            pos + k <= bytes@.len(),
            total == bytes@.len(),
            all == bytes@.subrange(pos as int, pos + k),
            n == of_le(all.skip(i as int)),
        decreases i,
    {
        proof {
            let part = all.skip(i - 1);
            assert(part.skip(1) =~= all.skip(i as int));
            assert(part[0] == bytes@[pos + i - 1]);
            lemma_le_of_le(part);
            lemma_pow256_grows(part.len(), 8);
            lemma_pow256();
        }
        n = n * 256 + bytes[pos + i - 1] as u64;
        i -= 1;
    }
    proof {
        assert(all.skip(0) =~= all);
    }
    n
}

/// `256^a` grows with `a`.
pub proof fn lemma_pow256_grows(a: nat, b: nat)
    requires
        a <= b,
    ensures
        pow256(a) <= pow256(b),
    decreases b,
{
    if a < b {
        lemma_pow256_grows(a, (b - 1) as nat);
    }
}

/// Appends bytes.
pub fn push_bytes(out: &mut Vec<u8>, bytes: &[u8])
    ensures
        final(out)@ == old(out)@ + bytes@,
{
    for i in 0..bytes.len()
        invariant
            out@ == old(out)@ + bytes@.take(i as int),
    {
        out.push(bytes[i]);
        proof {
            assert(old(out)@ + bytes@.take(i + 1) =~= (old(out)@ + bytes@.take(i as int)).push(
                bytes@[i as int],
            ));
        }
    }
    proof {
        assert(bytes@.take(bytes@.len() as int) =~= bytes@);
    }
}

/// A copy of part of a byte slice.
pub fn sub_bytes(bytes: &[u8], a: usize, b: usize) -> (out: Vec<u8>)
    requires
        a <= b <= bytes@.len(),
    ensures
        out@ == bytes@.subrange(a as int, b as int),
{
    let mut out: Vec<u8> = Vec::with_capacity(b - a);
    for i in a..b
        invariant
            b <= bytes@.len(),
            out@ == bytes@.subrange(a as int, i as int),
    {
        out.push(bytes[i]);
        proof {
            assert(bytes@.subrange(a as int, i as int).push(bytes@[i as int])
                =~= bytes@.subrange(a as int, i + 1));
        }
    }
    out
}

/// The low byte comes first: byte `i` of a number is what it has of the power `256^i`.
pub proof fn law_low_byte_comes_first(n: nat, k: nat, i: nat)
    requires
        i < k,
    ensures
        le(n, k).len() == k,
        le(n, k)[i as int] == (n / pow256(i)) % 256,
        of_le(seq![(n % 256) as u8]) == n % 256,
    decreases k,
{
    lemma_le_len(n, k);
    let one = seq![(n % 256) as u8];
    assert(one.skip(1) =~= Seq::<u8>::empty());
    assert(of_le(one.skip(1)) == 0);
    if i > 0 {
        let rest = le(n / 256, (k - 1) as nat);
        law_low_byte_comes_first(n / 256, (k - 1) as nat, (i - 1) as nat);
        assert(le(n, k)[i as int] == rest[i - 1]);
        let p = pow256((i - 1) as nat);
        lemma_pow256_positive((i - 1) as nat);
        vstd::arithmetic::div_mod::lemma_div_denominator(n as int, 256, p as int);
    } else {
        assert(pow256(0) == 1);
        assert(n / 1 == n);
    }
}

proof fn lemma_pow256_positive(k: nat)
    ensures
        pow256(k) > 0,
    decreases k,
{
    if k > 0 {
        lemma_pow256_positive((k - 1) as nat);
    }
}

} // verus!
