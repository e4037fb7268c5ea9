//! Reading tensors out of a checkpoint's bytes.

use crate::directory::Directory;
use crate::le::lemma_pow256;
use crate::le::of_le;
use crate::le::read_le;
use crate::weights::EntryView;
use crate::weights::DTYPE_F32;
use crate::weights::DTYPE_I32;
use crate::weights::DTYPE_MXFP4;
use vstd::prelude::*;
use vstd::utf8::encode_utf8;

verus! {

/// A checkpoint: its bytes, wherever they live, and its tensors.
pub struct BinFile<'a> {
    pub data: &'a [u8],
    pub dir: Directory,
}

/// The number that 32 bits stand for as a two's-complement integer.
pub open spec fn signed32(n: nat) -> int {
    if n < 0x8000_0000 {
        n as int
    } else {
        n - 0x1_0000_0000
    }
}

/// The 32-bit integers in a byte string.
pub open spec fn i32s_of(bytes: Seq<u8>) -> Seq<i32> {
    Seq::new(
        bytes.len() / 4,
        |i: int| signed32(of_le(bytes.subrange(4 * i, 4 * i + 4))) as i32,
    )
}

/// The 32-bit words in a byte string.
pub open spec fn words_of(bytes: Seq<u8>) -> Seq<u32> {
    Seq::new(bytes.len() / 4, |i: int| of_le(bytes.subrange(4 * i, 4 * i + 4)) as u32)
}

impl<'a> BinFile<'a> {
    /// A tensor of the file.
    pub open spec fn has(&self, name: Seq<char>) -> bool {
        self.dir.map().contains_key(encode_utf8(name))
    }

    /// Its entry.
    pub open spec fn entry(&self, name: Seq<char>) -> EntryView {
        self.dir.map()[encode_utf8(name)]
    }

    /// A tensor of the file whose blob lies within the data.
    pub open spec fn readable(&self, name: Seq<char>) -> bool {
        &&& self.dir.wf()
        &&& self.has(name)
        &&& self.entry(name).offset + self.entry(name).size <= self.data@.len()
    }

    /// A tensor's bytes.
    pub open spec fn blob_of(&self, name: Seq<char>) -> Seq<u8> {
        let e = self.entry(name);
        self.data@.subrange(e.offset as int, e.offset + e.size)
    }

    fn blob(&self, name: &str) -> (b: &'a [u8])
        requires
            self.readable(name@),
        ensures
            b@ == self.blob_of(name@),
    {
        match self.dir.find(name) {
            Some(i) => {
                let e = &self.dir.list[i].1;
                let total: usize = self.data.len();
                proof {
                    assert(e@ == self.entry(name@));
                    assert(e.offset + e.size <= total);
                }
                let from: usize = e.offset as usize;
                let to: usize = (e.offset + e.size) as usize;
                vstd::slice::slice_subrange(self.data, from, to)
            },
            None => self.data,
        }
    }

    /// The bytes of an f32 tensor.
    pub fn f32_bytes(&self, name: &str) -> (b: &'a [u8])
        requires
            self.readable(name@),
            self.entry(name@).dtype == DTYPE_F32,
        ensures
            b@ == self.blob_of(name@),
    {
        self.blob(name)
    }

    /// The words of an f32 tensor, as bit patterns.
    pub fn f32_words(&self, name: &str) -> (words: Vec<u32>)
        requires
            self.readable(name@),
            self.entry(name@).dtype == DTYPE_F32,
        ensures
            words@ == words_of(self.blob_of(name@)),
    {
        let b: &[u8] = self.blob(name);
        let total: usize = b.len();
        let n: usize = total / 4;
        let mut words: Vec<u32> = Vec::with_capacity(n);
        for i in 0..n
            invariant
                total == b@.len(),
                n == total / 4,
                words@ == words_of(b@).take(i as int),
        {
            proof {
                lemma_pow256();
            }
            let w: u32 = read_le(b, 4 * i, 4) as u32;
            words.push(w);
            proof {
                assert(words_of(b@).take(i + 1) =~= words_of(b@).take(i as int).push(w));
            }
        }
        proof {
            assert(words_of(b@).take(n as int) =~= words_of(b@));
        }
        words
    }

    /// An mxfp4 tensor: nibbles, scales, rows and columns.
    pub fn mxfp4_parts(&self, name: &str) -> (r: (&'a [u8], &'a [u8], usize, usize))
        requires
            self.readable(name@),
            self.entry(name@).dtype == DTYPE_MXFP4,
            self.entry(name@).dims.len() >= 2,
            self.entry(name@).dims[0] * self.entry(name@).dims[1] <= usize::MAX,
            self.entry(name@).dims[0] * self.entry(name@).dims[1] / 2 <= self.entry(name@).size,
        ensures
            ({
                let e = self.entry(name@);
                let np = e.dims[0] * e.dims[1] / 2;
                &&& r.2 == e.dims[0] && r.3 == e.dims[1]
                &&& r.0@ == self.blob_of(name@).take(np)
                &&& r.1@ == self.blob_of(name@).skip(np)
            }),
    {
        let b: &'a [u8] = self.blob(name);
        match self.dir.find(name) {
            Some(i) => {
                let dims = &self.dir.list[i].1.dims;
                let rows: usize = dims[0] as usize;
                let cols: usize = dims[1] as usize;
                let np: usize = rows * cols / 2;
                let packed = vstd::slice::slice_subrange(b, 0, np);
                let scales = vstd::slice::slice_subrange(b, np, b.len());
                proof {
                    assert(packed@ =~= self.blob_of(name@).take(np as int));
                    assert(scales@ =~= self.blob_of(name@).skip(np as int));
                }
                (packed, scales, rows, cols)
            },
            None => (b, b, 0, 0),
        }
    }

    /// The integers of an i32 tensor.
    pub fn i32_vec(&self, name: &str) -> (v: Vec<i32>)
        requires
            self.readable(name@),
            self.entry(name@).dtype == DTYPE_I32,
        ensures
            v@ == i32s_of(self.blob_of(name@)),
    {
        let b: &[u8] = self.blob(name);
        let total: usize = b.len();
        let n: usize = total / 4;
        let mut v: Vec<i32> = Vec::with_capacity(n);
        for i in 0..n
            invariant
                total == b@.len(),
                n == total / 4,
                v@ == i32s_of(b@).take(i as int),
        {
            proof {
                lemma_pow256();
            }
            let w: u64 = read_le(b, 4 * i, 4);
            let x: i32 = if w < 0x8000_0000 {
                w as i32
            } else {
                (w as i64 - 0x1_0000_0000) as i32
            };
            v.push(x);
            proof {
                assert(i32s_of(b@).take(i + 1) =~= i32s_of(b@).take(i as int).push(x));
            }
        }
        proof {
            assert(i32s_of(b@).take(n as int) =~= i32s_of(b@));
        }
        v
    }
}

/// Integers are read in two's complement: the four bytes of each give it modulo `2^32`.
pub proof fn law_integers_are_signed(bytes: Seq<u8>, i: int)
    requires
        0 <= i < bytes.len() / 4,
    ensures
        i32s_of(bytes).len() == bytes.len() / 4,
        ({
            let n = of_le(bytes.subrange(4 * i, 4 * i + 4));
            let v = i32s_of(bytes)[i] as int;
            (n < 0x8000_0000 ==> v == n) && (n >= 0x8000_0000 ==> v == n - 0x1_0000_0000)
        }),
{
    crate::le::lemma_le_of_le(bytes.subrange(4 * i, 4 * i + 4));
    crate::le::lemma_pow256();
}

} // verus!
