//! The `.bin` checkpoint container.
//!
//! ```text
//! magic "MKIM0001" (8 bytes)
//! u32 n_tensors
//! directory x n: u16 name_len | name (utf-8) | u8 dtype | u8 n_dims |
//!                u32 dims[n_dims] | u64 offset | u64 size
//! raw data, offsets from the start of the file
//! ```
//!
//! `MKIM0002` has a u32 length and a JSON configuration right behind the magic.
//! Routed expert blobs start on a page boundary by default, everything else on 64
//! bytes; the padding is never looked at by readers.

use crate::le::le;
use crate::le::lemma_le_len;
use crate::le::push_bytes;
use crate::le::push_le;
use crate::names::contains_text;
use crate::names::ends_with;
use crate::names::has_part;
use crate::names::has_tail;
use crate::unicode::chars_of;
use vstd::prelude::*;
use vstd::utf8::encode_utf8;

verus! {

/// "MKIM0001" as a little-endian number.
pub const MAGIC: u64 = 0x3130_3030_4d49_4b4d;

/// "MKIM0002" as a little-endian number.
pub const MAGIC_V2: u64 = 0x3230_3030_4d49_4b4d;

/// 32-bit floats.
pub const DTYPE_F32: u8 = 0;

/// Nibbles with a power-of-two scale byte per 32 columns.
pub const DTYPE_MXFP4: u8 = 1;

/// 32-bit integers.
pub const DTYPE_I32: u8 = 2;

/// One codebook index per vector of values.
pub const DTYPE_VQ1: u8 = 3;

/// Nibbles with quadratic scales against a trailing maximum.
pub const DTYPE_MXFP4SQ: u8 = 4;

/// Values per codebook vector.
pub const VQ_DIM: u64 = 16;

/// The alignment of what is not a routed expert.
pub const BLOB_ALIGN: u64 = 64;

/// One tensor of the directory.
#[derive(Debug)]
pub struct Entry {
    pub dtype: u8,
    pub dims: Vec<u32>,
    pub offset: u64,
    pub size: u64,
}

/// What an entry says.
pub ghost struct EntryView {
    pub dtype: u8,
    pub dims: Seq<u32>,
    pub offset: u64,
    pub size: u64,
}

impl View for Entry {
    type V = EntryView;

    open spec fn view(&self) -> EntryView {
        EntryView {
            dtype: self.dtype,
            dims: self.dims@,
            offset: self.offset,
            size: self.size,
        }
    }
}

/// The product of dimensions.
pub open spec fn product(dims: Seq<u32>) -> nat
    decreases dims.len(),
{
    if dims.len() == 0 {
        1
    } else {
        product(dims.drop_last()) * (dims.last() as nat)
    }
}

/// The bytes of a blob.
pub open spec fn blob_bytes(dtype: u8, dims: Seq<u32>) -> nat {
    if dtype == DTYPE_F32 || dtype == DTYPE_I32 {
        product(dims) * 4
    } else {
        let cells = (dims[0] as nat) * (dims[1] as nat);
        if dtype == DTYPE_MXFP4 {
            cells / 2 + cells / 32
        } else if dtype == DTYPE_VQ1 {
            cells / 16
        } else {
            cells / 2 + cells / 32 + 4
        }
    }
}

/// A blob size is defined: the type is known, a packed type has two dimensions,
/// and the counts fit in 64 bits.
pub open spec fn blob_ok(dtype: u8, dims: Seq<u32>) -> bool {
    &&& dtype <= DTYPE_MXFP4SQ
    &&& dtype != DTYPE_F32 && dtype != DTYPE_I32 ==> dims.len() >= 2
    &&& forall|i: int| 0 <= i <= dims.len() ==> product(#[trigger] dims.take(i)) <= u64::MAX
    &&& blob_bytes(dtype, dims) <= u64::MAX
}

/// Size in bytes of a data blob.
pub fn blob_size(dtype: u8, dims: &[u32]) -> (size: u64)
    requires
        blob_ok(dtype, dims@),
    ensures
        size == blob_bytes(dtype, dims@),
{
    let mut n: u64 = 1;
    for i in 0..dims.len()
        invariant
            n == product(dims@.take(i as int)),
            forall|j: int|
                0 <= j <= dims@.len() ==> product(#[trigger] dims@.take(j)) <= u64::MAX,
    {
        proof {
            assert(dims@.take(i + 1).drop_last() =~= dims@.take(i as int));
            assert(product(dims@.take(i + 1)) <= u64::MAX);
        }
        n = n * (dims[i] as u64);
    }
    proof {
        assert(dims@.take(dims@.len() as int) =~= dims@);
    }
    if dtype == DTYPE_F32 || dtype == DTYPE_I32 {
        return n * 4;
    }
    let r: u64 = dims[0] as u64;
    let c: u64 = dims[1] as u64;
    proof {
        assert(r * c <= 0xffff_fffe_0000_0001) by (nonlinear_arith)
            requires
                r <= 0xffff_ffff,
                c <= 0xffff_ffff,
        ;
    }
    let cells: u64 = r * c;
    if dtype == DTYPE_MXFP4 {
        cells / 2 + cells / 32
    } else if dtype == DTYPE_VQ1 {
        cells / VQ_DIM
    } else {
        cells / 2 + cells / 32 + 4
    }
}

/// The name of a routed expert matrix.
pub open spec fn expert_name(name: Seq<char>) -> bool {
    contains_text(name, ".block_sparse_moe.experts."@) && (ends_with(name, ".w1"@) || ends_with(
        name,
        ".w2"@,
    ) || ends_with(name, ".w3"@))
}

/// Whether a tensor is a routed expert matrix: exactly those that streaming keeps out
/// of memory.
pub fn is_expert_tensor(name: &str) -> (yes: bool)
    ensures
        yes == expert_name(name@),
{
    let t: Vec<char> = chars_of(name);
    has_part(t.as_slice(), ".block_sparse_moe.experts.") && (has_tail(t.as_slice(), ".w1")
        || has_tail(t.as_slice(), ".w2") || has_tail(t.as_slice(), ".w3"))
}

/// The tensors of a checkpoint in write order, and the alignment of its experts.
pub struct BinWriter {
    pub names_order: Vec<(String, u8, Vec<u32>)>,
    pub expert_align: u64,
}

/// One tensor to be written: name, type and dimensions.
pub ghost struct Planned {
    pub name: Seq<char>,
    pub dtype: u8,
    pub dims: Seq<u32>,
}

/// The least multiple of `align` that is at least `pos`.
pub open spec fn align_up(pos: int, align: int) -> int {
    ((pos + align - 1) / align) * align
}

/// The bytes of a directory record.
pub open spec fn record_len(p: Planned) -> nat {
    2 + encode_utf8(p.name).len() + 1 + 1 + 4 * p.dims.len() + 8 + 8
}

/// The bytes of the directory records.
pub open spec fn records_len(plan: Seq<Planned>) -> nat
    decreases plan.len(),
{
    if plan.len() == 0 {
        0
    } else {
        records_len(plan.drop_last()) + record_len(plan.last())
    }
}

/// The alignment of a tensor's blob.
pub open spec fn blob_align(p: Planned, expert_align: int) -> int {
    if expert_name(p.name) {
        expert_align
    } else {
        64
    }
}

/// Where the blobs of the first `n` tensors end, data starting at `start`.
pub open spec fn end_after(plan: Seq<Planned>, expert_align: int, start: int, n: int) -> int
    decreases n, 0int,
{
    if n <= 0 {
        start
    } else {
        offset_of(plan, expert_align, start, n - 1) + blob_bytes(
            plan[n - 1].dtype,
            plan[n - 1].dims,
        )
    }
}

/// Where the blob of tensor `i` starts: at its alignment behind the blobs before it.
pub open spec fn offset_of(plan: Seq<Planned>, expert_align: int, start: int, i: int) -> int
    decreases i, 1int,
{
    align_up(end_after(plan, expert_align, start, i), blob_align(plan[i], expert_align))
}

/// The blob offsets.
pub open spec fn offsets_of(plan: Seq<Planned>, expert_align: int, start: int) -> Seq<u64> {
    Seq::new(plan.len(), |i: int| offset_of(plan, expert_align, start, i) as u64)
}

/// The four-byte dimensions.
pub open spec fn dims_bytes(dims: Seq<u32>) -> Seq<u8>
    decreases dims.len(),
{
    if dims.len() == 0 {
        Seq::empty()
    } else {
        dims_bytes(dims.drop_last()) + le(dims.last() as nat, 4)
    }
}

/// A directory record.
pub open spec fn record_bytes(name: Seq<u8>, e: EntryView) -> Seq<u8> {
    le(name.len(), 2) + name + seq![e.dtype] + le(e.dims.len(), 1) + dims_bytes(e.dims) + le(
        e.offset as nat,
        8,
    ) + le(e.size as nat, 8)
}

/// The directory entry of a planned tensor.
pub open spec fn planned_entry(p: Planned, offset: u64) -> EntryView {
    EntryView { dtype: p.dtype, dims: p.dims, offset, size: blob_bytes(p.dtype, p.dims) as u64 }
}

/// The records of the first `n` tensors.
pub open spec fn records_bytes(plan: Seq<Planned>, offsets: Seq<u64>, n: int) -> Seq<u8>
    decreases n,
{
    if n <= 0 {
        Seq::empty()
    } else {
        records_bytes(plan, offsets, n - 1) + record_bytes(
            encode_utf8(plan[n - 1].name),
            planned_entry(plan[n - 1], offsets[n - 1]),
        )
    }
}

/// The tensor count and the records.
pub open spec fn directory_bytes(plan: Seq<Planned>, offsets: Seq<u64>) -> Seq<u8> {
    le(plan.len(), 4) + records_bytes(plan, offsets, plan.len() as int)
}

/// The first-version header.
pub open spec fn header_v1(plan: Seq<Planned>, offsets: Seq<u64>) -> Seq<u8> {
    le(MAGIC as nat, 8) + directory_bytes(plan, offsets)
}

/// The second-version header, with a configuration.
pub open spec fn header_v2(config: Seq<u8>, plan: Seq<Planned>, offsets: Seq<u64>) -> Seq<u8> {
    le(MAGIC_V2 as nat, 8) + le(config.len(), 4) + config + directory_bytes(plan, offsets)
}

/// `align_up` gives an aligned position at or behind the one asked for.
pub proof fn lemma_align_up(pos: int, align: int)
    requires
        pos >= 0,
        align > 0,
    ensures
        pos <= align_up(pos, align) < pos + align,
        align_up(pos, align) % align == 0,
{
    let q = (pos + align - 1) / align;
    assert(q * align <= pos + align - 1 && pos + align - 1 < q * align + align)
        by (nonlinear_arith)
        requires
            align > 0,
            q == (pos + align - 1) / align,
    ;
    assert((q * align) % align == 0) by (nonlinear_arith)
        requires
            align > 0,
    ;
}

/// The least aligned position at or behind `pos`.
fn aligned(pos: u64, align: u64) -> (out: u64)
    requires
        align > 0,
        align_up(pos as int, align as int) <= u64::MAX,
    ensures
        out == align_up(pos as int, align as int),
{
    let rem: u64 = pos % align;
    proof {
        let (p, a, r) = (pos as int, align as int, (pos % align) as int);
        let q = (p + a - 1) / a;
        lemma_align_up(p, a);
        assert(p == a * (p / a) + r && 0 <= r < a) by (nonlinear_arith)
            requires
                a > 0,
                r == p % a,
        ;
        if r == 0 {
            assert(q == p / a) by (nonlinear_arith)
                requires
                    a > 0,
                    p == a * (p / a),
                    q == (p + a - 1) / a,
            ;
            assert(q * a == p) by (nonlinear_arith)
                requires
                    q == p / a,
                    p == a * (p / a),
            ;
        } else {
            assert(q == p / a + 1) by (nonlinear_arith)
                requires
                    a > 0,
                    p == a * (p / a) + r,
                    1 <= r < a,
                    q == (p + a - 1) / a,
            ;
            assert(q * a == p - r + a) by (nonlinear_arith)
                requires
                    q == p / a + 1,
                    p == a * (p / a) + r,
            ;
        }
    }
    if rem == 0 {
        pos
    } else {
        pos - rem + align
    }
}

proof fn lemma_dims_bytes_len(dims: Seq<u32>)
    ensures
        dims_bytes(dims).len() == 4 * dims.len(),
    decreases dims.len(),
{
    if dims.len() > 0 {
        lemma_dims_bytes_len(dims.drop_last());
        lemma_le_len(dims.last() as nat, 4);
    }
}

/// A record's length.
pub proof fn lemma_record_bytes_len(name: Seq<u8>, e: EntryView)
    ensures
        record_bytes(name, e).len() == 2 + name.len() + 1 + 1 + 4 * e.dims.len() + 8 + 8,
{
    lemma_le_len(name.len(), 2);
    lemma_le_len(e.dims.len(), 1);
    lemma_le_len(e.offset as nat, 8);
    lemma_le_len(e.size as nat, 8);
    lemma_dims_bytes_len(e.dims);
}

proof fn lemma_records_bytes_len(plan: Seq<Planned>, offsets: Seq<u64>, n: int)
    requires
        0 <= n <= plan.len(),
    ensures
        records_bytes(plan, offsets, n).len() == records_len(plan.take(n)),
    decreases n,
{
    if n > 0 {
        lemma_records_bytes_len(plan, offsets, n - 1);
        assert(plan.take(n).drop_last() =~= plan.take(n - 1));
        lemma_record_bytes_len(
            encode_utf8(plan[n - 1].name),
            planned_entry(plan[n - 1], offsets[n - 1]),
        );
    }
}

proof fn lemma_offset_bound(plan: Seq<Planned>, expert_align: int, start: int, i: int, j: int)
    requires
        0 <= i <= j,
        start >= 0,
        expert_align > 0,
    ensures
        start <= end_after(plan, expert_align, start, i) <= end_after(
            plan,
            expert_align,
            start,
            j,
        ),
    decreases j,
{
    if i < j {
        lemma_offset_bound(plan, expert_align, start, i, j - 1);
        lemma_align_up(
            end_after(plan, expert_align, start, j - 1),
            blob_align(plan[j - 1], expert_align),
        );
    } else if j > 0 {
        lemma_offset_bound(plan, expert_align, start, j - 1, j - 1);
        lemma_align_up(
            end_after(plan, expert_align, start, j - 1),
            blob_align(plan[j - 1], expert_align),
        );
    }
}

/// The layout keeps blobs apart: each starts aligned, at or behind the end of every
/// earlier one and of the header.
pub proof fn law_layout_separates_blobs(
    plan: Seq<Planned>,
    expert_align: int,
    start: int,
    i: int,
    j: int,
)
    requires
        start >= 0,
        expert_align > 0,
        0 <= i < j < plan.len(),
    ensures
        start <= offset_of(plan, expert_align, start, i),
        offset_of(plan, expert_align, start, i) + blob_bytes(plan[i].dtype, plan[i].dims)
            <= offset_of(plan, expert_align, start, j),
        offset_of(plan, expert_align, start, j) % blob_align(plan[j], expert_align) == 0,
{
    lemma_offset_bound(plan, expert_align, start, 0, i);
    lemma_offset_bound(plan, expert_align, start, i + 1, j);
    lemma_align_up(end_after(plan, expert_align, start, i), blob_align(plan[i], expert_align));
    lemma_align_up(end_after(plan, expert_align, start, j), blob_align(plan[j], expert_align));
}

fn push_dims(out: &mut Vec<u8>, dims: &Vec<u32>)
    ensures
        final(out)@ == old(out)@ + dims_bytes(dims@),
{
    let ghost start = out@;
    proof {
        assert(start =~= start + dims_bytes(dims@.take(0)));
    }
    for d in 0..dims.len()
        invariant
            out@ == start + dims_bytes(dims@.take(d as int)),
    {
        push_le(out, dims[d] as u64, 4);
        proof {
            assert(dims@.take(d + 1).drop_last() =~= dims@.take(d as int));
            assert(out@ =~= start + dims_bytes(dims@.take(d + 1)));
        }
    }
    proof {
        assert(dims@.take(dims@.len() as int) =~= dims@);
    }
}

/// Appends the directory record of a tensor.
fn push_record(out: &mut Vec<u8>, name: &str, dtype: u8, dims: &Vec<u32>, offset: u64)
    requires
        blob_ok(dtype, dims@),
    ensures
        final(out)@ == old(out)@ + record_bytes(
            encode_utf8(name@),
            planned_entry((Planned { name: name@, dtype, dims: dims@ }), offset),
        ),
{
    let bytes: &[u8] = name.as_bytes();
    push_le(out, bytes.len() as u64, 2);
    push_bytes(out, bytes);
    out.push(dtype);
    push_le(out, dims.len() as u64, 1);
    push_dims(out, dims);
    push_le(out, offset, 8);
    push_le(out, blob_size(dtype, dims.as_slice()), 8);
    proof {
        assert(out@ =~= old(out)@ + record_bytes(
            encode_utf8(name@),
            planned_entry((Planned { name: name@, dtype, dims: dims@ }), offset),
        ));
    }
}

impl BinWriter {
    /// The tensors in write order.
    pub open spec fn plan(&self) -> Seq<Planned> {
        Seq::new(
            self.names_order@.len(),
            |i: int|
                Planned {
                    name: self.names_order@[i].0@,
                    dtype: self.names_order@[i].1,
                    dims: self.names_order@[i].2@,
                },
        )
    }

    /// The position of the first byte behind the directory.
    pub open spec fn data_start(&self, prefix: int) -> int {
        prefix + 4 + records_len(self.plan())
    }

    /// The layout is defined: every blob size is, the alignment is not zero, and the
    /// file's length fits in 64 bits.
    pub open spec fn layout_ok(&self, prefix: int) -> bool {
        &&& self.expert_align > 0
        &&& forall|i: int|
            0 <= i < self.plan().len() ==> blob_ok(
                (#[trigger] self.plan()[i]).dtype,
                self.plan()[i].dims,
            )
        &&& end_after(
            self.plan(),
            self.expert_align as int,
            self.data_start(prefix),
            self.plan().len() as int,
        ) <= u64::MAX
    }

    /// An empty writer: expert blobs start on a page.
    pub fn new() -> (w: BinWriter)
        ensures
            w.names_order@.len() == 0,
            w.expert_align == 4096,
    {
        BinWriter { names_order: Vec::new(), expert_align: 4096 }
    }

    /// Overrides the alignment of the routed expert blobs.
    pub fn set_expert_align(&mut self, a: u64)
        ensures
            final(self).expert_align == a,
            final(self).names_order == old(self).names_order,
    {
        self.expert_align = a;
    }

    /// Adds a tensor behind the others.
    pub fn add(&mut self, name: &str, dtype: u8, dims: Vec<u32>)
        ensures
            final(self).plan() == old(self).plan().push(
                (Planned { name: name@, dtype, dims: dims@ }),
            ),
            final(self).expert_align == old(self).expert_align,
    {
        let ghost before = self.plan();
        let owned: String = name.to_owned();
        self.names_order.push((owned, dtype, dims));
        proof {
            assert(self.plan() =~= before.push((Planned { name: name@, dtype, dims: dims@ })));
        }
    }

    /// The blob offsets in write order; `prefix` is the number of bytes before the
    /// tensor count.
    fn layout(&self, prefix: u64) -> (offsets: Vec<u64>)
        requires
            self.layout_ok(prefix as int),
        ensures
            offsets@ == offsets_of(
                self.plan(),
                self.expert_align as int,
                self.data_start(prefix as int),
            ),
    {
        let ghost plan = self.plan();
        let ghost start = self.data_start(prefix as int);
        let ghost al = self.expert_align as int;
        let ghost total = plan.len() as int;
        proof {
            lemma_offset_bound_start(plan, al, start, total);
            lemma_records_grow(plan, 0, total);
            assert(plan.take(0) =~= Seq::<Planned>::empty());
            assert(plan.take(total) =~= plan);
        }
        let mut pos: u64 = prefix + 4;
        for i in 0..self.names_order.len()
            invariant
                plan == self.plan(),
                total == plan.len(),
                start == self.data_start(prefix as int),
                start <= u64::MAX,
                plan.take(total) == plan,
                pos == prefix + 4 + records_len(plan.take(i as int)),
        {
            proof {
                assert(plan.take(i + 1).drop_last() =~= plan.take(i as int));
                lemma_records_grow(plan, i + 1, total);
                assert(plan[i as int].name == self.names_order@[i as int].0@);
            }
            let name_len: u64 = self.names_order[i].0.as_str().as_bytes().len() as u64;
            let n_dims: u64 = self.names_order[i].2.len() as u64;
            pos = pos + (2 + name_len + 1 + 1 + 4 * n_dims + 8 + 8);
        }
        let mut offsets: Vec<u64> = Vec::with_capacity(self.names_order.len());
        for i in 0..self.names_order.len()
            invariant
                plan == self.plan(),
                total == plan.len(),
                self.layout_ok(prefix as int),
                start == self.data_start(prefix as int),
                start >= 0,
                al == self.expert_align as int,
                pos == end_after(plan, al, start, i as int),
                offsets@ == offsets_of(plan, al, start).take(i as int),
        {
            proof {
                assert(plan[i as int].name == self.names_order@[i as int].0@);
                lemma_offset_bound(plan, al, start, i + 1, total);
                lemma_align_up(pos as int, blob_align(plan[i as int], al));
                assert(blob_ok(plan[i as int].dtype, plan[i as int].dims));
            }
            let align: u64 = if is_expert_tensor(self.names_order[i].0.as_str()) {
                self.expert_align
            } else {
                BLOB_ALIGN
            };
            pos = aligned(pos, align);
            offsets.push(pos);
            proof {
                assert(offsets_of(plan, al, start).take(i + 1) =~= offsets_of(
                    plan,
                    al,
                    start,
                ).take(i as int).push(pos));
            }
            pos = pos + blob_size(self.names_order[i].1, self.names_order[i].2.as_slice());
        }
        proof {
            assert(offsets_of(plan, al, start).take(total) =~= offsets_of(plan, al, start));
        }
        offsets
    }

    /// Appends the directory.
    fn push_directory(&self, out: &mut Vec<u8>, offsets: &Vec<u64>)
        requires
            offsets@.len() == self.names_order@.len(),
            forall|i: int|
                0 <= i < self.plan().len() ==> blob_ok(
                    (#[trigger] self.plan()[i]).dtype,
                    self.plan()[i].dims,
                ),
        ensures
            final(out)@ == old(out)@ + directory_bytes(self.plan(), offsets@),
    {
        let ghost plan = self.plan();
        let ghost start = out@;
        push_le(out, self.names_order.len() as u64, 4);
        let ghost head = out@;
        proof {
            assert(head =~= head + records_bytes(plan, offsets@, 0));
        }
        for i in 0..self.names_order.len()
            invariant
                plan == self.plan(),
                offsets@.len() == plan.len(),
                forall|j: int|
                    0 <= j < plan.len() ==> blob_ok((#[trigger] plan[j]).dtype, plan[j].dims),
                out@ == head + records_bytes(plan, offsets@, i as int),
        {
            let ghost p = plan[i as int];
            let ghost before = records_bytes(plan, offsets@, i as int);
            proof {
                assert(p.name == self.names_order@[i as int].0@);
                assert(blob_ok(p.dtype, p.dims));
            }
            let row = &self.names_order[i];
            push_record(out, row.0.as_str(), row.1, &row.2, offsets[i]);
            proof {
                let rec = record_bytes(encode_utf8(p.name), planned_entry(p, offsets@[i as int]));
                assert((head + before) + rec =~= head + (before + rec));
            }
        }
        proof {
            assert(out@ =~= start + directory_bytes(plan, offsets@));
        }
    }

    /// The first-version header, and the blob offsets in write order.
    pub fn write_header(&self) -> (r: (Vec<u8>, Vec<u64>))
        requires
            self.layout_ok(8),
        ensures
            r.1@ == offsets_of(self.plan(), self.expert_align as int, self.data_start(8)),
            r.0@ == header_v1(self.plan(), r.1@),
            r.0@.len() == self.data_start(8),
    {
        let offsets: Vec<u64> = self.layout(8);
        let mut out: Vec<u8> = Vec::new();
        push_le(&mut out, MAGIC, 8);
        self.push_directory(&mut out, &offsets);
        proof {
            let plan = self.plan();
            assert(out@ =~= header_v1(plan, offsets@));
            lemma_le_len(MAGIC as nat, 8);
            lemma_le_len(plan.len(), 4);
            lemma_records_bytes_len(plan, offsets@, plan.len() as int);
            assert(plan.take(plan.len() as int) =~= plan);
        }
        (out, offsets)
    }

    /// The second-version header with its configuration, and the blob offsets in
    /// write order.
    pub fn write_header_v2(&self, config_json: &str) -> (r: (Vec<u8>, Vec<u64>))
        requires
            self.layout_ok((12 + encode_utf8(config_json@).len()) as int),
        ensures
            r.1@ == offsets_of(
                self.plan(),
                self.expert_align as int,
                self.data_start((12 + encode_utf8(config_json@).len()) as int),
            ),
            r.0@ == header_v2(encode_utf8(config_json@), self.plan(), r.1@),
            r.0@.len() == self.data_start((12 + encode_utf8(config_json@).len()) as int),
    {
        let config: &[u8] = config_json.as_bytes();
        proof {
            lemma_offset_bound_start(
                self.plan(),
                self.expert_align as int,
                self.data_start((12 + config@.len()) as int),
                self.plan().len() as int,
            );
            lemma_records_grow(self.plan(), 0, self.plan().len() as int);
            assert(self.plan().take(0) =~= Seq::<Planned>::empty());
            assert(self.plan().take(self.plan().len() as int) =~= self.plan());
        }
        let offsets: Vec<u64> = self.layout(12 + config.len() as u64);
        let mut out: Vec<u8> = Vec::new();
        push_le(&mut out, MAGIC_V2, 8);
        push_le(&mut out, config.len() as u64, 4);
        push_bytes(&mut out, config);
        self.push_directory(&mut out, &offsets);
        proof {
            let plan = self.plan();
            assert(out@ =~= header_v2(config@, plan, offsets@));
            lemma_le_len(MAGIC_V2 as nat, 8);
            lemma_le_len(config@.len(), 4);
            lemma_le_len(plan.len(), 4);
            lemma_records_bytes_len(plan, offsets@, plan.len() as int);
        }
        (out, offsets)
    }
}

proof fn lemma_offset_bound_start(plan: Seq<Planned>, expert_align: int, start: int, n: int)
    requires
        expert_align > 0,
        n >= 0,
        end_after(plan, expert_align, start, n) <= u64::MAX,
        start >= 0,
    ensures
        start <= u64::MAX,
{
    lemma_offset_bound(plan, expert_align, start, 0, n);
}

proof fn lemma_records_grow(plan: Seq<Planned>, i: int, j: int)
    requires
        0 <= i <= j <= plan.len(),
    ensures
        0 <= records_len(plan.take(i)) <= records_len(plan.take(j)),
    decreases j,
{
    if i < j {
        lemma_records_grow(plan, i, j - 1);
        assert(plan.take(j).drop_last() =~= plan.take(j - 1));
    } else if j > 0 {
        lemma_records_grow(plan, j - 1, j - 1);
        assert(plan.take(j).drop_last() =~= plan.take(j - 1));
    }
}

/// What a tensor takes: four bytes for each float or integer; seventeen bytes for each block
/// of 32 packed cells, and four more where their scales have a common one; one byte for each
/// vector of sixteen cells.
pub proof fn law_blobs_have_their_size(dims: Seq<u32>, blocks: nat)
    requires
        dims.len() == 2,
        dims[0] * dims[1] == 32 * blocks,
    ensures
        blob_bytes(DTYPE_F32, dims) == 4 * (dims[0] * dims[1]),
        blob_bytes(DTYPE_I32, dims) == 4 * (dims[0] * dims[1]),
        blob_bytes(DTYPE_MXFP4, dims) == 17 * blocks,
        blob_bytes(DTYPE_MXFP4SQ, dims) == 17 * blocks + 4,
        blob_bytes(DTYPE_VQ1, dims) == 2 * blocks,
{
    let one = dims.drop_last();
    assert(one.drop_last() =~= Seq::<u32>::empty());
    assert(product(one.drop_last()) == 1);
    assert(one.last() == dims[0]);
    assert(1 * (dims[0] as nat) == dims[0]) by (nonlinear_arith);
    assert(product(one) == dims[0]);
    assert(dims.last() == dims[1]);
    assert(product(dims) == dims[0] * dims[1]);
}

/// The tensors of routed experts are told by their names: those of the three matrices are,
/// and no other tensor of a layer is.
pub proof fn law_expert_names_are_told(front: Seq<char>, number: Seq<char>, end: Seq<char>)
    requires
        end == ".w1"@ || end == ".w2"@ || end == ".w3"@,
    ensures
        expert_name(front + ".block_sparse_moe.experts."@ + number + end),
{
    let mid = ".block_sparse_moe.experts."@;
    let name = front + mid + number + end;
    assert(name.subrange(front.len() as int, front.len() as int + mid.len()) =~= mid);
    assert(crate::text::stands_at(name, mid, front.len() as int));
    assert(name.subrange(name.len() - end.len(), name.len() as int) =~= end);
}

/// A tensor whose name does not end as an expert's matrix does belongs to the spine.
pub proof fn law_other_names_are_told(front: Seq<char>)
    ensures
        !expert_name(front + ".weight"@),
{
    let name = front + ".weight"@;
    reveal_strlit(".weight");
    reveal_strlit(".w1");
    reveal_strlit(".w2");
    reveal_strlit(".w3");
    assert(".weight"@[6] == 't');
    assert(".w1"@[2] == '1' && ".w2"@[2] == '2' && ".w3"@[2] == '3');
    let n = name.len() as int;
    assert(name[n - 1] == 't');
    assert(name.subrange(n - 3, n)[2] == 't');
}

/// The blobs stand close: each begins less than one alignment behind the end of the one
/// before it, the experts' at multiples of their own alignment and the others at multiples
/// of 64.
pub proof fn law_layout_is_tight(plan: Seq<Planned>, expert_align: int, start: int, i: int)
    requires
        start >= 0,
        expert_align > 0,
        0 <= i < plan.len(),
    ensures
        ({
            let at = offset_of(plan, expert_align, start, i);
            let end = if i == 0 {
                start
            } else {
                offset_of(plan, expert_align, start, i - 1) + blob_bytes(
                    plan[i - 1].dtype,
                    plan[i - 1].dims,
                )
            };
            let align = if expert_name(plan[i].name) {
                expert_align
            } else {
                64
            };
            end <= at < end + align && at % align == 0
        }),
{
    lemma_offset_bound(plan, expert_align, start, 0, i);
    lemma_align_up(
        end_after(plan, expert_align, start, i),
        blob_align(plan[i], expert_align),
    );
}

/// How a checkpoint begins: the eight letters of its format, the length of its
/// configuration, the configuration, the number of its tensors and their records.
pub proof fn law_checkpoint_begins_with_its_format(
    config: Seq<u8>,
    plan: Seq<Planned>,
    offsets: Seq<u64>,
)
    ensures
        ({
            let h = header_v2(config, plan, offsets);
            let n = config.len() as int;
            let records = records_bytes(plan, offsets, plan.len() as int);
            &&& h.len() == 16 + n + records.len()
            &&& h.subrange(0, 8) == seq![
                'M' as u8,
                'K' as u8,
                'I' as u8,
                'M' as u8,
                '0' as u8,
                '0' as u8,
                '0' as u8,
                '2' as u8,
            ]
            &&& h.subrange(8, 12) == le(config.len(), 4)
            &&& h.subrange(12, 12 + n) == config
            &&& h.subrange(12 + n, 16 + n) == le(plan.len(), 4)
            &&& h.skip(16 + n) == records
        }),
        ({
            let h = header_v1(plan, offsets);
            &&& h.subrange(0, 8) == seq![
                'M' as u8,
                'K' as u8,
                'I' as u8,
                'M' as u8,
                '0' as u8,
                '0' as u8,
                '0' as u8,
                '1' as u8,
            ]
            &&& h.subrange(8, 12) == le(plan.len(), 4)
            &&& h.skip(12) == records_bytes(plan, offsets, plan.len() as int)
        }),
{
    crate::le::lemma_le_len(MAGIC_V2 as nat, 8);
    crate::le::lemma_le_len(MAGIC as nat, 8);
    crate::le::lemma_le_len(config.len(), 4);
    crate::le::lemma_le_len(plan.len(), 4);
    assert(le(MAGIC_V2 as nat, 8) =~= seq![
        0x4du8,
        0x4bu8,
        0x49u8,
        0x4du8,
        0x30u8,
        0x30u8,
        0x30u8,
        0x32u8,
    ]) by {
        reveal_with_fuel(le, 9);
    }
    assert(le(MAGIC as nat, 8) =~= seq![
        0x4du8,
        0x4bu8,
        0x49u8,
        0x4du8,
        0x30u8,
        0x30u8,
        0x30u8,
        0x31u8,
    ]) by {
        reveal_with_fuel(le, 9);
    }
    let n = config.len() as int;
    let h = header_v2(config, plan, offsets);
    assert(h.subrange(0, 8) =~= le(MAGIC_V2 as nat, 8));
    assert(h.subrange(8, 12) =~= le(config.len(), 4));
    assert(h.subrange(12, 12 + n) =~= config);
    assert(h.subrange(12 + n, 16 + n) =~= le(plan.len(), 4));
    assert(h.skip(16 + n) =~= records_bytes(plan, offsets, plan.len() as int));
    let g = header_v1(plan, offsets);
    assert(g.subrange(0, 8) =~= le(MAGIC as nat, 8));
    assert(g.subrange(8, 12) =~= le(plan.len(), 4));
    assert(g.skip(12) =~= records_bytes(plan, offsets, plan.len() as int));
}

/// How a record stands in the directory: the length of the name in two bytes, the name, the
/// type and the number of dimensions in one byte each, the dimensions in four each, then
/// where the data begins and how long it is in eight each.
pub proof fn law_records_have_their_layout(name: Seq<u8>, e: EntryView)
    ensures
        ({
            let r = record_bytes(name, e);
            let n = 2 + name.len() as int;
            let d = n + 2 + 4 * e.dims.len();
            &&& r.len() == d + 16
            &&& r.subrange(0, 2) == le(name.len(), 2)
            &&& r.subrange(2, n) == name
            &&& r[n] == e.dtype
            &&& r.subrange(n + 1, n + 2) == le(e.dims.len(), 1)
            &&& forall|i: int|
                0 <= i < e.dims.len() ==> r.subrange(n + 2 + 4 * i, n + 6 + 4 * i) == le(
                    (#[trigger] e.dims[i]) as nat,
                    4,
                )
            &&& r.subrange(d, d + 8) == le(e.offset as nat, 8)
            &&& r.subrange(d + 8, d + 16) == le(e.size as nat, 8)
        }),
{
    let r = record_bytes(name, e);
    let n = 2 + name.len() as int;
    let d = n + 2 + 4 * e.dims.len();
    crate::le::lemma_le_len(name.len(), 2);
    crate::le::lemma_le_len(e.dims.len(), 1);
    crate::le::lemma_le_len(e.offset as nat, 8);
    crate::le::lemma_le_len(e.size as nat, 8);
    lemma_dims_bytes_len(e.dims);
    assert(r.subrange(0, 2) =~= le(name.len(), 2));
    assert(r.subrange(2, n) =~= name);
    assert(r.subrange(n + 1, n + 2) =~= le(e.dims.len(), 1));
    assert(r.subrange(d, d + 8) =~= le(e.offset as nat, 8));
    assert(r.subrange(d + 8, d + 16) =~= le(e.size as nat, 8));
    assert(r.subrange(n + 2, d) =~= dims_bytes(e.dims));
    assert forall|i: int| 0 <= i < e.dims.len() implies r.subrange(n + 2 + 4 * i, n + 6 + 4 * i)
        == le((#[trigger] e.dims[i]) as nat, 4) by {
        lemma_dims_bytes_at(e.dims, i);
        assert(r.subrange(n + 2 + 4 * i, n + 6 + 4 * i) =~= r.subrange(n + 2, d).subrange(
            4 * i,
            4 * i + 4,
        ));
    }
}

proof fn lemma_dims_bytes_at(dims: Seq<u32>, i: int)
    requires
        0 <= i < dims.len(),
    ensures
        dims_bytes(dims).len() == 4 * dims.len(),
        dims_bytes(dims).subrange(4 * i, 4 * i + 4) == le(dims[i] as nat, 4),
    decreases dims.len(),
{
    let front = dims.drop_last();
    lemma_dims_bytes_len(dims);
    lemma_dims_bytes_len(front);
    crate::le::lemma_le_len(dims.last() as nat, 4);
    if i < front.len() {
        lemma_dims_bytes_at(front, i);
        assert(dims_bytes(dims).subrange(4 * i, 4 * i + 4) =~= dims_bytes(front).subrange(
            4 * i,
            4 * i + 4,
        ));
    } else {
        assert(dims_bytes(dims).subrange(4 * i, 4 * i + 4) =~= le(dims.last() as nat, 4));
    }
}

} // verus!
