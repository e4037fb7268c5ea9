//! Reading the header and the tensor directory of a checkpoint.

use crate::le::le;
use crate::le::lemma_le_len;
use crate::le::lemma_of_le_le;
use crate::le::lemma_pow256;
use crate::le::of_le;
use crate::le::read_le;
use crate::le::sub_bytes;
use crate::table::copy_bytes;
use crate::table::ByteTable;
use crate::unicode::utf8_text;
use crate::weights::dims_bytes;
use crate::weights::record_bytes;
use crate::weights::Entry;
use crate::weights::EntryView;
use crate::weights::MAGIC;
use crate::weights::MAGIC_V2;
use vstd::prelude::*;
use vstd::utf8::encode_utf8;
use vstd::utf8::valid_utf8;

verus! {

/// Why a header cannot be read.
#[derive(Debug, PartialEq, Eq, Structural, Clone, Copy)]
pub enum HeaderError {
    /// The bytes end before the directory does.
    Truncated,
    /// Neither magic stands at the start.
    BadMagic,
    /// A tensor name is not UTF-8.
    BadName,
}

/// `n` bytes stand at `pos`.
pub open spec fn holds(bytes: Seq<u8>, pos: int, n: int) -> bool {
    pos + n <= bytes.len()
}

/// The number in the `k` bytes at `pos`.
pub open spec fn num_at(bytes: Seq<u8>, pos: int, k: int) -> nat {
    of_le(bytes.subrange(pos, pos + k))
}

/// The dimensions at `pos`.
pub open spec fn dims_at(bytes: Seq<u8>, pos: int, n: nat) -> Seq<u32> {
    Seq::new(n, |d: int| num_at(bytes, pos + 4 * d, 4) as u32)
}

/// The directory record at `pos`: name bytes, entry and the position behind it.
#[verifier::opaque]
pub open spec fn record_at(bytes: Seq<u8>, pos: int) -> Result<
    (Seq<u8>, EntryView, int),
    HeaderError,
> {
    if !holds(bytes, pos, 2) {
        Err(HeaderError::Truncated)
    } else {
        let name_len = num_at(bytes, pos, 2) as int;
        let fixed = pos + 2 + name_len;
        if !holds(bytes, fixed, 2) {
            Err(HeaderError::Truncated)
        } else {
            let n_dims = bytes[fixed + 1] as nat;
            let tail = fixed + 2 + 4 * n_dims;
            let name = bytes.subrange(pos + 2, fixed);
            if !holds(bytes, tail, 16) {
                Err(HeaderError::Truncated)
            } else if !valid_utf8(name) {
                Err(HeaderError::BadName)
            } else {
                Ok(
                    (
                        name,
                        EntryView {
                            dtype: bytes[fixed],
                            dims: dims_at(bytes, fixed + 2, n_dims),
                            offset: num_at(bytes, tail, 8) as u64,
                            size: num_at(bytes, tail + 8, 8) as u64,
                        },
                        tail + 16,
                    ),
                )
            }
        }
    }
}

/// The `n` directory records from `pos` on.
pub open spec fn records_at(bytes: Seq<u8>, pos: int, n: nat) -> Result<
    Seq<(Seq<u8>, EntryView)>,
    HeaderError,
>
    decreases n,
{
    if n == 0 {
        Ok(Seq::empty())
    } else {
        match record_at(bytes, pos) {
            Err(e) => Err(e),
            Ok((name, entry, next)) => match records_at(bytes, next, (n - 1) as nat) {
                Err(e) => Err(e),
                Ok(rest) => Ok(seq![(name, entry)] + rest),
            },
        }
    }
}

/// What a header says: the configuration of the second version, and the records.
pub ghost struct HeaderView {
    pub config: Option<Seq<u8>>,
    pub records: Seq<(Seq<u8>, EntryView)>,
}

/// The tensor count at `pos` and the records behind it.
pub open spec fn counted_records(bytes: Seq<u8>, pos: int) -> Result<
    Seq<(Seq<u8>, EntryView)>,
    HeaderError,
> {
    if !holds(bytes, pos, 4) {
        Err(HeaderError::Truncated)
    } else {
        records_at(bytes, pos + 4, num_at(bytes, pos, 4))
    }
}

/// The header at the start of the bytes.
pub open spec fn header_at(bytes: Seq<u8>) -> Result<HeaderView, HeaderError> {
    if !holds(bytes, 0, 8) {
        Err(HeaderError::Truncated)
    } else if num_at(bytes, 0, 8) == MAGIC {
        match counted_records(bytes, 8) {
            Err(e) => Err(e),
            Ok(records) => Ok(HeaderView { config: None, records }),
        }
    } else if num_at(bytes, 0, 8) != MAGIC_V2 {
        Err(HeaderError::BadMagic)
    } else if !holds(bytes, 8, 4) {
        Err(HeaderError::Truncated)
    } else {
        let n = num_at(bytes, 8, 4) as int;
        if !holds(bytes, 12, n) {
            Err(HeaderError::Truncated)
        } else {
            match counted_records(bytes, 12 + n) {
                Err(e) => Err(e),
                Ok(records) => Ok(
                    HeaderView { config: Some(bytes.subrange(12, 12 + n)), records },
                ),
            }
        }
    }
}

/// A header that has been read.
pub struct Header {
    /// The JSON configuration of a second-version file.
    pub config: Option<Vec<u8>>,
    /// The directory in file order.
    pub records: Vec<(String, Entry)>,
}

/// What a list of named entries says.
pub open spec fn records_view(records: Seq<(String, Entry)>) -> Seq<(Seq<u8>, EntryView)> {
    Seq::new(records.len(), |i: int| (encode_utf8(records[i].0@), records[i].1@))
}

impl View for Header {
    type V = HeaderView;

    open spec fn view(&self) -> HeaderView {
        HeaderView {
            config: match self.config {
                Some(c) => Some(c@),
                None => None,
            },
            records: records_view(self.records@),
        }
    }
}

/// Reads one record.
fn read_record(bytes: &[u8], pos: usize) -> (r: Result<(String, Entry, usize), HeaderError>)
    requires
        pos <= bytes@.len(),
    ensures
        match record_at(bytes@, pos as int) {
            Err(e) => r == Err::<(String, Entry, usize), HeaderError>(e),
            Ok((name, entry, next)) => r is Ok && encode_utf8(r->Ok_0.0@) == name && r->Ok_0.1@
                == entry && r->Ok_0.2 == next && next <= bytes@.len(),
        },
{
    proof {
        reveal(record_at);
    }
    let total: usize = bytes.len();
    if total - pos < 2 {
        return Err(HeaderError::Truncated);
    }
    proof {
        lemma_pow256();
    }
    let name_len: usize = read_le(bytes, pos, 2) as usize;
    if total - (pos + 2) < name_len {
        return Err(HeaderError::Truncated);
    }
    let fixed: usize = pos + 2 + name_len;
    if total - fixed < 2 {
        return Err(HeaderError::Truncated);
    }
    let dtype: u8 = bytes[fixed];
    let n_dims: usize = bytes[fixed + 1] as usize;
    if total - (fixed + 2) < 4 * n_dims + 16 {
        return Err(HeaderError::Truncated);
    }
    let mut dims: Vec<u32> = Vec::with_capacity(n_dims);
    for d in 0..n_dims
        invariant
            total == bytes@.len(),
            n_dims <= 255,
            fixed + 2 + 4 * n_dims + 16 <= total,
            dims@ == dims_at(bytes@, fixed + 2, d as nat),
    {
        proof {
            lemma_pow256();
        }
        let v: u32 = read_le(bytes, fixed + 2 + 4 * d, 4) as u32;
        dims.push(v);
        proof {
            assert(dims@ =~= dims_at(bytes@, fixed + 2, (d + 1) as nat));
        }
    }
    let tail: usize = fixed + 2 + 4 * n_dims;
    let offset: u64 = read_le(bytes, tail, 8);
    let size: u64 = read_le(bytes, tail + 8, 8);
    let name: Vec<u8> = sub_bytes(bytes, pos + 2, fixed);
    match utf8_text(name) {
        None => Err(HeaderError::BadName),
        Some(text) => Ok((text, Entry { dtype, dims, offset, size }, tail + 16)),
    }
}

/// Reads the tensor count and the records behind it.
fn read_records(bytes: &[u8], from: usize) -> (r: Result<Vec<(String, Entry)>, HeaderError>)
    requires
        from <= bytes@.len(),
    ensures
        match counted_records(bytes@, from as int) {
            Err(e) => r == Err::<Vec<(String, Entry)>, HeaderError>(e),
            Ok(records) => r is Ok && records_view(r->Ok_0@) == records,
        },
{
    if bytes.len() - from < 4 {
        return Err(HeaderError::Truncated);
    }
    proof {
        lemma_pow256();
    }
    let n: u64 = read_le(bytes, from, 4);
    let mut pos: usize = from + 4;
    let mut out: Vec<(String, Entry)> = Vec::new();
    let mut i: u64 = 0;
    let ghost goal = records_at(bytes@, pos as int, n as nat);
    proof {
        if goal is Ok {
            assert(goal->Ok_0 =~= records_view(out@) + goal->Ok_0);
        }
    }
    while i < n
        invariant
            i <= n,
            pos <= bytes@.len(),
            goal == counted_records(bytes@, from as int),
            match records_at(bytes@, pos as int, (n - i) as nat) {
                Err(e) => goal == Err::<Seq<(Seq<u8>, EntryView)>, HeaderError>(e),
                Ok(rest) => goal == Ok::<Seq<(Seq<u8>, EntryView)>, HeaderError>(
                    records_view(out@) + rest,
                ),
            },
        decreases n - i,
    {
        match read_record(bytes, pos) {
            Err(e) => {
                return Err(e);
            },
            Ok((name, entry, next)) => {
                let ghost before = out@;
                let ghost one = (encode_utf8(name@), entry@);
                out.push((name, entry));
                proof {
                    assert(records_view(out@) =~= records_view(before).push(one));
                    let rest = records_at(bytes@, next as int, (n - i - 1) as nat);
                    if rest is Ok {
                        assert(records_view(before) + (seq![one] + rest->Ok_0) =~= records_view(
                            out@,
                        ) + rest->Ok_0);
                    }
                }
                pos = next;
            },
        }
        i += 1;
    }
    proof {
        assert(records_view(out@) + Seq::<(Seq<u8>, EntryView)>::empty() =~= records_view(out@));
    }
    Ok(out)
}

/// Reads the header and the directory at the start of a file.
pub fn read_directory(bytes: &[u8]) -> (r: Result<Header, HeaderError>)
    ensures
        match header_at(bytes@) {
            Err(e) => r == Err::<Header, HeaderError>(e),
            Ok(h) => r is Ok && r->Ok_0@ == h,
        },
{
    if bytes.len() < 8 {
        return Err(HeaderError::Truncated);
    }
    let magic: u64 = read_le(bytes, 0, 8);
    if magic == MAGIC {
        return match read_records(bytes, 8) {
            Err(e) => Err(e),
            Ok(records) => Ok(Header { config: None, records }),
        };
    }
    if magic != MAGIC_V2 {
        return Err(HeaderError::BadMagic);
    }
    if bytes.len() < 12 {
        return Err(HeaderError::Truncated);
    }
    proof {
        lemma_pow256();
    }
    let n: u64 = read_le(bytes, 8, 4);
    if ((bytes.len() - 12) as u64) < n {
        return Err(HeaderError::Truncated);
    }
    let end: usize = 12 + n as usize;
    let config: Vec<u8> = sub_bytes(bytes, 12, end);
    match read_records(bytes, end) {
        Err(e) => Err(e),
        Ok(records) => Ok(Header { config: Some(config), records }),
    }
}

// ── what was written is what is read ──

proof fn lemma_dims_read(dims: Seq<u32>, pre: Seq<u8>, post: Seq<u8>)
    ensures
        dims_bytes(dims).len() == 4 * dims.len(),
        dims_at(pre + dims_bytes(dims) + post, pre.len() as int, dims.len()) == dims,
    decreases dims.len(),
{
    let all = pre + dims_bytes(dims) + post;
    if dims.len() > 0 {
        let head = dims.drop_last();
        let last = le(dims.last() as nat, 4);
        lemma_le_len(dims.last() as nat, 4);
        lemma_dims_read(head, pre, last + post);
        assert(all =~= pre + dims_bytes(head) + (last + post));
        let p = pre.len() as int;
        let q = p + 4 * head.len();
        assert(all.subrange(q, q + 4) =~= last);
        lemma_pow256();
        lemma_of_le_le(dims.last() as nat, 4);
        assert forall|d: int| 0 <= d < dims.len() implies #[trigger] dims_at(
            all,
            p,
            dims.len(),
        )[d] == dims[d] by {
            if d < head.len() {
                assert(dims_at(all, p, head.len())[d] == head[d]);
            }
        }
    }
    assert(dims_at(all, pre.len() as int, dims.len()) =~= dims);
}

/// A record's fields fit their widths.
pub open spec fn record_fits(name: Seq<u8>, e: EntryView) -> bool {
    valid_utf8(name) && name.len() < 0x1_0000 && e.dims.len() < 0x100
}

proof fn lemma_record_read(name: Seq<u8>, e: EntryView, pre: Seq<u8>, post: Seq<u8>)
    requires
        record_fits(name, e),
    ensures
        record_at(pre + record_bytes(name, e) + post, pre.len() as int) == Ok::<
            (Seq<u8>, EntryView, int),
            HeaderError,
        >((name, e, (pre.len() + record_bytes(name, e).len()) as int)),
{
    reveal(record_at);
    let rec = record_bytes(name, e);
    let all = pre + rec + post;
    let p = pre.len() as int;
    crate::weights::lemma_record_bytes_len(name, e);
    lemma_le_len(name.len(), 2);
    lemma_le_len(e.dims.len(), 1);
    lemma_le_len(e.offset as nat, 8);
    lemma_le_len(e.size as nat, 8);
    lemma_pow256();
    lemma_of_le_le(name.len(), 2);
    lemma_of_le_le(e.dims.len(), 1);
    lemma_of_le_le(e.offset as nat, 8);
    lemma_of_le_le(e.size as nat, 8);
    let l2 = le(name.len(), 2);
    let l1 = le(e.dims.len(), 1);
    let lo = le(e.offset as nat, 8);
    let ls = le(e.size as nat, 8);
    assert(all.subrange(p, p + 2) =~= l2);
    let fixed = p + 2 + name.len();
    assert(all.subrange(p + 2, fixed) =~= name);
    assert(all[fixed] == e.dtype);
    assert(all[fixed + 1] == l1[0]);
    assert(l1[0] == e.dims.len()) by {
        assert(l1.skip(1) =~= Seq::<u8>::empty());
    }
    let head = pre + l2 + name + seq![e.dtype] + l1;
    let tail_bytes = lo + ls + post;
    lemma_dims_read(e.dims, head, tail_bytes);
    assert(all =~= head + dims_bytes(e.dims) + tail_bytes);
    let tail = fixed + 2 + 4 * e.dims.len();
    assert(all.subrange(tail, tail + 8) =~= lo);
    assert(all.subrange(tail + 8, tail + 16) =~= ls);
}

/// The bytes of a list of records.
pub open spec fn list_bytes(records: Seq<(Seq<u8>, EntryView)>) -> Seq<u8>
    decreases records.len(),
{
    if records.len() == 0 {
        Seq::empty()
    } else {
        record_bytes(records[0].0, records[0].1) + list_bytes(records.skip(1))
    }
}

proof fn lemma_records_read(records: Seq<(Seq<u8>, EntryView)>, pre: Seq<u8>, post: Seq<u8>)
    requires
        forall|i: int|
            0 <= i < records.len() ==> record_fits((#[trigger] records[i]).0, records[i].1),
    ensures
        records_at(pre + list_bytes(records) + post, pre.len() as int, records.len()) == Ok::<
            Seq<(Seq<u8>, EntryView)>,
            HeaderError,
        >(records),
    decreases records.len(),
{
    let all = pre + list_bytes(records) + post;
    if records.len() > 0 {
        let (name, e) = records[0];
        let rec = record_bytes(name, e);
        let rest = records.skip(1);
        lemma_record_read(name, e, pre, list_bytes(rest) + post);
        assert(all =~= pre + rec + (list_bytes(rest) + post));
        assert forall|i: int| 0 <= i < rest.len() implies record_fits(
            (#[trigger] rest[i]).0,
            rest[i].1,
        ) by {
            assert(rest[i] == records[i + 1]);
        }
        lemma_records_read(rest, pre + rec, post);
        assert(all =~= (pre + rec) + list_bytes(rest) + post);
        assert(seq![(name, e)] + rest =~= records);
    } else {
        assert(records =~= Seq::<(Seq<u8>, EntryView)>::empty());
    }
}

/// The header that a configuration and a list of records are written as.
pub open spec fn header_bytes(h: HeaderView) -> Seq<u8> {
    (match h.config {
        None => le(MAGIC as nat, 8),
        Some(c) => le(MAGIC_V2 as nat, 8) + le(c.len(), 4) + c,
    }) + le(h.records.len(), 4) + list_bytes(h.records)
}

/// Reading gives back what was written: the header at the start of a file, whatever
/// data follows, is the one that was written there.
pub proof fn law_read_inverts_write(h: HeaderView, data: Seq<u8>)
    requires
        h.records.len() < 0x1_0000_0000,
        h.config matches Some(c) ==> c.len() < 0x1_0000_0000,
        forall|i: int|
            0 <= i < h.records.len() ==> record_fits((#[trigger] h.records[i]).0, h.records[i].1),
    ensures
        header_at(header_bytes(h) + data) == Ok::<HeaderView, HeaderError>(h),
{
    let all = header_bytes(h) + data;
    let count = le(h.records.len(), 4);
    let list = list_bytes(h.records);
    lemma_pow256();
    lemma_le_len(MAGIC as nat, 8);
    lemma_le_len(MAGIC_V2 as nat, 8);
    lemma_le_len(h.records.len(), 4);
    lemma_of_le_le(MAGIC as nat, 8);
    lemma_of_le_le(MAGIC_V2 as nat, 8);
    lemma_of_le_le(h.records.len(), 4);
    match h.config {
        None => {
            let m = le(MAGIC as nat, 8);
            assert(all.subrange(0, 8) =~= m);
            assert(all.subrange(8, 12) =~= count);
            lemma_records_read(h.records, m + count, data);
            assert(all =~= (m + count) + list + data);
        },
        Some(c) => {
            let m = le(MAGIC_V2 as nat, 8);
            let n = le(c.len(), 4);
            lemma_le_len(c.len(), 4);
            lemma_of_le_le(c.len(), 4);
            assert(all.subrange(0, 8) =~= m);
            assert(all.subrange(8, 12) =~= n);
            assert(all.subrange(12, (12 + c.len()) as int) =~= c);
            assert(all.subrange((12 + c.len()) as int, (16 + c.len()) as int) =~= count);
            lemma_records_read(h.records, m + n + c + count, data);
            assert(all =~= (m + n + c + count) + list + data);
        },
    }
}

/// The records that a writer's plan is written as.
pub open spec fn planned_records(
    plan: Seq<crate::weights::Planned>,
    offsets: Seq<u64>,
) -> Seq<(Seq<u8>, EntryView)> {
    Seq::new(
        plan.len(),
        |i: int| (encode_utf8(plan[i].name), crate::weights::planned_entry(plan[i], offsets[i])),
    )
}

proof fn lemma_list_bytes_push(records: Seq<(Seq<u8>, EntryView)>, r: (Seq<u8>, EntryView))
    ensures
        list_bytes(records.push(r)) == list_bytes(records) + record_bytes(r.0, r.1),
    decreases records.len(),
{
    let all = records.push(r);
    if records.len() == 0 {
        assert(all.skip(1) =~= Seq::<(Seq<u8>, EntryView)>::empty());
        assert(list_bytes(all.skip(1)) =~= Seq::<u8>::empty());
        assert(list_bytes(all) =~= list_bytes(records) + record_bytes(r.0, r.1));
    } else {
        assert(all.skip(1) =~= records.skip(1).push(r));
        lemma_list_bytes_push(records.skip(1), r);
        assert(list_bytes(all) =~= list_bytes(records) + record_bytes(r.0, r.1));
    }
}

/// The writer's records are those of its plan.
pub proof fn lemma_writer_records(
    plan: Seq<crate::weights::Planned>,
    offsets: Seq<u64>,
    n: int,
)
    requires
        0 <= n <= plan.len(),
    ensures
        crate::weights::records_bytes(plan, offsets, n) == list_bytes(
            planned_records(plan, offsets).take(n),
        ),
    decreases n,
{
    let all = planned_records(plan, offsets);
    if n > 0 {
        lemma_writer_records(plan, offsets, n - 1);
        assert(all.take(n) =~= all.take(n - 1).push(all[n - 1]));
        lemma_list_bytes_push(all.take(n - 1), all[n - 1]);
    } else {
        assert(all.take(0) =~= Seq::<(Seq<u8>, EntryView)>::empty());
    }
}

/// A file that the writer began reads back as the writer's plan, with its offsets
/// and sizes.
pub proof fn law_written_checkpoint_reads_back(
    config: Option<Seq<u8>>,
    plan: Seq<crate::weights::Planned>,
    offsets: Seq<u64>,
    data: Seq<u8>,
)
    requires
        plan.len() < 0x1_0000_0000,
        config matches Some(c) ==> c.len() < 0x1_0000_0000,
        forall|i: int|
            0 <= i < plan.len() ==> encode_utf8((#[trigger] plan[i]).name).len() < 0x1_0000
                && plan[i].dims.len() < 0x100,
    ensures
        header_at(
            (match config {
                None => crate::weights::header_v1(plan, offsets),
                Some(c) => crate::weights::header_v2(c, plan, offsets),
            }) + data,
        ) == Ok::<HeaderView, HeaderError>(
            HeaderView { config, records: planned_records(plan, offsets) },
        ),
{
    let records = planned_records(plan, offsets);
    let h = HeaderView { config, records };
    lemma_writer_records(plan, offsets, plan.len() as int);
    assert(records.take(plan.len() as int) =~= records);
    assert forall|i: int| 0 <= i < records.len() implies record_fits(
        (#[trigger] records[i]).0,
        records[i].1,
    ) by {
        vstd::utf8::encode_utf8_valid_utf8(plan[i].name);
        assert(encode_utf8(plan[i].name).len() < 0x1_0000);
    }
    law_read_inverts_write(h, data);
    match config {
        None => {
            assert(crate::weights::header_v1(plan, offsets) =~= header_bytes(h));
        },
        Some(c) => {
            assert(crate::weights::header_v2(c, plan, offsets) =~= header_bytes(h));
        },
    }
}

// ── the directory as a map ──

/// The tensors of a checkpoint by name. A name that the file lists twice stands for
/// its last entry.
pub struct Directory {
    /// The tensors, no name twice.
    pub list: Vec<(String, Entry)>,
    /// Name bytes to position in the list.
    pub index: ByteTable,
}

/// Name bytes to entry after the first `n` records.
pub open spec fn map_after(records: Seq<(Seq<u8>, EntryView)>, n: int) -> Map<Seq<u8>, EntryView>
    decreases n,
{
    if n <= 0 {
        Map::empty()
    } else {
        map_after(records, n - 1).insert(records[n - 1].0, records[n - 1].1)
    }
}

/// Record `i` carries a name.
pub open spec fn record_named(records: Seq<(Seq<u8>, EntryView)>, i: int, name: Seq<u8>) -> bool {
    0 <= i < records.len() && records[i].0 == name
}

/// A list with an entry under a name: in place of the one that stands there, else last.
pub open spec fn list_put(
    list: Seq<(Seq<u8>, EntryView)>,
    name: Seq<u8>,
    entry: EntryView,
) -> Seq<(Seq<u8>, EntryView)> {
    if exists|i: int| record_named(list, i, name) {
        list.update(choose|i: int| record_named(list, i, name), (name, entry))
    } else {
        list.push((name, entry))
    }
}

/// The list after the first `n` records: names in the order of their first record, each
/// with its last entry.
pub open spec fn listed(records: Seq<(Seq<u8>, EntryView)>, n: int) -> Seq<(Seq<u8>, EntryView)>
    decreases n,
{
    if n <= 0 {
        Seq::empty()
    } else {
        list_put(listed(records, n - 1), records[n - 1].0, records[n - 1].1)
    }
}

/// Records of different names are listed as they come.
pub proof fn law_distinct_records_keep_their_order(records: Seq<(Seq<u8>, EntryView)>)
    requires
        forall|i: int, j: int|
            0 <= i < j < records.len() ==> (#[trigger] records[i]).0 != (#[trigger] records[j]).0,
    ensures
        listed(records, records.len() as int) == records,
{
    lemma_distinct_listed(records, records.len() as int);
    assert(records.take(records.len() as int) =~= records);
}

proof fn lemma_distinct_listed(records: Seq<(Seq<u8>, EntryView)>, n: int)
    requires
        0 <= n <= records.len(),
        forall|i: int, j: int|
            0 <= i < j < records.len() ==> (#[trigger] records[i]).0 != (#[trigger] records[j]).0,
    ensures
        listed(records, n) == records.take(n),
    decreases n,
{
    if n > 0 {
        lemma_distinct_listed(records, n - 1);
        let before = records.take(n - 1);
        let name = records[n - 1].0;
        assert forall|i: int| !record_named(before, i, name) by {
            if 0 <= i < before.len() {
                assert(before[i] == records[i]);
            }
        }
        assert(before.push((name, records[n - 1].1)) =~= records.take(n));
    } else {
        assert(records.take(0) =~= Seq::<(Seq<u8>, EntryView)>::empty());
    }
}

/// Row `i` of a list carries a name.
pub open spec fn row_named(list: Seq<(String, Entry)>, i: int, name: Seq<u8>) -> bool {
    0 <= i < list.len() && encode_utf8(list[i].0@) == name
}

impl Directory {
    /// Name bytes to entry.
    pub open spec fn map(&self) -> Map<Seq<u8>, EntryView> {
        Map::new(
            |name: Seq<u8>| exists|i: int| row_named(self.list@, i, name),
            |name: Seq<u8>| self.list@[choose|i: int| row_named(self.list@, i, name)].1@,
        )
    }

    /// No name occurs twice and the index finds each.
    pub open spec fn wf(&self) -> bool {
        &&& self.index.wf()
        &&& self.list@.len() <= u32::MAX
        &&& forall|i: int|
            0 <= i < self.list@.len() ==> self.index@.contains_key(
                encode_utf8((#[trigger] self.list@[i]).0@),
            ) && self.index@[encode_utf8(self.list@[i].0@)] == i
        &&& forall|k: Seq<u8>| #[trigger]
            self.index@.contains_key(k) ==> row_named(self.list@, self.index@[k] as int, k)
    }

    /// No name occurs twice.
    pub proof fn law_names_are_distinct(&self, i: int, j: int)
        requires
            self.wf(),
            0 <= i < self.list@.len(),
            0 <= j < self.list@.len(),
            self.list@[i].0@ == self.list@[j].0@,
        ensures
            i == j,
    {
        assert(self.index@[encode_utf8(self.list@[i].0@)] == i);
        assert(self.index@[encode_utf8(self.list@[j].0@)] == j);
    }

    proof fn lemma_map_row(&self, i: int)
        requires
            self.wf(),
            0 <= i < self.list@.len(),
        ensures
            self.map().contains_key(encode_utf8(self.list@[i].0@)),
            self.map()[encode_utf8(self.list@[i].0@)] == self.list@[i].1@,
    {
        let name = encode_utf8(self.list@[i].0@);
        assert(row_named(self.list@, i, name));
        let k = choose|k: int| row_named(self.list@, k, name);
        assert(self.index@[encode_utf8(self.list@[k].0@)] == k);
        assert(self.index@[encode_utf8(self.list@[i].0@)] == i);
    }

    /// Builds the directory from the records of a header.
    pub fn from_records(records: Vec<(String, Entry)>) -> (d: Directory)
        requires
            records@.len() <= u32::MAX,
        ensures
            d.wf(),
            d.map() == map_after(records_view(records@), records@.len() as int),
            records_view(d.list@) == listed(records_view(records@), records@.len() as int),
    {
        let ghost all = records@;
        let ghost view = records_view(all);
        let mut left = records;
        let mut rest: Vec<(String, Entry)> = Vec::new();
        // turn the list over, so that records leave it in file order
        while left.len() > 0
            invariant
                left@.len() + rest@.len() == all.len(),
                left@ == all.take(left@.len() as int),
                forall|k: int|
                    0 <= k < rest@.len() ==> #[trigger] rest@[k] == all[all.len() - 1 - k],
            decreases left@.len(),
        {
            match left.pop() {
                Some(e) => {
                    proof {
                        assert(left@ =~= all.take(left@.len() as int));
                    }
                    rest.push(e);
                },
                None => {},
            }
        }
        let mut d = Directory { list: Vec::new(), index: ByteTable::new() };
        proof {
            assert(d.map() =~= map_after(view, 0));
            assert(records_view(d.list@) =~= listed(view, 0));
        }
        while rest.len() > 0
            invariant
                d.wf(),
                all.len() <= u32::MAX,
                view == records_view(all),
                rest@.len() <= all.len(),
                d.list@.len() <= all.len() - rest@.len(),
                forall|k: int|
                    0 <= k < rest@.len() ==> #[trigger] rest@[k] == all[all.len() - 1 - k],
                d.map() == map_after(view, all.len() - rest@.len()),
                records_view(d.list@) == listed(view, all.len() - rest@.len()),
            decreases rest@.len(),
        {
            let ghost n = all.len() - rest@.len();
            match rest.pop() {
                Some((name, entry)) => {
                    proof {
                        assert((name, entry) == all[n]);
                        assert(view[n] == (encode_utf8(name@), entry@));
                    }
                    d.put(name, entry);
                },
                None => {},
            }
        }
        d
    }

    /// Stores an entry under a name, replacing what stood there.
    fn put(&mut self, name: String, entry: Entry)
        requires
            old(self).wf(),
            old(self).list@.len() < u32::MAX,
        ensures
            final(self).wf(),
            final(self).list@.len() <= old(self).list@.len() + 1,
            final(self).map() == old(self).map().insert(encode_utf8(name@), entry@),
            records_view(final(self).list@) == list_put(
                records_view(old(self).list@),
                encode_utf8(name@),
                entry@,
            ),
    {
        let ghost before = *self;
        let ghost key = encode_utf8(name@);
        let bytes: Vec<u8> = copy_bytes(name.as_str().as_bytes());
        match self.index.get(bytes.as_slice()) {
            Some(at) => {
                proof {
                    assert(row_named(self.list@, self.index@[key] as int, key));
                    let rows = records_view(self.list@);
                    assert(record_named(rows, at as int, key));
                    let i = choose|i: int| record_named(rows, i, key);
                    assert(encode_utf8(self.list@[i].0@) == key);
                }
                self.list.set(at as usize, (name, entry));
            },
            None => {
                let at: usize = self.list.len();
                self.index.insert(bytes, at as u32);
                self.list.push((name, entry));
                proof {
                    assert forall|i: int| 0 <= i < before.list@.len() implies encode_utf8(
                        (#[trigger] before.list@[i]).0@,
                    ) != key by {
                        assert(before.index@.contains_key(encode_utf8(before.list@[i].0@)));
                    }
                    assert forall|i: int| 0 <= i < self.list@.len() implies self.index@.contains_key(
                        encode_utf8((#[trigger] self.list@[i]).0@),
                    ) && self.index@[encode_utf8(self.list@[i].0@)] == i by {
                        if i < at {
                            assert(self.list@[i] == before.list@[i]);
                        }
                    }
                    assert forall|k: Seq<u8>| #[trigger]
                        self.index@.contains_key(k) implies row_named(
                        self.list@,
                        self.index@[k] as int,
                        k,
                    ) by {
                        if k != key {
                            assert(before.index@.contains_key(k));
                            assert(row_named(before.list@, before.index@[k] as int, k));
                        }
                    }
                }
            },
        }
        proof {
            assert(self.wf());
            assert(records_view(self.list@) =~= list_put(records_view(before.list@), key, entry@)) by {
                let rows = records_view(before.list@);
                if !before.index@.contains_key(key) {
                    assert forall|i: int| !record_named(rows, i, key) by {
                        if 0 <= i < rows.len() {
                            assert(before.index@.contains_key(encode_utf8(before.list@[i].0@)));
                        }
                    }
                }
            }
            let spot = self.index@[key] as int;
            assert(row_named(self.list@, spot, key));
            assert(self.list@[spot].1@ == entry@);
            self.lemma_map_row(spot);
            assert forall|k: Seq<u8>| #[trigger]
                self.map().contains_key(k) <==> before.map().insert(key, entry@).contains_key(
                    k,
                ) by {
                if self.map().contains_key(k) && k != key {
                    let r = choose|r: int| row_named(self.list@, r, k);
                    assert(self.list@[r] == before.list@[r]);
                    assert(row_named(before.list@, r, k));
                }
                if before.map().contains_key(k) && k != key {
                    let r = choose|r: int| row_named(before.list@, r, k);
                    assert(self.list@[r] == before.list@[r]);
                    assert(row_named(self.list@, r, k));
                }
            }
            assert forall|k: Seq<u8>|
                self.map().contains_key(k) && k != key implies #[trigger] self.map()[k]
                == before.map()[k] by {
                let r = choose|r: int| row_named(self.list@, r, k);
                assert(row_named(self.list@, r, k));
                assert(self.list@[r] == before.list@[r]);
                self.lemma_map_row(r);
                before.lemma_map_row(r);
            }
            assert(self.map() =~= before.map().insert(key, entry@));
        }
    }

    /// The row of a name, if any.
    pub fn find(&self, name: &str) -> (row: Option<usize>)
        requires
            self.wf(),
        ensures
            row is Some <==> self.map().contains_key(encode_utf8(name@)),
            row matches Some(i) ==> i < self.list@.len() && self.list@[i as int].0@ == name@
                && self.list@[i as int].1@ == self.map()[encode_utf8(name@)],
    {
        let ghost key = encode_utf8(name@);
        match self.index.get(name.as_bytes()) {
            Some(at) => {
                proof {
                    assert(row_named(self.list@, self.index@[key] as int, key));
                    self.lemma_map_row(at as int);
                    vstd::utf8::encode_utf8_decode_utf8(self.list@[at as int].0@);
                    vstd::utf8::encode_utf8_decode_utf8(name@);
                }
                Some(at as usize)
            },
            None => {
                proof {
                    if self.map().contains_key(key) {
                        let r = choose|r: int| row_named(self.list@, r, key);
                        assert(self.index@.contains_key(encode_utf8(self.list@[r].0@)));
                    }
                }
                None
            },
        }
    }
}

} // verus!
