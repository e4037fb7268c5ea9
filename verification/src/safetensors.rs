//! The header of a safetensors file: where its tensors stand.

use crate::le::read_le;
use crate::names::same_text;
use crate::unicode::chars_of;
use crate::unicode::text_of;
use vstd::prelude::*;

verus! {

/// A tensor of the file.
#[derive(Debug)]
pub struct TensorInfo {
    pub dtype: String,
    pub shape: Vec<usize>,
    /// Where the data begins and ends, from the start of the data section.
    pub offsets: (u64, u64),
}

/// What a tensor's info says.
pub ghost struct InfoView {
    pub dtype: Seq<char>,
    pub shape: Seq<usize>,
    pub offsets: (u64, u64),
}

impl View for TensorInfo {
    type V = InfoView;

    open spec fn view(&self) -> InfoView {
        InfoView { dtype: self.dtype@, shape: self.shape@, offsets: self.offsets }
    }
}

/// An entry of the header as it is written: fields may be missing.
pub struct TensorMeta {
    pub dtype: Option<String>,
    pub shape: Vec<usize>,
    pub offsets: Vec<u64>,
}

/// Why a file has no header.
#[derive(Debug, Clone, Copy, PartialEq, Eq, Structural)]
pub enum SpanError {
    /// Not even the length of a header.
    TooSmall,
    /// The header ends behind the file.
    Truncated,
}

/// The length of the header.
pub open spec fn header_len(bytes: Seq<u8>) -> nat {
    crate::directory::num_at(bytes, 0, 8)
}

/// Finds the header text: it follows its length, eight bytes.
pub fn header_span(bytes: &[u8]) -> (r: Result<(u64, usize), SpanError>)
    ensures
        match r {
            Ok((len, end)) => {
                &&& bytes@.len() >= 8
                &&& len == header_len(bytes@)
                &&& end == 8 + len
                &&& end <= bytes@.len()
            },
            Err(e) => if bytes@.len() < 8 {
                e == SpanError::TooSmall
            } else {
                e == SpanError::Truncated && 8 + header_len(bytes@) > bytes@.len()
            },
        },
{
    let total: usize = bytes.len();
    if total < 8 {
        return Err(SpanError::TooSmall);
    }
    let len: u64 = read_le(bytes, 0, 8);
    if len > (total - 8) as u64 {
        return Err(SpanError::Truncated);
    }
    Ok((len, 8 + len as usize))
}

/// Tensors by name; a later one of a name replaces an earlier one.
pub struct TensorTable {
    pub rows: Vec<(String, TensorInfo)>,
}

/// The tensors after the first rows.
pub open spec fn rows_map(rows: Seq<(String, TensorInfo)>) -> Map<Seq<char>, InfoView>
    decreases rows.len(),
{
    if rows.len() == 0 {
        Map::empty()
    } else {
        rows_map(rows.drop_last()).insert(rows.last().0@, rows.last().1@)
    }
}

impl View for TensorTable {
    type V = Map<Seq<char>, InfoView>;

    open spec fn view(&self) -> Map<Seq<char>, InfoView> {
        rows_map(self.rows@)
    }
}

impl TensorTable {
    /// The tensor of a name.
    pub fn get(&self, name: &str) -> (info: Option<&TensorInfo>)
        ensures
            match info {
                Some(t) => self@.contains_key(name@) && self@[name@] == t@,
                None => !self@.contains_key(name@),
            },
    {
        let mut i: usize = self.rows.len();
        proof {
            assert(self.rows@.take(i as int) =~= self.rows@);
        }
        while i > 0
            invariant
                i <= self.rows@.len(),
                self@.contains_key(name@) == rows_map(self.rows@.take(i as int)).contains_key(
                    name@,
                ),
                self@.contains_key(name@) ==> self@[name@] == rows_map(
                    self.rows@.take(i as int),
                )[name@],
            decreases i,
        {
            proof {
                assert(self.rows@.take(i as int).drop_last() =~= self.rows@.take(i - 1));
                assert(self.rows@.take(i as int).last() == self.rows@[i - 1]);
            }
            let t: Vec<char> = chars_of(self.rows[i - 1].0.as_str());
            if same_text(t.as_slice(), name) {
                return Some(&self.rows[i - 1].1);
            }
            i -= 1;
        }
        None
    }
}

/// What an entry says of its tensor; the type is unknown where none is written. An
/// entry has to say where its data is.
pub open spec fn info_of(m: TensorMeta) -> Option<InfoView> {
    if m.offsets@.len() < 2 {
        None
    } else {
        Some(
            InfoView {
                dtype: match m.dtype {
                    Some(d) => d@,
                    None => "?"@,
                },
                shape: m.shape@,
                offsets: (m.offsets@[0], m.offsets@[1]),
            },
        )
    }
}

/// The tensors of the first `n` entries, or the first entry that does not say where its
/// data is. The entry about the file itself is passed over.
pub open spec fn tensors_of(entries: Seq<(String, TensorMeta)>, n: int) -> Result<
    Map<Seq<char>, InfoView>,
    usize,
>
    decreases n,
{
    if n <= 0 {
        Ok(Map::empty())
    } else {
        match tensors_of(entries, n - 1) {
            Err(i) => Err(i),
            Ok(m) => if entries[n - 1].0@ == "__metadata__"@ {
                Ok(m)
            } else {
                match info_of(entries[n - 1].1) {
                    None => Err((n - 1) as usize),
                    Some(info) => Ok(m.insert(entries[n - 1].0@, info)),
                }
            },
        }
    }
}

proof fn lemma_first_bad(entries: Seq<(String, TensorMeta)>, i: int, n: int)
    requires
        0 <= i <= n,
        tensors_of(entries, i) is Err,
    ensures
        tensors_of(entries, n) == tensors_of(entries, i),
    decreases n,
{
    if i < n {
        lemma_first_bad(entries, i, n - 1);
    }
}

fn copy_text(s: &str) -> (t: String)
    ensures
        t@ == s@,
{
    let chars: Vec<char> = chars_of(s);
    text_of(chars.as_slice())
}

/// Collects the tensors of a header from its entries in file order, or names the first
/// entry that does not say where its data is.
pub fn parse_header(entries: &Vec<(String, TensorMeta)>) -> (r: Result<TensorTable, usize>)
    ensures
        match r {
            Ok(t) => tensors_of(entries@, entries@.len() as int) == Ok::<
                Map<Seq<char>, InfoView>,
                usize,
            >(t@),
            Err(i) => tensors_of(entries@, entries@.len() as int) == Err::<
                Map<Seq<char>, InfoView>,
                usize,
            >(i),
        },
{
    let mut table: TensorTable = TensorTable { rows: Vec::new() };
    for i in 0..entries.len()
        invariant
            tensors_of(entries@, i as int) == Ok::<Map<Seq<char>, InfoView>, usize>(table@),
    {
        let name: Vec<char> = chars_of(entries[i].0.as_str());
        if !same_text(name.as_slice(), "__metadata__") {
            let meta: &TensorMeta = &entries[i].1;
            if meta.offsets.len() < 2 {
                proof {
                    lemma_first_bad(entries@, i + 1, entries@.len() as int);
                }
                return Err(i);
            }
            let dtype: String = match &meta.dtype {
                Some(d) => copy_text(d.as_str()),
                None => copy_text("?"),
            };
            let shape: Vec<usize> = crate::cache::copy_of(meta.shape.as_slice());
            let info: TensorInfo = TensorInfo {
                dtype,
                shape,
                offsets: (meta.offsets[0], meta.offsets[1]),
            };
            let ghost before = table.rows@;
            table.rows.push((text_of(name.as_slice()), info));
            proof {
                assert(table.rows@.drop_last() =~= before);
            }
        }
    }
    Ok(table)
}

/// A header's table has each tensor as its last entry describes it, where its data begins
/// and where it ends among that, and has neither the metadata nor what no entry names.
pub proof fn law_header_lists_its_tensors(
    entries: Seq<(String, TensorMeta)>,
    n: int,
    name: Seq<char>,
    k: int,
)
    requires
        0 <= n <= entries.len(),
        tensors_of(entries, n) is Ok,
    ensures
        !tensors_of(entries, n)->Ok_0.contains_key("__metadata__"@),
        0 <= k < n && entries[k].0@ == name && name != "__metadata__"@ && (forall|j: int|
            k < j < n ==> (#[trigger] entries[j]).0@ != name) ==> {
            let info = tensors_of(entries, n)->Ok_0[name];
            let from = entries[k].1;
            &&& tensors_of(entries, n)->Ok_0.contains_key(name)
            &&& from.offsets@.len() >= 2
            &&& info.offsets.0 == from.offsets@[0] && info.offsets.1 == from.offsets@[1]
            &&& info.shape == from.shape@
            &&& from.dtype is Some ==> info.dtype == from.dtype->Some_0@
        },
        (forall|j: int| 0 <= j < n ==> (#[trigger] entries[j]).0@ != name)
            ==> !tensors_of(entries, n)->Ok_0.contains_key(name),
    decreases n,
{
    if n > 0 {
        law_header_lists_its_tensors(entries, n - 1, name, k);
        assert(entries[n - 1] == entries[n - 1]);
    }
}

/// A header is refused exactly where a tensor lacks the two ends of its data.
pub proof fn law_header_needs_both_ends(entries: Seq<(String, TensorMeta)>, n: int)
    requires
        0 <= n <= entries.len(),
    ensures
        tensors_of(entries, n) is Ok <==> forall|j: int|
            0 <= j < n && (#[trigger] entries[j]).0@ != "__metadata__"@
                ==> entries[j].1.offsets@.len() >= 2,
    decreases n,
{
    if n > 0 {
        law_header_needs_both_ends(entries, n - 1);
        assert(entries[n - 1] == entries[n - 1]);
    }
}

} // verus!
