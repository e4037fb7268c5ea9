//! Byte-level BPE tokenizer with the text-only chat template and the remap of a
//! vocabulary-sliced model.

use crate::bpe::bpe_tokens;
use crate::bpe::in_vocabulary;
use crate::bpe::merge_bytes;
use crate::bpe::tokens_of;
use crate::pretokenize::pre_tokens;
use crate::pretokenize::qwen_pre_tokenize;
use crate::table::copy_bytes;
use crate::table::ByteTable;
use crate::table::PairTable;
use crate::text::matches_at;
use crate::text::push_decimal;
use crate::text::push_text;
use crate::text::stands_at;
use crate::text::sub_chars;
use crate::unicode::chars_of;
use crate::unicode::lossy;
use crate::unicode::nfc;
use crate::unicode::normalize_nfc;
use crate::unicode::text_of;
use crate::unicode::utf8_lossy;
use vstd::prelude::*;
use vstd::utf8::encode_utf8;

verus! {

/// Id of `<|endoftext|>`.
pub const QWEN_ENDOFTEXT: u32 = 248044;

/// Id of `<|im_start|>`.
pub const QWEN_IM_START: u32 = 248045;

/// Id of `<|im_end|>`.
pub const QWEN_IM_END: u32 = 248046;

/// Id of `<think>`.
pub const QWEN_THINK: u32 = 248068;

/// The mark of a token that a sliced vocabulary has no row for.
pub const DROPPED: u32 = 0xffff_ffff;

/// The tokenizer: the tables of the full vocabulary and, for a sliced model, the
/// remap onto its rows.
pub struct QwenTokenizer {
    /// Token bytes to id.
    pub ids: ByteTable,
    /// Merge ranks of token pairs.
    pub pair_rank: PairTable,
    /// Id to token bytes; empty where an id is unused.
    pub id_to_bytes: Vec<Vec<u8>>,
    /// Added tokens, matched in this order before any merging.
    pub added: Vec<(String, u32)>,
    /// Rows of the model's vocabulary.
    pub model_vocab: usize,
    /// The remap of a vocabulary-sliced model.
    pub remap: Option<QwenVocabRemap>,
}

/// Remap for a vocabulary-sliced model: encoding runs on the full vocabulary,
/// then every id is translated to its kept row; a dropped token falls back to
/// its single-byte tokens.
pub struct QwenVocabRemap {
    /// Row to full id.
    pub new_to_old: Vec<u32>,
    /// Full id to row, `DROPPED` where it has none.
    pub old_to_new: Vec<u32>,
    /// The row of each single-byte token.
    pub byte_new_ids: Vec<u32>,
}

/// Why a remap is refused.
#[derive(Debug, PartialEq, Eq, Structural, Clone, Copy)]
pub enum RemapError {
    /// The table's length is not the sliced vocabulary.
    LengthMismatch,
    /// A full id lies outside the full vocabulary.
    IdOutOfRange(u32),
    /// A full id occurs twice.
    DuplicateId(u32),
    /// The tokenizer has no token for a byte.
    NoByteToken(u8),
    /// The table drops the token of a byte.
    DroppedByteToken(u8),
}

/// A piece merged down to a token that the vocabulary lacks.
#[derive(Debug, PartialEq, Eq, Structural, Clone, Copy)]
pub struct MissingToken;

impl RemapError {
    /// The message shown to the user.
    pub fn message(&self) -> (text: String)
        ensures
            text@ == (match *self {
                RemapError::LengthMismatch =>
                    "vocab map length does not match the sliced vocabulary"@,
                RemapError::IdOutOfRange(id) => "vocab map: id "@ + crate::text::decimal(
                    id as nat,
                ) + " exceeds the full vocabulary"@,
                RemapError::DuplicateId(id) => "vocab map: duplicate id "@ + crate::text::decimal(
                    id as nat,
                ),
                RemapError::NoByteToken(b) => "tokenizer has no single-byte token for byte "@
                    + crate::text::decimal(b as nat),
                RemapError::DroppedByteToken(b) => "vocab map drops the byte token for byte "@
                    + crate::text::decimal(b as nat),
            }),
    {
        let mut text = String::new();
        match *self {
            RemapError::LengthMismatch => {
                push_text(&mut text, "vocab map length does not match the sliced vocabulary");
            },
            RemapError::IdOutOfRange(id) => {
                push_text(&mut text, "vocab map: id ");
                push_decimal(&mut text, id as u64);
                push_text(&mut text, " exceeds the full vocabulary");
            },
            RemapError::DuplicateId(id) => {
                push_text(&mut text, "vocab map: duplicate id ");
                push_decimal(&mut text, id as u64);
            },
            RemapError::NoByteToken(b) => {
                push_text(&mut text, "tokenizer has no single-byte token for byte ");
                push_decimal(&mut text, b as u64);
            },
            RemapError::DroppedByteToken(b) => {
                push_text(&mut text, "vocab map drops the byte token for byte ");
                push_decimal(&mut text, b as u64);
            },
        }
        proof {
            let e = Seq::<char>::empty();
            assert(e + "vocab map length does not match the sliced vocabulary"@
                =~= "vocab map length does not match the sliced vocabulary"@);
            assert(e + "vocab map: id "@ =~= "vocab map: id "@);
            assert(e + "vocab map: duplicate id "@ =~= "vocab map: duplicate id "@);
            assert(e + "tokenizer has no single-byte token for byte "@
                =~= "tokenizer has no single-byte token for byte "@);
            assert(e + "vocab map drops the byte token for byte "@
                =~= "vocab map drops the byte token for byte "@);
        }
        text
    }
}

// ── the remap ──

/// The first fault of a row table, from row `i` on: an id outside the full
/// vocabulary, or one that an earlier row holds.
pub open spec fn table_fault(rows: Seq<u32>, full_vocab: int, i: int) -> Option<RemapError>
    decreases rows.len() - i,
{
    if i < 0 || i >= rows.len() {
        None
    } else if rows[i] >= full_vocab {
        Some(RemapError::IdOutOfRange(rows[i]))
    } else if rows.take(i).contains(rows[i]) {
        Some(RemapError::DuplicateId(rows[i]))
    } else {
        table_fault(rows, full_vocab, i + 1)
    }
}

/// The first byte, from `b` on, whose token is missing or has no row.
pub open spec fn byte_fault(ids: Map<Seq<u8>, u32>, rows: Seq<u32>, b: int) -> Option<RemapError>
    decreases 256 - b,
{
    if b < 0 || b >= 256 {
        None
    } else if !ids.contains_key(seq![b as u8]) {
        Some(RemapError::NoByteToken(b as u8))
    } else if !rows.contains(ids[seq![b as u8]]) {
        Some(RemapError::DroppedByteToken(b as u8))
    } else {
        byte_fault(ids, rows, b + 1)
    }
}

/// The token of byte `b` has the row that `byte_rows` gives for it.
pub open spec fn byte_kept(
    ids: Map<Seq<u8>, u32>,
    rows: Seq<u32>,
    byte_rows: Seq<u32>,
    b: u8,
) -> bool {
    &&& ids.contains_key(seq![b])
    &&& byte_rows[b as int] < rows.len()
    &&& rows[byte_rows[b as int] as int] == ids[seq![b]]
}

/// What is wrong with a row table, if anything.
pub open spec fn remap_fault(
    ids: Map<Seq<u8>, u32>,
    rows: Seq<u32>,
    full_vocab: int,
) -> Option<RemapError> {
    match table_fault(rows, full_vocab, 0) {
        Some(e) => Some(e),
        None => byte_fault(ids, rows, 0),
    }
}

impl QwenVocabRemap {
    /// The three tables agree: the rows hold distinct full ids, `old_to_new`
    /// inverts them, and `byte_new_ids` gives the row of each byte's token.
    pub open spec fn wf(&self, ids: Map<Seq<u8>, u32>, full_vocab: int) -> bool {
        &&& self.new_to_old@.no_duplicates()
        &&& self.new_to_old@.len() <= DROPPED
        &&& forall|r: int|
            0 <= r < self.new_to_old@.len() ==> #[trigger] self.new_to_old@[r] < full_vocab
        &&& self.old_to_new@.len() == full_vocab
        &&& forall|o: int|
            0 <= o < full_vocab ==> #[trigger] self.old_to_new@[o] == (if self.new_to_old@.contains(
                o as u32,
            ) {
                self.new_to_old@.index_of(o as u32) as u32
            } else {
                DROPPED
            })
        &&& self.byte_new_ids@.len() == 256
        &&& forall|b: u8| #[trigger] byte_kept(ids, self.new_to_old@, self.byte_new_ids@, b)
    }

    /// Builds the remap from the row table, resolving the 256 single-byte tokens
    /// through the full tokenizer. Refuses ids out of range, duplicates, and a
    /// dropped byte token.
    pub fn build(new_to_old: Vec<u32>, full: &QwenTokenizer) -> (r: Result<
        QwenVocabRemap,
        RemapError,
    >)
        requires
            full.wf(),
        ensures
            match remap_fault(full.ids@, new_to_old@, full.id_to_bytes@.len() as int) {
                Some(e) => r == Err::<QwenVocabRemap, RemapError>(e),
                None => r is Ok && r->Ok_0.new_to_old@ == new_to_old@ && r->Ok_0.wf(
                    full.ids@,
                    full.id_to_bytes@.len() as int,
                ),
            },
    {
        let full_vocab: usize = full.id_to_bytes.len();
        let ghost rows = new_to_old@;
        let ghost ids = full.ids@;
        let mut old_to_new: Vec<u32> = Vec::with_capacity(full_vocab);
        for o in 0..full_vocab
            invariant
                old_to_new@.len() == o,
                forall|p: int| 0 <= p < o ==> #[trigger] old_to_new@[p] == DROPPED,
        {
            old_to_new.push(DROPPED);
        }
        let mut row: usize = 0;
        while row < new_to_old.len()
            invariant
                full.wf(),
                rows == new_to_old@,
                full_vocab == full.id_to_bytes@.len(),
                row <= rows.len(),
                row <= full_vocab,
                rows.take(row as int).no_duplicates(),
                forall|q: int| 0 <= q < row ==> #[trigger] rows[q] < full_vocab,
                old_to_new@.len() == full_vocab,
                forall|o: int|
                    0 <= o < full_vocab ==> #[trigger] old_to_new@[o] == (if rows.take(
                        row as int,
                    ).contains(o as u32) {
                        rows.take(row as int).index_of(o as u32) as u32
                    } else {
                        DROPPED
                    }),
                table_fault(rows, full_vocab as int, 0) == table_fault(
                    rows,
                    full_vocab as int,
                    row as int,
                ),
            decreases rows.len() - row,
        {
            let old_id: u32 = new_to_old[row];
            if old_id as usize >= full_vocab {
                return Err(RemapError::IdOutOfRange(old_id));
            }
            let ghost seen = rows.take(row as int);
            let ghost next = rows.take(row + 1);
            proof {
                assert(next =~= seen.push(old_id));
                lemma_distinct_below(seen, full_vocab as int);
                if seen.contains(old_id) {
                    let q = seen.index_of(old_id);
                    assert(seen[q] == old_id);
                    assert(old_to_new@[old_id as int] == q);
                }
            }
            if old_to_new[old_id as usize] != DROPPED {
                return Err(RemapError::DuplicateId(old_id));
            }
            let ghost before = old_to_new@;
            old_to_new.set(old_id as usize, row as u32);
            proof {
                assert(next.no_duplicates());
                assert forall|o: int| 0 <= o < full_vocab implies #[trigger] old_to_new@[o] == (
                if next.contains(o as u32) {
                    next.index_of(o as u32) as u32
                } else {
                    DROPPED
                }) by {
                    if o == old_id {
                        assert(next[row as int] == old_id);
                        assert(next.contains(old_id));
                        let q = next.index_of(old_id);
                        assert(next[q] == old_id);
                        assert(q == row);
                    } else {
                        assert(old_to_new@[o] == before[o]);
                        if seen.contains(o as u32) {
                            let q = seen.index_of(o as u32);
                            assert(seen[q] == o as u32);
                            assert(next[q] == o as u32);
                            assert(next.contains(o as u32));
                            let q2 = next.index_of(o as u32);
                            assert(next[q2] == o as u32);
                            assert(q == q2);
                        } else {
                            if next.contains(o as u32) {
                                let q2 = next.index_of(o as u32);
                                assert(next[q2] == o as u32);
                                assert(q2 < row);
                                assert(seen[q2] == o as u32);
                            }
                        }
                    }
                }
                lemma_distinct_below(next, full_vocab as int);
            }
            row += 1;
        }
        proof {
            assert(rows.take(rows.len() as int) =~= rows);
            lemma_distinct_below(rows, full_vocab as int);
        }
        let mut byte_new_ids: Vec<u32> = Vec::with_capacity(256);
        let mut b: usize = 0;
        while b < 256
            invariant
                full.wf(),
                ids == full.ids@,
                rows == new_to_old@,
                full_vocab == full.id_to_bytes@.len(),
                rows.len() <= full_vocab,
                rows.no_duplicates(),
                forall|q: int| 0 <= q < rows.len() ==> #[trigger] rows[q] < full_vocab,
                table_fault(rows, full_vocab as int, 0) is None,
                b <= 256,
                byte_new_ids@.len() == b,
                old_to_new@.len() == full_vocab,
                forall|o: int|
                    0 <= o < full_vocab ==> #[trigger] old_to_new@[o] == (if rows.contains(
                        o as u32,
                    ) {
                        rows.index_of(o as u32) as u32
                    } else {
                        DROPPED
                    }),
                forall|p: u8| p < b ==> #[trigger] byte_kept(ids, rows, byte_new_ids@, p),
                byte_fault(ids, rows, 0) == byte_fault(ids, rows, b as int),
            decreases 256 - b,
        {
            let mut one: Vec<u8> = Vec::with_capacity(1);
            one.push(b as u8);
            proof {
                assert(one@ =~= seq![b as u8]);
                assert(b as u8 as int == b);
            }
            match full.ids.get(one.as_slice()) {
                None => {
                    return Err(RemapError::NoByteToken(b as u8));
                },
                Some(full_id) => {
                    let new_id: u32 = old_to_new[full_id as usize];
                    proof {
                        if rows.contains(full_id) {
                            let q = rows.index_of(full_id);
                            assert(rows[q] == full_id);
                        }
                    }
                    if new_id == DROPPED {
                        return Err(RemapError::DroppedByteToken(b as u8));
                    }
                    let ghost before = byte_new_ids@;
                    byte_new_ids.push(new_id);
                    proof {
                        let q = rows.index_of(full_id);
                        assert(rows[q] == full_id && new_id == q);
                        assert forall|p: u8| p < b + 1 implies #[trigger] byte_kept(
                            ids,
                            rows,
                            byte_new_ids@,
                            p,
                        ) by {
                            if p == b {
                                assert(seq![p] =~= one@);
                            } else {
                                assert(byte_kept(ids, rows, before, p));
                                assert(byte_new_ids@[p as int] == before[p as int]);
                            }
                        }
                    }
                },
            }
            b += 1;
        }
        Ok(QwenVocabRemap { new_to_old, old_to_new, byte_new_ids })
    }
}

/// Distinct numbers below a bound are no more than the bound.
proof fn lemma_distinct_below(rows: Seq<u32>, bound: int)
    requires
        rows.no_duplicates(),
        0 <= bound <= DROPPED,
        forall|q: int| 0 <= q < rows.len() ==> #[trigger] rows[q] < bound,
    ensures
        rows.len() <= bound,
{
    let all = vstd::set_lib::set_int_range(0, bound);
    vstd::set_lib::lemma_int_range(0, bound);
    let nums = rows.map(|i: int, v: u32| v as int);
    assert(nums.no_duplicates()) by {
        assert forall|i: int, j: int|
            0 <= i < nums.len() && 0 <= j < nums.len() && i != j implies nums[i] != nums[j] by {
            assert(rows[i] != rows[j]);
        }
    }
    nums.unique_seq_to_set();
    assert(nums.to_set().subset_of(all)) by {
        assert forall|x: int| nums.to_set().contains(x) implies all.contains(x) by {
            let i = choose|i: int| 0 <= i < nums.len() && nums[i] == x;
            assert(rows[i] < bound);
        }
    }
    vstd::set_lib::lemma_len_subset(nums.to_set(), all);
}

impl QwenTokenizer {
    /// The tables hold together: every id they hand out has a row in
    /// `id_to_bytes`, ids fit below the dropped mark, no added token is empty, and
    /// the remap, if any, fits the tables.
    pub open spec fn wf(&self) -> bool {
        &&& self.ids.wf()
        &&& self.pair_rank.wf()
        &&& self.id_to_bytes@.len() <= DROPPED
        &&& forall|k: Seq<u8>| #[trigger]
            self.ids@.contains_key(k) ==> self.ids@[k] < self.id_to_bytes@.len()
        &&& forall|a: int|
            0 <= a < self.added@.len() ==> (#[trigger] self.added@[a]).1 < self.id_to_bytes@.len()
                && self.added@[a].0@.len() > 0
        &&& self.remap matches Some(m) ==> m.wf(self.ids@, self.id_to_bytes@.len() as int)
    }

    /// A full id can be mapped: without a remap any, else one that has a row.
    pub open spec fn mappable(&self, full_id: u32) -> bool {
        self.remap is Some ==> full_id < self.id_to_bytes@.len()
    }

    /// Attaches a sliced-vocabulary remap; ids produced and consumed by this
    /// tokenizer then live in the sliced space. On an error nothing changes.
    pub fn attach_remap(&mut self, new_to_old: Vec<u32>, sliced_vocab: usize) -> (r: Result<
        (),
        RemapError,
    >)
        requires
            old(self).wf(),
        ensures
            final(self).wf(),
            final(self).ids == old(self).ids,
            final(self).pair_rank == old(self).pair_rank,
            final(self).id_to_bytes == old(self).id_to_bytes,
            final(self).added == old(self).added,
            r == (if new_to_old@.len() != sliced_vocab {
                Err::<(), RemapError>(RemapError::LengthMismatch)
            } else {
                match remap_fault(
                    old(self).ids@,
                    new_to_old@,
                    old(self).id_to_bytes@.len() as int,
                ) {
                    Some(e) => Err::<(), RemapError>(e),
                    None => Ok::<(), RemapError>(()),
                }
            }),
            r is Err ==> *final(self) == *old(self),
            r is Ok ==> final(self).model_vocab == sliced_vocab && final(self).remap is Some
                && final(self).remap->Some_0.new_to_old@ == new_to_old@,
    {
        if new_to_old.len() != sliced_vocab {
            return Err(RemapError::LengthMismatch);
        }
        match QwenVocabRemap::build(new_to_old, self) {
            Err(e) => Err(e),
            Ok(remap) => {
                self.model_vocab = sliced_vocab;
                self.remap = Some(remap);
                Ok(())
            },
        }
    }

    /// Full id `id` in the output space: its row, or the rows of its bytes where
    /// the slice dropped it.
    pub open spec fn mapped_one(&self, id: u32) -> Seq<u32> {
        match self.remap {
            None => seq![id],
            Some(m) => if m.new_to_old@.contains(id) {
                seq![m.new_to_old@.index_of(id) as u32]
            } else {
                Seq::new(
                    self.id_to_bytes@[id as int]@.len(),
                    |i: int| m.byte_new_ids@[self.id_to_bytes@[id as int]@[i] as int],
                )
            },
        }
    }

    /// Full ids in the output space.
    pub open spec fn mapped(&self, ids: Seq<u32>) -> Seq<u32>
        decreases ids.len(),
    {
        if ids.len() == 0 {
            Seq::empty()
        } else {
            self.mapped(ids.drop_last()) + self.mapped_one(ids.last())
        }
    }

    /// Translates full-vocabulary ids into the sliced space, expanding a dropped
    /// token into its kept single-byte tokens. Identity without a remap.
    pub fn map_out(&self, ids: Vec<u32>) -> (out: Vec<u32>)
        requires
            self.wf(),
            self.remap is Some ==> self.rows_hold(ids@),
        ensures
            out@ == self.mapped(ids@),
    {
        match &self.remap {
            None => {
                proof {
                    self.lemma_mapped_identity(ids@);
                }
                ids
            },
            Some(remap) => {
                let mut out: Vec<u32> = Vec::with_capacity(ids.len());
                for i in 0..ids.len()
                    invariant
                        self.wf(),
                        self.remap == Some(*remap),
                        self.rows_hold(ids@),
                        out@ == self.mapped(ids@.take(i as int)),
                {
                    let id: u32 = ids[i];
                    proof {
                        assert(ids@[i as int] < self.id_to_bytes@.len());
                        assert(ids@.take(i + 1).drop_last() =~= ids@.take(i as int));
                        assert(ids@.take(i + 1).last() == id);
                        if remap.new_to_old@.contains(id) {
                            let q = remap.new_to_old@.index_of(id);
                            assert(remap.new_to_old@[q] == id);
                        }
                    }
                    let row: u32 = remap.old_to_new[id as usize];
                    if row != DROPPED {
                        out.push(row);
                        proof {
                            assert(out@ =~= self.mapped(ids@.take(i as int)) + self.mapped_one(id));
                        }
                    } else {
                        let bytes: &Vec<u8> = &self.id_to_bytes[id as usize];
                        let ghost start = out@;
                        for p in 0..bytes.len()
                            invariant
                                remap.byte_new_ids@.len() == 256,
                                *bytes == self.id_to_bytes@[id as int],
                                self.remap == Some(*remap),
                                !remap.new_to_old@.contains(id),
                                out@ == start + self.mapped_one(id).take(p as int),
                        {
                            out.push(remap.byte_new_ids[bytes[p] as usize]);
                            proof {
                                assert(start + self.mapped_one(id).take(p + 1) =~= (start
                                    + self.mapped_one(id).take(p as int)).push(
                                    self.mapped_one(id)[p as int],
                                ));
                            }
                        }
                        proof {
                            assert(self.mapped_one(id).take(bytes@.len() as int)
                                =~= self.mapped_one(id));
                        }
                    }
                }
                proof {
                    assert(ids@.take(ids@.len() as int) =~= ids@);
                }
                out
            },
        }
    }

    proof fn lemma_mapped_identity(&self, ids: Seq<u32>)
        requires
            self.remap is None,
        ensures
            self.mapped(ids) == ids,
        decreases ids.len(),
    {
        if ids.len() > 0 {
            self.lemma_mapped_identity(ids.drop_last());
            assert(self.mapped(ids) =~= ids);
        }
    }

    /// Mapping distributes over joining.
    pub proof fn lemma_mapped_add(&self, a: Seq<u32>, b: Seq<u32>)
        ensures
            self.mapped(a + b) == self.mapped(a) + self.mapped(b),
        decreases b.len(),
    {
        if b.len() == 0 {
            assert(a + b =~= a);
            assert(self.mapped(a) + self.mapped(b) =~= self.mapped(a));
        } else {
            assert((a + b).drop_last() =~= a + b.drop_last());
            self.lemma_mapped_add(a, b.drop_last());
            assert(self.mapped(a + b) =~= self.mapped(a) + self.mapped(b));
        }
    }

    /// Full-vocabulary id of the single-byte token for `b`.
    pub fn single_byte_full_id(&self, b: u8) -> (id: Option<u32>)
        requires
            self.ids.wf(),
        ensures
            id == (if self.ids@.contains_key(seq![b]) {
                Some(self.ids@[seq![b]])
            } else {
                None::<u32>
            }),
    {
        let mut one: Vec<u8> = Vec::with_capacity(1);
        one.push(b);
        proof {
            assert(one@ =~= seq![b]);
        }
        self.ids.get(one.as_slice())
    }

    /// A special token's id in the output space: its row, or the dropped mark.
    pub open spec fn special_id(&self, full_id: u32) -> u32 {
        match self.remap {
            None => full_id,
            Some(m) => if m.new_to_old@.contains(full_id) {
                m.new_to_old@.index_of(full_id) as u32
            } else {
                DROPPED
            },
        }
    }

    /// A special token's id in the output space.
    fn special_out(&self, full_id: u32) -> (id: u32)
        requires
            self.wf(),
            self.mappable(full_id),
        ensures
            id == self.special_id(full_id),
    {
        match &self.remap {
            Some(remap) => remap.old_to_new[full_id as usize],
            None => full_id,
        }
    }

    /// Generation stop in chat mode, in the output space.
    pub fn stop_end_of_msg(&self) -> (id: u32)
        requires
            self.wf(),
            self.mappable(QWEN_IM_END),
        ensures
            id == self.special_id(QWEN_IM_END),
    {
        self.special_out(QWEN_IM_END)
    }

    /// Generation stop in raw completion mode, in the output space.
    pub fn stop_endoftext(&self) -> (id: u32)
        requires
            self.wf(),
            self.mappable(QWEN_ENDOFTEXT),
        ensures
            id == self.special_id(QWEN_ENDOFTEXT),
    {
        self.special_out(QWEN_ENDOFTEXT)
    }

    /// The ids of a piece whose tokens are all in the vocabulary.
    pub open spec fn bpe_ids(&self, bytes: Seq<u8>) -> Seq<u32> {
        Seq::new(
            bpe_tokens(self.pair_rank@, bytes).len(),
            |i: int| self.ids@[bpe_tokens(self.pair_rank@, bytes)[i]],
        )
    }

    /// Every token that a piece merges down to is in the vocabulary.
    pub open spec fn covers(&self, bytes: Seq<u8>) -> bool {
        in_vocabulary(self.ids@, bpe_tokens(self.pair_rank@, bytes))
    }

    /// The ids of a piece, unless one of its tokens is missing.
    fn try_bpe(&self, bytes: &[u8]) -> (ids: Option<Vec<u32>>)
        requires
            self.ids.wf(),
            self.pair_rank.wf(),
        ensures
            ids is Some <==> self.covers(bytes@),
            ids matches Some(v) ==> v@ == self.bpe_ids(bytes@),
    {
        let tokens: Vec<Vec<u8>> = merge_bytes(&self.pair_rank, bytes);
        let ghost word = bpe_tokens(self.pair_rank@, bytes@);
        let mut out: Vec<u32> = Vec::with_capacity(tokens.len());
        for i in 0..tokens.len()
            invariant
                self.ids.wf(),
                tokens_of(tokens@) == word,
                word == bpe_tokens(self.pair_rank@, bytes@),
                forall|j: int| 0 <= j < i ==> self.ids@.contains_key(#[trigger] word[j]),
                out@ == self.bpe_ids(bytes@).take(i as int),
        {
            proof {
                assert(word[i as int] == tokens@[i as int]@);
                assert(word.len() == tokens@.len());
            }
            match self.ids.get(tokens[i].as_slice()) {
                Some(id) => {
                    out.push(id);
                    proof {
                        assert(self.bpe_ids(bytes@).take(i + 1) =~= self.bpe_ids(bytes@).take(
                            i as int,
                        ).push(id));
                    }
                },
                None => {
                    return None;
                },
            }
        }
        proof {
            assert(word.len() == tokens@.len());
            assert(self.bpe_ids(bytes@).take(tokens@.len() as int) =~= self.bpe_ids(bytes@));
        }
        Some(out)
    }

    /// The ids of a piece.
    pub fn bpe(&self, bytes: &[u8]) -> (ids: Vec<u32>)
        requires
            self.ids.wf(),
            self.pair_rank.wf(),
            self.covers(bytes@),
        ensures
            ids@ == self.bpe_ids(bytes@),
    {
        match self.try_bpe(bytes) {
            Some(ids) => ids,
            None => Vec::new(),
        }
    }

    /// The ids of a list of pieces; `None` where a token is missing.
    pub open spec fn pieces_ids(&self, parts: Seq<Seq<char>>) -> Option<Seq<u32>>
        decreases parts.len(),
    {
        if parts.len() == 0 {
            Some(Seq::empty())
        } else {
            let bytes = encode_utf8(parts.last());
            joined(
                self.pieces_ids(parts.drop_last()),
                if self.covers(bytes) {
                    Some(self.bpe_ids(bytes))
                } else {
                    None
                },
            )
        }
    }

    /// The ids of a text without added tokens; `None` where a token is missing.
    pub open spec fn plain_ids(&self, text: Seq<char>) -> Option<Seq<u32>> {
        self.pieces_ids(pre_tokens(text))
    }

    proof fn lemma_pieces_none(&self, parts: Seq<Seq<char>>, n: int)
        requires
            0 <= n <= parts.len(),
            self.pieces_ids(parts.take(n)) is None,
        ensures
            self.pieces_ids(parts) is None,
        decreases parts.len() - n,
    {
        if n < parts.len() {
            assert(parts.take(n + 1).drop_last() =~= parts.take(n));
            self.lemma_pieces_none(parts, n + 1);
        } else {
            assert(parts.take(n) =~= parts);
        }
    }

    /// Appends the ids of a text without added tokens; tells whether every token
    /// was there.
    fn encode_plain(&self, text: &str, out: &mut Vec<u32>) -> (ok: bool)
        requires
            self.ids.wf(),
            self.pair_rank.wf(),
        ensures
            ok <==> self.plain_ids(text@) is Some,
            ok ==> final(out)@ == old(out)@ + self.plain_ids(text@)->Some_0,
    {
        let parts: Vec<String> = qwen_pre_tokenize(text);
        let ghost goal = pre_tokens(text@);
        let ghost start = out@;
        proof {
            assert(goal.take(0) =~= Seq::<Seq<char>>::empty());
            assert(start =~= start + Seq::<u32>::empty());
        }
        for i in 0..parts.len()
            invariant
                self.ids.wf(),
                self.pair_rank.wf(),
                goal == pre_tokens(text@),
                parts@.len() == goal.len(),
                forall|j: int| 0 <= j < parts@.len() ==> (#[trigger] parts@[j])@ == goal[j],
                self.pieces_ids(goal.take(i as int)) is Some,
                out@ == start + self.pieces_ids(goal.take(i as int))->Some_0,
        {
            proof {
                assert(goal.take(i + 1).drop_last() =~= goal.take(i as int));
                assert(goal.take(i + 1).last() == parts@[i as int]@);
            }
            match self.try_bpe(parts[i].as_str().as_bytes()) {
                Some(ids) => {
                    let mut ids = ids;
                    out.append(&mut ids);
                    proof {
                        assert(out@ =~= start + self.pieces_ids(goal.take(i + 1))->Some_0);
                    }
                },
                None => {
                    proof {
                        self.lemma_pieces_none(goal, i + 1);
                    }
                    return false;
                },
            }
        }
        proof {
            assert(goal.take(parts@.len() as int) =~= goal);
        }
        true
    }

    /// The first added token, from `a` on, whose content stands at `i`.
    pub open spec fn added_at(&self, text: Seq<char>, i: int, a: int) -> Option<int>
        decreases self.added@.len() - a,
    {
        if a < 0 || a >= self.added@.len() {
            None
        } else if stands_at(text, self.added@[a].0@, i) {
            Some(a)
        } else {
            self.added_at(text, i, a + 1)
        }
    }

    /// The full ids of a normalized text from position `i` on, where the plain
    /// text since `seg` is still to be encoded: an added token that stands at `i`
    /// ends the plain segment and is taken whole. `None` where a token is missing.
    pub open spec fn encoded_from(&self, text: Seq<char>, seg: int, i: int) -> Option<Seq<u32>>
        decreases text.len() - i,
    {
        if i < 0 || i >= text.len() {
            if seg < text.len() {
                self.plain_ids(text.skip(seg))
            } else {
                Some(Seq::empty())
            }
        } else {
            match self.added_at(text, i, 0) {
                Some(a) => {
                    let next = i + self.added@[a].0@.len();
                    let head = if seg < i {
                        self.plain_ids(text.subrange(seg, i))
                    } else {
                        Some(Seq::empty())
                    };
                    if !(i < next <= text.len()) {
                        None
                    } else {
                        joined(
                            joined(head, Some(seq![self.added@[a].1])),
                            self.encoded_from(text, next, next),
                        )
                    }
                },
                None => self.encoded_from(text, seg, i + 1),
            }
        }
    }

    /// The full ids of a text; `None` where a token is missing.
    pub open spec fn encoded_full(&self, text: Seq<char>) -> Option<Seq<u32>> {
        self.encoded_from(nfc(text), 0, 0)
    }

    /// The added token that is found stands there.
    pub proof fn lemma_added_match(&self, text: Seq<char>, i: int, a: int)
        requires
            0 <= a,
        ensures
            self.added_at(text, i, a) matches Some(b) ==> a <= b < self.added@.len() && stands_at(
                text,
                self.added@[b].0@,
                i,
            ),
        decreases self.added@.len() - a,
    {
        if a < self.added@.len() && !stands_at(text, self.added@[a].0@, i) {
            self.lemma_added_match(text, i, a + 1);
        }
    }

    /// Appends the full ids of an already normalized text; tells whether every
    /// token was there.
    pub fn push_normalized(&self, text: &[char], out: &mut Vec<u32>) -> (ok: bool)
        requires
            self.wf(),
        ensures
            ok <==> self.encoded_from(text@, 0, 0) is Some,
            ok ==> final(out)@ == old(out)@ + self.encoded_from(text@, 0, 0)->Some_0,
    {
        let ghost t = text@;
        let ghost goal = self.encoded_from(t, 0, 0);
        let ghost start = out@;
        let mut contents: Vec<Vec<char>> = Vec::with_capacity(self.added.len());
        for a in 0..self.added.len()
            invariant
                contents@.len() == a,
                forall|b: int| 0 <= b < a ==> (#[trigger] contents@[b])@ == self.added@[b].0@,
        {
            let content = chars_of(self.added[a].0.as_str());
            contents.push(content);
        }
        let n: usize = text.len();
        let mut seg: usize = 0;
        let mut i: usize = 0;
        let ghost mut done: Seq<u32> = Seq::empty();
        proof {
            assert(start =~= start + done);
            if goal is Some {
                assert(goal->Some_0 =~= done + goal->Some_0);
            }
        }
        while i < n
            invariant
                self.wf(),
                t == text@,
                n == t.len(),
                seg <= i <= n,
                goal == self.encoded_from(t, 0, 0),
                contents@.len() == self.added@.len(),
                forall|b: int|
                    0 <= b < contents@.len() ==> (#[trigger] contents@[b])@ == self.added@[b].0@,
                out@ == start + done,
                goal == joined(Some(done), self.encoded_from(t, seg as int, i as int)),
            decreases n - i,
        {
            let mut a: usize = 0;
            while a < contents.len() && !matches_at(text, contents[a].as_slice(), i)
                invariant
                    t == text@,
                    n == t.len(),
                    i < n,
                    a <= contents@.len(),
                    contents@.len() == self.added@.len(),
                    forall|b: int|
                        0 <= b < contents@.len() ==> (#[trigger] contents@[b])@
                            == self.added@[b].0@,
                    self.added_at(t, i as int, 0) == self.added_at(t, i as int, a as int),
                decreases contents@.len() - a,
            {
                a += 1;
            }
            let ghost rest = self.encoded_from(t, seg as int, i as int);
            if a < contents.len() {
                proof {
                    assert(stands_at(t, self.added@[a as int].0@, i as int));
                    assert(contents@[a as int]@ == self.added@[a as int].0@);
                }
                let ghost next = i + contents@[a as int]@.len();
                let ghost tail = self.encoded_from(t, next, next);
                let ghost head: Option<Seq<u32>> = if seg < i {
                    self.plain_ids(t.subrange(seg as int, i as int))
                } else {
                    Some(Seq::empty())
                };
                proof {
                    assert(self.added_at(t, i as int, a as int) == Some(a as int));
                    assert(rest == joined(joined(head, Some(seq![self.added@[a as int].1])), tail));
                }
                if seg < i {
                    let part: Vec<char> = sub_chars(text, seg, i);
                    let piece: String = text_of(part.as_slice());
                    if !self.encode_plain(piece.as_str(), out) {
                        return false;
                    }
                }
                let id: u32 = self.added[a].1;
                proof {
                    assert(head is Some);
                    assert(out@ =~= start + (done + head->Some_0));
                    let more = (done + head->Some_0).push(id);
                    assert(joined(Some(done), rest) == joined(Some(more), tail)) by {
                        if tail is Some {
                            let x = tail->Some_0;
                            assert(done + ((head->Some_0 + seq![id]) + x) =~= more + x);
                        }
                    }
                    done = more;
                }
                out.push(id);
                proof {
                    assert(out@ =~= start + done);
                }
                i += contents[a].len();
                seg = i;
            } else {
                i += 1;
            }
        }
        if seg < n {
            let part: Vec<char> = sub_chars(text, seg, n);
            let piece: String = text_of(part.as_slice());
            proof {
                assert(t.subrange(seg as int, n as int) =~= t.skip(seg as int));
            }
            if !self.encode_plain(piece.as_str(), out) {
                return false;
            }
            proof {
                assert(out@ =~= start + goal->Some_0);
            }
        } else {
            proof {
                assert(done + Seq::<u32>::empty() =~= done);
            }
        }
        true
    }

    /// Appends the full ids of a text; tells whether every token was there.
    pub(crate) fn push_full(&self, text: &str, out: &mut Vec<u32>) -> (ok: bool)
        requires
            self.wf(),
        ensures
            ok <==> self.encoded_full(text@) is Some,
            ok ==> final(out)@ == old(out)@ + self.encoded_full(text@)->Some_0,
    {
        let normalized: String = normalize_nfc(text);
        let chars: Vec<char> = chars_of(normalized.as_str());
        self.push_normalized(chars.as_slice(), out)
    }

    proof fn lemma_plain_ids_bounded(&self, parts: Seq<Seq<char>>)
        requires
            self.wf(),
        ensures
            self.pieces_ids(parts) matches Some(ids) ==> self.rows_hold(ids),
        decreases parts.len(),
    {
        if parts.len() > 0 {
            self.lemma_plain_ids_bounded(parts.drop_last());
            let bytes = encode_utf8(parts.last());
            if self.covers(bytes) {
                let word = bpe_tokens(self.pair_rank@, bytes);
                let more = self.bpe_ids(bytes);
                assert forall|i: int| 0 <= i < more.len() implies #[trigger] more[i]
                    < self.id_to_bytes@.len() by {
                    assert(self.ids@.contains_key(word[i]));
                }
            }
        }
    }

    /// Every id has a row in `id_to_bytes`.
    pub open spec fn rows_hold(&self, ids: Seq<u32>) -> bool {
        forall|i: int| 0 <= i < ids.len() ==> #[trigger] ids[i] < self.id_to_bytes@.len()
    }

    /// Every id that encoding hands out has a row.
    pub proof fn lemma_encoded_bounded(&self, text: Seq<char>, seg: int, i: int)
        requires
            self.wf(),
            0 <= seg <= i,
        ensures
            self.encoded_from(text, seg, i) matches Some(ids) ==> self.rows_hold(ids),
        decreases text.len() - i,
    {
        if i >= text.len() {
            self.lemma_plain_ids_bounded(pre_tokens(text.skip(seg)));
        } else {
            match self.added_at(text, i, 0) {
                Some(a) => {
                    self.lemma_added_match(text, i, 0);
                    let next = i + self.added@[a].0@.len();
                    assert(self.added@[a].1 < self.id_to_bytes@.len());
                    self.lemma_plain_ids_bounded(pre_tokens(text.subrange(seg, i)));
                    self.lemma_encoded_bounded(text, next, next);
                },
                None => {
                    self.lemma_encoded_bounded(text, seg, i + 1);
                },
            }
        }
    }

    /// Encodes a text into the tokenizer's output space.
    pub fn encode(&self, text: &str) -> (r: Result<Vec<u32>, MissingToken>)
        requires
            self.wf(),
        ensures
            r is Ok <==> self.encoded_full(text@) is Some,
            r matches Ok(ids) ==> ids@ == self.mapped(self.encoded_full(text@)->Some_0),
    {
        let mut ids: Vec<u32> = Vec::new();
        if !self.push_full(text, &mut ids) {
            return Err(MissingToken);
        }
        proof {
            self.lemma_encoded_bounded(nfc(text@), 0, 0);
            assert(ids@ =~= self.encoded_full(text@)->Some_0);
        }
        Ok(self.map_out(ids))
    }

    /// The full id that an id of the output space stands for.
    pub open spec fn full_id(&self, id: u32) -> u32 {
        match self.remap {
            Some(m) => if id < m.new_to_old@.len() {
                m.new_to_old@[id as int]
            } else {
                id
            },
            None => id,
        }
    }

    fn full_id_of(&self, id: u32) -> (full: u32)
        ensures
            full == self.full_id(id),
    {
        match &self.remap {
            Some(remap) => if (id as usize) < remap.new_to_old.len() {
                remap.new_to_old[id as usize]
            } else {
                id
            },
            None => id,
        }
    }

    /// The bytes of one id of the output space: none where it has no row.
    pub open spec fn id_bytes(&self, id: u32) -> Seq<u8> {
        if self.full_id(id) < self.id_to_bytes@.len() {
            self.id_to_bytes@[self.full_id(id) as int]@
        } else {
            Seq::empty()
        }
    }

    /// The bytes of a list of ids of the output space.
    pub open spec fn ids_bytes(&self, ids: Seq<u32>) -> Seq<u8>
        decreases ids.len(),
    {
        if ids.len() == 0 {
            Seq::empty()
        } else {
            self.ids_bytes(ids.drop_last()) + self.id_bytes(ids.last())
        }
    }

    /// The text of one id; a placeholder with the full id where it has no bytes.
    pub fn decode_id(&self, id: u32) -> (text: String)
        ensures
            text@ == (if self.id_bytes(id).len() > 0 {
                lossy(self.id_bytes(id))
            } else {
                "<|qwen_unused_"@ + crate::text::decimal(self.full_id(id) as nat) + "|>"@
            }),
            vstd::utf8::valid_utf8(self.id_bytes(id)) && self.id_bytes(id).len() > 0
                ==> encode_utf8(text@) == self.id_bytes(id),
    {
        let full: u32 = self.full_id_of(id);
        if (full as usize) < self.id_to_bytes.len() && self.id_to_bytes[full as usize].len() > 0 {
            return utf8_lossy(self.id_to_bytes[full as usize].as_slice());
        }
        let mut text = String::new();
        push_text(&mut text, "<|qwen_unused_");
        push_decimal(&mut text, full as u64);
        push_text(&mut text, "|>");
        proof {
            assert(Seq::<char>::empty() + "<|qwen_unused_"@ =~= "<|qwen_unused_"@);
        }
        text
    }

    /// Raw decoded bytes: streaming callers buffer these and flush only complete
    /// UTF-8 prefixes.
    pub fn decode_bytes(&self, ids: &[u32]) -> (bytes: Vec<u8>)
        ensures
            bytes@ == self.ids_bytes(ids@),
    {
        let mut bytes: Vec<u8> = Vec::new();
        for i in 0..ids.len()
            invariant
                bytes@ == self.ids_bytes(ids@.take(i as int)),
        {
            proof {
                assert(ids@.take(i + 1).drop_last() =~= ids@.take(i as int));
            }
            let full: u32 = self.full_id_of(ids[i]);
            if (full as usize) < self.id_to_bytes.len() {
                let mut more: Vec<u8> = copy_bytes(self.id_to_bytes[full as usize].as_slice());
                bytes.append(&mut more);
            }
            proof {
                assert(bytes@ =~= self.ids_bytes(ids@.take(i + 1)));
            }
        }
        proof {
            assert(ids@.take(ids@.len() as int) =~= ids@);
        }
        bytes
    }

    /// Decodes ids of the output space, with U+FFFD for what is not UTF-8.
    pub fn decode(&self, ids: &[u32]) -> (text: String)
        ensures
            text@ == lossy(self.ids_bytes(ids@)),
            vstd::utf8::valid_utf8(self.ids_bytes(ids@)) ==> encode_utf8(text@) == self.ids_bytes(
                ids@,
            ),
    {
        let bytes: Vec<u8> = self.decode_bytes(ids);
        utf8_lossy(bytes.as_slice())
    }

    /// Rows of the model's vocabulary.
    pub fn vocab_size(&self) -> (n: usize)
        ensures
            n == self.model_vocab,
    {
        self.model_vocab
    }
}

/// Two partial results joined: missing where either is.
pub open spec fn joined(a: Option<Seq<u32>>, b: Option<Seq<u32>>) -> Option<Seq<u32>> {
    match (a, b) {
        (Some(x), Some(y)) => Some(x + y),
        _ => None,
    }
}

} // verus!
