//! What encoding and decoding promise together.

use crate::bpe::bpe_tokens;
use crate::bpe::law_tokens_cover_piece;
use crate::pretokenize::concat;
use crate::pretokenize::law_pieces_cover_text;
use crate::pretokenize::lemma_concat_push;
use crate::pretokenize::pre_tokens;
use crate::qwentok::byte_fault;
use crate::qwentok::byte_kept;
use crate::qwentok::remap_fault;
use crate::qwentok::table_fault;
use crate::qwentok::QwenTokenizer;
use crate::text::stands_at;
use crate::unicode::nfc;
use vstd::prelude::*;
use vstd::utf8::encode_utf8;

verus! {

/// UTF-8 encodes character by character.
pub proof fn lemma_encode_utf8_add(a: Seq<char>, b: Seq<char>)
    ensures
        encode_utf8(a + b) == encode_utf8(a) + encode_utf8(b),
    decreases a.len(),
{
    if a.len() == 0 {
        assert(a + b =~= b);
        assert(encode_utf8(a) + encode_utf8(b) =~= encode_utf8(b));
    } else {
        assert((a + b).drop_first() =~= a.drop_first() + b);
        lemma_encode_utf8_add(a.drop_first(), b);
        assert(encode_utf8(a + b) =~= encode_utf8(a) + encode_utf8(b));
    }
}

/// The last of a non-empty list of parts ends their concatenation.
proof fn lemma_concat_last<A>(parts: Seq<Seq<A>>)
    requires
        parts.len() > 0,
    ensures
        concat(parts) == concat(parts.drop_last()) + parts.last(),
{
    assert(parts.drop_last().push(parts.last()) =~= parts);
    lemma_concat_push(parts.drop_last(), parts.last());
}

impl QwenTokenizer {
    /// The bytes of full-vocabulary ids.
    pub open spec fn full_bytes(&self, ids: Seq<u32>) -> Seq<u8>
        decreases ids.len(),
    {
        if ids.len() == 0 {
            Seq::empty()
        } else {
            self.full_bytes(ids.drop_last()) + self.id_to_bytes@[ids.last() as int]@
        }
    }

    /// The tables invert each other: a token's id leads back to its bytes, and an
    /// added token's id to the UTF-8 of its content.
    pub open spec fn consistent(&self) -> bool {
        &&& forall|k: Seq<u8>| #[trigger]
            self.ids@.contains_key(k) ==> self.id_to_bytes@[self.ids@[k] as int]@ == k
        &&& forall|a: int|
            0 <= a < self.added@.len() ==> self.id_to_bytes@[(#[trigger] self.added@[a]).1 as int]@
                == encode_utf8(self.added@[a].0@)
    }

    /// The bytes of two lists of full ids, one behind the other.
    pub proof fn lemma_full_bytes_add(&self, a: Seq<u32>, b: Seq<u32>)
        ensures
            self.full_bytes(a + b) == self.full_bytes(a) + self.full_bytes(b),
        decreases b.len(),
    {
        if b.len() == 0 {
            assert(a + b =~= a);
            assert(self.full_bytes(a) + self.full_bytes(b) =~= self.full_bytes(a));
        } else {
            assert((a + b).drop_last() =~= a + b.drop_last());
            self.lemma_full_bytes_add(a, b.drop_last());
            assert(self.full_bytes(a + b) =~= self.full_bytes(a) + self.full_bytes(b));
        }
    }

    /// Raw bytes are additive: the bytes of two lists of ids, one behind the other, are the
    /// bytes of the one and then those of the other.
    pub proof fn law_decoded_bytes_add(&self, a: Seq<u32>, b: Seq<u32>)
        ensures
            self.ids_bytes(a + b) == self.ids_bytes(a) + self.ids_bytes(b),
        decreases b.len(),
    {
        if b.len() == 0 {
            assert(a + b =~= a);
            assert(self.ids_bytes(a) + self.ids_bytes(b) =~= self.ids_bytes(a));
        } else {
            assert((a + b).drop_last() =~= a + b.drop_last());
            self.law_decoded_bytes_add(a, b.drop_last());
            assert(self.ids_bytes(a + b) =~= self.ids_bytes(a) + self.ids_bytes(b));
        }
    }

    /// The kept byte tokens of a byte string decode to it.
    proof fn lemma_byte_rows_decode(&self, bytes: Seq<u8>)
        requires
            self.wf(),
            self.consistent(),
            self.remap is Some,
        ensures
            self.ids_bytes(
                Seq::new(
                    bytes.len(),
                    |i: int| self.remap->Some_0.byte_new_ids@[bytes[i] as int],
                ),
            ) == bytes,
        decreases bytes.len(),
    {
        let m = self.remap->Some_0;
        let rows = Seq::new(bytes.len(), |i: int| m.byte_new_ids@[bytes[i] as int]);
        if bytes.len() > 0 {
            let head = bytes.drop_last();
            let b = bytes.last();
            assert(rows.drop_last() =~= Seq::new(
                head.len(),
                |i: int| m.byte_new_ids@[head[i] as int],
            ));
            self.lemma_byte_rows_decode(head);
            assert(byte_kept(self.ids@, m.new_to_old@, m.byte_new_ids@, b));
            assert(self.full_id(rows.last()) == self.ids@[seq![b]]);
            assert(self.ids@.contains_key(seq![b]));
            assert(self.id_bytes(rows.last()) == seq![b]);
            assert(self.ids_bytes(rows) =~= bytes);
        } else {
            assert(self.ids_bytes(rows) =~= bytes);
        }
    }

    proof fn lemma_one_id_bytes(&self, id: u32)
        ensures
            self.ids_bytes(seq![id]) == self.id_bytes(id),
    {
        assert(seq![id].drop_last() =~= Seq::<u32>::empty());
        assert(self.ids_bytes(seq![id].drop_last()) =~= Seq::<u8>::empty());
        assert(self.ids_bytes(seq![id]) =~= self.id_bytes(id));
    }

    proof fn lemma_mapped_one_bytes(&self, id: u32)
        requires
            self.wf(),
            self.consistent(),
            id < self.id_to_bytes@.len(),
        ensures
            self.ids_bytes(self.mapped_one(id)) == self.id_to_bytes@[id as int]@,
    {
        let bytes = self.id_to_bytes@[id as int]@;
        let out = self.mapped_one(id);
        match self.remap {
            None => {
                self.lemma_one_id_bytes(id);
            },
            Some(m) => {
                if m.new_to_old@.contains(id) {
                    let q = m.new_to_old@.index_of(id);
                    assert(m.new_to_old@[q] == id);
                    self.lemma_one_id_bytes(q as u32);
                    assert(self.full_id(q as u32) == id);
                } else {
                    self.lemma_byte_rows_decode(bytes);
                    assert(out =~= Seq::new(
                        bytes.len(),
                        |i: int| m.byte_new_ids@[bytes[i] as int],
                    ));
                }
            },
        }
    }

    /// Slicing the vocabulary loses no byte: whatever the remap drops decodes to the
    /// same bytes through the byte tokens it falls back to.
    pub proof fn law_remap_keeps_bytes(&self, ids: Seq<u32>)
        requires
            self.wf(),
            self.consistent(),
            self.rows_hold(ids),
        ensures
            self.ids_bytes(self.mapped(ids)) == self.full_bytes(ids),
        decreases ids.len(),
    {
        if ids.len() > 0 {
            let head = ids.drop_last();
            assert(self.rows_hold(head)) by {
                assert forall|i: int| 0 <= i < head.len() implies #[trigger] head[i]
                    < self.id_to_bytes@.len() by {
                    assert(head[i] == ids[i]);
                }
            }
            self.law_remap_keeps_bytes(head);
            assert(ids[ids.len() - 1] < self.id_to_bytes@.len());
            self.lemma_mapped_one_bytes(ids.last());
            self.law_decoded_bytes_add(self.mapped(head), self.mapped_one(ids.last()));
        }
    }

    proof fn lemma_bpe_bytes_upto(&self, bytes: Seq<u8>, n: int)
        requires
            self.consistent(),
            self.covers(bytes),
            0 <= n <= bpe_tokens(self.pair_rank@, bytes).len(),
        ensures
            self.full_bytes(self.bpe_ids(bytes).take(n)) == concat(
                bpe_tokens(self.pair_rank@, bytes).take(n),
            ),
        decreases n,
    {
        let word = bpe_tokens(self.pair_rank@, bytes);
        let ids = self.bpe_ids(bytes);
        if n > 0 {
            self.lemma_bpe_bytes_upto(bytes, n - 1);
            assert(ids.take(n).drop_last() =~= ids.take(n - 1));
            assert(word.take(n).drop_last() =~= word.take(n - 1));
            lemma_concat_last(word.take(n));
            assert(self.ids@.contains_key(word[n - 1]));
            assert(ids.take(n).last() == self.ids@[word[n - 1]]);
        } else {
            assert(ids.take(0) =~= Seq::<u32>::empty());
            assert(word.take(0) =~= Seq::<Seq<u8>>::empty());
        }
    }

    /// The tokens of a piece decode to the piece.
    proof fn lemma_bpe_bytes(&self, bytes: Seq<u8>)
        requires
            self.consistent(),
            self.covers(bytes),
        ensures
            self.full_bytes(self.bpe_ids(bytes)) == bytes,
    {
        let word = bpe_tokens(self.pair_rank@, bytes);
        let ids = self.bpe_ids(bytes);
        self.lemma_bpe_bytes_upto(bytes, word.len() as int);
        assert(ids.take(word.len() as int) =~= ids);
        assert(word.take(word.len() as int) =~= word);
        law_tokens_cover_piece(self.pair_rank@, bytes);
    }

    proof fn lemma_pieces_bytes(&self, parts: Seq<Seq<char>>)
        requires
            self.consistent(),
        ensures
            self.pieces_ids(parts) matches Some(ids) ==> self.full_bytes(ids) == encode_utf8(
                concat(parts),
            ),
        decreases parts.len(),
    {
        if parts.len() > 0 {
            self.lemma_pieces_bytes(parts.drop_last());
            let bytes = encode_utf8(parts.last());
            if self.pieces_ids(parts) is Some {
                let head = self.pieces_ids(parts.drop_last())->Some_0;
                self.lemma_bpe_bytes(bytes);
                self.lemma_full_bytes_add(head, self.bpe_ids(bytes));
                lemma_concat_last(parts);
                lemma_encode_utf8_add(concat(parts.drop_last()), parts.last());
            }
        }
    }

    proof fn lemma_encoded_bytes(&self, text: Seq<char>, seg: int, i: int)
        requires
            self.consistent(),
            0 <= seg <= i <= text.len(),
        ensures
            self.encoded_from(text, seg, i) matches Some(ids) ==> self.full_bytes(ids)
                == encode_utf8(text.skip(seg)),
        decreases text.len() - i,
    {
        if i >= text.len() {
            if seg < text.len() {
                law_pieces_cover_text(text.skip(seg));
                self.lemma_pieces_bytes(pre_tokens(text.skip(seg)));
            } else {
                assert(text.skip(seg) =~= Seq::<char>::empty());
            }
        } else {
            match self.added_at(text, i, 0) {
                Some(a) => {
                    self.lemma_added_match(text, i, 0);
                    let content = self.added@[a].0@;
                    let next = i + content.len();
                    if self.encoded_from(text, seg, i) is Some {
                        self.lemma_encoded_bytes(text, next, next);
                        let plain = text.subrange(seg, i);
                        let head = if seg < i {
                            self.plain_ids(plain)->Some_0
                        } else {
                            Seq::empty()
                        };
                        if seg < i {
                            law_pieces_cover_text(plain);
                            self.lemma_pieces_bytes(pre_tokens(plain));
                        } else {
                            assert(plain =~= Seq::<char>::empty());
                        }
                        assert(self.full_bytes(head) == encode_utf8(plain));
                        let one = seq![self.added@[a].1];
                        assert(one.drop_last() =~= Seq::<u32>::empty());
                        assert(self.full_bytes(one.drop_last()) =~= Seq::<u8>::empty());
                        assert(self.full_bytes(one) =~= encode_utf8(content));
                        let tail = self.encoded_from(text, next, next)->Some_0;
                        self.lemma_full_bytes_add(head, one);
                        self.lemma_full_bytes_add(head + one, tail);
                        lemma_encode_utf8_add(plain, content);
                        lemma_encode_utf8_add(plain + content, text.skip(next));
                        assert(text.subrange(i, next) == content);
                        assert(text.skip(seg) =~= (plain + text.subrange(i, next)) + text.skip(
                            next,
                        ));
                    }
                },
                None => {
                    self.lemma_encoded_bytes(text, seg, i + 1);
                },
            }
        }
    }

    /// The full ids of a text have the bytes of its normalization.
    pub proof fn lemma_text_bytes(&self, text: Seq<char>)
        requires
            self.consistent(),
        ensures
            self.encoded_full(text) matches Some(ids) ==> self.full_bytes(ids) == encode_utf8(
                nfc(text),
            ),
    {
        let t = nfc(text);
        self.lemma_encoded_bytes(t, 0, 0);
        assert(t.skip(0) =~= t);
    }

    /// Encoding and decoding undo each other on normalized text: the ids of a text,
    /// in the output space, decode to the UTF-8 bytes of its normalization.
    pub proof fn law_decode_inverts_encode(&self, text: Seq<char>)
        requires
            self.wf(),
            self.consistent(),
            self.encoded_full(text) is Some,
        ensures
            self.ids_bytes(self.mapped(self.encoded_full(text)->Some_0)) == encode_utf8(nfc(text)),
            vstd::utf8::valid_utf8(self.ids_bytes(self.mapped(self.encoded_full(text)->Some_0))),
    {
        let t = nfc(text);
        let ids = self.encoded_full(text)->Some_0;
        self.lemma_encoded_bytes(t, 0, 0);
        assert(t.skip(0) =~= t);
        self.lemma_encoded_bounded(t, 0, 0);
        self.law_remap_keeps_bytes(ids);
        vstd::utf8::encode_utf8_valid_utf8(t);
    }

    /// A closed vocabulary encodes every text whose added tokens are all non-empty.
    pub proof fn law_closed_vocabulary_encodes(&self, text: Seq<char>)
        requires
            self.wf(),
            crate::bpe::closed_vocabulary(self.ids@, self.pair_rank@),
        ensures
            self.encoded_full(text) is Some,
    {
        self.lemma_closed_encodes(nfc(text), 0, 0);
    }

    proof fn lemma_closed_pieces(&self, parts: Seq<Seq<char>>)
        requires
            crate::bpe::closed_vocabulary(self.ids@, self.pair_rank@),
        ensures
            self.pieces_ids(parts) is Some,
        decreases parts.len(),
    {
        if parts.len() > 0 {
            self.lemma_closed_pieces(parts.drop_last());
            crate::bpe::law_closed_vocabulary_covers(
                self.ids@,
                self.pair_rank@,
                encode_utf8(parts.last()),
            );
        }
    }

    proof fn lemma_closed_encodes(&self, text: Seq<char>, seg: int, i: int)
        requires
            self.wf(),
            crate::bpe::closed_vocabulary(self.ids@, self.pair_rank@),
            0 <= seg <= i <= text.len(),
        ensures
            self.encoded_from(text, seg, i) is Some,
        decreases text.len() - i,
    {
        if i >= text.len() {
            self.lemma_closed_pieces(pre_tokens(text.skip(seg)));
        } else {
            match self.added_at(text, i, 0) {
                Some(a) => {
                    self.lemma_added_match(text, i, 0);
                    let next = i + self.added@[a].0@.len();
                    self.lemma_closed_pieces(pre_tokens(text.subrange(seg, i)));
                    self.lemma_closed_encodes(text, next, next);
                },
                None => {
                    self.lemma_closed_encodes(text, seg, i + 1);
                },
            }
        }
    }
}

/// A stretch of a text: an added token, by its number, or plain text.
pub ghost struct Stretch {
    pub from: int,
    pub to: int,
    pub added: Option<int>,
}

impl QwenTokenizer {
    /// The ids of a piece: each token that it merges down to is looked up in the vocabulary.
    pub open spec fn looks_up(&self, piece: Seq<char>, part: Seq<u32>) -> bool {
        let word = bpe_tokens(self.pair_rank@, encode_utf8(piece));
        &&& part.len() == word.len()
        &&& forall|i: int|
            0 <= i < word.len() ==> self.ids@.contains_key(#[trigger] word[i]) && part[i]
                == self.ids@[word[i]]
    }

    proof fn lemma_pieces_looked_up(&self, pieces: Seq<Seq<char>>) -> (parts: Seq<Seq<u32>>)
        requires
            self.pieces_ids(pieces) is Some,
        ensures
            self.pieces_ids(pieces) == Some(concat(parts)),
            parts.len() == pieces.len(),
            forall|k: int| 0 <= k < parts.len() ==> #[trigger] self.looks_up(pieces[k], parts[k]),
        decreases pieces.len(),
    {
        if pieces.len() == 0 {
            Seq::empty()
        } else {
            let front = self.lemma_pieces_looked_up(pieces.drop_last());
            let last = self.bpe_ids(encode_utf8(pieces.last()));
            let parts = front.push(last);
            lemma_concat_push(front, last);
            assert(self.looks_up(pieces.last(), last));
            assert forall|k: int| 0 <= k < parts.len() implies #[trigger] self.looks_up(
                pieces[k],
                parts[k],
            ) by {
                if k < front.len() {
                    assert(self.looks_up(pieces.drop_last()[k], front[k]));
                }
            }
            parts
        }
    }

    /// Plain text is encoded piece by piece: its ids are those of its pieces in order, and
    /// those of a piece are the vocabulary's for the tokens that the piece merges down to.
    pub proof fn law_plain_text_is_looked_up(&self, text: Seq<char>) -> (parts: Seq<Seq<u32>>)
        requires
            self.plain_ids(text) is Some,
        ensures
            self.plain_ids(text)->Some_0 == concat(parts),
            parts.len() == pre_tokens(text).len(),
            forall|k: int|
                0 <= k < parts.len() ==> #[trigger] self.looks_up(pre_tokens(text)[k], parts[k]),
    {
        self.lemma_pieces_looked_up(pre_tokens(text))
    }

    /// An added token stands at a place of a text.
    pub open spec fn added_stands(&self, text: Seq<char>, i: int, a: int) -> bool {
        &&& 0 <= a < self.added@.len()
        &&& 0 <= i
        &&& i + self.added@[a].0@.len() <= text.len()
        &&& text.subrange(i, i + self.added@[a].0@.len()) == self.added@[a].0@
    }

    /// A stretch is what the text holds there: an added token that stands whole, the first
    /// of the list that does, or a plain run in which none begins.
    pub open spec fn is_stretch(&self, text: Seq<char>, s: Stretch) -> bool {
        &&& 0 <= s.from < s.to <= text.len()
        &&& match s.added {
            Some(a) => {
                &&& self.added_stands(text, s.from, a)
                &&& s.to == s.from + self.added@[a].0@.len()
                &&& forall|b: int| 0 <= b < a ==> !#[trigger] self.added_stands(text, s.from, b)
            },
            None => forall|i: int, b: int|
                s.from <= i < s.to ==> !#[trigger] self.added_stands(text, i, b),
        }
    }

    /// The ids of a stretch: the one of the added token, or those of the plain run.
    pub open spec fn stretch_ids(&self, text: Seq<char>, s: Stretch) -> Option<Seq<u32>> {
        match s.added {
            Some(a) => Some(seq![self.added@[a].1]),
            None => self.plain_ids(text.subrange(s.from, s.to)),
        }
    }

    /// Stretches that follow one another from `from` to the end of a text; no two plain
    /// runs touch.
    pub open spec fn stretches_cover(
        &self,
        text: Seq<char>,
        from: int,
        stretches: Seq<Stretch>,
        parts: Seq<Seq<u32>>,
    ) -> bool {
        &&& parts.len() == stretches.len()
        &&& if stretches.len() == 0 {
            from == text.len()
        } else {
            stretches[0].from == from && stretches.last().to == text.len()
        }
        &&& forall|k: int|
            0 <= k < stretches.len() ==> self.is_stretch(text, #[trigger] stretches[k])
                && self.stretch_ids(text, stretches[k]) == Some(parts[k])
        &&& forall|k: int, m: int|
            0 <= k && m == k + 1 && m < stretches.len() ==> (#[trigger] stretches[m]).from == (
            #[trigger] stretches[k]).to && (stretches[k].added is Some || stretches[m].added is Some)
    }

    /// No added token stands at a place where none is found.
    proof fn lemma_none_stands(&self, text: Seq<char>, i: int, a: int, b: int)
        requires
            0 <= a,
            0 <= i,
        ensures
            self.added_at(text, i, a) is None && a <= b ==> !self.added_stands(text, i, b),
            self.added_at(text, i, a) is Some && a <= b < self.added_at(text, i, a)->Some_0
                ==> !self.added_stands(text, i, b),
        decreases self.added@.len() - a,
    {
        if a < self.added@.len() && !stands_at(text, self.added@[a].0@, i) {
            self.lemma_none_stands(text, i, a + 1, b);
        }
    }

    proof fn lemma_stretches(&self, text: Seq<char>, seg: int, i: int) -> (r: (
        Seq<Stretch>,
        Seq<Seq<u32>>,
    ))
        requires
            0 <= seg <= i <= text.len(),
            self.encoded_from(text, seg, i) is Some,
            forall|k: int, b: int| seg <= k < i ==> !#[trigger] self.added_stands(text, k, b),
        ensures
            self.stretches_cover(text, seg, r.0, r.1),
            self.encoded_from(text, seg, i) == Some(concat(r.1)),
        decreases text.len() - i,
    {
        if i >= text.len() {
            if seg < text.len() {
                let s = Stretch { from: seg, to: text.len() as int, added: None };
                assert(text.subrange(seg, text.len() as int) =~= text.skip(seg));
                let ids = self.plain_ids(text.skip(seg))->Some_0;
                lemma_concat_one(ids);
                (seq![s], seq![ids])
            } else {
                (Seq::empty(), Seq::empty())
            }
        } else {
            match self.added_at(text, i, 0) {
                Some(a) => {
                    self.lemma_added_match(text, i, 0);
                    let next = i + self.added@[a].0@.len();
                    let (after, rest) = self.lemma_stretches(text, next, next);
                    let token = Stretch { from: i, to: next, added: Some(a) };
                    assert forall|b: int| 0 <= b < a implies !#[trigger] self.added_stands(
                        text,
                        i,
                        b,
                    ) by {
                        self.lemma_none_stands(text, i, 0, b);
                    }
                    assert(self.is_stretch(text, token));
                    let one = seq![self.added@[a].1];
                    let tail = seq![one] + rest;
                    let stretches = seq![token] + after;
                    assert(tail.skip(1) =~= rest);
                    assert(concat(tail) == one + concat(rest));
                    assert(self.stretches_cover(text, i, stretches, tail));
                    if seg < i {
                        let head = self.plain_ids(text.subrange(seg, i))->Some_0;
                        let plain = Stretch { from: seg, to: i, added: None };
                        let all = seq![plain] + stretches;
                        let ids = seq![head] + tail;
                        assert(ids.skip(1) =~= tail);
                        assert(concat(ids) == head + concat(tail));
                        assert(self.stretches_cover(text, seg, all, ids));
                        assert((head + one) + concat(rest) =~= head + (one + concat(rest)));
                        (all, ids)
                    } else {
                        assert(Seq::<u32>::empty() + one =~= one);
                        (stretches, tail)
                    }
                },
                None => {
                    assert forall|k: int, b: int| seg <= k < i + 1 implies !#[trigger] self.added_stands(
                        text,
                        k,
                        b,
                    ) by {
                        if k == i && b >= 0 {
                            self.lemma_none_stands(text, i, 0, b);
                        }
                    }
                    self.lemma_stretches(text, seg, i + 1)
                },
            }
        }
    }

    /// A text is encoded stretch by stretch: wherever an added token stands, and none before
    /// it reaches there, it is taken whole as its one id, the first of the list where several
    /// stand; what lies between is plain text.
    pub proof fn law_added_tokens_are_taken_whole(&self, text: Seq<char>) -> (r: (
        Seq<Stretch>,
        Seq<Seq<u32>>,
    ))
        requires
            self.encoded_full(text) is Some,
        ensures
            self.stretches_cover(nfc(text), 0, r.0, r.1),
            self.encoded_full(text)->Some_0 == concat(r.1),
    {
        self.lemma_stretches(nfc(text), 0, 0)
    }

    /// A kept id goes out as one row, and that row stands for it; a dropped one goes out as
    /// one row for each of its bytes, and each stands for the token of that byte.
    pub proof fn law_rows_stand_for_their_ids(&self, id: u32)
        requires
            self.wf(),
            self.remap is Some,
            id < self.id_to_bytes@.len(),
        ensures
            ({
                let rows = self.remap->Some_0.new_to_old@;
                let out = self.mapped_one(id);
                let bytes = self.id_to_bytes@[id as int]@;
                &&& rows.contains(id) ==> out.len() == 1 && out[0] < rows.len() && rows[out[0] as int]
                    == id && self.full_id(out[0]) == id
                &&& !rows.contains(id) ==> out.len() == bytes.len() && forall|i: int|
                    0 <= i < bytes.len() ==> (#[trigger] out[i]) < rows.len() && rows[out[i] as int]
                        == self.ids@[seq![bytes[i]]]
            }),
    {
        let m = self.remap->Some_0;
        let rows = m.new_to_old@;
        let bytes = self.id_to_bytes@[id as int]@;
        if rows.contains(id) {
            assert(rows[rows.index_of(id)] == id);
        } else {
            let out = self.mapped_one(id);
            assert forall|i: int| 0 <= i < bytes.len() implies (#[trigger] out[i]) < rows.len()
                && rows[out[i] as int] == self.ids@[seq![bytes[i]]] by {
                assert(byte_kept(self.ids@, rows, m.byte_new_ids@, bytes[i]));
            }
        }
    }

    /// The stop ids stand for the special tokens that they stop at, where the vocabulary
    /// keeps them, and for no row where it does not.
    pub proof fn law_stop_ids_stand_for_their_tokens(&self, id: u32)
        requires
            self.wf(),
            self.remap is Some,
        ensures
            ({
                let rows = self.remap->Some_0.new_to_old@;
                let out = self.special_id(id);
                &&& rows.contains(id) ==> out < rows.len() && rows[out as int] == id
                &&& !rows.contains(id) ==> out == u32::MAX && out >= rows.len()
            }),
    {
        let rows = self.remap->Some_0.new_to_old@;
        if rows.contains(id) {
            assert(rows[rows.index_of(id)] == id);
        }
    }
}

/// One part, joined, is itself.
proof fn lemma_concat_one(part: Seq<u32>)
    ensures
        concat(seq![part]) == part,
{
    let parts = seq![part];
    assert(parts.skip(1) =~= Seq::<Seq<u32>>::empty());
    assert(concat(parts.skip(1)) =~= Seq::<u32>::empty());
    assert(concat(parts) =~= part);
}

proof fn lemma_table_sound(rows: Seq<u32>, full_vocab: int, from: int, i: int, j: int)
    requires
        0 <= from <= i < rows.len(),
        table_fault(rows, full_vocab, from) is None,
    ensures
        rows[i] < full_vocab,
        0 <= j < i ==> rows[j] != rows[i],
    decreases i - from,
{
    if from < i {
        lemma_table_sound(rows, full_vocab, from + 1, i, j);
    } else if 0 <= j < i && rows[j] == rows[i] {
        assert(rows.take(i)[j] == rows[i]);
        assert(rows.take(i).contains(rows[i]));
    }
}

proof fn lemma_bytes_kept(ids: Map<Seq<u8>, u32>, rows: Seq<u32>, from: int, b: u8)
    requires
        0 <= from <= b,
        byte_fault(ids, rows, from) is None,
    ensures
        ids.contains_key(seq![b]),
        rows.contains(ids[seq![b]]),
    decreases b - from,
{
    if from < b {
        lemma_bytes_kept(ids, rows, from + 1, b);
    } else {
        assert(from as u8 == b);
    }
}

/// A table that is accepted can stand for the full vocabulary: its rows are ids that the
/// vocabulary has, no two the same, and every byte has a token with a row.
pub proof fn law_accepted_tables_are_sound(
    ids: Map<Seq<u8>, u32>,
    rows: Seq<u32>,
    full_vocab: int,
    i: int,
    j: int,
    b: u8,
)
    requires
        remap_fault(ids, rows, full_vocab) is None,
    ensures
        0 <= i < rows.len() ==> rows[i] < full_vocab,
        0 <= i < j < rows.len() ==> rows[i] != rows[j],
        ids.contains_key(seq![b]) && rows.contains(ids[seq![b]]),
{
    if 0 <= i < rows.len() {
        lemma_table_sound(rows, full_vocab, 0, i, 0);
    }
    if 0 <= i < j < rows.len() {
        lemma_table_sound(rows, full_vocab, 0, j, i);
    }
    lemma_bytes_kept(ids, rows, 0, b);
}

/// A table is refused only for a reason: an id that the vocabulary lacks, an id that comes
/// twice, or a byte without a token that has a row.
pub proof fn law_sound_tables_are_accepted(ids: Map<Seq<u8>, u32>, rows: Seq<u32>, full_vocab: int)
    requires
        forall|i: int| 0 <= i < rows.len() ==> #[trigger] rows[i] < full_vocab,
        rows.no_duplicates(),
        forall|b: u8| ids.contains_key(#[trigger] seq![b]) && rows.contains(ids[seq![b]]),
    ensures
        remap_fault(ids, rows, full_vocab) is None,
{
    lemma_table_clean(rows, full_vocab, 0);
    lemma_bytes_clean(ids, rows, 0);
}

proof fn lemma_table_clean(rows: Seq<u32>, full_vocab: int, i: int)
    requires
        0 <= i,
        forall|k: int| 0 <= k < rows.len() ==> #[trigger] rows[k] < full_vocab,
        rows.no_duplicates(),
    ensures
        table_fault(rows, full_vocab, i) is None,
    decreases rows.len() - i,
{
    if i < rows.len() {
        lemma_table_clean(rows, full_vocab, i + 1);
        if rows.take(i).contains(rows[i]) {
            let k = choose|k: int| 0 <= k < i && rows.take(i)[k] == rows[i];
            assert(rows[k] == rows[i]);
        }
    }
}

proof fn lemma_bytes_clean(ids: Map<Seq<u8>, u32>, rows: Seq<u32>, b: int)
    requires
        0 <= b,
        forall|c: u8| ids.contains_key(#[trigger] seq![c]) && rows.contains(ids[seq![c]]),
    ensures
        byte_fault(ids, rows, b) is None,
    decreases 256 - b,
{
    if b < 256 {
        lemma_bytes_clean(ids, rows, b + 1);
        let one = seq![b as u8];
        assert(ids.contains_key(one));
    }
}

} // verus!
