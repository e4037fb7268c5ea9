//! Building the tokenizer from the parts of a tokenizer file.

use crate::bpe::tokens_of;
use crate::byte_level::byte_level;
use crate::byte_level::byte_level_decode;
use crate::qwentok::QwenTokenizer;
use crate::qwentok::DROPPED;
use crate::qwentok::QWEN_ENDOFTEXT;
use crate::qwentok::QWEN_IM_END;
use crate::qwentok::QWEN_IM_START;
use crate::qwentok::QWEN_THINK;
use crate::table::copy_bytes;
use crate::table::same_bytes;
use crate::table::ByteTable;
use crate::table::PairTable;
use crate::text::sub_chars;
use crate::unicode::chars_of;
use crate::unicode::text_of;
use vstd::prelude::*;
use vstd::utf8::encode_utf8;

verus! {

/// What a tokenizer file says: the type of its model where it names one, the vocabulary in
/// the order of the file, the merge rules by rank, and the added tokens.
pub struct TokenizerFile {
    pub model_type: Option<String>,
    pub vocab: Vec<(String, u32)>,
    pub merges: Vec<String>,
    pub added: Vec<(String, u32)>,
}

/// Why a tokenizer file is refused.
#[derive(Debug, PartialEq, Eq, Structural, Clone, Copy)]
pub enum LoadError {
    /// The model is not a byte-pair encoding.
    NotBpe,
    /// A token occurs twice.
    DuplicateToken,
    /// A token's id is not below the model's vocabulary.
    TokenOutOfRange(u32),
    /// Two tokens share an id.
    DuplicateTokenId(u32),
    /// A merge rule has no space.
    MalformedMerge,
    /// A merge rule occurs twice.
    DuplicateMerge,
    /// An added token's id is not below the model's vocabulary.
    AddedOutOfRange(u32),
    /// A special id does not carry its token.
    SpecialMismatch(u32),
}

/// The first fault of the vocabulary, from entry `i` on.
pub open spec fn vocab_fault(vocab: Seq<(String, u32)>, rows: int, i: int) -> Option<LoadError>
    decreases vocab.len() - i,
{
    if i < 0 || i >= vocab.len() {
        None
    } else if exists|j: int| 0 <= j < i && (#[trigger] vocab[j]).0@ == vocab[i].0@ {
        Some(LoadError::DuplicateToken)
    } else if vocab[i].1 >= rows {
        Some(LoadError::TokenOutOfRange(vocab[i].1))
    } else if exists|j: int| 0 <= j < i && (#[trigger] vocab[j]).1 == vocab[i].1 {
        Some(LoadError::DuplicateTokenId(vocab[i].1))
    } else {
        vocab_fault(vocab, rows, i + 1)
    }
}

/// The first space of a text, from `i` on.
pub open spec fn space_from(t: Seq<char>, i: int) -> Option<int>
    decreases t.len() - i,
{
    if i < 0 || i >= t.len() {
        None
    } else if t[i] == ' ' {
        Some(i)
    } else {
        space_from(t, i + 1)
    }
}

/// The two tokens of a merge rule; `None` where it has no space.
pub open spec fn merge_of(rule: Seq<char>) -> Option<(Seq<u8>, Seq<u8>)> {
    match space_from(rule, 0) {
        Some(i) => Some((byte_level(rule.take(i)), byte_level(rule.skip(i + 1)))),
        None => None,
    }
}

/// The first fault of the merge rules, from rule `i` on.
pub open spec fn merge_fault(merges: Seq<String>, i: int) -> Option<LoadError>
    decreases merges.len() - i,
{
    if i < 0 || i >= merges.len() {
        None
    } else if merge_of(merges[i]@) is None {
        Some(LoadError::MalformedMerge)
    } else if exists|j: int| 0 <= j < i && merge_of((#[trigger] merges[j])@) == merge_of(merges[i]@) {
        Some(LoadError::DuplicateMerge)
    } else {
        merge_fault(merges, i + 1)
    }
}

/// The first fault of the added tokens, from token `i` on.
pub open spec fn added_fault(added: Seq<(String, u32)>, rows: int, i: int) -> Option<LoadError>
    decreases added.len() - i,
{
    if i < 0 || i >= added.len() {
        None
    } else if added[i].1 >= rows {
        Some(LoadError::AddedOutOfRange(added[i].1))
    } else {
        added_fault(added, rows, i + 1)
    }
}

/// A special id carries its token.
pub open spec fn special_ok(rows: Seq<Seq<u8>>, id: u32, content: Seq<char>) -> bool {
    id < rows.len() && rows[id as int] == encode_utf8(content)
}

/// The first special id that does not carry its token.
pub open spec fn special_fault(rows: Seq<Seq<u8>>) -> Option<LoadError> {
    if !special_ok(rows, QWEN_ENDOFTEXT, "<|endoftext|>"@) {
        Some(LoadError::SpecialMismatch(QWEN_ENDOFTEXT))
    } else if !special_ok(rows, QWEN_IM_START, "<|im_start|>"@) {
        Some(LoadError::SpecialMismatch(QWEN_IM_START))
    } else if !special_ok(rows, QWEN_IM_END, "<|im_end|>"@) {
        Some(LoadError::SpecialMismatch(QWEN_IM_END))
    } else if !special_ok(rows, QWEN_THINK, "<think>"@) {
        Some(LoadError::SpecialMismatch(QWEN_THINK))
    } else {
        None
    }
}

/// Token bytes to id after the first `n` vocabulary entries.
pub open spec fn ids_after(vocab: Seq<(String, u32)>, n: int) -> Map<Seq<u8>, u32>
    decreases n,
{
    if n <= 0 {
        Map::empty()
    } else {
        ids_after(vocab, n - 1).insert(byte_level(vocab[n - 1].0@), vocab[n - 1].1)
    }
}

/// Id to bytes after the first `n` vocabulary entries; ids without one are empty.
pub open spec fn rows_after(vocab: Seq<(String, u32)>, rows: nat, n: int) -> Seq<Seq<u8>>
    decreases n,
{
    if n <= 0 {
        Seq::new(rows, |i: int| Seq::<u8>::empty())
    } else {
        rows_after(vocab, rows, n - 1).update(
            vocab[n - 1].1 as int,
            byte_level(vocab[n - 1].0@),
        )
    }
}

/// Id to bytes after the first `n` added tokens, which take precedence.
pub open spec fn rows_added(base: Seq<Seq<u8>>, added: Seq<(String, u32)>, n: int) -> Seq<Seq<u8>>
    decreases n,
{
    if n <= 0 {
        base
    } else {
        rows_added(base, added, n - 1).update(added[n - 1].1 as int, encode_utf8(added[n - 1].0@))
    }
}

/// Merge ranks after the first `n` rules: a rule's rank is its position.
pub open spec fn ranks_after(merges: Seq<String>, n: int) -> Map<(Seq<u8>, Seq<u8>), u32>
    decreases n,
{
    if n <= 0 {
        Map::empty()
    } else {
        ranks_after(merges, n - 1).insert(merge_of(merges[n - 1]@)->Some_0, (n - 1) as u32)
    }
}

/// The model is a byte-pair encoding.
pub open spec fn is_bpe(model_type: Option<String>) -> bool {
    model_type matches Some(t) && t@ == "BPE"@
}

/// What is wrong with a tokenizer file, if anything: the type of the model is looked at
/// first, then the vocabulary, the merge rules, the added tokens and the special ids.
pub open spec fn file_fault(file: TokenizerFile, rows: nat) -> Option<LoadError> {
    if !is_bpe(file.model_type) {
        Some(LoadError::NotBpe)
    } else if vocab_fault(file.vocab@, rows as int, 0) is Some {
        vocab_fault(file.vocab@, rows as int, 0)
    } else if merge_fault(file.merges@, 0) is Some {
        merge_fault(file.merges@, 0)
    } else if added_fault(file.added@, rows as int, 0) is Some {
        added_fault(file.added@, rows as int, 0)
    } else {
        special_fault(file_rows(file, rows))
    }
}

/// Id to bytes as a tokenizer file gives it.
pub open spec fn file_rows(file: TokenizerFile, rows: nat) -> Seq<Seq<u8>> {
    rows_added(
        rows_after(file.vocab@, rows, file.vocab@.len() as int),
        file.added@,
        file.added@.len() as int,
    )
}

/// Of two added tokens, `a` is matched strictly before `b`: it is longer in bytes,
/// or as long with a lower id.
pub open spec fn matched_before(a: (String, u32), b: (String, u32)) -> bool {
    ||| encode_utf8(a.0@).len() > encode_utf8(b.0@).len()
    ||| encode_utf8(a.0@).len() == encode_utf8(b.0@).len() && a.1 < b.1
}

/// `s` with `e` inserted before the first token that is not matched before it.
pub open spec fn insert_added(e: (String, u32), s: Seq<(String, u32)>) -> Seq<(String, u32)>
    decreases s.len(),
{
    if s.len() == 0 || !matched_before(s[0], e) {
        seq![e] + s
    } else {
        seq![s[0]] + insert_added(e, s.skip(1))
    }
}

/// Added tokens in matching order, equals in the order of the file.
pub open spec fn sorted_added(s: Seq<(String, u32)>) -> Seq<(String, u32)>
    decreases s.len(),
{
    if s.len() == 0 {
        Seq::empty()
    } else {
        insert_added(s[0], sorted_added(s.skip(1)))
    }
}

proof fn lemma_insert_added(e: (String, u32), s: Seq<(String, u32)>, p: int)
    requires
        0 <= p <= s.len(),
        forall|j: int| 0 <= j < p ==> matched_before(#[trigger] s[j], e),
        p < s.len() ==> !matched_before(s[p], e),
    ensures
        insert_added(e, s) == s.insert(p, e),
    decreases s.len(),
{
    if p == 0 {
        assert(seq![e] + s =~= s.insert(0, e));
    } else {
        let rest = s.skip(1);
        assert forall|j: int| 0 <= j < p - 1 implies matched_before(#[trigger] rest[j], e) by {
            assert(rest[j] == s[j + 1]);
        }
        lemma_insert_added(e, rest, p - 1);
        assert(matched_before(s[0], e));
        assert(seq![s[0]] + rest.insert(p - 1, e) =~= s.insert(p, e));
    }
}

/// No token stands before one that is matched before it.
pub open spec fn in_matching_order(s: Seq<(String, u32)>) -> bool {
    forall|i: int, j: int| 0 <= i < j < s.len() ==> !matched_before(#[trigger] s[j], #[trigger] s[i])
}

proof fn lemma_insert_added_props(e: (String, u32), s: Seq<(String, u32)>)
    requires
        in_matching_order(s),
    ensures
        in_matching_order(insert_added(e, s)),
        insert_added(e, s).to_multiset() == s.to_multiset().insert(e),
        insert_added(e, s).len() == s.len() + 1,
        s.len() > 0 ==> insert_added(e, s)[0] == s[0] || insert_added(e, s)[0] == e,
    decreases s.len(),
{
    broadcast use vstd::seq_lib::group_to_multiset_ensures;

    let out = insert_added(e, s);
    if s.len() == 0 || !matched_before(s[0], e) {
        assert(out =~= s.insert(0, e));
        crate::seqs::lemma_insert_multiset(s, 0, e);
        assert forall|i: int, j: int| 0 <= i < j < out.len() implies !matched_before(
            #[trigger] out[j],
            #[trigger] out[i],
        ) by {
            assert(out[j] == s[j - 1]);
            if i == 0 {
                if j > 1 {
                    assert(!matched_before(s[j - 1], s[0]));
                }
            } else {
                assert(out[i] == s[i - 1]);
            }
        }
    } else {
        let rest = s.skip(1);
        assert(in_matching_order(rest)) by {
            assert forall|i: int, j: int| 0 <= i < j < rest.len() implies !matched_before(
                #[trigger] rest[j],
                #[trigger] rest[i],
            ) by {
                assert(rest[j] == s[j + 1] && rest[i] == s[i + 1]);
            }
        }
        lemma_insert_added_props(e, rest);
        let tail = insert_added(e, rest);
        assert(out =~= tail.insert(0, s[0]));
        crate::seqs::lemma_insert_multiset(tail, 0, s[0]);
        assert(s =~= rest.insert(0, s[0]));
        crate::seqs::lemma_insert_multiset(rest, 0, s[0]);
        assert(out.to_multiset() =~= s.to_multiset().insert(e));
        assert forall|i: int, j: int| 0 <= i < j < out.len() implies !matched_before(
            #[trigger] out[j],
            #[trigger] out[i],
        ) by {
            assert(out[j] == tail[j - 1]);
            if i == 0 {
                assert(tail.to_multiset().contains(tail[j - 1]));
                if tail[j - 1] != e {
                    assert(rest.to_multiset().count(tail[j - 1]) > 0);
                    assert(rest.contains(tail[j - 1]));
                    let q = choose|q: int| 0 <= q < rest.len() && rest[q] == tail[j - 1];
                    assert(rest[q] == s[q + 1]);
                    assert(!matched_before(s[q + 1], s[0]));
                }
            } else {
                assert(out[i] == tail[i - 1]);
            }
        }
    }
}

/// Sorting keeps the added tokens and puts them in matching order, so that a longer
/// token is tried before a shorter one that begins it.
pub proof fn law_added_tokens_are_sorted(s: Seq<(String, u32)>)
    ensures
        in_matching_order(sorted_added(s)),
        sorted_added(s).to_multiset() == s.to_multiset(),
    decreases s.len(),
{
    broadcast use vstd::seq_lib::group_to_multiset_ensures;

    if s.len() > 0 {
        let rest = s.skip(1);
        law_added_tokens_are_sorted(rest);
        lemma_insert_added_props(s[0], sorted_added(rest));
        assert(s =~= rest.insert(0, s[0]));
        crate::seqs::lemma_insert_multiset(rest, 0, s[0]);
    }
}

/// Puts added tokens in matching order.
fn sort_added(added: Vec<(String, u32)>) -> (out: Vec<(String, u32)>)
    ensures
        out@ == sorted_added(added@),
{
    let ghost all = added@;
    let mut left = added;
    let mut out: Vec<(String, u32)> = Vec::new();
    proof {
        assert(all.take(all.len() as int) =~= all);
        assert(all.skip(all.len() as int) =~= Seq::<(String, u32)>::empty());
    }
    while left.len() > 0
        invariant
            left@.len() <= all.len(),
            left@ == all.take(left@.len() as int),
            out@ == sorted_added(all.skip(left@.len() as int)),
        decreases left@.len(),
    {
        let ghost k = left@.len() - 1;
        match left.pop() {
            Some(e) => {
                let length: usize = e.0.as_str().as_bytes().len();
                let mut p: usize = 0;
                while p < out.len() && (out[p].0.as_str().as_bytes().len() > length || (
                out[p].0.as_str().as_bytes().len() == length && out[p].1 < e.1))
                    invariant
                        p <= out@.len(),
                        length == encode_utf8(e.0@).len(),
                        forall|j: int| 0 <= j < p ==> matched_before(#[trigger] out@[j], e),
                    decreases out@.len() - p,
                {
                    p += 1;
                }
                proof {
                    lemma_insert_added(e, out@, p as int);
                    assert(all.skip(k).skip(1) =~= all.skip(k + 1));
                    assert(all.skip(k)[0] == e);
                    assert(left@ =~= all.take(k));
                }
                out.insert(p, e);
            },
            None => {},
        }
    }
    proof {
        assert(all.skip(0) =~= all);
    }
    out
}

/// Splits a merge rule at its first space.
fn split_merge(rule: &str) -> (pair: Option<(Vec<u8>, Vec<u8>)>)
    ensures
        pair is Some <==> merge_of(rule@) is Some,
        pair matches Some(p) ==> merge_of(rule@) == Some((p.0@, p.1@)),
{
    let chars: Vec<char> = chars_of(rule);
    let n: usize = chars.len();
    let mut i: usize = 0;
    while i < n && chars[i] != ' '
        invariant
            i <= n == chars@.len(),
            space_from(chars@, 0) == space_from(chars@, i as int),
        decreases n - i,
    {
        i += 1;
    }
    if i == n {
        return None;
    }
    let left: String = text_of(sub_chars(chars.as_slice(), 0, i).as_slice());
    let right: String = text_of(sub_chars(chars.as_slice(), i + 1, n).as_slice());
    proof {
        assert(chars@.subrange(0, i as int) =~= chars@.take(i as int));
        assert(chars@.subrange(i + 1, n as int) =~= chars@.skip(i + 1));
    }
    Some((byte_level_decode(left.as_str()), byte_level_decode(right.as_str())))
}

proof fn lemma_utf8_injective(a: Seq<char>, b: Seq<char>)
    requires
        encode_utf8(a) == encode_utf8(b),
    ensures
        a == b,
{
    vstd::utf8::encode_utf8_decode_utf8(a);
    vstd::utf8::encode_utf8_decode_utf8(b);
}

/// The bytes of `text` are those of one of the first `n` tokens.
spec fn token_seen(vocab: Seq<(String, u32)>, n: int, bytes: Seq<u8>) -> bool {
    exists|j: int| 0 <= j < n && encode_utf8((#[trigger] vocab[j]).0@) == bytes
}

/// Reads the vocabulary into the two tables.
fn read_vocab(vocab: &Vec<(String, u32)>, rows: usize) -> (r: Result<
    (ByteTable, Vec<Vec<u8>>),
    LoadError,
>)
    ensures
        match vocab_fault(vocab@, rows as int, 0) {
            Some(e) => r == Err::<(ByteTable, Vec<Vec<u8>>), LoadError>(e),
            None => r is Ok && r->Ok_0.0.wf() && r->Ok_0.0@ == ids_after(
                vocab@,
                vocab@.len() as int,
            ) && tokens_of(r->Ok_0.1@) == rows_after(vocab@, rows as nat, vocab@.len() as int),
        },
        r is Ok ==> r->Ok_0.1@.len() == rows,
        r is Ok ==> forall|k: Seq<u8>| #[trigger]
            r->Ok_0.0@.contains_key(k) ==> r->Ok_0.0@[k] < rows,
{
    let mut ids = ByteTable::new();
    let mut seen = ByteTable::new();
    let mut id_to_bytes: Vec<Vec<u8>> = Vec::with_capacity(rows);
    let mut taken: Vec<bool> = Vec::with_capacity(rows);
    for i in 0..rows
        invariant
            id_to_bytes@.len() == i,
            taken@.len() == i,
            forall|j: int| 0 <= j < i ==> (#[trigger] id_to_bytes@[j])@ == Seq::<u8>::empty(),
            forall|j: int| 0 <= j < i ==> !#[trigger] taken@[j],
    {
        id_to_bytes.push(Vec::new());
        taken.push(false);
    }
    proof {
        assert(tokens_of(id_to_bytes@) =~= rows_after(vocab@, rows as nat, 0));
    }
    for i in 0..vocab.len()
        invariant
            ids.wf(),
            seen.wf(),
            ids@ == ids_after(vocab@, i as int),
            tokens_of(id_to_bytes@) == rows_after(vocab@, rows as nat, i as int),
            id_to_bytes@.len() == rows,
            taken@.len() == rows,
            forall|k: Seq<u8>| #[trigger] ids@.contains_key(k) ==> ids@[k] < rows,
            forall|k: Seq<u8>| #[trigger]
                seen@.contains_key(k) <==> token_seen(vocab@, i as int, k),
            forall|id: int|
                0 <= id < rows ==> (#[trigger] taken@[id] <==> exists|j: int|
                    0 <= j < i && (#[trigger] vocab@[j]).1 == id),
            vocab_fault(vocab@, rows as int, 0) == vocab_fault(vocab@, rows as int, i as int),
    {
        let id: u32 = vocab[i].1;
        let key: Vec<u8> = copy_bytes(vocab[i].0.as_str().as_bytes());
        let ghost before = seen@;
        let fresh = seen.insert(key, 0);
        if !fresh {
            proof {
                let j = choose|j: int|
                    0 <= j < i && encode_utf8((#[trigger] vocab@[j]).0@) == encode_utf8(
                        vocab@[i as int].0@,
                    );
                lemma_utf8_injective(vocab@[j].0@, vocab@[i as int].0@);
            }
            return Err(LoadError::DuplicateToken);
        }
        proof {
            if exists|j: int| 0 <= j < i && (#[trigger] vocab@[j]).0@ == vocab@[i as int].0@ {
                let j = choose|j: int|
                    0 <= j < i && (#[trigger] vocab@[j]).0@ == vocab@[i as int].0@;
                assert(token_seen(vocab@, i as int, encode_utf8(vocab@[i as int].0@)));
            }
        }
        if id as usize >= rows {
            return Err(LoadError::TokenOutOfRange(id));
        }
        if taken[id as usize] {
            return Err(LoadError::DuplicateTokenId(id));
        }
        let decoded: Vec<u8> = byte_level_decode(vocab[i].0.as_str());
        let again: Vec<u8> = copy_bytes(decoded.as_slice());
        let ghost old_rows = id_to_bytes@;
        let ghost old_taken = taken@;
        let ghost old_ids = ids@;
        id_to_bytes.set(id as usize, decoded);
        ids.insert(again, id);
        taken.set(id as usize, true);
        proof {
            assert(tokens_of(id_to_bytes@) =~= tokens_of(old_rows).update(id as int, decoded@));
            assert forall|k: Seq<u8>| #[trigger] ids@.contains_key(k) implies ids@[k] < rows by {
                if k != again@ {
                    assert(old_ids.contains_key(k));
                }
            }
            assert forall|k: Seq<u8>| #[trigger] seen@.contains_key(k) <==> token_seen(
                vocab@,
                i + 1,
                k,
            ) by {
                if token_seen(vocab@, i + 1, k) {
                    let j = choose|j: int|
                        0 <= j < i + 1 && encode_utf8((#[trigger] vocab@[j]).0@) == k;
                    if j < i {
                        assert(token_seen(vocab@, i as int, k));
                    }
                }
                if seen@.contains_key(k) {
                    if before.contains_key(k) {
                        assert(token_seen(vocab@, i as int, k));
                        let j = choose|j: int|
                            0 <= j < i && encode_utf8((#[trigger] vocab@[j]).0@) == k;
                        assert(encode_utf8(vocab@[j].0@) == k);
                    } else {
                        assert(encode_utf8(vocab@[i as int].0@) == k);
                    }
                }
            }
            assert forall|x: int| 0 <= x < rows implies (#[trigger] taken@[x] <==> exists|j: int|
                0 <= j < i + 1 && (#[trigger] vocab@[j]).1 == x) by {
                if x == id {
                    assert(vocab@[i as int].1 == x);
                } else {
                    assert(taken@[x] == old_taken[x]);
                    if exists|j: int| 0 <= j < i + 1 && (#[trigger] vocab@[j]).1 == x {
                        let j = choose|j: int| 0 <= j < i + 1 && (#[trigger] vocab@[j]).1 == x;
                        assert(j < i);
                    }
                }
            }
        }
    }
    Ok((ids, id_to_bytes))
}

/// The pair is that of one of the first `n` rules.
spec fn merge_seen(merges: Seq<String>, n: int, pair: (Seq<u8>, Seq<u8>)) -> bool {
    exists|j: int| 0 <= j < n && merge_of((#[trigger] merges[j])@) == Some(pair)
}

/// Reads the merge rules into the rank table.
fn read_merges(merges: &Vec<String>) -> (r: Result<PairTable, LoadError>)
    requires
        merges@.len() <= u32::MAX,
    ensures
        match merge_fault(merges@, 0) {
            Some(e) => r == Err::<PairTable, LoadError>(e),
            None => r is Ok && r->Ok_0.wf() && r->Ok_0@ == ranks_after(
                merges@,
                merges@.len() as int,
            ),
        },
{
    let mut ranks = PairTable::new();
    for i in 0..merges.len()
        invariant
            merges@.len() <= u32::MAX,
            ranks.wf(),
            ranks@ == ranks_after(merges@, i as int),
            forall|p: (Seq<u8>, Seq<u8>)| #[trigger]
                ranks@.contains_key(p) <==> merge_seen(merges@, i as int, p),
            merge_fault(merges@, 0) == merge_fault(merges@, i as int),
    {
        match split_merge(merges[i].as_str()) {
            None => {
                return Err(LoadError::MalformedMerge);
            },
            Some((left, right)) => {
                let ghost pair = (left@, right@);
                let ghost before = ranks@;
                let fresh = ranks.insert(left, right, i as u32);
                if !fresh {
                    proof {
                        assert(merge_seen(merges@, i as int, pair));
                        let j = choose|j: int|
                            0 <= j < i && merge_of((#[trigger] merges@[j])@) == Some(pair);
                        assert(merge_of(merges@[j]@) == merge_of(merges@[i as int]@));
                    }
                    return Err(LoadError::DuplicateMerge);
                }
                proof {
                    if exists|j: int|
                        0 <= j < i && merge_of((#[trigger] merges@[j])@) == merge_of(
                            merges@[i as int]@,
                        ) {
                        assert(merge_seen(merges@, i as int, pair));
                    }
                    assert forall|p: (Seq<u8>, Seq<u8>)| #[trigger]
                        ranks@.contains_key(p) <==> merge_seen(merges@, i + 1, p) by {
                        if merge_seen(merges@, i + 1, p) {
                            let j = choose|j: int|
                                0 <= j < i + 1 && merge_of((#[trigger] merges@[j])@) == Some(p);
                            if j < i {
                                assert(merge_seen(merges@, i as int, p));
                            }
                        }
                        if ranks@.contains_key(p) {
                            if before.contains_key(p) {
                                assert(merge_seen(merges@, i as int, p));
                                let j = choose|j: int|
                                    0 <= j < i && merge_of((#[trigger] merges@[j])@) == Some(p);
                                assert(merge_of(merges@[j]@) == Some(p));
                            } else {
                                assert(merge_of(merges@[i as int]@) == Some(p));
                            }
                        }
                    }
                }
            },
        }
    }
    Ok(ranks)
}

/// Lets the added tokens claim their rows.
fn read_added(added: &Vec<(String, u32)>, id_to_bytes: &mut Vec<Vec<u8>>) -> (fault: Option<
    LoadError,
>)
    ensures
        fault == added_fault(added@, old(id_to_bytes)@.len() as int, 0),
        final(id_to_bytes)@.len() == old(id_to_bytes)@.len(),
        fault is None ==> tokens_of(final(id_to_bytes)@) == rows_added(
            tokens_of(old(id_to_bytes)@),
            added@,
            added@.len() as int,
        ),
        fault is None ==> forall|a: int|
            0 <= a < added@.len() ==> (#[trigger] added@[a]).1 < old(id_to_bytes)@.len(),
{
    let ghost base = tokens_of(id_to_bytes@);
    let rows: usize = id_to_bytes.len();
    for i in 0..added.len()
        invariant
            rows == id_to_bytes@.len(),
            rows == old(id_to_bytes)@.len(),
            tokens_of(id_to_bytes@) == rows_added(base, added@, i as int),
            added_fault(added@, rows as int, 0) == added_fault(added@, rows as int, i as int),
            forall|a: int| 0 <= a < i ==> (#[trigger] added@[a]).1 < rows,
    {
        let id: u32 = added[i].1;
        if id as usize >= rows {
            return Some(LoadError::AddedOutOfRange(id));
        }
        let content: Vec<u8> = copy_bytes(added[i].0.as_str().as_bytes());
        let ghost before = id_to_bytes@;
        id_to_bytes.set(id as usize, content);
        proof {
            assert(tokens_of(id_to_bytes@) =~= tokens_of(before).update(id as int, content@));
        }
    }
    None
}

/// Whether a special id carries its token.
fn special_carries(rows: &Vec<Vec<u8>>, id: u32, content: &str) -> (ok: bool)
    ensures
        ok == special_ok(tokens_of(rows@), id, content@),
{
    (id as usize) < rows.len() && same_bytes(rows[id as usize].as_slice(), content.as_bytes())
}

fn names_bpe(model_type: &Option<String>) -> (yes: bool)
    ensures
        yes == is_bpe(*model_type),
{
    match model_type {
        None => false,
        Some(t) => {
            let yes = same_bytes(t.as_str().as_bytes(), "BPE".as_bytes());
            proof {
                if yes {
                    lemma_utf8_injective(t@, "BPE"@);
                }
            }
            yes
        },
    }
}

impl QwenTokenizer {
    /// Builds a tokenizer for a model of `model_vocab` rows from the parts of a
    /// tokenizer file.
    pub fn load(file: TokenizerFile, model_vocab: usize) -> (r: Result<QwenTokenizer, LoadError>)
        requires
            file.merges@.len() <= u32::MAX,
        ensures
            match file_fault(file, model_vocab as nat) {
                Some(e) => r == Err::<QwenTokenizer, LoadError>(e),
                None => r is Ok,
            },
            r matches Ok(t) ==> {
                &&& t.ids.wf() && t.ids@ == ids_after(file.vocab@, file.vocab@.len() as int)
                &&& t.pair_rank.wf() && t.pair_rank@ == ranks_after(
                    file.merges@,
                    file.merges@.len() as int,
                )
                &&& tokens_of(t.id_to_bytes@) == file_rows(file, model_vocab as nat)
                &&& t.added@ == sorted_added(file.added@)
                &&& t.model_vocab == model_vocab
                &&& t.remap is None
            },
            r matches Ok(t) ==> (model_vocab <= DROPPED && (forall|a: int|
                0 <= a < file.added@.len() ==> (#[trigger] file.added@[a]).0@.len() > 0)
                ==> t.wf()),
    {
        let TokenizerFile { model_type, vocab, merges, added } = file;
        if !names_bpe(&model_type) {
            return Err(LoadError::NotBpe);
        }
        let (ids, rows) = match read_vocab(&vocab, model_vocab) {
            Ok(tables) => tables,
            Err(e) => {
                return Err(e);
            },
        };
        let mut id_to_bytes: Vec<Vec<u8>> = rows;
        let pair_rank = match read_merges(&merges) {
            Ok(table) => table,
            Err(e) => {
                return Err(e);
            },
        };
        match read_added(&added, &mut id_to_bytes) {
            Some(e) => {
                return Err(e);
            },
            None => {},
        }
        if !special_carries(&id_to_bytes, QWEN_ENDOFTEXT, "<|endoftext|>") {
            return Err(LoadError::SpecialMismatch(QWEN_ENDOFTEXT));
        }
        if !special_carries(&id_to_bytes, QWEN_IM_START, "<|im_start|>") {
            return Err(LoadError::SpecialMismatch(QWEN_IM_START));
        }
        if !special_carries(&id_to_bytes, QWEN_IM_END, "<|im_end|>") {
            return Err(LoadError::SpecialMismatch(QWEN_IM_END));
        }
        if !special_carries(&id_to_bytes, QWEN_THINK, "<think>") {
            return Err(LoadError::SpecialMismatch(QWEN_THINK));
        }
        let ghost listed = added@;
        let sorted: Vec<(String, u32)> = sort_added(added);
        proof {
            law_added_tokens_are_sorted(listed);
            assert forall|a: int| 0 <= a < sorted@.len() implies listed.contains(
                #[trigger] sorted@[a],
            ) by {
                broadcast use vstd::seq_lib::group_to_multiset_ensures;

                assert(sorted@.contains(sorted@[a]));
                assert(listed.to_multiset().count(sorted@[a]) > 0);
            }
        }
        let t = QwenTokenizer {
            ids,
            pair_rank,
            id_to_bytes,
            added: sorted,
            model_vocab,
            remap: None,
        };
        proof {
            if model_vocab <= DROPPED && (forall|a: int|
                0 <= a < listed.len() ==> (#[trigger] listed[a]).0@.len() > 0) {
                assert forall|a: int| 0 <= a < t.added@.len() implies (#[trigger] t.added@[a]).1
                    < t.id_to_bytes@.len() && t.added@[a].0@.len() > 0 by {
                    assert(listed.contains(t.added@[a]));
                    let b = choose|b: int| 0 <= b < listed.len() && listed[b] == t.added@[a];
                    assert(listed[b].1 < model_vocab);
                }
                assert(t.wf());
            }
        }
        Ok(t)
    }
}

proof fn lemma_merges_differ(merges: Seq<String>, from: int, i: int, j: int)
    requires
        0 <= from <= i < merges.len(),
        0 <= j < i,
        merge_fault(merges, from) is None,
    ensures
        merge_of(merges[i]@) is Some,
        merge_of(merges[j]@) != merge_of(merges[i]@),
    decreases i - from,
{
    if from < i {
        lemma_merges_differ(merges, from + 1, i, j);
    }
}

/// A merge rule ranks by its line: the rank of each rule is the number of rules before it.
pub proof fn law_rules_rank_by_their_line(merges: Seq<String>, n: int, i: int)
    requires
        merge_fault(merges, 0) is None,
        0 <= i < n <= merges.len() <= u32::MAX,
    ensures
        merge_of(merges[i]@) is Some,
        ranks_after(merges, n).contains_key(merge_of(merges[i]@)->Some_0),
        ranks_after(merges, n)[merge_of(merges[i]@)->Some_0] == i,
    decreases n,
{
    lemma_has_merge(merges, 0, i);
    lemma_has_merge(merges, 0, n - 1);
    if i < n - 1 {
        law_rules_rank_by_their_line(merges, n - 1, i);
        lemma_merges_differ(merges, 0, n - 1, i);
    }
}

proof fn lemma_has_merge(merges: Seq<String>, from: int, i: int)
    requires
        0 <= from <= i < merges.len(),
        merge_fault(merges, from) is None,
    ensures
        merge_of(merges[i]@) is Some,
    decreases i - from,
{
    if from < i {
        lemma_has_merge(merges, from + 1, i);
    }
}

/// Only the file's rules are ranked.
pub proof fn law_only_rules_are_ranked(merges: Seq<String>, n: int, pair: (Seq<u8>, Seq<u8>))
    requires
        merge_fault(merges, 0) is None,
        0 <= n <= merges.len(),
        ranks_after(merges, n).contains_key(pair),
    ensures
        exists|i: int| 0 <= i < n && merge_of((#[trigger] merges[i])@) == Some(pair),
    decreases n,
{
    if n > 0 {
        lemma_has_merge(merges, 0, n - 1);
        if merge_of(merges[n - 1]@)->Some_0 != pair {
            law_only_rules_are_ranked(merges, n - 1, pair);
        } else {
            assert(merge_of(merges[n - 1]@) == Some(pair));
        }
    }
}

proof fn lemma_space_from(t: Seq<char>, i: int, k: int)
    requires
        0 <= i <= k < t.len(),
        t[k] == ' ',
        forall|j: int| i <= j < k ==> #[trigger] t[j] != ' ',
    ensures
        space_from(t, i) == Some(k),
    decreases k - i,
{
    if i < k {
        assert(t[i] != ' ');
        lemma_space_from(t, i + 1, k);
    }
}

/// A merge rule is two tokens with a space between them; the first space parts them.
pub proof fn law_rules_part_at_the_space(left: Seq<char>, right: Seq<char>)
    requires
        forall|j: int| 0 <= j < left.len() ==> #[trigger] left[j] != ' ',
    ensures
        merge_of(left.push(' ') + right) == Some((byte_level(left), byte_level(right))),
{
    let rule = left.push(' ') + right;
    assert forall|j: int| 0 <= j < left.len() implies #[trigger] rule[j] != ' ' by {
        assert(rule[j] == left[j]);
    }
    lemma_space_from(rule, 0, left.len() as int);
    assert(rule.take(left.len() as int) =~= left);
    assert(rule.skip(left.len() as int + 1) =~= right);
}

proof fn lemma_vocab_ids(vocab: Seq<(String, u32)>, rows: int, from: int, i: int, j: int)
    requires
        0 <= from <= i < vocab.len(),
        vocab_fault(vocab, rows, from) is None,
    ensures
        vocab[i].1 < rows,
        0 <= j < i ==> vocab[j].1 != vocab[i].1,
    decreases i - from,
{
    if from < i {
        lemma_vocab_ids(vocab, rows, from + 1, i, j);
    }
}

/// A loaded vocabulary is read both ways: the row of a token's id has the token's bytes, and
/// those bytes have that id unless a later token has the same bytes.
pub proof fn law_vocabulary_reads_both_ways(vocab: Seq<(String, u32)>, rows: nat, n: int, i: int)
    requires
        vocab_fault(vocab, rows as int, 0) is None,
        0 <= i < n <= vocab.len(),
    ensures
        rows_after(vocab, rows, n).len() == rows,
        rows_after(vocab, rows, n)[vocab[i].1 as int] == byte_level(vocab[i].0@),
        ids_after(vocab, n).contains_key(byte_level(vocab[i].0@)),
        (forall|j: int| i < j < n ==> byte_level((#[trigger] vocab[j]).0@) != byte_level(vocab[i].0@))
            ==> ids_after(vocab, n)[byte_level(vocab[i].0@)] == vocab[i].1,
    decreases n,
{
    lemma_vocab_ids(vocab, rows as int, 0, n - 1, i);
    lemma_vocab_ids(vocab, rows as int, 0, i, 0);
    lemma_rows_len(vocab, rows, n);
    lemma_rows_len(vocab, rows, n - 1);
    if i < n - 1 {
        law_vocabulary_reads_both_ways(vocab, rows, n - 1, i);
        assert(vocab[n - 1].1 != vocab[i].1);
    }
}

proof fn lemma_rows_len(vocab: Seq<(String, u32)>, rows: nat, n: int)
    requires
        vocab_fault(vocab, rows as int, 0) is None,
        n <= vocab.len(),
    ensures
        rows_after(vocab, rows, n).len() == rows,
    decreases n,
{
    if n > 0 {
        lemma_vocab_ids(vocab, rows as int, 0, n - 1, 0);
        lemma_rows_len(vocab, rows, n - 1);
    }
}

/// An added token's row has its UTF-8, and the rows of other ids stay what the vocabulary
/// made them.
pub proof fn law_added_tokens_have_their_rows(
    base: Seq<Seq<u8>>,
    added: Seq<(String, u32)>,
    n: int,
    k: int,
    id: int,
)
    requires
        added_fault(added, base.len() as int, 0) is None,
        0 <= n <= added.len(),
    ensures
        rows_added(base, added, n).len() == base.len(),
        0 <= k < n && (forall|j: int| k < j < n ==> (#[trigger] added[j]).1 != added[k].1)
            ==> rows_added(base, added, n)[added[k].1 as int] == encode_utf8(added[k].0@),
        0 <= id < base.len() && (forall|j: int| 0 <= j < n ==> (#[trigger] added[j]).1 != id)
            ==> rows_added(base, added, n)[id] == base[id],
    decreases n,
{
    if n > 0 {
        law_added_tokens_have_their_rows(base, added, n - 1, k, id);
        lemma_added_bound(added, base.len() as int, 0, n - 1);
        if 0 <= k < n {
            lemma_added_bound(added, base.len() as int, 0, k);
        }
        assert(added[n - 1] == added[n - 1]);
    }
}

proof fn lemma_added_bound(added: Seq<(String, u32)>, rows: int, from: int, i: int)
    requires
        0 <= from <= i < added.len(),
        added_fault(added, rows, from) is None,
    ensures
        added[i].1 < rows,
    decreases i - from,
{
    if from < i {
        lemma_added_bound(added, rows, from + 1, i);
    }
}

/// A file that loads carries the special tokens where the runtime looks for them.
pub proof fn law_specials_are_in_their_places(file: TokenizerFile, rows: nat)
    requires
        file_fault(file, rows) is None,
    ensures
        ({
            let r = file_rows(file, rows);
            &&& r.len() > 248_068
            &&& r[248_044] == encode_utf8("<|endoftext|>"@)
            &&& r[248_045] == encode_utf8("<|im_start|>"@)
            &&& r[248_046] == encode_utf8("<|im_end|>"@)
            &&& r[248_068] == encode_utf8("<think>"@)
        }),
{
}

/// Added tokens are tried from the longest down, equal lengths by rising id: so of two that
/// begin alike the longer is found first.
pub proof fn law_longer_added_tokens_come_first(s: Seq<(String, u32)>, i: int, j: int)
    requires
        0 <= i < j < sorted_added(s).len(),
    ensures
        ({
            let (a, b) = (sorted_added(s)[i], sorted_added(s)[j]);
            let (m, n) = (encode_utf8(a.0@).len(), encode_utf8(b.0@).len());
            m > n || (m == n && a.1 <= b.1)
        }),
{
    law_added_tokens_are_sorted(s);
    assert(!matched_before(sorted_added(s)[j], sorted_added(s)[i]));
}

} // verus!
