//! Byte-pair merging: starting from single bytes, the adjacent pair of lowest
//! rank (the leftmost on ties) is merged everywhere, until no pair is ranked.

use crate::pretokenize::concat;
use crate::table::copy_bytes;
use crate::table::same_bytes;
use crate::table::PairTable;
use vstd::prelude::*;

verus! {

/// The pair of tokens at `i` and `i + 1` has a merge rank.
pub open spec fn ranked(
    ranks: Map<(Seq<u8>, Seq<u8>), u32>,
    word: Seq<Seq<u8>>,
    i: int,
) -> bool {
    0 <= i && i + 1 < word.len() && ranks.contains_key((word[i], word[i + 1]))
}

/// The merge rank of the pair at `i`.
pub open spec fn rank_at(
    ranks: Map<(Seq<u8>, Seq<u8>), u32>,
    word: Seq<Seq<u8>>,
    i: int,
) -> u32 {
    ranks[(word[i], word[i + 1])]
}

/// The pair at `i` is merged next: no ranked pair has a lower rank, and none of
/// the same rank stands to its left.
pub open spec fn is_best(
    ranks: Map<(Seq<u8>, Seq<u8>), u32>,
    word: Seq<Seq<u8>>,
    i: int,
) -> bool {
    &&& ranked(ranks, word, i)
    &&& forall|j: int| #[trigger]
        ranked(ranks, word, j) ==> rank_at(ranks, word, i) < rank_at(ranks, word, j) || (rank_at(
            ranks,
            word,
            i,
        ) == rank_at(ranks, word, j) && i <= j)
}

/// Every occurrence of `left` before `right`, taken from the left without
/// overlap, replaced by their concatenation.
pub open spec fn merge_pair(word: Seq<Seq<u8>>, left: Seq<u8>, right: Seq<u8>) -> Seq<Seq<u8>>
    decreases word.len(),
{
    if word.len() == 0 {
        Seq::empty()
    } else if word.len() >= 2 && word[0] == left && word[1] == right {
        seq![left + right] + merge_pair(word.skip(2), left, right)
    } else {
        seq![word[0]] + merge_pair(word.skip(1), left, right)
    }
}

/// The tokens that are left when no adjacent pair is ranked any more.
pub open spec fn merge_word(
    ranks: Map<(Seq<u8>, Seq<u8>), u32>,
    word: Seq<Seq<u8>>,
) -> Seq<Seq<u8>>
    decreases word.len(),
{
    if exists|i: int| is_best(ranks, word, i) {
        let i = choose|i: int| is_best(ranks, word, i);
        proof {
            lemma_merge_pair_shrinks(word, i);
        }
        merge_word(ranks, merge_pair(word, word[i], word[i + 1]))
    } else {
        word
    }
}

/// The bytes of a piece as one-byte tokens.
pub open spec fn single_bytes(bytes: Seq<u8>) -> Seq<Seq<u8>> {
    Seq::new(bytes.len(), |i: int| seq![bytes[i]])
}

/// The tokens of a piece.
pub open spec fn bpe_tokens(ranks: Map<(Seq<u8>, Seq<u8>), u32>, bytes: Seq<u8>) -> Seq<Seq<u8>> {
    merge_word(ranks, single_bytes(bytes))
}

/// The tokens of a list of byte vectors.
pub open spec fn tokens_of(word: Seq<Vec<u8>>) -> Seq<Seq<u8>> {
    Seq::new(word.len(), |i: int| word[i]@)
}

proof fn lemma_merge_pair_len(word: Seq<Seq<u8>>, left: Seq<u8>, right: Seq<u8>)
    ensures
        merge_pair(word, left, right).len() <= word.len(),
    decreases word.len(),
{
    if word.len() == 0 {
    } else if word.len() >= 2 && word[0] == left && word[1] == right {
        lemma_merge_pair_len(word.skip(2), left, right);
    } else {
        lemma_merge_pair_len(word.skip(1), left, right);
    }
}

/// Merging a pair that occurs shortens the word.
pub proof fn lemma_merge_pair_shrinks(word: Seq<Seq<u8>>, i: int)
    requires
        0 <= i,
        i + 1 < word.len(),
    ensures
        merge_pair(word, word[i], word[i + 1]).len() < word.len(),
    decreases word.len(),
{
    let left = word[i];
    let right = word[i + 1];
    if word[0] == left && word[1] == right {
        lemma_merge_pair_len(word.skip(2), left, right);
    } else {
        assert(i > 0);
        let rest = word.skip(1);
        assert(rest[i - 1] == left && rest[i] == right);
        lemma_merge_pair_shrinks(rest, i - 1);
    }
}

proof fn lemma_merge_pair_concat(word: Seq<Seq<u8>>, left: Seq<u8>, right: Seq<u8>)
    ensures
        concat(merge_pair(word, left, right)) == concat(word),
    decreases word.len(),
{
    if word.len() == 0 {
    } else if word.len() >= 2 && word[0] == left && word[1] == right {
        let rest = merge_pair(word.skip(2), left, right);
        let merged = merge_pair(word, left, right);
        lemma_merge_pair_concat(word.skip(2), left, right);
        assert(merged.skip(1) =~= rest);
        assert(word.skip(1).skip(1) =~= word.skip(2));
        assert(concat(merged) =~= (left + right) + concat(rest));
        assert(concat(word.skip(1)) == right + concat(word.skip(2)));
        assert(concat(word) == left + concat(word.skip(1)));
        assert(concat(merged) =~= concat(word));
    } else {
        let rest = merge_pair(word.skip(1), left, right);
        let merged = merge_pair(word, left, right);
        lemma_merge_pair_concat(word.skip(1), left, right);
        assert(merged.skip(1) =~= rest);
    }
}

proof fn lemma_merge_word_concat(ranks: Map<(Seq<u8>, Seq<u8>), u32>, word: Seq<Seq<u8>>)
    ensures
        concat(merge_word(ranks, word)) == concat(word),
    decreases word.len(),
{
    if exists|i: int| is_best(ranks, word, i) {
        let i = choose|i: int| is_best(ranks, word, i);
        lemma_merge_pair_shrinks(word, i);
        lemma_merge_pair_concat(word, word[i], word[i + 1]);
        lemma_merge_word_concat(ranks, merge_pair(word, word[i], word[i + 1]));
    }
}

proof fn lemma_single_bytes_concat(bytes: Seq<u8>)
    ensures
        concat(single_bytes(bytes)) == bytes,
    decreases bytes.len(),
{
    let parts = single_bytes(bytes);
    if bytes.len() > 0 {
        assert(parts.skip(1) =~= single_bytes(bytes.skip(1)));
        lemma_single_bytes_concat(bytes.skip(1));
        assert(concat(parts) =~= seq![bytes[0]] + bytes.skip(1));
        assert(seq![bytes[0]] + bytes.skip(1) =~= bytes);
    }
}

/// Merging moves no byte: the tokens of a piece, joined, are the piece.
pub proof fn law_tokens_cover_piece(ranks: Map<(Seq<u8>, Seq<u8>), u32>, bytes: Seq<u8>)
    ensures
        concat(bpe_tokens(ranks, bytes)) == bytes,
{
    lemma_single_bytes_concat(bytes);
    lemma_merge_word_concat(ranks, single_bytes(bytes));
}

/// A word with a ranked pair has a best one.
pub proof fn lemma_best_exists(
    ranks: Map<(Seq<u8>, Seq<u8>), u32>,
    word: Seq<Seq<u8>>,
    i: int,
) -> (b: int)
    requires
        ranked(ranks, word, i),
    ensures
        is_best(ranks, word, b),
    decreases rank_at(ranks, word, i), i,
{
    if is_best(ranks, word, i) {
        i
    } else {
        let j = choose|j: int| #[trigger]
            ranked(ranks, word, j) && !(rank_at(ranks, word, i) < rank_at(ranks, word, j) || (
            rank_at(ranks, word, i) == rank_at(ranks, word, j) && i <= j));
        lemma_best_exists(ranks, word, j)
    }
}

/// Merging is complete: no adjacent pair of the result is ranked.
pub proof fn law_merging_is_complete(
    ranks: Map<(Seq<u8>, Seq<u8>), u32>,
    bytes: Seq<u8>,
    i: int,
)
    ensures
        !ranked(ranks, bpe_tokens(ranks, bytes), i),
{
    lemma_merge_word_complete(ranks, single_bytes(bytes), i);
}

proof fn lemma_merge_word_complete(
    ranks: Map<(Seq<u8>, Seq<u8>), u32>,
    word: Seq<Seq<u8>>,
    i: int,
)
    ensures
        !ranked(ranks, merge_word(ranks, word), i),
    decreases word.len(),
{
    if exists|b: int| is_best(ranks, word, b) {
        let b = choose|b: int| is_best(ranks, word, b);
        lemma_merge_pair_shrinks(word, b);
        lemma_merge_word_complete(ranks, merge_pair(word, word[b], word[b + 1]), i);
    } else if ranked(ranks, word, i) {
        let b = lemma_best_exists(ranks, word, i);
        assert(is_best(ranks, word, b));
    }
}

/// The token at `k` of the joined word is the pair where the pair stands at its mark, and
/// otherwise the one token there.
pub open spec fn joins_at(
    word: Seq<Seq<u8>>,
    left: Seq<u8>,
    right: Seq<u8>,
    marks: Seq<int>,
    joined: Seq<Seq<u8>>,
    k: int,
) -> bool {
    let m = marks[k];
    &&& 0 <= m < word.len()
    &&& if m + 1 < word.len() && word[m] == left && word[m + 1] == right {
        marks[k + 1] == m + 2 && joined[k] == left + right
    } else {
        marks[k + 1] == m + 1 && joined[k] == word[m]
    }
}

/// One word is another with `left` before `right` joined wherever they stand, taken from
/// the left: `marks` are the places in the first at which the tokens of the second begin.
pub open spec fn joins(
    word: Seq<Seq<u8>>,
    left: Seq<u8>,
    right: Seq<u8>,
    marks: Seq<int>,
    joined: Seq<Seq<u8>>,
) -> bool {
    &&& marks.len() == joined.len() + 1
    &&& marks[0] == 0
    &&& marks.last() == word.len()
    &&& forall|k: int|
        0 <= k < joined.len() ==> #[trigger] joins_at(word, left, right, marks, joined, k)
}

/// The token at a place and the one after it.
pub open spec fn neighbours(word: Seq<Seq<u8>>, i: int) -> (Seq<u8>, Seq<u8>) {
    (word[i], word[i + 1])
}

/// One word is another with a pair joined wherever it stands.
pub open spec fn is_joined(
    word: Seq<Seq<u8>>,
    left: Seq<u8>,
    right: Seq<u8>,
    joined: Seq<Seq<u8>>,
) -> bool {
    exists|marks: Seq<int>| joins(word, left, right, marks, joined)
}

/// One merge: the pair at `i` has a rank, no other pair has a lower one, none further left
/// the same, and it is joined everywhere.
pub open spec fn merges(
    ranks: Map<(Seq<u8>, Seq<u8>), u32>,
    word: Seq<Seq<u8>>,
    i: int,
    joined: Seq<Seq<u8>>,
) -> bool {
    &&& 0 <= i < word.len() - 1
    &&& ranks.contains_key(neighbours(word, i))
    &&& forall|j: int|
        #![trigger neighbours(word, j)]
        0 <= j < word.len() - 1 && ranks.contains_key(neighbours(word, j)) ==> {
            &&& ranks[neighbours(word, i)] <= ranks[neighbours(word, j)]
            &&& j < i ==> ranks[neighbours(word, i)] < ranks[neighbours(word, j)]
        }
    &&& is_joined(word, word[i], word[i + 1], joined)
}

/// One word is another after one merge.
pub open spec fn merged_once(
    ranks: Map<(Seq<u8>, Seq<u8>), u32>,
    word: Seq<Seq<u8>>,
    joined: Seq<Seq<u8>>,
) -> bool {
    exists|i: int| merges(ranks, word, i, joined)
}

proof fn lemma_joins(word: Seq<Seq<u8>>, left: Seq<u8>, right: Seq<u8>) -> (marks: Seq<int>)
    ensures
        joins(word, left, right, marks, merge_pair(word, left, right)),
    decreases word.len(),
{
    let joined = merge_pair(word, left, right);
    if word.len() == 0 {
        let marks = seq![0int];
        assert(joined.len() == 0);
        assert(joins(word, left, right, marks, joined));
        marks
    } else {
        let step: int = if word.len() >= 2 && word[0] == left && word[1] == right {
            2
        } else {
            1
        };
        let rest = word.skip(step);
        let tail = lemma_joins(rest, left, right);
        let after = merge_pair(rest, left, right);
        let marks = seq![0int] + Seq::new(tail.len(), |k: int| tail[k] + step);
        assert(joined.len() == after.len() + 1);
        assert(marks.last() == tail.last() + step);
        assert forall|k: int| 0 <= k < joined.len() implies #[trigger] joins_at(
            word,
            left,
            right,
            marks,
            joined,
            k,
        ) by {
            if k == 0 {
                assert(marks[1] == tail[0] + step);
            } else {
                assert(joined[k] == after[k - 1]);
                let m = tail[k - 1];
                assert(joins_at(rest, left, right, tail, after, k - 1));
                assert(rest[m] == word[m + step]);
                if m + 1 < rest.len() {
                    assert(rest[m + 1] == word[m + 1 + step]);
                }
            }
        }
        assert(marks.len() == joined.len() + 1);
        assert(marks.last() == word.len());
        assert(joins(word, left, right, marks, joined));
        marks
    }
}

proof fn lemma_merges(ranks: Map<(Seq<u8>, Seq<u8>), u32>, word: Seq<Seq<u8>>, i: int)
    requires
        is_best(ranks, word, i),
    ensures
        merges(ranks, word, i, merge_pair(word, word[i], word[i + 1])),
{
    let marks = lemma_joins(word, word[i], word[i + 1]);
    assert forall|j: int|
        #![trigger neighbours(word, j)]
        0 <= j < word.len() - 1 && ranks.contains_key(neighbours(word, j)) implies {
        &&& ranks[neighbours(word, i)] <= ranks[neighbours(word, j)]
        &&& j < i ==> ranks[neighbours(word, i)] < ranks[neighbours(word, j)]
    } by {
        assert(ranked(ranks, word, j));
    }
}

proof fn lemma_trace(ranks: Map<(Seq<u8>, Seq<u8>), u32>, word: Seq<Seq<u8>>) -> (trace: Seq<
    Seq<Seq<u8>>,
>)
    ensures
        trace.len() > 0,
        trace[0] == word,
        trace.last() == merge_word(ranks, word),
        forall|s: int|
            #![trigger trace[s]]
            0 <= s < trace.len() - 1 ==> merged_once(ranks, trace[s], trace[s + 1]),
    decreases word.len(),
{
    if exists|i: int| is_best(ranks, word, i) {
        let i = choose|i: int| is_best(ranks, word, i);
        lemma_merge_pair_shrinks(word, i);
        let next = merge_pair(word, word[i], word[i + 1]);
        lemma_merges(ranks, word, i);
        let tail = lemma_trace(ranks, next);
        let trace = seq![word] + tail;
        assert forall|s: int|
            #![trigger trace[s]]
            0 <= s < trace.len() - 1 implies merged_once(ranks, trace[s], trace[s + 1]) by {
            if s == 0 {
                assert(merges(ranks, trace[0], i, trace[1]));
            } else {
                assert(trace[s] == tail[s - 1] && trace[s + 1] == tail[s]);
            }
        }
        trace
    } else {
        seq![word]
    }
}

/// The tokens of a piece come about from its single bytes by merges alone, each of them the
/// pair of lowest rank, leftmost on ties, joined wherever it stands; and they are left where
/// no two neighbours have a rank.
pub proof fn law_merges_follow_the_ranks(
    ranks: Map<(Seq<u8>, Seq<u8>), u32>,
    bytes: Seq<u8>,
) -> (trace: Seq<Seq<Seq<u8>>>)
    ensures
        trace.len() > 0,
        trace[0].len() == bytes.len(),
        forall|i: int| 0 <= i < bytes.len() ==> #[trigger] trace[0][i] == seq![bytes[i]],
        forall|s: int|
            #![trigger trace[s]]
            0 <= s < trace.len() - 1 ==> merged_once(ranks, trace[s], trace[s + 1]),
        trace.last() == bpe_tokens(ranks, bytes),
        forall|i: int|
            #![trigger trace.last()[i]]
            0 <= i < trace.last().len() - 1 ==> !ranks.contains_key(
                (trace.last()[i], trace.last()[i + 1]),
            ),
{
    let trace = lemma_trace(ranks, single_bytes(bytes));
    let last = bpe_tokens(ranks, bytes);
    assert forall|i: int|
        #![trigger trace.last()[i]]
        0 <= i < trace.last().len() - 1 implies !ranks.contains_key((last[i], last[i + 1])) by {
        law_merging_is_complete(ranks, bytes, i);
    }
    trace
}

/// A vocabulary that holds every byte and the result of every ranked merge.
pub open spec fn closed_vocabulary(
    ids: Map<Seq<u8>, u32>,
    ranks: Map<(Seq<u8>, Seq<u8>), u32>,
) -> bool {
    &&& forall|b: u8| ids.contains_key(#[trigger] seq![b])
    &&& forall|l: Seq<u8>, r: Seq<u8>| #[trigger]
        ranks.contains_key((l, r)) ==> ids.contains_key(l + r)
}

/// Every token of the word is in the vocabulary.
pub open spec fn in_vocabulary(ids: Map<Seq<u8>, u32>, word: Seq<Seq<u8>>) -> bool {
    forall|i: int| 0 <= i < word.len() ==> ids.contains_key(#[trigger] word[i])
}

proof fn lemma_merge_pair_in_vocabulary(
    ids: Map<Seq<u8>, u32>,
    word: Seq<Seq<u8>>,
    left: Seq<u8>,
    right: Seq<u8>,
)
    requires
        in_vocabulary(ids, word),
        ids.contains_key(left + right),
    ensures
        in_vocabulary(ids, merge_pair(word, left, right)),
    decreases word.len(),
{
    let merged = merge_pair(word, left, right);
    if word.len() == 0 {
    } else if word.len() >= 2 && word[0] == left && word[1] == right {
        assert(in_vocabulary(ids, word.skip(2))) by {
            assert forall|i: int| 0 <= i < word.skip(2).len() implies ids.contains_key(
                #[trigger] word.skip(2)[i],
            ) by {
                assert(word.skip(2)[i] == word[i + 2]);
            }
        }
        lemma_merge_pair_in_vocabulary(ids, word.skip(2), left, right);
        let rest = merge_pair(word.skip(2), left, right);
        assert forall|i: int| 0 <= i < merged.len() implies ids.contains_key(
            #[trigger] merged[i],
        ) by {
            if i > 0 {
                assert(merged[i] == rest[i - 1]);
            }
        }
    } else {
        assert(in_vocabulary(ids, word.skip(1))) by {
            assert forall|i: int| 0 <= i < word.skip(1).len() implies ids.contains_key(
                #[trigger] word.skip(1)[i],
            ) by {
                assert(word.skip(1)[i] == word[i + 1]);
            }
        }
        lemma_merge_pair_in_vocabulary(ids, word.skip(1), left, right);
        let rest = merge_pair(word.skip(1), left, right);
        assert forall|i: int| 0 <= i < merged.len() implies ids.contains_key(
            #[trigger] merged[i],
        ) by {
            if i > 0 {
                assert(merged[i] == rest[i - 1]);
            } else {
                assert(merged[0] == word[0]);
            }
        }
    }
}

proof fn lemma_merge_word_in_vocabulary(
    ids: Map<Seq<u8>, u32>,
    ranks: Map<(Seq<u8>, Seq<u8>), u32>,
    word: Seq<Seq<u8>>,
)
    requires
        closed_vocabulary(ids, ranks),
        in_vocabulary(ids, word),
    ensures
        in_vocabulary(ids, merge_word(ranks, word)),
    decreases word.len(),
{
    if exists|i: int| is_best(ranks, word, i) {
        let i = choose|i: int| is_best(ranks, word, i);
        lemma_merge_pair_shrinks(word, i);
        assert(ranks.contains_key((word[i], word[i + 1])));
        lemma_merge_pair_in_vocabulary(ids, word, word[i], word[i + 1]);
        lemma_merge_word_in_vocabulary(ids, ranks, merge_pair(word, word[i], word[i + 1]));
    }
}

/// A closed vocabulary covers any byte string: every token that merging leaves has
/// an id.
pub proof fn law_closed_vocabulary_covers(
    ids: Map<Seq<u8>, u32>,
    ranks: Map<(Seq<u8>, Seq<u8>), u32>,
    bytes: Seq<u8>,
)
    requires
        closed_vocabulary(ids, ranks),
    ensures
        in_vocabulary(ids, bpe_tokens(ranks, bytes)),
{
    assert(in_vocabulary(ids, single_bytes(bytes)));
    lemma_merge_word_in_vocabulary(ids, ranks, single_bytes(bytes));
}

/// Finds the pair that is merged next.
fn find_best(ranks: &PairTable, word: &Vec<Vec<u8>>) -> (best: Option<usize>)
    requires
        ranks.wf(),
    ensures
        best matches Some(b) ==> is_best(ranks@, tokens_of(word@), b as int),
        best is None ==> forall|j: int| !#[trigger] ranked(ranks@, tokens_of(word@), j),
{
    let ghost w = tokens_of(word@);
    let mut best: Option<(u32, usize)> = None;
    let n: usize = word.len();
    let mut i: usize = 0;
    while i + 1 < n
        invariant
            n == word@.len(),
            w == tokens_of(word@),
            ranks.wf(),
            i <= n,
            n > 0 ==> i < n,
            best matches Some((r, b)) ==> {
                &&& b < i
                &&& ranked(ranks@, w, b as int)
                &&& r == rank_at(ranks@, w, b as int)
                &&& forall|j: int|
                    j < i && #[trigger] ranked(ranks@, w, j) ==> r < rank_at(ranks@, w, j) || (r
                        == rank_at(ranks@, w, j) && b <= j)
            },
            best is None ==> forall|j: int| j < i ==> !#[trigger] ranked(ranks@, w, j),
        decreases n - i,
    {
        let found = ranks.get(word[i].as_slice(), word[i + 1].as_slice());
        proof {
            assert(w[i as int] == word@[i as int]@ && w[i + 1] == word@[i + 1]@);
        }
        match found {
            Some(rank) => {
                let better = match best {
                    Some((old_rank, _)) => rank < old_rank,
                    None => true,
                };
                if better {
                    best = Some((rank, i));
                }
            },
            None => {},
        }
        i += 1;
    }
    match best {
        Some((_, b)) => Some(b),
        None => None,
    }
}

/// Replaces every occurrence of a pair, from the left, by its concatenation.
fn apply_merge(word: &Vec<Vec<u8>>, left: &[u8], right: &[u8]) -> (merged: Vec<Vec<u8>>)
    ensures
        tokens_of(merged@) == merge_pair(tokens_of(word@), left@, right@),
{
    let ghost w = tokens_of(word@);
    let ghost goal = merge_pair(w, left@, right@);
    let n: usize = word.len();
    let mut merged: Vec<Vec<u8>> = Vec::with_capacity(n);
    let mut i: usize = 0;
    proof {
        assert(w.skip(0) =~= w);
        assert(tokens_of(merged@) + goal =~= goal);
    }
    while i < n
        invariant
            i <= n,
            n == word@.len(),
            w == tokens_of(word@),
            goal == tokens_of(merged@) + merge_pair(w.skip(i as int), left@, right@),
        decreases n - i,
    {
        let ghost before = merged@;
        let ghost rest = w.skip(i as int);
        proof {
            assert(rest[0] == word@[i as int]@);
            assert(n - i > 1 ==> rest[1] == word@[i + 1]@);
        }
        if n - i > 1 && same_bytes(word[i].as_slice(), left) && same_bytes(
            word[i + 1].as_slice(),
            right,
        ) {
            let mut token: Vec<u8> = copy_bytes(left);
            let mut tail: Vec<u8> = copy_bytes(right);
            token.append(&mut tail);
            merged.push(token);
            i += 2;
            proof {
                assert(rest.skip(2) =~= w.skip(i as int));
                assert(tokens_of(merged@) =~= tokens_of(before).push(left@ + right@));
                assert(goal =~= tokens_of(merged@) + merge_pair(w.skip(i as int), left@, right@));
            }
        } else {
            let token: Vec<u8> = copy_bytes(word[i].as_slice());
            merged.push(token);
            i += 1;
            proof {
                assert(rest.skip(1) =~= w.skip(i as int));
                assert(tokens_of(merged@) =~= tokens_of(before).push(rest[0]));
                assert(goal =~= tokens_of(merged@) + merge_pair(w.skip(i as int), left@, right@));
            }
        }
    }
    proof {
        assert(goal =~= tokens_of(merged@));
    }
    merged
}

/// Merges a piece's bytes until no adjacent pair is ranked.
pub fn merge_bytes(ranks: &PairTable, bytes: &[u8]) -> (tokens: Vec<Vec<u8>>)
    requires
        ranks.wf(),
    ensures
        tokens_of(tokens@) == bpe_tokens(ranks@, bytes@),
{
    let mut word: Vec<Vec<u8>> = Vec::with_capacity(bytes.len());
    for i in 0..bytes.len()
        invariant
            tokens_of(word@) == single_bytes(bytes@).take(i as int),
    {
        let mut one: Vec<u8> = Vec::with_capacity(1);
        one.push(bytes[i]);
        let ghost before = word@;
        proof {
            assert(one@ =~= seq![bytes@[i as int]]);
        }
        word.push(one);
        proof {
            assert(tokens_of(word@) =~= tokens_of(before).push(seq![bytes@[i as int]]));
            assert(single_bytes(bytes@).take(i + 1) =~= single_bytes(bytes@).take(i as int).push(
                seq![bytes@[i as int]],
            ));
        }
    }
    proof {
        assert(single_bytes(bytes@).take(bytes@.len() as int) =~= single_bytes(bytes@));
    }
    loop
        invariant
            ranks.wf(),
            merge_word(ranks@, tokens_of(word@)) == bpe_tokens(ranks@, bytes@),
        ensures
            tokens_of(word@) == bpe_tokens(ranks@, bytes@),
        decreases word@.len(),
    {
        let ghost w = tokens_of(word@);
        match find_best(ranks, &word) {
            None => {
                proof {
                    if exists|i: int| is_best(ranks@, w, i) {
                        let i = choose|i: int| is_best(ranks@, w, i);
                        assert(ranked(ranks@, w, i));
                    }
                }
                break;
            },
            Some(b) => {
                let left: Vec<u8> = copy_bytes(word[b].as_slice());
                let right: Vec<u8> = copy_bytes(word[b + 1].as_slice());
                let merged: Vec<Vec<u8>> = apply_merge(&word, left.as_slice(), right.as_slice());
                proof {
                    let c = choose|i: int| is_best(ranks@, w, i);
                    assert(is_best(ranks@, w, b as int));
                    assert(ranked(ranks@, w, c) && ranked(ranks@, w, b as int));
                    assert(c == b);
                    lemma_merge_pair_shrinks(w, b as int);
                    assert(tokens_of(merged@).len() == merged@.len());
                }
                word = merged;
            },
        }
    }
    word
}

} // verus!
