//! Splitting text into the pieces that byte-pair merging works on: contractions,
//! letter runs with an optional prefix, single numerals, symbol runs, and the
//! white-space alternatives, tried in that order at each position.

use crate::unicode::chars_of;
use crate::unicode::is_letter;
use crate::unicode::is_number;
use crate::unicode::is_white_space;
use crate::unicode::text_of;
use vstd::prelude::*;

verus! {

/// What the splitter needs to know of a character.
#[derive(Clone, Copy)]
pub struct CharClass {
    /// General category L.
    pub letter: bool,
    /// General category N.
    pub number: bool,
    /// White space.
    pub space: bool,
}

/// The class of a character.
pub open spec fn class_of(c: char) -> CharClass {
    CharClass {
        letter: crate::unicode::letter(c),
        number: crate::unicode::number(c),
        space: crate::unicode::white_space(c),
    }
}

/// The classes of a text.
pub open spec fn classes_of(text: Seq<char>) -> Seq<CharClass> {
    Seq::new(text.len(), |i: int| class_of(text[i]))
}

/// Carriage return or line feed.
pub open spec fn newline(c: char) -> bool {
    c == '\r' || c == '\n'
}

/// Neither white space nor letter nor number.
pub open spec fn symbol(k: CharClass) -> bool {
    !k.space && !k.letter && !k.number
}

/// Where the run of positions that satisfy `p` ends, started at `i`, within `n`.
pub open spec fn run_end(p: spec_fn(int) -> bool, i: int, n: int) -> int
    decreases n - i,
{
    if i < n && p(i) {
        run_end(p, i + 1, n)
    } else {
        i
    }
}

/// The end of the last newline in `[i, end)`, or `i` where there is none.
pub open spec fn newline_end(text: Seq<char>, i: int, end: int) -> int
    decreases end - i,
{
    if end <= i || newline(text[end - 1]) {
        if end < i { i } else { end }
    } else {
        newline_end(text, i, end - 1)
    }
}

/// `'re`, `'ve`, `'ll`, `'s`, `'t`, `'m`, `'d` in either case at `i`: the length,
/// or 0.
pub open spec fn contraction_len(text: Seq<char>, i: int) -> int {
    if !(0 <= i < text.len() && text[i] == '\'') {
        0
    } else if i + 2 < text.len() && two_letter_suffix(text[i + 1], text[i + 2]) {
        3
    } else if i + 1 < text.len() && one_letter_suffix(text[i + 1]) {
        2
    } else {
        0
    }
}

/// `re`, `ve` or `ll` in either case.
pub open spec fn two_letter_suffix(a: char, b: char) -> bool {
    ||| (a == 'r' || a == 'R') && (b == 'e' || b == 'E')
    ||| (a == 'v' || a == 'V') && (b == 'e' || b == 'E')
    ||| (a == 'l' || a == 'L') && (b == 'l' || b == 'L')
}

/// `s`, `t`, `m` or `d` in either case.
pub open spec fn one_letter_suffix(a: char) -> bool {
    a == 's' || a == 'S' || a == 't' || a == 'T' || a == 'm' || a == 'M' || a == 'd' || a == 'D'
}

/// A letter run at `i`, with at most one leading character that is neither
/// newline nor letter nor number: the length, or 0.
pub open spec fn letters_len(text: Seq<char>, k: Seq<CharClass>, i: int) -> int {
    let start = if !newline(text[i]) && !k[i].letter && !k[i].number { i + 1 } else { i };
    if start < text.len() && k[start].letter {
        run_end(|j: int| k[j].letter, start, text.len() as int) - i
    } else {
        0
    }
}

/// A symbol run at `i`, with at most one leading space, and the newlines behind
/// it: the length, or 0.
pub open spec fn symbols_len(text: Seq<char>, k: Seq<CharClass>, i: int) -> int {
    let n = text.len() as int;
    let start = if text[i] == ' ' && i + 1 < n && symbol(k[i + 1]) { i + 1 } else { i };
    if symbol(k[start]) {
        let end = run_end(|j: int| symbol(k[j]), start, n);
        run_end(|j: int| newline(text[j]), end, n) - i
    } else {
        0
    }
}

/// A white-space run at `i`: through its last newline if it has one; else all of
/// it at the end of the text; else all but its last character, if more than one.
pub open spec fn spaces_len(text: Seq<char>, k: Seq<CharClass>, i: int) -> int {
    let n = text.len() as int;
    let end = run_end(|j: int| k[j].space, i, n);
    let through = newline_end(text, i, end);
    if through > i {
        through - i
    } else if end == n || end - i == 1 {
        end - i
    } else {
        end - i - 1
    }
}

/// The length of the piece that starts at `i`.
pub open spec fn piece_len(text: Seq<char>, k: Seq<CharClass>, i: int) -> int {
    if contraction_len(text, i) > 0 {
        contraction_len(text, i)
    } else if letters_len(text, k, i) > 0 {
        letters_len(text, k, i)
    } else if k[i].number {
        1
    } else if symbols_len(text, k, i) > 0 {
        symbols_len(text, k, i)
    } else if k[i].space {
        spaces_len(text, k, i)
    } else {
        1
    }
}

/// The pieces from position `i` on.
pub open spec fn pieces_from(text: Seq<char>, k: Seq<CharClass>, i: int) -> Seq<Seq<char>>
    decreases text.len() - i,
{
    let n = piece_len(text, k, i);
    if !(0 <= i < text.len()) || n <= 0 || i + n > text.len() {
        Seq::empty()
    } else {
        seq![text.subrange(i, i + n)] + pieces_from(text, k, i + n)
    }
}

/// The pieces of a text whose characters have the classes `k`.
pub open spec fn pieces(text: Seq<char>, k: Seq<CharClass>) -> Seq<Seq<char>> {
    pieces_from(text, k, 0)
}

/// The pieces of a text.
pub open spec fn pre_tokens(text: Seq<char>) -> Seq<Seq<char>> {
    pieces(text, classes_of(text))
}

/// A run ends where its predicate first fails, or at the limit.
pub proof fn lemma_run_end(p: spec_fn(int) -> bool, i: int, n: int)
    requires
        i <= n,
    ensures
        i <= run_end(p, i, n) <= n,
        forall|j: int| i <= j < run_end(p, i, n) ==> #[trigger] p(j),
        run_end(p, i, n) < n ==> !p(run_end(p, i, n)),
        i < n && p(i) ==> i < run_end(p, i, n),
    decreases n - i,
{
    if i < n && p(i) {
        lemma_run_end(p, i + 1, n);
    }
}

/// A run is found by its two properties: every position in it satisfies the
/// predicate, and it cannot be extended.
proof fn lemma_run_end_is(p: spec_fn(int) -> bool, i: int, e: int, n: int)
    requires
        i <= e <= n,
        forall|j: int| i <= j < e ==> #[trigger] p(j),
        e < n ==> !p(e),
    ensures
        run_end(p, i, n) == e,
    decreases n - i,
{
    if i < e {
        assert(p(i));
        lemma_run_end_is(p, i + 1, e, n);
    }
}

proof fn lemma_newline_end(text: Seq<char>, i: int, end: int)
    requires
        i <= end,
    ensures
        i <= newline_end(text, i, end) <= end,
    decreases end - i,
{
    if i < end && !newline(text[end - 1]) {
        lemma_newline_end(text, i, end - 1);
    }
}

/// Every piece is non-empty and ends within the text.
pub proof fn lemma_piece_len(text: Seq<char>, k: Seq<CharClass>, i: int)
    requires
        0 <= i < text.len(),
        k.len() == text.len(),
    ensures
        1 <= piece_len(text, k, i) <= text.len() - i,
{
    let n = text.len() as int;
    let l = if !newline(text[i]) && !k[i].letter && !k[i].number { i + 1 } else { i };
    if l < n {
        lemma_run_end(|j: int| k[j].letter, l, n);
    }
    let s = if text[i] == ' ' && i + 1 < n && symbol(k[i + 1]) { i + 1 } else { i };
    lemma_run_end(|j: int| symbol(k[j]), s, n);
    let e = run_end(|j: int| symbol(k[j]), s, n);
    lemma_run_end(|j: int| newline(text[j]), e, n);
    lemma_run_end(|j: int| k[j].space, i, n);
    lemma_newline_end(text, i, run_end(|j: int| k[j].space, i, n));
}

/// The concatenation of a list of sequences.
pub open spec fn concat<A>(parts: Seq<Seq<A>>) -> Seq<A>
    decreases parts.len(),
{
    if parts.len() == 0 {
        Seq::empty()
    } else {
        parts[0] + concat(parts.skip(1))
    }
}

/// Concatenation distributes over joining two lists.
pub proof fn lemma_concat_add<A>(a: Seq<Seq<A>>, b: Seq<Seq<A>>)
    ensures
        concat(a + b) == concat(a) + concat(b),
    decreases a.len(),
{
    if a.len() == 0 {
        assert(a + b =~= b);
        assert(concat(a) + concat(b) =~= concat(b));
    } else {
        assert((a + b).skip(1) =~= a.skip(1) + b);
        lemma_concat_add(a.skip(1), b);
        assert(concat(a + b) =~= concat(a) + concat(b));
    }
}

/// Appending one part appends its items.
pub proof fn lemma_concat_push<A>(a: Seq<Seq<A>>, b: Seq<A>)
    ensures
        concat(a.push(b)) == concat(a) + b,
{
    assert(a.push(b) =~= a + seq![b]);
    lemma_concat_add(a, seq![b]);
    assert(seq![b].skip(1) =~= Seq::<Seq<A>>::empty());
    assert(concat(seq![b]) =~= b) by {
        assert(concat(seq![b].skip(1)) =~= Seq::<A>::empty());
    }
}

proof fn lemma_pieces_from_cover(text: Seq<char>, k: Seq<CharClass>, i: int)
    requires
        0 <= i <= text.len(),
        k.len() == text.len(),
    ensures
        concat(pieces_from(text, k, i)) == text.skip(i),
        forall|j: int|
            0 <= j < pieces_from(text, k, i).len() ==> (#[trigger] pieces_from(text, k, i)[j]).len()
                > 0,
    decreases text.len() - i,
{
    if i < text.len() {
        lemma_piece_len(text, k, i);
        let n = piece_len(text, k, i);
        lemma_pieces_from_cover(text, k, i + n);
        let rest = pieces_from(text, k, i + n);
        let all = pieces_from(text, k, i);
        assert(all =~= seq![text.subrange(i, i + n)] + rest);
        assert(all.skip(1) =~= rest);
        assert(all[0] == text.subrange(i, i + n));
        assert(concat(all) =~= text.skip(i));
        assert forall|j: int| 0 <= j < all.len() implies (#[trigger] all[j]).len() > 0 by {
            if j > 0 {
                assert(all[j] == rest[j - 1]);
            }
        }
    } else {
        assert(text.skip(i) =~= Seq::<char>::empty());
    }
}

/// The splitter never drops text: the pieces of a text, joined, are the text, and
/// none of them is empty.
pub proof fn law_pieces_cover_text(text: Seq<char>)
    ensures
        concat(pre_tokens(text)) == text,
        forall|j: int| 0 <= j < pre_tokens(text).len() ==> (#[trigger] pre_tokens(text)[j]).len() > 0,
{
    lemma_pieces_from_cover(text, classes_of(text), 0);
    assert(text.skip(0) =~= text);
}

/// A stretch of the text whose characters all satisfy `p` and that cannot be extended.
pub open spec fn whole_run(p: spec_fn(char) -> bool, text: Seq<char>, a: int, b: int) -> bool {
    &&& 0 <= a < b <= text.len()
    &&& forall|j: int| a <= j < b ==> p(#[trigger] text[j])
    &&& b < text.len() ==> !p(text[b])
}

/// `w`, which is in lower case, stands at `i` in either case.
pub open spec fn says(text: Seq<char>, i: int, w: Seq<char>) -> bool {
    &&& 0 <= i && i + w.len() <= text.len()
    &&& forall|j: int|
        0 <= j < w.len() ==> text[i + j] == #[trigger] w[j] || ('a' <= w[j] <= 'z' && text[i + j]
            as int + 32 == w[j] as int)
}

/// A punctuation mark or another character that is neither white space, letter nor number.
pub open spec fn mark(c: char) -> bool {
    !crate::unicode::white_space(c) && !crate::unicode::letter(c) && !crate::unicode::number(c)
}

/// `[s, e)` is the piece at `s` in the words of the pattern: a contraction; letters behind
/// at most one other character; a numeral; marks behind at most one blank, with the line
/// ends behind them; or white space.
pub open spec fn is_piece(text: Seq<char>, s: int, e: int) -> bool {
    let c = text[s];
    if says(text, s, "'re"@) || says(text, s, "'ve"@) || says(text, s, "'ll"@) {
        e == s + 3
    } else if says(text, s, "'s"@) || says(text, s, "'t"@) || says(text, s, "'m"@) || says(
        text,
        s,
        "'d"@,
    ) {
        e == s + 2
    } else if crate::unicode::letter(c) {
        whole_run(|x: char| crate::unicode::letter(x), text, s, e)
    } else if c != '\r' && c != '\n' && !crate::unicode::number(c) && s + 1 < text.len()
        && crate::unicode::letter(text[s + 1]) {
        whole_run(|x: char| crate::unicode::letter(x), text, s + 1, e)
    } else if crate::unicode::number(c) {
        e == s + 1
    } else if mark(c) {
        exists|m: int| #[trigger] marks_then_ends(text, s, m, e)
    } else if c == ' ' && s + 1 < text.len() && mark(text[s + 1]) {
        exists|m: int| #[trigger] marks_then_ends(text, s + 1, m, e)
    } else {
        exists|r: int| #[trigger] blanks(text, s, r, e)
    }
}

/// Marks in `[a, m)` and all line ends behind them, up to `e`.
pub open spec fn marks_then_ends(text: Seq<char>, a: int, m: int, e: int) -> bool {
    &&& whole_run(|x: char| mark(x), text, a, m)
    &&& m <= e <= text.len()
    &&& forall|j: int| m <= j < e ==> (#[trigger] text[j]) == '\r' || text[j] == '\n'
    &&& e < text.len() ==> text[e] != '\r' && text[e] != '\n'
}

/// Of the white space in `[s, r)` the part up to `e`: through its last line end where it has
/// one. Otherwise all of it at the end of the text; and before a word all but the last
/// blank, which goes to the word, unless it is the only one.
pub open spec fn blanks(text: Seq<char>, s: int, r: int, e: int) -> bool {
    &&& whole_run(|x: char| crate::unicode::white_space(x), text, s, r)
    &&& s < e <= r
    &&& if exists|j: int| s <= j < r && ((#[trigger] text[j]) == '\r' || text[j] == '\n') {
        &&& text[e - 1] == '\r' || text[e - 1] == '\n'
        &&& forall|j: int| e <= j < r ==> (#[trigger] text[j]) != '\r' && text[j] != '\n'
    } else if r == text.len() || r == s + 1 {
        e == r
    } else {
        e == r - 1
    }
}

proof fn lemma_says_two(text: Seq<char>, i: int, w: Seq<char>)
    requires
        w.len() == 2,
    ensures
        says(text, i, w) <==> 0 <= i && i + 2 <= text.len() && (text[i] == w[0] || ('a' <= w[0]
            <= 'z' && text[i] as int + 32 == w[0] as int)) && (text[i + 1] == w[1] || ('a' <= w[1]
            <= 'z' && text[i + 1] as int + 32 == w[1] as int)),
{
    if says(text, i, w) {
        assert(text[i + 0] == w[0] || ('a' <= w[0] <= 'z' && text[i + 0] as int + 32
            == w[0] as int));
        assert(text[i + 1] == w[1] || ('a' <= w[1] <= 'z' && text[i + 1] as int + 32
            == w[1] as int));
    }
}

proof fn lemma_says_three(text: Seq<char>, i: int, w: Seq<char>)
    requires
        w.len() == 3,
    ensures
        says(text, i, w) <==> 0 <= i && i + 3 <= text.len() && (text[i] == w[0] || ('a' <= w[0]
            <= 'z' && text[i] as int + 32 == w[0] as int)) && (text[i + 1] == w[1] || ('a' <= w[1]
            <= 'z' && text[i + 1] as int + 32 == w[1] as int)) && (text[i + 2] == w[2] || ('a'
            <= w[2] <= 'z' && text[i + 2] as int + 32 == w[2] as int)),
{
    if says(text, i, w) {
        assert(text[i + 0] == w[0] || ('a' <= w[0] <= 'z' && text[i + 0] as int + 32
            == w[0] as int));
        assert(text[i + 1] == w[1] || ('a' <= w[1] <= 'z' && text[i + 1] as int + 32
            == w[1] as int));
        assert(text[i + 2] == w[2] || ('a' <= w[2] <= 'z' && text[i + 2] as int + 32
            == w[2] as int));
    }
}

proof fn lemma_contraction(text: Seq<char>, i: int)
    requires
        0 <= i < text.len(),
    ensures
        contraction_len(text, i) == (if says(text, i, "'re"@) || says(text, i, "'ve"@) || says(
            text,
            i,
            "'ll"@,
        ) {
            3int
        } else if says(text, i, "'s"@) || says(text, i, "'t"@) || says(text, i, "'m"@) || says(
            text,
            i,
            "'d"@,
        ) {
            2
        } else {
            0
        }),
{
    reveal_strlit("'re");
    reveal_strlit("'ve");
    reveal_strlit("'ll");
    reveal_strlit("'s");
    reveal_strlit("'t");
    reveal_strlit("'m");
    reveal_strlit("'d");
    lemma_says_three(text, i, "'re"@);
    lemma_says_three(text, i, "'ve"@);
    lemma_says_three(text, i, "'ll"@);
    lemma_says_two(text, i, "'s"@);
    lemma_says_two(text, i, "'t"@);
    lemma_says_two(text, i, "'m"@);
    lemma_says_two(text, i, "'d"@);
}

proof fn lemma_letters(text: Seq<char>, s: int)
    requires
        0 <= s < text.len(),
    ensures
        ({
            let n = letters_len(text, classes_of(text), s);
            let c = text[s];
            let is_letter = |x: char| crate::unicode::letter(x);
            if crate::unicode::letter(c) {
                n > 0 && whole_run(is_letter, text, s, s + n)
            } else if c != '\r' && c != '\n' && !crate::unicode::number(c) && s + 1 < text.len()
                && crate::unicode::letter(text[s + 1]) {
                n > 0 && whole_run(is_letter, text, s + 1, s + n)
            } else {
                n == 0
            }
        }),
{
    let k = classes_of(text);
    let p = |j: int| k[j].letter;
    let start = if !newline(text[s]) && !k[s].letter && !k[s].number { s + 1 } else { s };
    if start < text.len() && k[start].letter {
        lemma_run_end(p, start, text.len() as int);
        let e = run_end(p, start, text.len() as int);
        assert forall|j: int| start <= j < e implies crate::unicode::letter(
            #[trigger] text[j],
        ) by {
            assert(p(j));
        }
    }
}

proof fn lemma_symbols(text: Seq<char>, s: int)
    requires
        0 <= s < text.len(),
    ensures
        ({
            let n = symbols_len(text, classes_of(text), s);
            let c = text[s];
            if mark(c) {
                n > 0 && exists|m: int| #[trigger] marks_then_ends(text, s, m, s + n)
            } else if c == ' ' && s + 1 < text.len() && mark(text[s + 1]) {
                n > 0 && exists|m: int| #[trigger] marks_then_ends(text, s + 1, m, s + n)
            } else {
                n == 0
            }
        }),
{
    let k = classes_of(text);
    let n = text.len() as int;
    let c = text[s];
    assert(crate::unicode::white_space(' '));
    let start = if text[s] == ' ' && s + 1 < n && symbol(k[s + 1]) { s + 1 } else { s };
    if symbol(k[start]) {
        let p = |j: int| symbol(k[j]);
        let q = |j: int| newline(text[j]);
        lemma_run_end(p, start, n);
        let m = run_end(p, start, n);
        lemma_run_end(q, m, n);
        let e = run_end(q, m, n);
        assert forall|j: int| start <= j < m implies mark(#[trigger] text[j]) by {
            assert(p(j));
        }
        assert forall|j: int| m <= j < e implies (#[trigger] text[j]) == '\r' || text[j]
            == '\n' by {
            assert(q(j));
        }
        let len = symbols_len(text, k, s);
        assert(e == s + len);
        if mark(c) {
            assert(marks_then_ends(text, s, m, s + len));
        } else {
            assert(marks_then_ends(text, s + 1, m, s + len));
        }
    }
}

proof fn lemma_last_newline(text: Seq<char>, i: int, end: int)
    requires
        0 <= i <= end <= text.len(),
    ensures
        ({
            let t = newline_end(text, i, end);
            &&& i <= t <= end
            &&& t > i ==> newline(text[t - 1])
            &&& forall|j: int| t <= j < end ==> !newline(#[trigger] text[j])
        }),
    decreases end - i,
{
    if i < end && !newline(text[end - 1]) {
        lemma_last_newline(text, i, end - 1);
    }
}

proof fn lemma_blanks(text: Seq<char>, s: int)
    requires
        0 <= s < text.len(),
        crate::unicode::white_space(text[s]),
    ensures
        exists|r: int| #[trigger]
            blanks(text, s, r, s + spaces_len(text, classes_of(text), s)),
{
    let k = classes_of(text);
    let n = text.len() as int;
    let p = |j: int| k[j].space;
    lemma_run_end(p, s, n);
    let r = run_end(p, s, n);
    lemma_last_newline(text, s, r);
    let t = newline_end(text, s, r);
    let e = s + spaces_len(text, k, s);
    assert forall|j: int| s <= j < r implies crate::unicode::white_space(#[trigger] text[j]) by {
        assert(p(j));
    }
    if t > s {
        assert(newline(text[t - 1]));
    } else {
        assert forall|j: int| s <= j < r implies (#[trigger] text[j]) != '\r' && text[j]
            != '\n' by {}
    }
    assert(blanks(text, s, r, e));
}

proof fn lemma_piece_follows(text: Seq<char>, s: int)
    requires
        0 <= s < text.len(),
    ensures
        is_piece(text, s, s + piece_len(text, classes_of(text), s)),
{
    let k = classes_of(text);
    lemma_contraction(text, s);
    lemma_letters(text, s);
    lemma_symbols(text, s);
    if crate::unicode::white_space(text[s]) {
        lemma_blanks(text, s);
    }
}

proof fn lemma_piece_at(text: Seq<char>, k: Seq<CharClass>, i: int, j: int)
    requires
        0 <= i <= text.len(),
        k.len() == text.len(),
        0 <= j < pieces_from(text, k, i).len(),
    ensures
        ({
            let all = pieces_from(text, k, i);
            let s = i + concat(all.take(j)).len();
            &&& i <= s < text.len()
            &&& all[j].len() == piece_len(text, k, s)
            &&& s + all[j].len() <= text.len()
            &&& all[j] == text.subrange(s, s + all[j].len())
        }),
    decreases text.len() - i,
{
    let all = pieces_from(text, k, i);
    if i < text.len() {
        lemma_piece_len(text, k, i);
        let n = piece_len(text, k, i);
        let rest = pieces_from(text, k, i + n);
        assert(all =~= seq![text.subrange(i, i + n)] + rest);
        if j == 0 {
            assert(all.take(0) =~= Seq::<Seq<char>>::empty());
        } else {
            lemma_piece_at(text, k, i + n, j - 1);
            assert(all.take(j) =~= seq![all[0]] + rest.take(j - 1));
            assert(all.take(j).skip(1) =~= rest.take(j - 1));
            assert(all[j] == rest[j - 1]);
        }
    }
}

/// Every piece is what the pattern says of the place where it stands: behind the pieces
/// before it.
pub proof fn law_pieces_follow_the_pattern(text: Seq<char>, j: int)
    requires
        0 <= j < pre_tokens(text).len(),
    ensures
        ({
            let s = concat(pre_tokens(text).take(j)).len() as int;
            let piece = pre_tokens(text)[j];
            &&& s + piece.len() <= text.len()
            &&& piece == text.subrange(s, s + piece.len())
            &&& is_piece(text, s, s + piece.len())
        }),
{
    let s = concat(pre_tokens(text).take(j)).len() as int;
    lemma_piece_at(text, classes_of(text), 0, j);
    lemma_piece_follows(text, s);
}

/// Of a run of blanks before a word the last one goes to the word: the piece that starts
/// where the run starts ends one before the run does.
pub proof fn law_last_blank_goes_to_the_word(text: Seq<char>, j: int, r: int)
    requires
        0 <= j < pre_tokens(text).len(),
        ({
            let s = concat(pre_tokens(text).take(j)).len() as int;
            &&& s + 1 < r < text.len()
            &&& forall|i: int| s <= i < r ==> crate::unicode::white_space(#[trigger] text[i])
            &&& forall|i: int| s <= i < r ==> (#[trigger] text[i]) != '\r' && text[i] != '\n'
            &&& forall|i: int|
                s <= i < r ==> !crate::unicode::letter(#[trigger] text[i])
                    && !crate::unicode::number(text[i])
            &&& !crate::unicode::white_space(text[r])
        }),
    ensures
        pre_tokens(text)[j] == text.subrange(
            concat(pre_tokens(text).take(j)).len() as int,
            r - 1,
        ),
{
    let s = concat(pre_tokens(text).take(j)).len() as int;
    let e = s + pre_tokens(text)[j].len();
    law_pieces_follow_the_pattern(text, j);
    lemma_contraction(text, s);
    assert(crate::unicode::white_space(text[s]) && crate::unicode::white_space(text[s + 1]));
    assert(text[s] != '\'');
    assert(!mark(text[s]) && !mark(text[s + 1]));
    let q = choose|q: int| #[trigger] blanks(text, s, q, e);
    assert(blanks(text, s, q, e));
    if q < r {
        assert(crate::unicode::white_space(text[q]));
    }
    if r < q {
        assert(crate::unicode::white_space(text[r]));
    }
    assert(q == r);
}

/// The contraction that starts at `i`, if any: its length.
fn contraction(text: &[char], i: usize) -> (n: usize)
    requires
        i < text@.len(),
    ensures
        n == contraction_len(text@, i as int),
{
    if text[i] != '\'' {
        return 0;
    }
    let left: usize = text.len() - i;
    if left > 2 {
        let a = text[i + 1];
        let b = text[i + 2];
        if ((a == 'r' || a == 'R') && (b == 'e' || b == 'E')) || ((a == 'v' || a == 'V') && (b
            == 'e' || b == 'E')) || ((a == 'l' || a == 'L') && (b == 'l' || b == 'L')) {
            return 3;
        }
    }
    if left > 1 {
        let a = text[i + 1];
        if a == 's' || a == 'S' || a == 't' || a == 'T' || a == 'm' || a == 'M' || a == 'd' || a
            == 'D' {
            return 2;
        }
    }
    0
}

/// The letter run that starts at `i`, if any: its length.
fn letters(text: &[char], k: &[CharClass], i: usize) -> (n: usize)
    requires
        i < text@.len(),
        k@.len() == text@.len(),
    ensures
        n == letters_len(text@, k@, i as int),
{
    let c = text[i];
    let start: usize = if c != '\r' && c != '\n' && !k[i].letter && !k[i].number {
        i + 1
    } else {
        i
    };
    if start >= text.len() || !k[start].letter {
        return 0;
    }
    let mut end: usize = start + 1;
    while end < text.len() && k[end].letter
        invariant
            start < end <= text@.len(),
            k@.len() == text@.len(),
            forall|j: int| start <= j < end ==> (#[trigger] k@[j]).letter,
        decreases text@.len() - end,
    {
        end += 1;
    }
    proof {
        lemma_run_end_is(
            |j: int| k@[j].letter,
            start as int,
            end as int,
            text@.len() as int,
        );
    }
    end - i
}

/// The symbol run that starts at `i`, if any: its length.
fn symbols(text: &[char], k: &[CharClass], i: usize) -> (n: usize)
    requires
        i < text@.len(),
        k@.len() == text@.len(),
    ensures
        n == symbols_len(text@, k@, i as int),
{
    let mut start: usize = i;
    if text[i] == ' ' && text.len() - i > 1 {
        let next = k[i + 1];
        if !next.space && !next.letter && !next.number {
            start = i + 1;
        }
    }
    let first = k[start];
    if first.space || first.letter || first.number {
        return 0;
    }
    let mut end: usize = start + 1;
    while end < text.len() && !k[end].space && !k[end].letter && !k[end].number
        invariant
            start < end <= text@.len(),
            k@.len() == text@.len(),
            forall|j: int| start <= j < end ==> symbol(#[trigger] k@[j]),
        decreases text@.len() - end,
    {
        end += 1;
    }
    proof {
        lemma_run_end_is(
            |j: int| symbol(k@[j]),
            start as int,
            end as int,
            text@.len() as int,
        );
    }
    let ghost mid = end;
    while end < text.len() && (text[end] == '\r' || text[end] == '\n')
        invariant
            mid <= end <= text@.len(),
            forall|j: int| mid <= j < end ==> newline(#[trigger] text@[j]),
        decreases text@.len() - end,
    {
        end += 1;
    }
    proof {
        lemma_run_end_is(
            |j: int| newline(text@[j]),
            mid as int,
            end as int,
            text@.len() as int,
        );
    }
    end - i
}

/// The white-space run that starts at `i`: the length of its piece.
fn spaces(text: &[char], k: &[CharClass], i: usize) -> (n: usize)
    requires
        i < text@.len(),
        k@.len() == text@.len(),
        k@[i as int].space,
    ensures
        n == spaces_len(text@, k@, i as int),
{
    let total: usize = text.len();
    let mut end: usize = i + 1;
    while end < total && k[end].space
        invariant
            i < end <= text@.len(),
            k@.len() == text@.len(),
            total == text@.len(),
            forall|j: int| i <= j < end ==> (#[trigger] k@[j]).space,
        decreases text@.len() - end,
    {
        end += 1;
    }
    proof {
        lemma_run_end_is(|j: int| k@[j].space, i as int, end as int, text@.len() as int);
    }
    let mut through: usize = end;
    while through > i && text[through - 1] != '\r' && text[through - 1] != '\n'
        invariant
            i <= through <= end <= text@.len(),
            newline_end(text@, i as int, end as int) == newline_end(
                text@,
                i as int,
                through as int,
            ),
        decreases through,
    {
        through -= 1;
    }
    if through > i {
        through - i
    } else if end == total || end - i == 1 {
        end - i
    } else {
        end - i - 1
    }
}

/// The length of the piece that starts at `i`.
fn next_piece(text: &[char], k: &[CharClass], i: usize) -> (n: usize)
    requires
        i < text@.len(),
        k@.len() == text@.len(),
    ensures
        n == piece_len(text@, k@, i as int),
{
    proof {
        lemma_run_end(|j: int| symbol(k@[j]), i as int, text@.len() as int);
    }
    let c: usize = contraction(text, i);
    if c > 0 {
        return c;
    }
    let l: usize = letters(text, k, i);
    if l > 0 {
        return l;
    }
    if k[i].number {
        return 1;
    }
    let s: usize = symbols(text, k, i);
    if s > 0 {
        return s;
    }
    if k[i].space {
        return spaces(text, k, i);
    }
    1
}

/// Splits a text whose characters have the classes `k`.
pub fn split_pieces(text: &[char], k: &[CharClass]) -> (out: Vec<Vec<char>>)
    requires
        k@.len() == text@.len(),
    ensures
        out@.len() == pieces(text@, k@).len(),
        forall|j: int| 0 <= j < out@.len() ==> (#[trigger] out@[j])@ == pieces(text@, k@)[j],
{
    let mut out: Vec<Vec<char>> = Vec::new();
    let mut i: usize = 0;
    let total: usize = text.len();
    let ghost goal = pieces(text@, k@);
    proof {
        assert(goal =~= Seq::<Seq<char>>::empty() + pieces_from(text@, k@, 0));
    }
    while i < total
        invariant
            i <= text@.len(),
            k@.len() == text@.len(),
            total == text@.len(),
            goal == goal.take(out@.len() as int) + pieces_from(text@, k@, i as int),
            out@.len() <= goal.len(),
            forall|j: int| 0 <= j < out@.len() ==> (#[trigger] out@[j])@ == goal[j],
        decreases text@.len() - i,
    {
        proof {
            lemma_piece_len(text@, k@, i as int);
        }
        let n: usize = next_piece(text, k, i);
        let ghost before = out@;
        let mut piece: Vec<char> = Vec::with_capacity(n);
        for p in 0..n
            invariant
                i + n <= total,
                total == text@.len(),
                piece@ == text@.subrange(i as int, i + p),
        {
            piece.push(text[i + p]);
            proof {
                assert(text@.subrange(i as int, i + p).push(text@[i + p]) =~= text@.subrange(
                    i as int,
                    i + p + 1,
                ));
            }
        }
        proof {
            let rest = pieces_from(text@, k@, i + n);
            let here = pieces_from(text@, k@, i as int);
            assert(here =~= seq![piece@] + rest);
            let m = before.len() as int;
            assert(goal[m] == here[0]) by {
                assert((goal.take(m) + here)[m] == here[0]);
            }
            assert(goal.take(m + 1) =~= goal.take(m).push(piece@));
            assert(goal =~= goal.take(m + 1) + rest);
        }
        out.push(piece);
        i += n;
    }
    proof {
        assert(pieces_from(text@, k@, i as int) =~= Seq::<Seq<char>>::empty());
        assert(goal =~= goal.take(out@.len() as int));
    }
    out
}

/// The classes of a text's characters.
pub fn classify(text: &[char]) -> (k: Vec<CharClass>)
    ensures
        k@ == classes_of(text@),
{
    let mut k: Vec<CharClass> = Vec::with_capacity(text.len());
    for i in 0..text.len()
        invariant
            k@ == classes_of(text@).take(i as int),
    {
        let c = text[i];
        let class = CharClass {
            letter: is_letter(c),
            number: is_number(c),
            space: is_white_space(c),
        };
        k.push(class);
        proof {
            assert(classes_of(text@).take(i as int).push(class) =~= classes_of(text@).take(i + 1));
        }
    }
    proof {
        assert(classes_of(text@).take(text@.len() as int) =~= classes_of(text@));
    }
    k
}

/// Splits a text into the pieces that byte-pair merging works on.
pub fn qwen_pre_tokenize(text: &str) -> (out: Vec<String>)
    ensures
        out@.len() == pre_tokens(text@).len(),
        forall|j: int| 0 <= j < out@.len() ==> (#[trigger] out@[j])@ == pre_tokens(text@)[j],
{
    let chars: Vec<char> = chars_of(text);
    let k: Vec<CharClass> = classify(chars.as_slice());
    let parts: Vec<Vec<char>> = split_pieces(chars.as_slice(), k.as_slice());
    let mut out: Vec<String> = Vec::with_capacity(parts.len());
    for i in 0..parts.len()
        invariant
            out@.len() == i,
            forall|j: int| 0 <= j < i ==> (#[trigger] out@[j])@ == parts@[j]@,
    {
        let piece = text_of(parts[i].as_slice());
        out.push(piece);
    }
    proof {
        assert forall|j: int| 0 <= j < out@.len() implies (#[trigger] out@[j])@ == pre_tokens(
            text@,
        )[j] by {
            assert(out@[j]@ == parts@[j]@);
        }
    }
    out
}

} // verus!
