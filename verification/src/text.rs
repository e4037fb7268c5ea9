//! Text operations on characters: trimming, searching, decimal numbers.

use crate::unicode::chars_of;
use crate::unicode::is_white_space;
use crate::unicode::white_space;
use vstd::prelude::*;

verus! {

/// A text without its leading white space.
pub open spec fn trim_front(t: Seq<char>) -> Seq<char>
    decreases t.len(),
{
    if t.len() > 0 && white_space(t[0]) {
        trim_front(t.skip(1))
    } else {
        t
    }
}

/// A text without its trailing white space.
pub open spec fn trim_back(t: Seq<char>) -> Seq<char>
    decreases t.len(),
{
    if t.len() > 0 && white_space(t.last()) {
        trim_back(t.drop_last())
    } else {
        t
    }
}

/// A text without the white space at either end.
pub open spec fn trimmed(t: Seq<char>) -> Seq<char> {
    trim_back(trim_front(t))
}

/// The characters of a text without the white space at either end.
pub fn trim(text: &str) -> (out: Vec<char>)
    ensures
        out@ == trimmed(text@),
{
    let chars: Vec<char> = chars_of(text);
    trim_chars(chars.as_slice())
}

/// A run of characters without the white space at either end.
pub fn trim_chars(chars: &[char]) -> (out: Vec<char>)
    ensures
        out@ == trimmed(chars@),
{
    let n: usize = chars.len();
    let mut a: usize = 0;
    proof {
        assert(chars@.skip(0) =~= chars@);
    }
    while a < n && is_white_space(chars[a])
        invariant
            a <= n == chars@.len(),
            trim_front(chars@) == trim_front(chars@.skip(a as int)),
        decreases n - a,
    {
        proof {
            assert(chars@.skip(a as int).skip(1) =~= chars@.skip(a + 1));
        }
        a += 1;
    }
    let ghost front = trim_front(chars@);
    proof {
        assert(front == chars@.skip(a as int));
    }
    let mut b: usize = n;
    proof {
        assert(chars@.subrange(a as int, n as int) =~= front);
    }
    while b > a && is_white_space(chars[b - 1])
        invariant
            a <= b <= n == chars@.len(),
            trim_back(front) == trim_back(chars@.subrange(a as int, b as int)),
        decreases b,
    {
        proof {
            assert(chars@.subrange(a as int, b as int).drop_last() =~= chars@.subrange(
                a as int,
                b - 1,
            ));
        }
        b -= 1;
    }
    sub_chars(chars, a, b)
}

/// A copy of part of a run of characters.
pub fn sub_chars(chars: &[char], a: usize, b: usize) -> (out: Vec<char>)
    requires
        a <= b <= chars@.len(),
    ensures
        out@ == chars@.subrange(a as int, b as int),
{
    let mut out: Vec<char> = Vec::with_capacity(b - a);
    for i in a..b
        invariant
            b <= chars@.len(),
            out@ == chars@.subrange(a as int, i as int),
    {
        out.push(chars[i]);
        proof {
            assert(chars@.subrange(a as int, i as int).push(chars@[i as int]) =~= chars@.subrange(
                a as int,
                i + 1,
            ));
        }
    }
    out
}

/// `pattern` stands at `i` in `t`.
pub open spec fn stands_at(t: Seq<char>, pattern: Seq<char>, i: int) -> bool {
    0 <= i && i + pattern.len() <= t.len() && t.subrange(i, i + pattern.len()) == pattern
}

/// Whether `pattern` stands at `i`.
pub fn matches_at(t: &[char], pattern: &[char], i: usize) -> (yes: bool)
    requires
        i <= t@.len(),
    ensures
        yes == stands_at(t@, pattern@, i as int),
{
    if t.len() - i < pattern.len() {
        return false;
    }
    for j in 0..pattern.len()
        invariant
            i + pattern@.len() <= t@.len() <= usize::MAX,
            forall|k: int| 0 <= k < j ==> t@[i + k] == #[trigger] pattern@[k],
    {
        if t[i + j] != pattern[j] {
            proof {
                let sub = t@.subrange(i as int, i + pattern@.len());
                assert(sub[j as int] == t@[i + j]);
            }
            return false;
        }
    }
    proof {
        assert(t@.subrange(i as int, i + pattern@.len()) =~= pattern@);
    }
    true
}

/// The last position before `end` at which `pattern` stands.
pub open spec fn last_before(t: Seq<char>, pattern: Seq<char>, end: int) -> Option<int>
    decreases end,
{
    if end <= 0 {
        None
    } else if stands_at(t, pattern, end - 1) {
        Some(end - 1)
    } else {
        last_before(t, pattern, end - 1)
    }
}

/// What the user sees of an answer: the trimmed text behind the last `</think>`,
/// without the line feeds right behind it; the whole trimmed text where there is
/// no such mark.
pub open spec fn visible_part(answer: Seq<char>) -> Seq<char> {
    let t = trimmed(answer);
    match last_before(t, "</think>"@, t.len() as int) {
        Some(i) => drop_newlines(t.skip(i + "</think>"@.len())),
        None => t,
    }
}

/// A text without its leading line feeds.
pub open spec fn drop_newlines(t: Seq<char>) -> Seq<char>
    decreases t.len(),
{
    if t.len() > 0 && t[0] == '\n' {
        drop_newlines(t.skip(1))
    } else {
        t
    }
}

proof fn lemma_front_cut(t: Seq<char>) -> (n: int)
    ensures
        0 <= n <= t.len(),
        trim_front(t) == t.skip(n),
        forall|i: int| 0 <= i < n ==> white_space(#[trigger] t[i]),
        n < t.len() ==> !white_space(t[n]),
    decreases t.len(),
{
    if t.len() > 0 && white_space(t[0]) {
        let n = lemma_front_cut(t.skip(1)) + 1;
        assert(t.skip(1).skip(n - 1) =~= t.skip(n));
        assert forall|i: int| 0 <= i < n implies white_space(#[trigger] t[i]) by {
            if i > 0 {
                assert(t.skip(1)[i - 1] == t[i]);
            }
        }
        if n < t.len() {
            assert(t.skip(1)[n - 1] == t[n]);
        }
        n
    } else {
        assert(t.skip(0) =~= t);
        0
    }
}

proof fn lemma_back_cut(t: Seq<char>) -> (n: int)
    ensures
        0 <= n <= t.len(),
        trim_back(t) == t.take(n),
        forall|i: int| n <= i < t.len() ==> white_space(#[trigger] t[i]),
        n > 0 ==> !white_space(t[n - 1]),
    decreases t.len(),
{
    if t.len() > 0 && white_space(t.last()) {
        let n = lemma_back_cut(t.drop_last());
        assert(t.drop_last().take(n) =~= t.take(n));
        assert forall|i: int| n <= i < t.len() implies white_space(#[trigger] t[i]) by {
            if i < t.len() - 1 {
                assert(t.drop_last()[i] == t[i]);
            }
        }
        n
    } else {
        assert(t.take(t.len() as int) =~= t);
        t.len() as int
    }
}

/// Trimming takes off white space at either end and nothing else: what is left begins and
/// ends with other characters, and what was taken off is white space.
pub proof fn law_trimming_takes_off_white_space(t: Seq<char>) -> (cut: (int, int))
    ensures
        0 <= cut.0 <= cut.1 <= t.len(),
        trimmed(t) == t.subrange(cut.0, cut.1),
        forall|i: int| 0 <= i < cut.0 || cut.1 <= i < t.len() ==> white_space(#[trigger] t[i]),
        cut.0 < cut.1 ==> !white_space(t[cut.0]) && !white_space(t[cut.1 - 1]),
{
    let a = lemma_front_cut(t);
    let front = t.skip(a);
    let n = lemma_back_cut(front);
    assert(front.take(n) =~= t.subrange(a, a + n));
    assert forall|i: int| a + n <= i < t.len() implies white_space(#[trigger] t[i]) by {
        assert(front[i - a] == t[i]);
    }
    if n > 0 {
        assert(front[0] == t[a] && front[n - 1] == t[a + n - 1]);
    }
    (a, a + n)
}

/// The last place of a pattern is the last.
pub proof fn lemma_last_is_last(t: Seq<char>, pattern: Seq<char>, end: int)
    ensures
        match last_before(t, pattern, end) {
            Some(i) => 0 <= i < end && stands_at(t, pattern, i) && forall|j: int|
                i < j < end ==> !#[trigger] stands_at(t, pattern, j),
            None => forall|j: int| 0 <= j < end ==> !#[trigger] stands_at(t, pattern, j),
        },
    decreases end,
{
    if end > 0 && !stands_at(t, pattern, end - 1) {
        lemma_last_is_last(t, pattern, end - 1);
    }
}

proof fn lemma_newlines_cut(t: Seq<char>) -> (n: int)
    ensures
        0 <= n <= t.len(),
        drop_newlines(t) == t.skip(n),
        forall|i: int| 0 <= i < n ==> (#[trigger] t[i]) == '\n',
        n < t.len() ==> t[n] != '\n',
    decreases t.len(),
{
    if t.len() > 0 && t[0] == '\n' {
        let n = lemma_newlines_cut(t.skip(1)) + 1;
        assert(t.skip(1).skip(n - 1) =~= t.skip(n));
        assert forall|i: int| 0 <= i < n implies (#[trigger] t[i]) == '\n' by {
            if i > 0 {
                assert(t.skip(1)[i - 1] == t[i]);
            }
        }
        if n < t.len() {
            assert(t.skip(1)[n - 1] == t[n]);
        }
        n
    } else {
        assert(t.skip(0) =~= t);
        0
    }
}

/// The visible part ends the trimmed answer. What stands before it is nothing where there is
/// no `</think>`, and otherwise ends in the last `</think>` and the line feeds behind it,
/// all of them.
pub proof fn law_visible_part_follows_the_last_mark(answer: Seq<char>) -> (cut: (int, int))
    ensures
        ({
            let t = trimmed(answer);
            let mark = "</think>"@;
            let (i, n) = cut;
            &&& 0 <= n <= t.len()
            &&& visible_part(answer) == t.skip(n)
            &&& (forall|j: int| 0 <= j < t.len() ==> !#[trigger] stands_at(t, mark, j)) ==> n == 0
            &&& (exists|j: int| 0 <= j < t.len() && #[trigger] stands_at(t, mark, j)) ==> {
                &&& 0 <= i < t.len() && stands_at(t, mark, i) && i + 8 <= n
                &&& forall|j: int| i < j < t.len() ==> !#[trigger] stands_at(t, mark, j)
                &&& forall|j: int| i + 8 <= j < n ==> (#[trigger] t[j]) == '\n'
                &&& n < t.len() ==> t[n] != '\n'
            }
        }),
{
    reveal_strlit("</think>");
    let t = trimmed(answer);
    let mark = "</think>"@;
    lemma_last_is_last(t, mark, t.len() as int);
    match last_before(t, mark, t.len() as int) {
        Some(i) => {
            let rest = t.skip(i + 8);
            let k = lemma_newlines_cut(rest);
            let n = i + 8 + k;
            assert(rest.skip(k) =~= t.skip(n));
            assert forall|j: int| i + 8 <= j < n implies (#[trigger] t[j]) == '\n' by {
                assert(rest[j - (i + 8)] == t[j]);
            }
            if n < t.len() {
                assert(rest[k] == t[n]);
            }
            (i, n)
        },
        None => {
            assert(t.skip(0) =~= t);
            (0, 0)
        },
    }
}

proof fn lemma_trim_front(a: Seq<char>, y: Seq<char>)
    requires
        y.len() > 0,
        !white_space(y[0]),
    ensures
        trim_front(a + y) == trim_front(a) + y,
    decreases a.len(),
{
    if a.len() == 0 {
        assert(a + y =~= y);
    } else if white_space(a[0]) {
        assert((a + y).skip(1) =~= a.skip(1) + y);
        lemma_trim_front(a.skip(1), y);
    }
}

proof fn lemma_trim_back(x: Seq<char>, y: Seq<char>, i: int)
    requires
        0 <= i < y.len(),
        !white_space(y[i]),
    ensures
        trim_back(x + y) == x + trim_back(y),
        i < trim_back(y).len() <= y.len(),
        trim_back(y) == y.take(trim_back(y).len() as int),
    decreases y.len(),
{
    if white_space(y.last()) {
        assert((x + y).drop_last() =~= x + y.drop_last());
        lemma_trim_back(x, y.drop_last(), i);
        assert(trim_back(y) =~= y.take(trim_back(y).len() as int));
    } else {
        assert(y.take(y.len() as int) =~= y);
    }
}

proof fn lemma_last_before(x: Seq<char>, z: Seq<char>, pattern: Seq<char>, end: int)
    requires
        stands_at(z, pattern, 0),
        end >= 1,
    ensures
        last_before(z, pattern, end) is Some,
        last_before(x + z, pattern, x.len() + end) == Some(
            x.len() + last_before(z, pattern, end)->Some_0,
        ),
        0 <= last_before(z, pattern, end)->Some_0,
        last_before(z, pattern, end)->Some_0 + pattern.len() <= z.len(),
    decreases end,
{
    let k = end - 1;
    if k + pattern.len() <= z.len() {
        assert((x + z).subrange(x.len() + k, x.len() + k + pattern.len()) =~= z.subrange(
            k,
            k + pattern.len(),
        ));
    }
    if !stands_at(z, pattern, k) {
        lemma_last_before(x, z, pattern, k);
    }
}

/// Reasoning is not visible: whatever stands before a `</think>` changes nothing of what the
/// user sees.
pub proof fn law_reasoning_is_not_visible(reasoning: Seq<char>, shown: Seq<char>)
    ensures
        visible_part(reasoning + ("</think>"@ + shown)) == visible_part("</think>"@ + shown),
{
    reveal_strlit("</think>");
    let mark = "</think>"@;
    let y = mark + shown;
    let x = trim_front(reasoning);
    assert(y[0] == '<' && y[7] == '>');
    lemma_trim_front(reasoning, y);
    lemma_trim_front(Seq::empty(), y);
    assert(Seq::<char>::empty() + y =~= y);
    lemma_trim_back(x, y, 7);
    lemma_trim_back(Seq::empty(), y, 7);
    let z = trim_back(y);
    assert(trim_front(y) == y);
    assert(z.subrange(0, 8) =~= mark);
    lemma_last_before(x, z, mark, z.len() as int);
    let i = last_before(z, mark, z.len() as int)->Some_0;
    assert((x + z).skip(x.len() + i + 8) =~= z.skip(i + 8));
}

/// The visible part of an answer.
pub fn visible(answer: &str) -> (out: Vec<char>)
    ensures
        out@ == visible_part(answer@),
{
    let t: Vec<char> = trim(answer);
    let mark: Vec<char> = chars_of("</think>");
    let n: usize = t.len();
    let mut i: usize = n;
    while i > 0 && !matches_at(t.as_slice(), mark.as_slice(), i - 1)
        invariant
            i <= n == t@.len(),
            mark@ == "</think>"@,
            last_before(t@, mark@, n as int) == last_before(t@, mark@, i as int),
        decreases i,
    {
        i -= 1;
    }
    if i == 0 {
        return t;
    }
    let ghost tail = t@.skip(i - 1 + mark@.len());
    let mut from: usize = i - 1 + mark.len();
    while from < n && t[from] == '\n'
        invariant
            from <= n == t@.len(),
            drop_newlines(tail) == drop_newlines(t@.skip(from as int)),
        decreases n - from,
    {
        proof {
            assert(t@.skip(from as int).skip(1) =~= t@.skip(from + 1));
        }
        from += 1;
    }
    proof {
        assert(t@.subrange(from as int, n as int) =~= t@.skip(from as int));
    }
    sub_chars(t.as_slice(), from, n)
}

/// The decimal digit of `d`.
pub open spec fn digit(d: nat) -> char {
    ('0' as u32 + d) as char
}

/// The decimal form of a number, without leading zeros.
pub open spec fn decimal(n: nat) -> Seq<char>
    decreases n,
{
    if n < 10 {
        seq![digit(n)]
    } else {
        decimal(n / 10).push(digit(n % 10))
    }
}

fn digit_char(d: u64) -> (c: char)
    requires
        d < 10,
    ensures
        c == digit(d as nat),
{
    match d {
        0 => '0',
        1 => '1',
        2 => '2',
        3 => '3',
        4 => '4',
        5 => '5',
        6 => '6',
        7 => '7',
        8 => '8',
        _ => '9',
    }
}

/// Appends the decimal form of a number.
pub fn push_decimal(text: &mut String, n: u64)
    ensures
        final(text)@ == old(text)@ + decimal(n as nat),
    decreases n,
{
    if n >= 10 {
        push_decimal(text, n / 10);
    }
    let ghost mid = text@;
    text.push(digit_char(n % 10));
    proof {
        if n < 10 {
            assert(text@ =~= old(text)@ + decimal(n as nat));
        } else {
            assert(text@ =~= old(text)@ + decimal(n as nat));
        }
    }
}

/// Appends a text.
pub fn push_text(out: &mut String, text: &str)
    ensures
        final(out)@ == old(out)@ + text@,
{
    let chars: Vec<char> = chars_of(text);
    for i in 0..chars.len()
        invariant
            chars@ == text@,
            out@ == old(out)@ + text@.take(i as int),
    {
        out.push(chars[i]);
        proof {
            assert(old(out)@ + text@.take(i + 1) =~= (old(out)@ + text@.take(i as int)).push(
                text@[i as int],
            ));
        }
    }
    proof {
        assert(text@.take(text@.len() as int) =~= text@);
    }
}

} // verus!
