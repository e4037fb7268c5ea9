//! Numbers and lists in text: decimal parsing, splitting, comma-separated lists.

use crate::text::decimal;
use crate::text::digit;
use crate::text::push_decimal;
use crate::unicode::is_white_space;
use crate::unicode::white_space;
use vstd::prelude::*;

verus! {

/// A decimal digit.
pub open spec fn is_digit(c: char) -> bool {
    '0' <= c <= '9'
}

/// What a digit counts.
pub open spec fn digit_value(c: char) -> nat {
    if is_digit(c) {
        (c as u32 - '0' as u32) as nat
    } else {
        0
    }
}

/// The number that digits stand for.
pub open spec fn digits_value(t: Seq<char>) -> nat
    decreases t.len(),
{
    if t.len() == 0 {
        0
    } else {
        digits_value(t.drop_last()) * 10 + digit_value(t.last())
    }
}

/// A text without a sign in front.
pub open spec fn unsigned_part(t: Seq<char>) -> Seq<char> {
    if t.len() > 1 && t[0] == '+' {
        t.skip(1)
    } else {
        t
    }
}

/// The number that a text stands for, where it is at most `max`: digits, at least
/// one, with an optional plus sign in front.
pub open spec fn parsed(t: Seq<char>, max: nat) -> Option<nat> {
    let d = unsigned_part(t);
    if d.len() > 0 && (forall|i: int| 0 <= i < d.len() ==> is_digit(#[trigger] d[i]))
        && digits_value(d) <= max {
        Some(digits_value(d))
    } else {
        None
    }
}

proof fn lemma_prefix_value(t: Seq<char>, i: int)
    requires
        0 <= i <= t.len(),
    ensures
        digits_value(t.take(i)) <= digits_value(t),
    decreases t.len(),
{
    if i < t.len() {
        lemma_prefix_value(t.drop_last(), i);
        assert(t.drop_last().take(i) =~= t.take(i));
    } else {
        assert(t.take(i) =~= t);
    }
}

/// Reads a number of at most `max`.
pub fn parse_number(t: &[char], max: u64) -> (n: Option<u64>)
    ensures
        match n {
            Some(v) => parsed(t@, max as nat) == Some(v as nat),
            None => parsed(t@, max as nat) is None,
        },
{
    let len: usize = t.len();
    let from: usize = if len > 1 && t[0] == '+' {
        1
    } else {
        0
    };
    let ghost d = unsigned_part(t@);
    proof {
        assert(d =~= t@.skip(from as int));
    }
    if len == 0 {
        return None;
    }
    let mut n: u64 = 0;
    let mut i: usize = from;
    proof {
        assert(d.take(0) =~= Seq::<char>::empty());
    }
    while i < len
        invariant
            from <= i <= len == t@.len(),
            d == t@.skip(from as int),
            d == unsigned_part(t@),
            n == digits_value(d.take(i - from)),
            n <= max,
            forall|j: int| 0 <= j < i - from ==> is_digit(#[trigger] d[j]),
        decreases len - i,
    {
        let c: char = t[i];
        proof {
            assert(d[i - from] == c);
        }
        if c < '0' || c > '9' {
            return None;
        }
        let v: u64 = (c as u32 - '0' as u32) as u64;
        proof {
            let next = d.take(i - from + 1);
            assert(next.drop_last() =~= d.take(i - from));
            lemma_prefix_value(d, i - from + 1);
        }
        if n > (u64::MAX - v) / 10 {
            return None;
        }
        n = n * 10 + v;
        if n > max {
            return None;
        }
        i += 1;
    }
    proof {
        assert(d.take(d.len() as int) =~= d);
    }
    Some(n)
}

/// The decimal form of a number has only digits and reads back as the number.
pub proof fn lemma_decimal(n: nat)
    ensures
        decimal(n).len() > 0,
        forall|i: int| 0 <= i < decimal(n).len() ==> is_digit(#[trigger] decimal(n)[i]),
        digits_value(decimal(n)) == n,
    decreases n,
{
    if n < 10 {
        let t = decimal(n);
        assert(t.drop_last() =~= Seq::<char>::empty());
        assert(digits_value(t.drop_last()) == 0);
        assert(t.last() == digit(n));
        assert(is_digit(digit(n)) && digit_value(digit(n)) == n);
    } else {
        lemma_decimal(n / 10);
        let t = decimal(n);
        assert(t.drop_last() =~= decimal(n / 10));
        assert(is_digit(digit(n % 10)) && digit_value(digit(n % 10)) == n % 10);
        assert forall|i: int| 0 <= i < t.len() implies is_digit(#[trigger] t[i]) by {
            if i < t.len() - 1 {
                assert(t[i] == decimal(n / 10)[i]);
            }
        }
    }
}

/// A number written in decimal reads back as that number.
pub proof fn law_decimal_reads_back(n: nat, max: nat)
    requires
        n <= max,
    ensures
        parsed(decimal(n), max) == Some(n),
{
    lemma_decimal(n);
    assert(is_digit(decimal(n)[0]));
    assert(unsigned_part(decimal(n)) == decimal(n));
}

/// The first position from `i` on at which `c` stands, or the length.
pub open spec fn first_from(t: Seq<char>, c: char, i: int) -> int
    decreases t.len() - i,
{
    if i >= t.len() || t[i] == c {
        i
    } else {
        first_from(t, c, i + 1)
    }
}

/// The first position of a character, or the length.
pub open spec fn first_of(t: Seq<char>, c: char) -> int {
    first_from(t, c, 0)
}

/// Finds the first position of a character, or the length.
pub fn find_first(t: &[char], c: char) -> (i: usize)
    ensures
        i == first_of(t@, c),
        i <= t@.len(),
        i < t@.len() ==> t@[i as int] == c,
{
    let n: usize = t.len();
    let mut i: usize = 0;
    while i < n && t[i] != c
        invariant
            i <= n == t@.len(),
            first_of(t@, c) == first_from(t@, c, i as int),
        decreases n - i,
    {
        i += 1;
    }
    i
}

/// What stands behind the last separator.
pub open spec fn piece_after(t: Seq<char>, sep: char) -> Seq<char>
    decreases t.len(),
{
    if t.len() == 0 || t.last() == sep {
        Seq::empty()
    } else {
        piece_after(t.drop_last(), sep).push(t.last())
    }
}

/// The pieces that a separator ends.
pub open spec fn pieces_ended(t: Seq<char>, sep: char) -> Seq<Seq<char>>
    decreases t.len(),
{
    if t.len() == 0 {
        Seq::empty()
    } else if t.last() == sep {
        pieces_ended(t.drop_last(), sep).push(piece_after(t.drop_last(), sep))
    } else {
        pieces_ended(t.drop_last(), sep)
    }
}

/// The pieces of a text between separators, the empty ones among them.
pub open spec fn split(t: Seq<char>, sep: char) -> Seq<Seq<char>> {
    pieces_ended(t, sep).push(piece_after(t, sep))
}

/// The views of a list of texts.
pub open spec fn texts(v: Seq<Vec<char>>) -> Seq<Seq<char>> {
    Seq::new(v.len(), |i: int| v[i]@)
}

/// The pieces of a text between separators.
pub fn split_on(t: &[char], sep: char) -> (out: Vec<Vec<char>>)
    ensures
        texts(out@) == split(t@, sep),
{
    let mut done: Vec<Vec<char>> = Vec::new();
    let mut piece: Vec<char> = Vec::new();
    proof {
        assert(t@.take(0) =~= Seq::<char>::empty());
        assert(texts(done@) =~= Seq::<Seq<char>>::empty());
    }
    for i in 0..t.len()
        invariant
            texts(done@) == pieces_ended(t@.take(i as int), sep),
            piece@ == piece_after(t@.take(i as int), sep),
    {
        proof {
            assert(t@.take(i + 1).drop_last() =~= t@.take(i as int));
            assert(t@.take(i + 1).last() == t@[i as int]);
        }
        if t[i] == sep {
            let ghost before = done@;
            let ghost ended = piece@;
            done.push(piece);
            proof {
                assert(texts(done@) =~= texts(before).push(ended));
            }
            piece = Vec::new();
        } else {
            piece.push(t[i]);
        }
    }
    proof {
        assert(t@.take(t@.len() as int) =~= t@);
    }
    let ghost before = done@;
    let ghost ended = piece@;
    done.push(piece);
    proof {
        assert(texts(done@) =~= texts(before).push(ended));
    }
    done
}

/// A separator and a piece without it add that piece.
pub proof fn lemma_split_push(a: Seq<char>, sep: char, b: Seq<char>)
    requires
        forall|i: int| 0 <= i < b.len() ==> #[trigger] b[i] != sep,
    ensures
        split(a.push(sep) + b, sep) == split(a, sep).push(b),
    decreases b.len(),
{
    let t = a.push(sep) + b;
    if b.len() == 0 {
        assert(t =~= a.push(sep));
        assert(t.drop_last() =~= a);
        assert(b =~= Seq::<char>::empty());
        assert(split(t, sep) =~= split(a, sep).push(b));
    } else {
        let c = b.drop_last();
        lemma_split_push(a, sep, c);
        assert(t.drop_last() =~= a.push(sep) + c);
        assert(t.last() == b.last());
        assert(b[b.len() - 1] != sep);
        let u = t.drop_last();
        assert(split(u, sep).last() == c);
        assert(piece_after(u, sep) == c);
        assert(pieces_ended(u, sep) =~= split(a, sep)) by {
            assert(split(u, sep).drop_last() =~= pieces_ended(u, sep));
            assert(split(a, sep).push(c).drop_last() =~= split(a, sep));
        }
        assert(c.push(b.last()) =~= b);
    }
}

/// A text without the separator is one piece.
pub proof fn lemma_split_none(b: Seq<char>, sep: char)
    requires
        forall|i: int| 0 <= i < b.len() ==> #[trigger] b[i] != sep,
    ensures
        split(b, sep) == seq![b],
    decreases b.len(),
{
    if b.len() > 0 {
        lemma_split_none(b.drop_last(), sep);
        let u = b.drop_last();
        assert(split(u, sep).last() == u);
        assert(split(u, sep).len() == 1);
        assert(pieces_ended(u, sep).len() == 0);
        assert(b[b.len() - 1] != sep);
        assert(u.push(b.last()) =~= b);
    } else {
        assert(b =~= Seq::<char>::empty());
    }
    assert(split(b, sep) =~= seq![b]);
}

/// The word that a text ends in, empty behind white space.
pub open spec fn word_after(t: Seq<char>) -> Seq<char>
    decreases t.len(),
{
    if t.len() == 0 || white_space(t.last()) {
        Seq::empty()
    } else {
        word_after(t.drop_last()).push(t.last())
    }
}

/// The words that white space ends.
pub open spec fn words_ended(t: Seq<char>) -> Seq<Seq<char>>
    decreases t.len(),
{
    if t.len() == 0 {
        Seq::empty()
    } else if white_space(t.last()) && word_after(t.drop_last()).len() > 0 {
        words_ended(t.drop_last()).push(word_after(t.drop_last()))
    } else {
        words_ended(t.drop_last())
    }
}

/// The words of a text: its runs of characters that are not white space.
pub open spec fn words(t: Seq<char>) -> Seq<Seq<char>> {
    if word_after(t).len() > 0 {
        words_ended(t).push(word_after(t))
    } else {
        words_ended(t)
    }
}

/// The words of a text.
pub fn words_of(t: &[char]) -> (out: Vec<Vec<char>>)
    ensures
        texts(out@) == words(t@),
{
    let mut done: Vec<Vec<char>> = Vec::new();
    let mut word: Vec<char> = Vec::new();
    proof {
        assert(t@.take(0) =~= Seq::<char>::empty());
        assert(texts(done@) =~= Seq::<Seq<char>>::empty());
    }
    for i in 0..t.len()
        invariant
            texts(done@) == words_ended(t@.take(i as int)),
            word@ == word_after(t@.take(i as int)),
    {
        proof {
            assert(t@.take(i + 1).drop_last() =~= t@.take(i as int));
            assert(t@.take(i + 1).last() == t@[i as int]);
        }
        if is_white_space(t[i]) {
            if word.len() > 0 {
                let ghost before = done@;
                let ghost ended = word@;
                done.push(word);
                proof {
                    assert(texts(done@) =~= texts(before).push(ended));
                }
                word = Vec::new();
            }
        } else {
            word.push(t[i]);
        }
    }
    proof {
        assert(t@.take(t@.len() as int) =~= t@);
    }
    if word.len() > 0 {
        let ghost before = done@;
        let ghost ended = word@;
        done.push(word);
        proof {
            assert(texts(done@) =~= texts(before).push(ended));
        }
    }
    done
}

/// Behind white space, a run without any adds one word.
pub proof fn lemma_words_push(a: Seq<char>, c: char, b: Seq<char>)
    requires
        white_space(c),
        b.len() > 0,
        forall|i: int| 0 <= i < b.len() ==> !white_space(#[trigger] b[i]),
    ensures
        words(a.push(c) + b) == words(a).push(b),
{
    lemma_words_tail(a, c, b);
    assert(words(a.push(c) + b) =~= words(a).push(b));
}

proof fn lemma_words_tail(a: Seq<char>, c: char, b: Seq<char>)
    requires
        white_space(c),
        forall|i: int| 0 <= i < b.len() ==> !white_space(#[trigger] b[i]),
    ensures
        word_after(a.push(c) + b) == b,
        words_ended(a.push(c) + b) == words(a),
    decreases b.len(),
{
    let t = a.push(c) + b;
    if b.len() == 0 {
        assert(t =~= a.push(c));
        assert(t.drop_last() =~= a);
        assert(b =~= Seq::<char>::empty());
    } else {
        lemma_words_tail(a, c, b.drop_last());
        assert(t.drop_last() =~= a.push(c) + b.drop_last());
        assert(t.last() == b[b.len() - 1]);
        assert(b.drop_last().push(b.last()) =~= b);
    }
}

/// A run without white space is one word.
pub proof fn lemma_words_one(b: Seq<char>)
    requires
        b.len() > 0,
        forall|i: int| 0 <= i < b.len() ==> !white_space(#[trigger] b[i]),
    ensures
        words(b) == seq![b],
{
    lemma_word_whole(b);
    assert(words(b) =~= seq![b]);
}

proof fn lemma_word_whole(b: Seq<char>)
    requires
        forall|i: int| 0 <= i < b.len() ==> !white_space(#[trigger] b[i]),
    ensures
        word_after(b) == b,
        words_ended(b).len() == 0,
    decreases b.len(),
{
    if b.len() > 0 {
        lemma_word_whole(b.drop_last());
        assert(!white_space(b[b.len() - 1]));
        assert(b.drop_last().push(b.last()) =~= b);
    }
}

/// Numbers in decimal with commas between them.
pub open spec fn csv(v: Seq<usize>) -> Seq<char>
    decreases v.len(),
{
    if v.len() == 0 {
        Seq::empty()
    } else if v.len() == 1 {
        decimal(v[0] as nat)
    } else {
        csv(v.drop_last()).push(',') + decimal(v.last() as nat)
    }
}

/// The list of numbers that a comma-separated text holds, where every piece is one.
pub open spec fn csv_list(t: Seq<char>) -> Option<Seq<usize>> {
    numbers_of(split(t, ','))
}

/// The numbers that texts stand for, where every one stands for one.
pub open spec fn numbers_of(pieces: Seq<Seq<char>>) -> Option<Seq<usize>>
    decreases pieces.len(),
{
    if pieces.len() == 0 {
        Some(Seq::empty())
    } else {
        match (numbers_of(pieces.drop_last()), parsed(pieces.last(), usize::MAX as nat)) {
            (Some(v), Some(n)) => Some(v.push(n as usize)),
            _ => None,
        }
    }
}

/// Writes numbers with commas between them.
pub fn join_csv(v: &[usize]) -> (text: String)
    ensures
        text@ == csv(v@),
{
    let mut out: String = String::new();
    for i in 0..v.len()
        invariant
            out@ == csv(v@.take(i as int)),
    {
        proof {
            assert(v@.take(i + 1).drop_last() =~= v@.take(i as int));
        }
        if i > 0 {
            out.push(',');
        }
        push_decimal(&mut out, v[i] as u64);
        proof {
            if i == 0 {
                assert(v@.take(0) =~= Seq::<usize>::empty());
                assert(out@ =~= csv(v@.take(i + 1)));
            }
        }
    }
    proof {
        assert(v@.take(v@.len() as int) =~= v@);
    }
    out
}

proof fn lemma_numbers_none(pieces: Seq<Seq<char>>, i: int)
    requires
        0 <= i < pieces.len(),
        parsed(pieces[i], usize::MAX as nat) is None,
    ensures
        numbers_of(pieces) is None,
    decreases pieces.len(),
{
    if i < pieces.len() - 1 {
        lemma_numbers_none(pieces.drop_last(), i);
    }
}

/// Reads a comma-separated list of numbers.
pub fn parse_csv(t: &[char]) -> (v: Option<Vec<usize>>)
    ensures
        match v {
            Some(v) => csv_list(t@) == Some(v@),
            None => csv_list(t@) is None,
        },
{
    let pieces: Vec<Vec<char>> = split_on(t, ',');
    let ghost all = texts(pieces@);
    let mut out: Vec<usize> = Vec::new();
    proof {
        assert(all.take(0) =~= Seq::<Seq<char>>::empty());
    }
    for i in 0..pieces.len()
        invariant
            all == texts(pieces@),
            all == split(t@, ','),
            numbers_of(all.take(i as int)) == Some(out@),
    {
        proof {
            assert(all.take(i + 1).drop_last() =~= all.take(i as int));
            assert(all.take(i + 1).last() == pieces@[i as int]@);
        }
        match parse_number(pieces[i].as_slice(), usize::MAX as u64) {
            Some(n) => {
                out.push(n as usize);
            },
            None => {
                proof {
                    lemma_numbers_none(all, i as int);
                }
                return None;
            },
        }
    }
    proof {
        assert(all.take(all.len() as int) =~= all);
    }
    Some(out)
}

proof fn lemma_csv_pieces(v: Seq<usize>)
    requires
        v.len() > 0,
    ensures
        split(csv(v), ',') == Seq::new(v.len(), |i: int| decimal(v[i] as nat)),
    decreases v.len(),
{
    let d = decimal(v.last() as nat);
    lemma_decimal(v.last() as nat);
    assert forall|i: int| 0 <= i < d.len() implies #[trigger] d[i] != ',' by {
        assert(is_digit(d[i]));
    }
    if v.len() == 1 {
        lemma_split_none(d, ',');
        assert(seq![d] =~= Seq::new(v.len(), |i: int| decimal(v[i] as nat)));
    } else {
        lemma_csv_pieces(v.drop_last());
        lemma_split_push(csv(v.drop_last()), ',', d);
        assert(Seq::new((v.len() - 1) as nat, |i: int| decimal(v.drop_last()[i] as nat)).push(d)
            =~= Seq::new(v.len(), |i: int| decimal(v[i] as nat)));
    }
}

proof fn lemma_numbers_of_decimals(v: Seq<usize>)
    ensures
        numbers_of(Seq::new(v.len(), |i: int| decimal(v[i] as nat))) == Some(v),
    decreases v.len(),
{
    let all = Seq::new(v.len(), |i: int| decimal(v[i] as nat));
    if v.len() > 0 {
        let w = v.drop_last();
        lemma_numbers_of_decimals(w);
        assert(all.drop_last() =~= Seq::new(w.len(), |i: int| decimal(w[i] as nat)));
        law_decimal_reads_back(v.last() as nat, usize::MAX as nat);
        assert(w.push(v.last()) =~= v);
    } else {
        assert(v =~= Seq::<usize>::empty());
    }
}

/// A list of numbers, at least one, written with commas reads back as the list.
pub proof fn law_csv_reads_back(v: Seq<usize>)
    requires
        v.len() > 0,
    ensures
        csv_list(csv(v)) == Some(v),
{
    lemma_csv_pieces(v);
    lemma_numbers_of_decimals(v);
}

/// A comma-separated list has no white space.
pub proof fn lemma_csv_is_a_word(v: Seq<usize>)
    ensures
        v.len() > 0 ==> csv(v).len() > 0,
        forall|i: int| 0 <= i < csv(v).len() ==> !white_space(#[trigger] csv(v)[i]),
    decreases v.len(),
{
    if v.len() > 0 {
        let d = decimal(v.last() as nat);
        lemma_decimal_is_a_word(v.last() as nat);
        if v.len() > 1 {
            lemma_csv_is_a_word(v.drop_last());
            let front = csv(v.drop_last());
            assert forall|i: int| 0 <= i < csv(v).len() implies !white_space(
                #[trigger] csv(v)[i],
            ) by {
                if i < front.len() {
                    assert(csv(v)[i] == front[i]);
                } else if i > front.len() {
                    assert(csv(v)[i] == d[i - front.len() - 1]);
                }
            }
        }
    }
}

/// A number has no white space.
pub proof fn lemma_decimal_is_a_word(n: nat)
    ensures
        decimal(n).len() > 0,
        forall|i: int| 0 <= i < decimal(n).len() ==> !white_space(#[trigger] decimal(n)[i]),
{
    lemma_decimal(n);
    assert forall|i: int| 0 <= i < decimal(n).len() implies !white_space(
        #[trigger] decimal(n)[i],
    ) by {
        assert(is_digit(decimal(n)[i]));
    }
}

/// The hexadecimal digit of `d`.
pub open spec fn hex_digit(d: nat) -> char {
    if d < 10 {
        ('0' as u32 + d) as char
    } else {
        ('a' as u32 + (d - 10)) as char
    }
}

/// The last `k` hexadecimal digits of a number.
pub open spec fn hex(n: nat, k: nat) -> Seq<char>
    decreases k,
{
    if k == 0 {
        Seq::empty()
    } else {
        hex(n / 16, (k - 1) as nat).push(hex_digit(n % 16))
    }
}

fn hex_char(d: u64) -> (c: char)
    requires
        d < 16,
    ensures
        c == hex_digit(d as nat),
{
    match d {
        0 => '0',
        1 => '1',
        2 => '2',
        3 => '3',
        4 => '4',
        5 => '5',
        6 => '6',
        7 => '7',
        8 => '8',
        9 => '9',
        10 => 'a',
        11 => 'b',
        12 => 'c',
        13 => 'd',
        14 => 'e',
        _ => 'f',
    }
}

/// Appends the last `k` hexadecimal digits of a number.
pub fn push_hex(out: &mut String, n: u64, k: usize)
    ensures
        final(out)@ == old(out)@ + hex(n as nat, k as nat),
    decreases k,
{
    if k > 0 {
        push_hex(out, n / 16, k - 1);
        out.push(hex_char(n % 16));
    }
    proof {
        assert(out@ =~= old(out)@ + hex(n as nat, k as nat));
    }
}

/// Hexadecimal digits have no white space.
pub proof fn lemma_hex_is_a_word(n: nat, k: nat)
    ensures
        hex(n, k).len() == k,
        forall|i: int| 0 <= i < hex(n, k).len() ==> !white_space(#[trigger] hex(n, k)[i]),
    decreases k,
{
    if k > 0 {
        lemma_hex_is_a_word(n / 16, (k - 1) as nat);
        let front = hex(n / 16, (k - 1) as nat);
        assert forall|i: int| 0 <= i < hex(n, k).len() implies !white_space(
            #[trigger] hex(n, k)[i],
        ) by {
            if i < front.len() {
                assert(hex(n, k)[i] == front[i]);
            }
        }
    }
}

/// Pieces with a separator between each two.
pub open spec fn joined_by(pieces: Seq<Seq<char>>, sep: char) -> Seq<char>
    decreases pieces.len(),
{
    if pieces.len() == 0 {
        Seq::empty()
    } else if pieces.len() == 1 {
        pieces[0]
    } else {
        joined_by(pieces.drop_last(), sep).push(sep) + pieces.last()
    }
}

/// Splitting cuts at every separator and nowhere else: the pieces, with the separator put
/// back between each two, are the text, and none of them holds a separator.
pub proof fn law_split_cuts_at_separators(t: Seq<char>, sep: char)
    ensures
        joined_by(split(t, sep), sep) == t,
        forall|k: int, i: int|
            0 <= k < split(t, sep).len() && 0 <= i < split(t, sep)[k].len()
                ==> #[trigger] split(t, sep)[k][i] != sep,
    decreases t.len(),
{
    let pieces = split(t, sep);
    if t.len() > 0 {
        let u = t.drop_last();
        law_split_cuts_at_separators(u, sep);
        let before = split(u, sep);
        assert(t =~= u.push(t.last()));
        if t.last() == sep {
            assert(pieces =~= before.push(Seq::<char>::empty()));
            assert(pieces.drop_last() =~= before);
            assert(joined_by(pieces, sep) =~= u.push(sep));
        } else {
            let last = before.last().push(t.last());
            assert(pieces =~= before.drop_last().push(last));
            assert(pieces.drop_last() =~= before.drop_last());
            assert(joined_by(pieces, sep) =~= joined_by(before, sep).push(t.last()));
            assert forall|k: int, i: int|
                0 <= k < pieces.len() && 0 <= i < pieces[k].len() implies #[trigger] pieces[k][i]
                != sep by {
                if k < before.len() - 1 {
                    assert(pieces[k] == before[k]);
                    assert(before[k][i] != sep);
                } else if i < before.last().len() {
                    assert(before[before.len() - 1][i] != sep);
                }
            }
        }
    } else {
        assert(pieces =~= seq![Seq::<char>::empty()]);
    }
}

/// The characters of a text that are not white space.
pub open spec fn inked(t: Seq<char>) -> Seq<char>
    decreases t.len(),
{
    if t.len() == 0 {
        Seq::empty()
    } else if white_space(t.last()) {
        inked(t.drop_last())
    } else {
        inked(t.drop_last()).push(t.last())
    }
}

/// Words, one behind the other.
pub open spec fn run_together(words: Seq<Seq<char>>) -> Seq<char>
    decreases words.len(),
{
    if words.len() == 0 {
        Seq::empty()
    } else {
        run_together(words.drop_last()) + words.last()
    }
}

/// Words are never empty and hold no white space, and together they are all of a text that
/// is not white space; and a text that ends in white space has the same words without it.
pub proof fn law_words_are_what_is_not_white_space(t: Seq<char>)
    ensures
        run_together(words(t)) == inked(t),
        forall|k: int|
            0 <= k < words(t).len() ==> (#[trigger] words(t)[k]).len() > 0 && forall|i: int|
                0 <= i < words(t)[k].len() ==> !white_space(#[trigger] words(t)[k][i]),
        t.len() > 0 && white_space(t.last()) ==> words(t) == words(t.drop_last()),
    decreases t.len(),
{
    let now = words(t);
    if t.len() > 0 {
        let u = t.drop_last();
        law_words_are_what_is_not_white_space(u);
        let before = words(u);
        if white_space(t.last()) {
            assert(now =~= before);
        } else if word_after(u).len() > 0 {
            let last = word_after(u).push(t.last());
            assert(before.drop_last() =~= words_ended(u));
            assert(now =~= words_ended(u).push(last));
            assert(now.drop_last() =~= words_ended(u));
            assert(run_together(before) == run_together(words_ended(u)) + word_after(u));
            assert(run_together(now) =~= run_together(before).push(t.last()));
            assert forall|k: int| 0 <= k < now.len() implies (#[trigger] now[k]).len() > 0
                && forall|i: int|
                0 <= i < now[k].len() ==> !white_space(#[trigger] now[k][i]) by {
                if k < now.len() - 1 {
                    assert(now[k] == before[k]);
                } else {
                    assert(before[k] == word_after(u));
                    assert forall|i: int| 0 <= i < last.len() implies !white_space(
                        #[trigger] last[i],
                    ) by {
                        if i < word_after(u).len() {
                            assert(!white_space(before[k][i]));
                        }
                    }
                }
            }
        } else {
            let one = seq![t.last()];
            assert(word_after(t) =~= one);
            assert(before == words_ended(u));
            assert(now =~= before.push(one));
            assert(now.drop_last() =~= before);
            assert(run_together(now) =~= run_together(before).push(t.last()));
            assert forall|k: int| 0 <= k < now.len() implies (#[trigger] now[k]).len() > 0
                && forall|i: int|
                0 <= i < now[k].len() ==> !white_space(#[trigger] now[k][i]) by {
                if k < before.len() {
                    assert(now[k] == before[k]);
                }
            }
        }
    } else {
        assert(now =~= Seq::<Seq<char>>::empty());
    }
}

/// A number is read from its digits alone, a plus sign before them left out; what exceeds the
/// bound and what has no digit or another character is none.
pub proof fn law_numbers_are_their_digits(t: Seq<char>, n: nat, max: nat, i: int)
    ensures
        n > max ==> parsed(decimal(n), max) is None,
        n <= max ==> parsed(seq!['+'] + decimal(n), max) == Some(n),
        parsed(Seq::empty(), max) is None,
        0 <= i < t.len() && !is_digit(t[i]) && !(i == 0 && t[0] == '+') ==> parsed(t, max) is None,
{
    lemma_decimal(n);
    let d = decimal(n);
    let p = seq!['+'] + d;
    assert(p.skip(1) =~= d);
    assert(is_digit(d[0]));
    if 0 <= i < t.len() && !is_digit(t[i]) && !(i == 0 && t[0] == '+') {
        let u = unsigned_part(t);
        if t.len() > 1 && t[0] == '+' {
            assert(u[i - 1] == t[i]);
        }
    }
}

/// What a hexadecimal digit counts.
pub open spec fn hex_digit_value(c: char) -> int {
    if '0' <= c <= '9' {
        c as int - '0' as int
    } else {
        c as int - 'a' as int + 10
    }
}

/// The number that hexadecimal digits stand for.
pub open spec fn hex_value(t: Seq<char>) -> int
    decreases t.len(),
{
    if t.len() == 0 {
        0
    } else {
        hex_value(t.drop_last()) * 16 + hex_digit_value(t.last())
    }
}

/// Hexadecimal digits stand for the number that they are written for, and there are as many
/// as are asked for.
pub proof fn law_hex_reads_back(n: nat, k: nat)
    requires
        n < pow16(k),
    ensures
        hex(n, k).len() == k,
        hex_value(hex(n, k)) == n,
    decreases k,
{
    if k > 0 {
        let front = hex(n / 16, (k - 1) as nat);
        law_hex_reads_back(n / 16, (k - 1) as nat);
        assert(hex(n, k).drop_last() =~= front);
        assert(hex_digit_value(hex_digit(n % 16)) == n % 16);
    }
}

/// Powers of sixteen.
pub open spec fn pow16(k: nat) -> nat
    decreases k,
{
    if k == 0 {
        1
    } else {
        16 * pow16((k - 1) as nat)
    }
}

} // verus!
