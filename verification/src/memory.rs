//! What a model asks of the machine's memory.

use crate::names::has_head;
use crate::names::begins_with;
use crate::numtext::law_decimal_reads_back;
use crate::numtext::lemma_decimal_is_a_word;
use crate::numtext::lemma_words_push;
use crate::numtext::parse_number;
use crate::numtext::parsed;
use crate::numtext::split;
use crate::numtext::split_on;
use crate::numtext::texts;
use crate::numtext::words;
use crate::numtext::words_of;
use crate::text::decimal;
use crate::text::sub_chars;
use crate::unicode::chars_of;
use vstd::prelude::*;

verus! {

/// The bytes that a line "MemAvailable: n kB" names; nothing where no number follows.
pub open spec fn line_bytes(line: Seq<char>) -> Option<u64> {
    let fields = words(line.skip("MemAvailable:"@.len() as int));
    if fields.len() == 0 {
        None
    } else {
        match parsed(fields[0], u64::MAX as nat) {
            Some(kb) => Some((kb as u64).wrapping_mul(1024)),
            None => None,
        }
    }
}

/// The memory that the first such line names.
pub open spec fn available(lines: Seq<Seq<char>>) -> Option<u64>
    decreases lines.len(),
{
    if lines.len() == 0 {
        None
    } else if begins_with(lines[0], "MemAvailable:"@) {
        line_bytes(lines[0])
    } else {
        available(lines.skip(1))
    }
}

fn bytes_of_line(line: &Vec<char>) -> (n: Option<u64>)
    requires
        begins_with(line@, "MemAvailable:"@),
    ensures
        n == line_bytes(line@),
{
    proof {
        reveal_strlit("MemAvailable:");
    }
    let rest: Vec<char> = sub_chars(line.as_slice(), 13, line.len());
    proof {
        assert(rest@ =~= line@.skip(13));
    }
    let fields: Vec<Vec<char>> = words_of(rest.as_slice());
    proof {
        assert(texts(fields@).len() == fields@.len());
    }
    if fields.len() == 0 {
        return None;
    }
    proof {
        assert(texts(fields@)[0] == fields@[0]@);
    }
    match parse_number(fields[0].as_slice(), u64::MAX) {
        Some(kb) => Some(kb.wrapping_mul(1024)),
        None => None,
    }
}

/// The memory that programs can get, in bytes, from the text of the kernel's report.
pub fn mem_available(report: &str) -> (n: Option<u64>)
    ensures
        n == available(split(report@, '\n')),
{
    let t: Vec<char> = chars_of(report);
    let lines: Vec<Vec<char>> = split_on(t.as_slice(), '\n');
    let total: usize = lines.len();
    proof {
        assert(texts(lines@).skip(0) =~= texts(lines@));
    }
    let mut i: usize = 0;
    while i < total
        invariant
            i <= total == lines@.len(),
            texts(lines@) == split(report@, '\n'),
            available(split(report@, '\n')) == available(texts(lines@).skip(i as int)),
        decreases total - i,
    {
        proof {
            assert(texts(lines@).skip(i as int)[0] == lines@[i as int]@);
            assert(texts(lines@).skip(i as int).skip(1) =~= texts(lines@).skip(i + 1));
        }
        if has_head(lines[i].as_slice(), "MemAvailable:") {
            return bytes_of_line(&lines[i]);
        }
        i += 1;
    }
    None
}

/// What to warn of when a model is opened.
#[derive(Debug, Clone, Copy, PartialEq, Eq, Structural)]
pub enum MemoryWarning {
    /// The whole model is read, and is larger than the memory.
    ModelTooLarge,
    /// The part that stays resident is larger than the memory.
    ResidentTooLarge,
}

/// Whether a model fits: `model` bytes in all, `resident` of them always needed, mapped
/// or read.
pub fn memory_warning(model: u64, resident: u64, mapped: bool, available: Option<u64>) -> (w: Option<
    MemoryWarning,
>)
    ensures
        w == match available {
            Some(a) => if !mapped && model > a {
                Some(MemoryWarning::ModelTooLarge)
            } else if mapped && resident > a {
                Some(MemoryWarning::ResidentTooLarge)
            } else {
                None
            },
            None => None,
        },
{
    match available {
        Some(a) => {
            if !mapped && model > a {
                Some(MemoryWarning::ModelTooLarge)
            } else if mapped && resident > a {
                Some(MemoryWarning::ResidentTooLarge)
            } else {
                None
            }
        },
        None => None,
    }
}

/// Whether the spine of a mapped model is read in ahead of time: where it is known to fit
/// the memory.
pub fn warms_up(spine: u64, available: Option<u64>) -> (yes: bool)
    ensures
        yes == (available is Some && available->Some_0 > spine),
{
    match available {
        Some(a) => a > spine,
        None => false,
    }
}

/// The memory that is available is what the first line of that name gives, in units of 1024
/// bytes.
pub proof fn law_available_is_read(before: Seq<Seq<char>>, n: nat, after: Seq<Seq<char>>)
    requires
        n * 1024 <= u64::MAX,
        forall|i: int|
            0 <= i < before.len() ==> !begins_with(#[trigger] before[i], "MemAvailable:"@),
    ensures
        available(before + seq!["MemAvailable: "@ + decimal(n) + " kB"@] + after) == Some(
            (n * 1024) as u64,
        ),
    decreases before.len(),
{
    let line = "MemAvailable: "@ + decimal(n) + " kB"@;
    let lines = before + seq![line] + after;
    if before.len() > 0 {
        assert(lines[0] == before[0]);
        assert(lines.skip(1) =~= before.skip(1) + seq![line] + after);
        assert forall|i: int| 0 <= i < before.skip(1).len() implies !begins_with(
            #[trigger] before.skip(1)[i],
            "MemAvailable:"@,
        ) by {
            assert(before.skip(1)[i] == before[i + 1]);
        }
        law_available_is_read(before.skip(1), n, after);
    } else {
        let head = "MemAvailable:"@;
        reveal_strlit("MemAvailable:");
        reveal_strlit("MemAvailable: ");
        reveal_strlit(" kB");
        assert(head.push(' ') =~= "MemAvailable: "@);
        assert(lines[0] == line);
        assert(line.subrange(0, head.len() as int) =~= head);
        let d = decimal(n);
        let rest = line.skip(head.len() as int);
        let none = Seq::<char>::empty();
        let unit = seq!['k', 'B'];
        assert(" kB"@ =~= none.push(' ') + unit);
        assert(rest =~= (none.push(' ') + d).push(' ') + unit);
        lemma_decimal_is_a_word(n);
        lemma_words_push(none, ' ', d);
        lemma_words_push(none.push(' ') + d, ' ', unit);
        assert(words(none).len() == 0);
        assert(words(rest)[0] == d);
        law_decimal_reads_back(n, u64::MAX as nat);
    }
}

} // verus!
