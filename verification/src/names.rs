//! Tests on tensor names and other short texts.

use crate::text::matches_at;
use crate::text::stands_at;
use crate::unicode::chars_of;
use vstd::prelude::*;

verus! {

/// `part` stands somewhere in `t`.
pub open spec fn contains_text(t: Seq<char>, part: Seq<char>) -> bool {
    exists|i: int| stands_at(t, part, i)
}

/// `t` begins with `head`.
pub open spec fn begins_with(t: Seq<char>, head: Seq<char>) -> bool {
    stands_at(t, head, 0)
}

/// `t` ends with `tail`.
pub open spec fn ends_with(t: Seq<char>, tail: Seq<char>) -> bool {
    stands_at(t, tail, t.len() - tail.len())
}

/// Whether `part` stands somewhere in `t`.
pub fn has_part(t: &[char], part: &str) -> (yes: bool)
    ensures
        yes == contains_text(t@, part@),
{
    let p: Vec<char> = chars_of(part);
    let n: usize = t.len();
    let mut i: usize = 0;
    while i < n
        invariant
            i <= n == t@.len(),
            p@ == part@,
            forall|j: int| 0 <= j < i ==> !#[trigger] stands_at(t@, part@, j),
        decreases n - i,
    {
        if matches_at(t, p.as_slice(), i) {
            return true;
        }
        i += 1;
    }
    let last = matches_at(t, p.as_slice(), n);
    proof {
        if contains_text(t@, part@) {
            let j = choose|j: int| stands_at(t@, part@, j);
            assert(j >= n);
            assert(j == n);
        }
    }
    last
}

/// Whether `t` begins with `head`.
pub fn has_head(t: &[char], head: &str) -> (yes: bool)
    ensures
        yes == begins_with(t@, head@),
{
    let p: Vec<char> = chars_of(head);
    matches_at(t, p.as_slice(), 0)
}

/// Whether `t` ends with `tail`.
pub fn has_tail(t: &[char], tail: &str) -> (yes: bool)
    ensures
        yes == ends_with(t@, tail@),
{
    let p: Vec<char> = chars_of(tail);
    if p.len() > t.len() {
        return false;
    }
    matches_at(t, p.as_slice(), t.len() - p.len())
}

/// Whether `t` is `other`.
pub fn same_text(t: &[char], other: &str) -> (yes: bool)
    ensures
        yes == (t@ == other@),
{
    let p: Vec<char> = chars_of(other);
    if p.len() != t.len() {
        return false;
    }
    let yes = matches_at(t, p.as_slice(), 0);
    proof {
        assert(t@.subrange(0, t@.len() as int) =~= t@);
    }
    yes
}

} // verus!
