//! The printable alphabet of byte-level vocabularies: every byte has one
//! character, printable bytes their own, the others the characters from U+0100 on.

use crate::table::copy_bytes;
use crate::unicode::chars_of;
use vstd::prelude::*;
use vstd::utf8::encode_utf8;

verus! {

/// Bytes that stand for themselves in a vocabulary file.
pub open spec fn printable(b: int) -> bool {
    0x21 <= b <= 0x7e || 0xa1 <= b <= 0xac || 0xae <= b <= 0xff
}

/// How many bytes below `b` do not stand for themselves.
pub open spec fn hidden_below(b: int) -> int
    decreases b,
{
    if b <= 0 {
        0
    } else if printable(b - 1) {
        hidden_below(b - 1)
    } else {
        hidden_below(b - 1) + 1
    }
}

/// The code point of the character that stands for a byte.
pub open spec fn byte_code(b: int) -> int {
    if printable(b) {
        b
    } else {
        0x100 + hidden_below(b)
    }
}

/// The character that stands for a byte.
pub open spec fn byte_char(b: u8) -> char {
    byte_code(b as int) as char
}

/// A character stands for some byte.
pub open spec fn is_byte_char(c: char) -> bool {
    exists|b: u8| byte_char(b) == c
}

/// The byte that a character stands for.
pub open spec fn byte_of(c: char) -> u8 {
    choose|b: u8| byte_char(b) == c
}

/// The bytes of a vocabulary entry: those its characters stand for, or the UTF-8 of
/// an entry with a character that stands for none.
pub open spec fn byte_level(value: Seq<char>) -> Seq<u8> {
    if forall|i: int| 0 <= i < value.len() ==> is_byte_char(#[trigger] value[i]) {
        Seq::new(value.len(), |i: int| byte_of(value[i]))
    } else {
        encode_utf8(value)
    }
}

proof fn lemma_hidden_bounds(b: int)
    requires
        0 <= b,
    ensures
        0 <= hidden_below(b) <= b,
    decreases b,
{
    if b > 0 {
        lemma_hidden_bounds(b - 1);
    }
}

proof fn lemma_hidden_grows(a: int, b: int)
    requires
        0 <= a < b,
        !printable(a),
    ensures
        hidden_below(a) < hidden_below(b),
    decreases b,
{
    if a + 1 < b {
        lemma_hidden_grows(a, b - 1);
    }
}

proof fn lemma_byte_code_char(b: u8)
    ensures
        byte_char(b) as int == byte_code(b as int),
        0x21 <= byte_code(b as int) < 0x200,
{
    lemma_hidden_bounds(b as int);
}

/// No two bytes share a character.
pub proof fn law_byte_chars_are_distinct(a: u8, b: u8)
    requires
        byte_char(a) == byte_char(b),
    ensures
        a == b,
{
    lemma_byte_code_char(a);
    lemma_byte_code_char(b);
    lemma_hidden_bounds(a as int);
    lemma_hidden_bounds(b as int);
    if a < b && !printable(a as int) {
        lemma_hidden_grows(a as int, b as int);
    }
    if b < a && !printable(b as int) {
        lemma_hidden_grows(b as int, a as int);
    }
}

proof fn lemma_hidden_through(b: int)
    requires
        0 <= b <= 0x100,
    ensures
        b <= 0x21 ==> hidden_below(b) == b,
        0x21 <= b <= 0x7f ==> hidden_below(b) == 0x21,
        0x7f <= b <= 0xa1 ==> hidden_below(b) == 0x21 + (b - 0x7f),
        0xa1 <= b <= 0xad ==> hidden_below(b) == 0x43,
    decreases b,
{
    if b > 0 {
        lemma_hidden_through(b - 1);
    }
}

/// The alphabet, range by range: control bytes and the blank stand from U+0100 on, visible
/// ASCII for itself, the bytes from delete to the hard blank from U+0121 on, the rest of
/// Latin-1 for itself but for the soft hyphen, which is U+0143.
pub proof fn law_alphabet_by_ranges(b: u8)
    ensures
        b <= 0x20 ==> byte_char(b) as int == 0x100 + b,
        '!' as int <= b as int <= '~' as int ==> byte_char(b) as int == b,
        0x7f <= b <= 0xa0 ==> byte_char(b) as int == 0x121 + (b - 0x7f),
        0xa1 <= b <= 0xac ==> byte_char(b) as int == b,
        b == 0xad ==> byte_char(b) as int == 0x143,
        0xae <= b ==> byte_char(b) as int == b,
{
    lemma_byte_code_char(b);
    lemma_hidden_through(b as int);
}

/// An entry with a character outside the alphabet is its own UTF-8, and one inside it has
/// a byte for each character.
pub proof fn law_foreign_entries_are_utf8(value: Seq<char>, i: int)
    requires
        0 <= i < value.len(),
    ensures
        (forall|b: u8| byte_char(b) != value[i]) ==> byte_level(value) == encode_utf8(value),
        (forall|k: int| 0 <= k < value.len() ==> is_byte_char(#[trigger] value[k])) ==> {
            &&& byte_level(value).len() == value.len()
            &&& byte_char(byte_level(value)[i]) == value[i]
        },
{
    assert(is_byte_char(value[i]) || !is_byte_char(value[i]));
}

/// The vocabulary entry that spells a byte string.
pub open spec fn spelled(bytes: Seq<u8>) -> Seq<char> {
    Seq::new(bytes.len(), |i: int| byte_char(bytes[i]))
}

/// Spelling a byte string and reading it back gives the byte string.
pub proof fn law_byte_level_inverts_spelling(bytes: Seq<u8>)
    ensures
        byte_level(spelled(bytes)) == bytes,
{
    let value = spelled(bytes);
    assert forall|i: int| 0 <= i < value.len() implies is_byte_char(#[trigger] value[i]) by {
        assert(byte_char(bytes[i]) == value[i]);
    }
    assert forall|i: int| 0 <= i < bytes.len() implies byte_of(#[trigger] value[i]) == bytes[i] by {
        assert(byte_char(bytes[i]) == value[i]);
        law_byte_chars_are_distinct(byte_of(value[i]), bytes[i]);
    }
    assert(byte_level(value) =~= bytes);
}

/// The 256 characters, by byte.
pub fn byte_to_char_table() -> (table: Vec<u32>)
    ensures
        table@.len() == 256,
        forall|b: u8| #[trigger] table@[b as int] == byte_char(b) as u32,
{
    let mut table: Vec<u32> = Vec::with_capacity(256);
    let mut extra: u32 = 0;
    for b in 0u32..256u32
        invariant
            table@.len() == b,
            extra == hidden_below(b as int),
            extra <= b,
            forall|p: int| 0 <= p < b ==> #[trigger] table@[p] == byte_code(p),
    {
        if (0x21 <= b && b <= 0x7e) || (0xa1 <= b && b <= 0xac) || (0xae <= b && b <= 0xff) {
            table.push(b);
        } else {
            table.push(0x100 + extra);
            extra += 1;
        }
    }
    proof {
        assert forall|b: u8| #[trigger] table@[b as int] == byte_char(b) as u32 by {
            lemma_byte_code_char(b);
        }
    }
    table
}

/// The bytes of a vocabulary entry.
pub fn byte_level_decode(value: &str) -> (bytes: Vec<u8>)
    ensures
        bytes@ == byte_level(value@),
{
    let table: Vec<u32> = byte_to_char_table();
    let chars: Vec<char> = chars_of(value);
    let mut bytes: Vec<u8> = Vec::with_capacity(chars.len());
    for i in 0..chars.len()
        invariant
            chars@ == value@,
            table@.len() == 256,
            forall|b: u8| #[trigger] table@[b as int] == byte_char(b) as u32,
            bytes@.len() == i,
            forall|j: int|
                0 <= j < i ==> is_byte_char(#[trigger] value@[j]) && bytes@[j] == byte_of(value@[j]),
    {
        let c: u32 = chars[i] as u32;
        let mut b: usize = 0;
        while b < 256 && table[b] != c
            invariant
                b <= 256,
                table@.len() == 256,
                forall|p: int| 0 <= p < b ==> #[trigger] table@[p] != c,
            decreases 256 - b,
        {
            b += 1;
        }
        if b == 256 {
            proof {
                if is_byte_char(value@[i as int]) {
                    let p = byte_of(value@[i as int]);
                    assert(byte_char(p) == value@[i as int]);
                    assert(table@[p as int] == c);
                }
            }
            return copy_bytes(value.as_bytes());
        }
        let byte: u8 = b as u8;
        proof {
            assert(table@[byte as int] == byte_char(byte) as u32);
            vstd::utf8::char_u32_cast(value@[i as int], c);
            vstd::utf8::char_u32_cast(byte_char(byte), c);
            assert(byte_char(byte) == value@[i as int]);
            law_byte_chars_are_distinct(byte, byte_of(value@[i as int]));
        }
        bytes.push(byte);
    }
    proof {
        assert(bytes@ =~= byte_level(value@));
    }
    bytes
}

} // verus!
