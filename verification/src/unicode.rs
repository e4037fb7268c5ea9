//! Unicode facts, taken from the Unicode tables of outside crates and of std.

use unicode_normalization::UnicodeNormalization;
use unicode_properties::GeneralCategoryGroup;
use unicode_properties::UnicodeGeneralCategory;
use vstd::prelude::*;

verus! {

/// Whether a character's general category is one of the letter categories.
pub uninterp spec fn letter(c: char) -> bool;

/// Whether a character's general category is one of the number categories.
pub uninterp spec fn number(c: char) -> bool;

/// The Unicode `White_Space` property.
pub open spec fn white_space(c: char) -> bool {
    ||| '\u{9}' <= c <= '\u{d}'
    ||| c == ' '
    ||| c == '\u{85}'
    ||| c == '\u{a0}'
    ||| c == '\u{1680}'
    ||| '\u{2000}' <= c <= '\u{200a}'
    ||| c == '\u{2028}'
    ||| c == '\u{2029}'
    ||| c == '\u{202f}'
    ||| c == '\u{205f}'
    ||| c == '\u{3000}'
}

/// White space is the 25 code points of the Unicode property, and no other.
pub proof fn law_white_space_is_the_property(c: char)
    ensures
        white_space(c) <==> seq![
            9int,
            10,
            11,
            12,
            13,
            32,
            133,
            160,
            5760,
            8192,
            8193,
            8194,
            8195,
            8196,
            8197,
            8198,
            8199,
            8200,
            8201,
            8202,
            8232,
            8233,
            8239,
            8287,
            12288,
        ].contains(c as int),
{
    let all = seq![
        9int,
        10,
        11,
        12,
        13,
        32,
        133,
        160,
        5760,
        8192,
        8193,
        8194,
        8195,
        8196,
        8197,
        8198,
        8199,
        8200,
        8201,
        8202,
        8232,
        8233,
        8239,
        8287,
        12288,
    ];
    let x = c as int;
    if 9 <= x <= 13 {
        assert(all[x - 9] == x);
    } else if x == 32 {
        assert(all[5] == x);
    } else if x == 133 {
        assert(all[6] == x);
    } else if x == 160 {
        assert(all[7] == x);
    } else if x == 5760 {
        assert(all[8] == x);
    } else if 8192 <= x <= 8202 {
        assert(all[x - 8192 + 9] == x);
    } else if x == 8232 || x == 8233 {
        assert(all[x - 8232 + 20] == x);
    } else if x == 8239 {
        assert(all[22] == x);
    } else if x == 8287 {
        assert(all[23] == x);
    } else if x == 12288 {
        assert(all[24] == x);
    }
}

/// Normalization form C of a text.
pub uninterp spec fn nfc(text: Seq<char>) -> Seq<char>;

/// The text that bytes decode to, with U+FFFD for what is not UTF-8.
pub uninterp spec fn lossy(bytes: Seq<u8>) -> Seq<char>;

/// `general_category_group` of `unicode_properties`: the claim is only that the
/// answer depends on nothing but the character.
#[verifier::external_body]
pub(crate) fn is_letter(c: char) -> (yes: bool)
    ensures
        yes == letter(c),
{
    matches!(c.general_category_group(), GeneralCategoryGroup::Letter)
}

/// `char::is_numeric` of std (general categories Nd, Nl and No): the claim is
/// only that the answer depends on nothing but the character.
#[verifier::external_body]
pub(crate) fn is_number(c: char) -> (yes: bool)
    ensures
        yes == number(c),
{
    c.is_numeric()
}

/// Whether a character is white space.
pub fn is_white_space(c: char) -> (yes: bool)
    ensures
        yes == white_space(c),
{
    ('\u{9}' <= c && c <= '\u{d}') || c == ' ' || c == '\u{85}' || c == '\u{a0}' || c == '\u{1680}'
        || ('\u{2000}' <= c && c <= '\u{200a}') || c == '\u{2028}' || c == '\u{2029}' || c
        == '\u{202f}' || c == '\u{205f}' || c == '\u{3000}'
}

/// `nfc` of `unicode_normalization`: the claim is only that the result depends
/// on nothing but the text.
#[verifier::external_body]
pub(crate) fn normalize_nfc(text: &str) -> (normalized: String)
    ensures
        normalized@ == nfc(text@),
{
    text.nfc().collect()
}

/// `String::from_utf8_lossy` of std: the result depends on nothing but the
/// bytes, and valid UTF-8 decodes to the text whose encoding it is.
#[verifier::external_body]
pub(crate) fn utf8_lossy(bytes: &[u8]) -> (text: String)
    ensures
        text@ == lossy(bytes@),
        vstd::utf8::valid_utf8(bytes@) ==> vstd::utf8::encode_utf8(text@) == bytes@,
{
    String::from_utf8_lossy(bytes).into_owned()
}

/// `String::from_utf8` of std: succeeds on valid UTF-8 only, with the text whose
/// encoding the bytes are.
#[verifier::external_body]
pub(crate) fn utf8_text(bytes: Vec<u8>) -> (text: Option<String>)
    ensures
        text is Some <==> vstd::utf8::valid_utf8(bytes@),
        text matches Some(t) ==> vstd::utf8::encode_utf8(t@) == bytes@,
{
    String::from_utf8(bytes).ok()
}

/// `String::push` of std appends one character.
pub assume_specification[ String::push ](s: &mut String, c: char)
    ensures
        final(s)@ == old(s)@.push(c),
;

/// The characters of a text.
pub fn chars_of(text: &str) -> (chars: Vec<char>)
    ensures
        chars@ == text@,
{
    let mut chars: Vec<char> = Vec::new();
    for c in it: text.chars()
        invariant
            it.seq() == text@,
            chars@ == text@.take(it.index() as int),
    {
        proof {
            assert(text@.take(it.index() as int).push(c) =~= text@.take(it.index() + 1));
        }
        chars.push(c);
    }
    proof {
        assert(text@.take(text@.len() as int) =~= text@);
    }
    chars
}

/// The text of a run of characters.
pub fn text_of(chars: &[char]) -> (text: String)
    ensures
        text@ == chars@,
{
    let mut text = String::new();
    for i in 0..chars.len()
        invariant
            text@ == chars@.take(i as int),
    {
        text.push(chars[i]);
        proof {
            assert(chars@.take(i as int).push(chars@[i as int]) =~= chars@.take(i + 1));
        }
    }
    proof {
        assert(chars@.take(chars@.len() as int) =~= chars@);
    }
    text
}

} // verus!
