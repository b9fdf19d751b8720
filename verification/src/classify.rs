//! Classification of single codepoints: CJK ideographs, whitespace, and the
//! ASCII punctuation that the word counter trims from token edges.

use vstd::prelude::*;

verus! {

/// A codepoint belongs to one of the CJK ideograph blocks: the Unified
/// Ideographs block, extensions A through E, the Compatibility Ideographs
/// block, or the Compatibility Supplement.
pub open spec fn is_cjk_char(c: char) -> bool {
    ||| 0x4E00 <= c as u32 <= 0x9FFF  // CJK Unified Ideographs
    ||| 0x3400 <= c as u32 <= 0x4DBF  // Extension A
    ||| 0x20000 <= c as u32 <= 0x2A6DF  // Extension B
    ||| 0x2A700 <= c as u32 <= 0x2B73F  // Extension C
    ||| 0x2B740 <= c as u32 <= 0x2B81F  // Extension D
    ||| 0x2B820 <= c as u32 <= 0x2CEAF  // Extension E
    ||| 0xF900 <= c as u32 <= 0xFAFF  // Compatibility Ideographs
    ||| 0x2F800 <= c as u32 <= 0x2FA1F  // Compatibility Supplement
}

/// True exactly when the character lies in a CJK ideograph block; each such
/// character counts as a word of its own.
pub fn is_cjk(c: char) -> (b: bool)
    ensures
        b == is_cjk_char(c),
{
    let u: u32 = c as u32;
    (0x4E00 <= u && u <= 0x9FFF) || (0x3400 <= u && u <= 0x4DBF) || (0x20000 <= u && u <= 0x2A6DF)
        || (0x2A700 <= u && u <= 0x2B73F) || (0x2B740 <= u && u <= 0x2B81F) || (0x2B820 <= u && u
        <= 0x2CEAF) || (0xF900 <= u && u <= 0xFAFF) || (0x2F800 <= u && u <= 0x2FA1F)
}

/// A codepoint with the Unicode `White_Space` property; tokens and word runs
/// are delimited by exactly these characters.
pub open spec fn is_space_char(c: char) -> bool {
    ||| 0x09 <= c as u32 <= 0x0D  // tab, line feed, vertical tab, form feed, carriage return
    ||| c == ' '
    ||| c as u32 == 0x85  // next line
    ||| c as u32 == 0xA0  // no-break space
    ||| c as u32 == 0x1680  // ogham space mark
    ||| 0x2000 <= c as u32 <= 0x200A  // en quad .. hair space
    ||| c as u32 == 0x2028  // line separator
    ||| c as u32 == 0x2029  // paragraph separator
    ||| c as u32 == 0x202F  // narrow no-break space
    ||| c as u32 == 0x205F  // medium mathematical space
    ||| c as u32 == 0x3000  // ideographic space
}

/// True exactly when the character has the Unicode `White_Space` property.
pub fn is_space(c: char) -> (b: bool)
    ensures
        b == is_space_char(c),
{
    let u: u32 = c as u32;
    (0x09 <= u && u <= 0x0D) || u == 0x20 || u == 0x85 || u == 0xA0 || u == 0x1680 || (0x2000 <= u
        && u <= 0x200A) || u == 0x2028 || u == 0x2029 || u == 0x202F || u == 0x205F || u == 0x3000
}

/// ASCII punctuation that the word counter ignores at the edges of a token.
/// Apostrophe and hyphen are kept, so contractions and hyphenated compounds
/// stay whole.
pub open spec fn is_trim_punct(c: char) -> bool {
    &&& ({
        ||| 0x21 <= c as u32 <= 0x2F  // ! " # $ % & ' ( ) * + , - . /
        ||| 0x3A <= c as u32 <= 0x40  // : ; < = > ? @
        ||| 0x5B <= c as u32 <= 0x60  // [ \ ] ^ _ `
        ||| 0x7B <= c as u32 <= 0x7E  // { | } ~
    })
    &&& c != '\''
    &&& c != '-'
}

/// True exactly when the character is ASCII punctuation other than apostrophe
/// or hyphen.
pub fn is_trimmed_punct(c: char) -> (b: bool)
    ensures
        b == is_trim_punct(c),
{
    let u: u32 = c as u32;
    ((0x21 <= u && u <= 0x2F) || (0x3A <= u && u <= 0x40) || (0x5B <= u && u <= 0x60) || (0x7B <= u
        && u <= 0x7E)) && u != 0x27 && u != 0x2D
}

} // verus!
