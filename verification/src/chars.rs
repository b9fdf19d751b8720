//! Conversions between `&str` / `String` and plain character vectors, and the
//! byte width of a single character's UTF-8 encoding. All segmentation logic
//! works on `Vec<char>`, and results are rebuilt into `String`s here.

use vstd::prelude::*;
use vstd::utf8::encode_scalar;
use vstd::utf8::has_width_1_encoding;
use vstd::utf8::has_width_2_encoding;
use vstd::utf8::has_width_3_encoding;
use vstd::utf8::is_scalar;

verus! {

broadcast use vstd::string::group_string_axioms, vstd::utf8::char_is_scalar;

/// Relies on std's `String::push`, which appends the given character to the
/// end of the string.
pub assume_specification [ String::push ](s: &mut String, ch: char)
    ensures
        final (s)@ == old(s)@.push(ch),
;

/// The characters of the string, in order, as a vector.
pub fn str_to_chars(s: &str) -> (v: Vec<char>)
    ensures
        v@ == s@,
{
    let mut v: Vec<char> = Vec::new();
    for c in it: s.chars()
        invariant
            it.seq() == s@,
            v@ == s@.take(it.index() as int),
    {
        v.push(c);
    }
    proof {
        assert(v@ =~= s@);
    }
    v
}

/// The string holding exactly the characters `chars[from..to]`, in order.
pub fn string_of_range(chars: &Vec<char>, from: usize, to: usize) -> (s: String)
    requires
        from <= to <= chars@.len(),
    ensures
        s@ == chars@.subrange(from as int, to as int),
{
    let mut s: String = String::new();
    let mut i: usize = from;
    while i < to
        invariant
            from <= i <= to <= chars@.len(),
            s@ == chars@.subrange(from as int, i as int),
        decreases to - i,
    {
        s.push(chars[i]);
        i = i + 1;
        proof {
            assert(s@ =~= chars@.subrange(from as int, i as int));
        }
    }
    s
}

/// The number of bytes in the UTF-8 encoding of one character.
pub open spec fn char_bytes(c: char) -> nat {
    encode_scalar(c as u32).len()
}

/// The byte width of the character's UTF-8 encoding: 1 for ASCII, up to 4 for
/// the highest planes.
pub fn char_utf8_len(c: char) -> (n: usize)
    ensures
        n == char_bytes(c),
        1 <= n <= 4,
{
    let u: u32 = c as u32;
    proof {
        assert(is_scalar(c as u32));
    }
    if u < 0x80 {
        proof {
            assert(has_width_1_encoding(u));
        }
        1
    } else if u < 0x800 {
        proof {
            assert(has_width_2_encoding(u));
        }
        2
    } else if u < 0x10000 {
        proof {
            assert(has_width_3_encoding(u));
        }
        3
    } else {
        4
    }
}

} // verus!
