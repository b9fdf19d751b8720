//! Paragraph counting over text with heterogeneous newline conventions.
//! `\r\n`, bare `\n` and bare `\r` each end a paragraph; consecutive breaks
//! produce (and count) empty paragraphs.

use crate::chars::str_to_chars;
use vstd::prelude::*;

verus! {

/// The number of newline sequences in the text, where `\r\n` counts once and
/// every remaining bare `\n` or `\r` counts once: the number of `\n` markers
/// the text would hold after normalizing every newline style to `\n`.
pub open spec fn newline_breaks(s: Seq<char>) -> nat
    decreases s.len(),
{
    if s.len() == 0 {
        0
    } else if s[0] == '\r' && s.len() >= 2 && s[1] == '\n' {
        1 + newline_breaks(s.skip(2))
    } else if s[0] == '\r' || s[0] == '\n' {
        1 + newline_breaks(s.skip(1))
    } else {
        newline_breaks(s.skip(1))
    }
}

/// The paragraph count of a text: empty text has none; text without a break
/// is one paragraph; text that opens with a break has as many paragraphs as
/// breaks; any other text has one more paragraph than breaks.
pub open spec fn spec_count_paragraphs(s: Seq<char>) -> nat {
    if s.len() == 0 {
        0
    } else if newline_breaks(s) == 0 {
        1
    } else if s[0] == '\n' || s[0] == '\r' {
        newline_breaks(s)
    } else {
        newline_breaks(s) + 1
    }
}

/// There are never more breaks than characters.
proof fn lemma_newline_breaks_le_len(s: Seq<char>)
    ensures
        newline_breaks(s) <= s.len(),
    decreases s.len(),
{
    if s.len() == 0 {
    } else if s[0] == '\r' && s.len() >= 2 && s[1] == '\n' {
        lemma_newline_breaks_le_len(s.skip(2));
    } else {
        lemma_newline_breaks_le_len(s.skip(1));
    }
}

/// Counts the paragraphs of the text. An empty text has 0; a text with no
/// newline has 1; a text that begins with a newline sequence has one
/// paragraph per newline sequence; any other text has one more paragraph
/// than newline sequences. Every `\r\n`, bare `\n` and bare `\r` is one
/// newline sequence.
pub fn count_paragraphs(text: &str) -> (count: usize)
    ensures
        count == spec_count_paragraphs(text@),
{
    let chars = str_to_chars(text);
    let n = chars.len();
    if n == 0 {
        return 0;
    }
    let mut breaks: usize = 0;
    let mut i: usize = 0;
    proof {
        assert(chars@.skip(0) =~= chars@);
    }
    while i < n
        invariant
            n == chars@.len(),
            text@ == chars@,
            0 <= i <= n,
            breaks + newline_breaks(chars@.skip(i as int)) == newline_breaks(chars@),
            breaks <= i,
        decreases n - i,
    {
        proof {
            lemma_newline_breaks_le_len(chars@.skip(i as int));
        }
        let c = chars[i];
        if c == '\r' && i + 1 < n && chars[i + 1] == '\n' {
            proof {
                assert(chars@.skip(i as int).skip(2) =~= chars@.skip(i as int + 2));
            }
            breaks = breaks + 1;
            i = i + 2;
        } else if c == '\r' || c == '\n' {
            proof {
                assert(chars@.skip(i as int).skip(1) =~= chars@.skip(i as int + 1));
            }
            breaks = breaks + 1;
            i = i + 1;
        } else {
            proof {
                assert(chars@.skip(i as int).skip(1) =~= chars@.skip(i as int + 1));
            }
            i = i + 1;
        }
    }
    proof {
        assert(chars@.skip(n as int) =~= Seq::<char>::empty());
    }
    if breaks == 0 {
        1
    } else {
        let first = chars[0];
        if first == '\n' || first == '\r' {
            breaks
        } else {
            proof {
                lemma_newline_breaks_le_len(chars@.skip(1));
                assert(newline_breaks(chars@) == newline_breaks(chars@.skip(1)));
            }
            breaks + 1
        }
    }
}

/// Law: a non-empty text without any newline sequence is exactly one
/// paragraph, and the empty text has no paragraph at all.
pub proof fn lemma_no_break_single_paragraph(s: Seq<char>)
    ensures
        s.len() == 0 ==> spec_count_paragraphs(s) == 0,
        s.len() > 0 && newline_breaks(s) == 0 ==> spec_count_paragraphs(s) == 1,
{
}

/// The text with every `\r\n` pair and every bare `\r` replaced by a single
/// `\n`.
pub open spec fn normalize_newlines(s: Seq<char>) -> Seq<char>
    decreases s.len(),
{
    if s.len() == 0 {
        Seq::empty()
    } else if s[0] == '\r' && s.len() >= 2 && s[1] == '\n' {
        seq!['\n'] + normalize_newlines(s.skip(2))
    } else if s[0] == '\r' {
        seq!['\n'] + normalize_newlines(s.skip(1))
    } else {
        seq![s[0]] + normalize_newlines(s.skip(1))
    }
}

/// The number of `\n` characters in a text.
pub open spec fn count_nl(s: Seq<char>) -> nat
    decreases s.len(),
{
    if s.len() == 0 {
        0
    } else {
        (if s[0] == '\n' {
            1nat
        } else {
            0nat
        }) + count_nl(s.drop_first())
    }
}

/// Law: every newline style normalizes to the same marker. The break count
/// is exactly the number of `\n` markers left after normalization, and the
/// normalized text opens with a marker exactly when the original opens with
/// `\n` or `\r`.
pub proof fn lemma_breaks_normalize(s: Seq<char>)
    ensures
        newline_breaks(s) == count_nl(normalize_newlines(s)),
        s.len() > 0 ==> normalize_newlines(s).len() > 0,
        s.len() > 0 ==> (normalize_newlines(s)[0] == '\n' <==> (s[0] == '\n' || s[0] == '\r')),
    decreases s.len(),
{
    if s.len() == 0 {
    } else if s[0] == '\r' && s.len() >= 2 && s[1] == '\n' {
        lemma_breaks_normalize(s.skip(2));
        assert((seq!['\n'] + normalize_newlines(s.skip(2))).drop_first() =~= normalize_newlines(
            s.skip(2),
        ));
    } else if s[0] == '\r' || s[0] == '\n' {
        lemma_breaks_normalize(s.skip(1));
        assert((seq!['\n'] + normalize_newlines(s.skip(1))).drop_first() =~= normalize_newlines(
            s.skip(1),
        ));
    } else {
        lemma_breaks_normalize(s.skip(1));
        assert((seq![s[0]] + normalize_newlines(s.skip(1))).drop_first() =~= normalize_newlines(
            s.skip(1),
        ));
    }
}

} // verus!
