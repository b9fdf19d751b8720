//! Byte-budgeted chunk splitting. Each chunk is the longest prefix of the
//! remaining text whose UTF-8 encoding fits the budget, and never fewer than
//! one whole character, so splitting terminates for any budget and no chunk
//! boundary ever falls inside a multi-byte encoding.

use crate::chars::char_bytes;
use crate::chars::char_utf8_len;
use crate::chars::str_to_chars;
use crate::chars::string_of_range;
use vstd::prelude::*;
use vstd::utf8::encode_utf8;

verus! {

/// The number of leading characters whose UTF-8 encodings fit, one after the
/// other, within the byte budget.
pub open spec fn take_within(s: Seq<char>, budget: int) -> nat
    decreases s.len(),
{
    if s.len() == 0 {
        0
    } else if char_bytes(s[0]) <= budget {
        1 + take_within(s.drop_first(), budget - char_bytes(s[0]))
    } else {
        0
    }
}

/// The budgeted prefix never reaches past the end of the text.
pub proof fn lemma_take_within_le(s: Seq<char>, budget: int)
    ensures
        take_within(s, budget) <= s.len(),
    decreases s.len(),
{
    if s.len() > 0 && char_bytes(s[0]) <= budget {
        lemma_take_within_le(s.drop_first(), budget - char_bytes(s[0]));
    }
}

/// The character count of the first chunk: as many whole characters as fit
/// the budget, but at least one, so that a budget smaller than the next
/// character's encoding still makes progress.
pub open spec fn first_chunk_len(s: Seq<char>, budget: int) -> nat {
    if take_within(s, budget) == 0 {
        1
    } else {
        take_within(s, budget)
    }
}

/// The chunks of a text under a byte budget, in order: empty text has no
/// chunks; otherwise the first chunk is the budgeted prefix and the rest are
/// the chunks of what follows it.
pub open spec fn spec_chunks(s: Seq<char>, budget: int) -> Seq<Seq<char>>
    decreases s.len(),
    via spec_chunks_dec
{
    if s.len() == 0 {
        Seq::empty()
    } else {
        seq![s.take(first_chunk_len(s, budget) as int)] + spec_chunks(
            s.skip(first_chunk_len(s, budget) as int),
            budget,
        )
    }
}

#[via_fn]
proof fn spec_chunks_dec(s: Seq<char>, budget: int) {
    if s.len() > 0 {
        lemma_take_within_le(s, budget);
    }
}

/// The budgeted prefix really fits: its UTF-8 encoding is no longer than the
/// byte budget.
pub proof fn lemma_take_within_fits(s: Seq<char>, budget: int)
    requires
        budget >= 0,
    ensures
        encode_utf8(s.take(take_within(s, budget) as int)).len() <= budget,
    decreases s.len(),
{
    let k = take_within(s, budget) as int;
    if s.len() == 0 || k == 0 {
        assert(s.take(k) =~= Seq::<char>::empty());
    } else {
        let rest = s.drop_first();
        lemma_take_within_le(rest, budget - char_bytes(s[0]));
        lemma_take_within_fits(rest, budget - char_bytes(s[0]));
        assert(s.take(k).drop_first() =~= rest.take(k - 1));
        assert(encode_utf8(s.take(k)).len() == char_bytes(s[0]) + encode_utf8(
            rest.take(k - 1),
        ).len());
    }
}

/// Law: the chunks of a text concatenate, in order, back to exactly the
/// original text; every chunk holds at least one character; and only the
/// empty text yields no chunks. Moreover each chunk's UTF-8 encoding fits
/// the byte budget unless that chunk is a single character whose encoding
/// alone exceeds the budget.
pub proof fn lemma_chunks_cover(s: Seq<char>, budget: int)
    ensures
        spec_chunks(s, budget).flatten() == s,
        forall|i: int| 0 <= i < spec_chunks(s, budget).len() ==> spec_chunks(s, budget)[i].len()
            >= 1,
        spec_chunks(s, budget).len() == 0 <==> s.len() == 0,
        budget >= 0 ==> forall|i: int|
            0 <= i < spec_chunks(s, budget).len() ==> encode_utf8(
                #[trigger] spec_chunks(s, budget)[i],
            ).len() <= budget || spec_chunks(s, budget)[i].len() == 1,
    decreases s.len(),
{
    let chunks = spec_chunks(s, budget);
    if s.len() == 0 {
        assert(chunks.flatten() =~= s);
    } else {
        let k = first_chunk_len(s, budget) as int;
        lemma_take_within_le(s, budget);
        let head = s.take(k);
        let tail = s.skip(k);
        lemma_chunks_cover(tail, budget);
        assert(chunks.drop_first() =~= spec_chunks(tail, budget));
        assert(chunks.flatten() == head + spec_chunks(tail, budget).flatten());
        assert(head + tail =~= s);
        if budget >= 0 {
            lemma_take_within_fits(s, budget);
            assert forall|i: int| 0 <= i < chunks.len() implies encode_utf8(
                #[trigger] chunks[i],
            ).len() <= budget || chunks[i].len() == 1 by {
                if i > 0 {
                    assert(chunks[i] == spec_chunks(tail, budget)[i - 1]);
                }
            }
        }
        assert forall|i: int| 0 <= i < chunks.len() implies chunks[i].len() >= 1 by {
            if i > 0 {
                assert(chunks[i] == spec_chunks(tail, budget)[i - 1]);
            }
        }
    }
}

/// Splits the text into chunks of at most `chunk_size_bytes` UTF-8 bytes,
/// never cutting inside a character's encoding. A chunk shorter than the
/// budget can only be followed by nothing; a chunk longer than the budget is
/// a single character whose encoding alone exceeds the budget. Empty input
/// yields no chunks, and the chunks concatenate back to the input.
pub fn split_into_chunks(content: &str, chunk_size_bytes: usize) -> (chunks: Vec<String>)
    ensures
        chunks.deep_view() == spec_chunks(content@, chunk_size_bytes as int),
{
    let chars = str_to_chars(content);
    let n = chars.len();
    let mut chunks: Vec<String> = Vec::new();
    let mut i: usize = 0;
    proof {
        assert(chars@.skip(0) =~= chars@);
        assert(chunks.deep_view() =~= Seq::<Seq<char>>::empty());
    }
    while i < n
        invariant
            n == chars@.len(),
            content@ == chars@,
            0 <= i <= n,
            chunks.deep_view() + spec_chunks(chars@.skip(i as int), chunk_size_bytes as int)
                == spec_chunks(chars@, chunk_size_bytes as int),
        decreases n - i,
    {
        let ghost remaining = chars@.skip(i as int);
        let mut j: usize = i;
        let mut rem: usize = chunk_size_bytes;
        while j < n
            invariant
                n == chars@.len(),
                0 <= i <= j <= n,
                rem <= chunk_size_bytes,
                remaining == chars@.skip(i as int),
                take_within(remaining, chunk_size_bytes as int) == (j - i) + take_within(
                    chars@.skip(j as int),
                    rem as int,
                ),
            ensures
                0 <= i <= j <= n,
                take_within(chars@.skip(j as int), rem as int) == 0,
                take_within(remaining, chunk_size_bytes as int) == j - i,
            decreases n - j,
        {
            let cb = char_utf8_len(chars[j]);
            if cb > rem {
                break ;
            }
            proof {
                assert(chars@.skip(j as int).drop_first() =~= chars@.skip(j as int + 1));
            }
            rem = rem - cb;
            j = j + 1;
        }
        proof {
            assert(take_within(chars@.skip(j as int), rem as int) == 0);
            assert(take_within(remaining, chunk_size_bytes as int) == j - i);
        }
        let k: usize = if j == i {
            1
        } else {
            j - i
        };
        proof {
            assert(first_chunk_len(remaining, chunk_size_bytes as int) == k);
        }
        let piece = string_of_range(&chars, i, i + k);
        let ghost old_dv = chunks.deep_view();
        chunks.push(piece);
        proof {
            assert(chunks.deep_view() =~= old_dv.push(piece@));
            assert(remaining.take(k as int) =~= chars@.subrange(i as int, i + k));
            assert(remaining.skip(k as int) =~= chars@.skip(i + k));
            assert(spec_chunks(remaining, chunk_size_bytes as int) == seq![piece@] + spec_chunks(
                chars@.skip(i + k),
                chunk_size_bytes as int,
            ));
            assert(old_dv.push(piece@) + spec_chunks(chars@.skip(i + k), chunk_size_bytes as int)
                =~= old_dv + (seq![piece@] + spec_chunks(
                chars@.skip(i + k),
                chunk_size_bytes as int,
            )));
        }
        i = i + k;
    }
    proof {
        assert(chars@.skip(n as int) =~= Seq::<char>::empty());
        assert(chunks.deep_view() + Seq::<Seq<char>>::empty() =~= chunks.deep_view());
    }
    chunks
}

} // verus!
