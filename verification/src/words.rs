//! Word counting with document-editor heuristics: whitespace-delimited
//! tokens, punctuation trimmed from token edges, and CJK tokens counted one
//! word per character.

use crate::chars::str_to_chars;
use crate::classify::is_cjk;
use crate::classify::is_cjk_char;
use crate::classify::is_space;
use crate::classify::is_space_char;
use crate::classify::is_trim_punct;
use crate::classify::is_trimmed_punct;
use vstd::prelude::*;

verus! {

/// The length of the leading maximal run of non-whitespace characters.
pub open spec fn run_len(s: Seq<char>) -> nat
    decreases s.len(),
{
    if s.len() == 0 || is_space_char(s[0]) {
        0
    } else {
        1 + run_len(s.drop_first())
    }
}

/// The leading run never reaches past the end of the text.
pub proof fn lemma_run_len_le(s: Seq<char>)
    ensures
        run_len(s) <= s.len(),
    decreases s.len(),
{
    if s.len() > 0 && !is_space_char(s[0]) {
        lemma_run_len_le(s.drop_first());
    }
}

/// The number of trimmed-punctuation characters at the front of a token.
pub open spec fn leading_punct(s: Seq<char>) -> nat
    decreases s.len(),
{
    if s.len() == 0 || !is_trim_punct(s[0]) {
        0
    } else {
        1 + leading_punct(s.drop_first())
    }
}

/// The number of trimmed-punctuation characters at the back of a token.
pub open spec fn trailing_punct(s: Seq<char>) -> nat
    decreases s.len(),
{
    if s.len() == 0 || !is_trim_punct(s.last()) {
        0
    } else {
        1 + trailing_punct(s.drop_last())
    }
}

/// The token with trimmed punctuation removed from both of its ends.
pub open spec fn trim_token(t: Seq<char>) -> Seq<char> {
    let rest = t.skip(leading_punct(t) as int);
    rest.take(rest.len() - trailing_punct(rest))
}

/// Every character of the token is a CJK ideograph.
pub open spec fn all_cjk(t: Seq<char>) -> bool {
    forall|i: int| 0 <= i < t.len() ==> is_cjk_char(t[i])
}

/// How many words one whitespace-delimited token contributes: none when
/// trimming leaves it empty, one per character when it is entirely CJK, and
/// exactly one otherwise.
pub open spec fn token_weight(t: Seq<char>) -> nat {
    let w = trim_token(t);
    if w.len() == 0 {
        0
    } else if all_cjk(w) {
        w.len()
    } else {
        1
    }
}

/// The word count of a text: the sum of the weights of its
/// whitespace-delimited tokens.
pub open spec fn spec_word_count(s: Seq<char>) -> nat
    decreases s.len(),
    via spec_word_count_dec
{
    if s.len() == 0 {
        0
    } else if is_space_char(s[0]) {
        spec_word_count(s.drop_first())
    } else {
        token_weight(s.take(run_len(s) as int)) + spec_word_count(s.skip(run_len(s) as int))
    }
}

#[via_fn]
proof fn spec_word_count_dec(s: Seq<char>) {
    if s.len() > 0 && !is_space_char(s[0]) {
        lemma_run_len_le(s);
        assert(run_len(s) >= 1);
    }
}

/// Counts the words of the text. Tokens are maximal runs of non-whitespace
/// characters; ASCII punctuation other than apostrophe and hyphen is trimmed
/// from both token ends; a token left empty counts nothing, a token made only
/// of CJK ideographs counts one word per character, and every other token
/// counts exactly one word.
pub fn word_count(text: &str) -> (count: usize)
    ensures
        count == spec_word_count(text@),
{
    let chars = str_to_chars(text);
    let n = chars.len();
    let mut count: usize = 0;
    let mut i: usize = 0;
    proof {
        assert(chars@.skip(0) =~= chars@);
    }
    while i < n
        invariant
            n == chars@.len(),
            text@ == chars@,
            0 <= i <= n,
            count <= i,
            count + spec_word_count(chars@.skip(i as int)) == spec_word_count(chars@),
        decreases n - i,
    {
        if is_space(chars[i]) {
            proof {
                assert(chars@.skip(i as int).drop_first() =~= chars@.skip(i as int + 1));
            }
            i = i + 1;
        } else {
            // Find the end of the maximal non-whitespace run.
            let mut j: usize = i;
            while j < n && !is_space(chars[j])
                invariant
                    n == chars@.len(),
                    0 <= i <= j <= n,
                    run_len(chars@.skip(i as int)) == (j - i) + run_len(chars@.skip(j as int)),
                decreases n - j,
            {
                proof {
                    assert(chars@.skip(j as int).drop_first() =~= chars@.skip(j as int + 1));
                }
                j = j + 1;
            }
            proof {
                assert(run_len(chars@.skip(j as int)) == 0);
                assert(run_len(chars@.skip(i as int)) == j - i);
                assert(chars@.subrange(i as int, j as int) =~= chars@.skip(i as int).take(j - i));
            }
            let ghost token = chars@.subrange(i as int, j as int);
            // Trim punctuation from the front of the token.
            let mut ts: usize = i;
            while ts < j && is_trimmed_punct(chars[ts])
                invariant
                    n == chars@.len(),
                    0 <= i <= ts <= j <= n,
                    leading_punct(chars@.subrange(i as int, j as int)) == (ts - i) + leading_punct(
                        chars@.subrange(ts as int, j as int),
                    ),
                decreases j - ts,
            {
                proof {
                    assert(chars@.subrange(ts as int, j as int).drop_first() =~= chars@.subrange(
                        ts as int + 1,
                        j as int,
                    ));
                }
                ts = ts + 1;
            }
            proof {
                assert(leading_punct(chars@.subrange(ts as int, j as int)) == 0);
                assert(leading_punct(token) == ts - i);
                assert(chars@.subrange(ts as int, j as int) =~= token.skip(ts - i));
            }
            let ghost rest = chars@.subrange(ts as int, j as int);
            // Trim punctuation from the back of what is left.
            let mut te: usize = j;
            while te > ts && is_trimmed_punct(chars[te - 1])
                invariant
                    n == chars@.len(),
                    0 <= i <= ts <= te <= j <= n,
                    trailing_punct(chars@.subrange(ts as int, j as int)) == (j - te)
                        + trailing_punct(chars@.subrange(ts as int, te as int)),
                decreases te - ts,
            {
                proof {
                    assert(chars@.subrange(ts as int, te as int).drop_last() =~= chars@.subrange(
                        ts as int,
                        te as int - 1,
                    ));
                }
                te = te - 1;
            }
            proof {
                assert(trailing_punct(chars@.subrange(ts as int, te as int)) == 0);
                assert(trailing_punct(rest) == j - te);
                assert(chars@.subrange(ts as int, te as int) =~= rest.take(
                    rest.len() - trailing_punct(rest),
                ));
                assert(trim_token(token) == chars@.subrange(ts as int, te as int));
            }
            // Weigh the trimmed token.
            let weight: usize = if ts == te {
                proof {
                    assert(trim_token(token).len() == 0);
                }
                0
            } else {
                let mut allc: bool = true;
                let mut k: usize = ts;
                while k < te
                    invariant
                        n == chars@.len(),
                        0 <= ts <= k <= te <= n,
                        allc == (forall|l: int| ts <= l < k ==> is_cjk_char(chars@[l])),
                    decreases te - k,
                {
                    if !is_cjk(chars[k]) {
                        allc = false;
                        proof {
                            assert(!is_cjk_char(chars@[k as int]));
                        }
                    }
                    k = k + 1;
                }
                proof {
                    let w = trim_token(token);
                    assert(w == chars@.subrange(ts as int, te as int));
                    assert(w.len() == te - ts);
                    if allc {
                        assert forall|l: int| 0 <= l < w.len() implies is_cjk_char(w[l]) by {
                            assert(w[l] == chars@[ts + l]);
                        }
                        assert(all_cjk(w));
                    } else {
                        let l = choose|l: int| ts <= l < te && !is_cjk_char(chars@[l]);
                        assert(w[l - ts] == chars@[l]);
                        assert(!all_cjk(w));
                    }
                    assert(allc == all_cjk(w));
                }
                if allc {
                    te - ts
                } else {
                    1
                }
            };
            proof {
                assert(token_weight(token) == weight);
                assert(spec_word_count(chars@.skip(i as int)) == token_weight(token)
                    + spec_word_count(chars@.skip(i as int).skip(j - i)));
                assert(chars@.skip(i as int).skip(j - i) =~= chars@.skip(j as int));
            }
            count = count + weight;
            i = j;
        }
    }
    proof {
        assert(chars@.skip(n as int) =~= Seq::<char>::empty());
    }
    count
}

} // verus!
