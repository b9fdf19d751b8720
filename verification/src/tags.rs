//! Removal of marked regions. Text between a literal open marker and its
//! matching close marker is dropped, markers nest by a depth count, an
//! unmatched open marker drops everything after it, and text outside regions
//! is copied through one whole character at a time.

use crate::chars::str_to_chars;
use crate::substrings::match_at;
use crate::substrings::occurs_at;
use vstd::prelude::*;

verus! {

/// The stripped remainder of a scan standing at the front of `s` with
/// `depth` regions currently open. At depth zero, text is copied until the
/// open marker matches; inside a region, nothing is copied while further
/// open markers deepen and close markers shallow the nesting; text that runs
/// out inside a region stays dropped. An empty open marker matches
/// everywhere, so it removes the whole text.
pub open spec fn strip_rec(s: Seq<char>, open_m: Seq<char>, close_m: Seq<char>, depth: nat) -> Seq<
    char,
>
    decreases s.len(), depth,
{
    if open_m.len() == 0 || s.len() == 0 {
        Seq::empty()
    } else if depth == 0 {
        if open_m.is_prefix_of(s) {
            strip_rec(s.skip(open_m.len() as int), open_m, close_m, 1)
        } else {
            seq![s[0]] + strip_rec(s.drop_first(), open_m, close_m, 0)
        }
    } else {
        if open_m.is_prefix_of(s) {
            strip_rec(s.skip(open_m.len() as int), open_m, close_m, depth + 1)
        } else if close_m.is_prefix_of(s) {
            strip_rec(s.skip(close_m.len() as int), open_m, close_m, (depth - 1) as nat)
        } else {
            strip_rec(s.drop_first(), open_m, close_m, depth)
        }
    }
}

/// The text with every marked region removed: what a scan starting outside
/// any region leaves standing.
pub open spec fn spec_remove_tagged(s: Seq<char>, open_m: Seq<char>, close_m: Seq<char>) -> Seq<
    char,
> {
    strip_rec(s, open_m, close_m, 0)
}

/// A pattern occurs at `i` exactly when it is a prefix of the text from `i`.
proof fn lemma_occurs_prefix(s: Seq<char>, pat: Seq<char>, i: int)
    requires
        0 <= i <= s.len(),
    ensures
        occurs_at(s, pat, i) == pat.is_prefix_of(s.skip(i)),
{
    if i + pat.len() <= s.len() {
        assert(s.subrange(i, i + pat.len() as int) =~= s.skip(i).subrange(0, pat.len() as int));
    }
}

/// Removes every region of the text that stands between an occurrence of the
/// open marker and its matching close marker, where further open markers
/// inside a region nest. An open marker that is never matched drops the
/// whole remainder of the text. With an empty open marker, which matches at
/// every position, the whole text is removed.
pub fn remove_tagged_regions(text: &str, open_marker: &str, close_marker: &str) -> (r: String)
    ensures
        r@ == spec_remove_tagged(text@, open_marker@, close_marker@),
{
    let chars = str_to_chars(text);
    let open_v = str_to_chars(open_marker);
    let close_v = str_to_chars(close_marker);
    if open_v.len() == 0 {
        return String::new();
    }
    let n = chars.len();
    let olen = open_v.len();
    let clen = close_v.len();
    let mut out = String::new();
    let mut i: usize = 0;
    let mut depth: usize = 0;
    proof {
        assert(chars@.skip(0) =~= chars@);
        assert(out@ + strip_rec(chars@, open_v@, close_v@, 0) =~= strip_rec(
            chars@,
            open_v@,
            close_v@,
            0,
        ));
    }
    while i < n
        invariant
            n == chars@.len(),
            olen == open_v@.len(),
            clen == close_v@.len(),
            chars@ == text@,
            open_v@ == open_marker@,
            close_v@ == close_marker@,
            olen >= 1,
            0 <= i <= n,
            depth <= i,
            out@ + strip_rec(chars@.skip(i as int), open_v@, close_v@, depth as nat) == strip_rec(
                chars@,
                open_v@,
                close_v@,
                0,
            ),
        decreases n - i, depth,
    {
        let ghost rest = chars@.skip(i as int);
        if match_at(&chars, &open_v, i) {
            proof {
                lemma_occurs_prefix(chars@, open_v@, i as int);
                assert(rest.skip(olen as int) =~= chars@.skip(i + olen));
            }
            i = i + olen;
            depth = depth + 1;
        } else if depth > 0 && match_at(&chars, &close_v, i) {
            proof {
                lemma_occurs_prefix(chars@, open_v@, i as int);
                lemma_occurs_prefix(chars@, close_v@, i as int);
                assert(rest.skip(clen as int) =~= chars@.skip(i + clen));
            }
            i = i + clen;
            depth = depth - 1;
        } else if depth == 0 {
            proof {
                lemma_occurs_prefix(chars@, open_v@, i as int);
                assert(rest.drop_first() =~= chars@.skip(i as int + 1));
                assert(strip_rec(rest, open_v@, close_v@, 0) == seq![chars@[i as int]] + strip_rec(
                    chars@.skip(i as int + 1),
                    open_v@,
                    close_v@,
                    0,
                ));
            }
            let c = chars[i];
            let ghost old_out = out@;
            out.push(c);
            proof {
                assert(out@ + strip_rec(chars@.skip(i as int + 1), open_v@, close_v@, 0) =~= old_out
                    + strip_rec(rest, open_v@, close_v@, 0));
            }
            i = i + 1;
        } else {
            proof {
                lemma_occurs_prefix(chars@, open_v@, i as int);
                lemma_occurs_prefix(chars@, close_v@, i as int);
                assert(rest.drop_first() =~= chars@.skip(i as int + 1));
            }
            i = i + 1;
        }
    }
    proof {
        assert(chars@.skip(n as int) =~= Seq::<char>::empty());
        assert(out@ + Seq::<char>::empty() =~= out@);
    }
    out
}

/// Law: a text in which the open marker occurs nowhere is left unchanged by
/// the stripping scan.
pub proof fn lemma_strip_no_open_identity(s: Seq<char>, open_m: Seq<char>, close_m: Seq<char>)
    requires
        open_m.len() > 0,
        forall|i: int| !occurs_at(s, open_m, i),
    ensures
        spec_remove_tagged(s, open_m, close_m) == s,
    decreases s.len(),
{
    if s.len() == 0 {
        assert(spec_remove_tagged(s, open_m, close_m) =~= s);
    } else {
        lemma_occurs_prefix(s, open_m, 0);
        assert(!open_m.is_prefix_of(s));
        assert forall|i: int| !occurs_at(s.drop_first(), open_m, i) by {
            if occurs_at(s.drop_first(), open_m, i) {
                assert(s.subrange(i + 1, i + 1 + open_m.len() as int) =~= s.drop_first().subrange(
                    i,
                    i + open_m.len() as int,
                ));
                assert(occurs_at(s, open_m, i + 1));
            }
        }
        lemma_strip_no_open_identity(s.drop_first(), open_m, close_m);
        assert(seq![s[0]] + s.drop_first() =~= s);
    }
}

/// Law: stripping is idempotent on any output in which the open marker no
/// longer occurs; running the scan again over such an output changes
/// nothing.
pub proof fn lemma_strip_idempotent(s: Seq<char>, open_m: Seq<char>, close_m: Seq<char>)
    requires
        open_m.len() > 0,
        forall|i: int| !occurs_at(spec_remove_tagged(s, open_m, close_m), open_m, i),
    ensures
        spec_remove_tagged(spec_remove_tagged(s, open_m, close_m), open_m, close_m)
            == spec_remove_tagged(s, open_m, close_m),
{
    lemma_strip_no_open_identity(spec_remove_tagged(s, open_m, close_m), open_m, close_m);
}

} // verus!
