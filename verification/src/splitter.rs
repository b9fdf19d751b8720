//! Splitting a text into at most `n` pieces at whitespace boundaries. The
//! maximal non-whitespace runs ("word runs") are distributed over the pieces
//! so that group sizes differ by at most one run; every piece begins right
//! after the previous piece's last run, so the whitespace between groups is
//! carried by the following group and nothing before the last run's end is
//! lost.

use crate::chars::str_to_chars;
use crate::chars::string_of_range;
use crate::classify::is_space;
use crate::classify::is_space_char;
use vstd::arithmetic::div_mod::lemma_div_basics;
use vstd::arithmetic::div_mod::lemma_fundamental_div_mod;
use vstd::arithmetic::div_mod::lemma_fundamental_div_mod_converse;
use vstd::arithmetic::div_mod::lemma_mod_division_less_than_divisor;
use vstd::arithmetic::div_mod::lemma_div_by_self;
use vstd::arithmetic::div_mod::lemma_div_is_ordered;
use vstd::arithmetic::div_mod::lemma_div_multiples_vanish;
use vstd::arithmetic::div_mod::lemma_div_plus_one;
use vstd::arithmetic::div_mod::lemma_multiply_divide_le;
use vstd::arithmetic::mul::lemma_mul_inequality;
use vstd::prelude::*;

verus! {

/// Position `j` is the end (one past the last character) of a maximal run of
/// non-whitespace characters.
pub open spec fn is_run_end(s: Seq<char>, j: int) -> bool {
    &&& 0 < j <= s.len()
    &&& !is_space_char(s[j - 1])
    &&& (j == s.len() || is_space_char(s[j]))
}

/// The least run end at or after `j`, or a position past the end of the text
/// when no run ends at or after `j`.
pub open spec fn next_end(s: Seq<char>, j: int) -> int
    decreases s.len() + 1 - j,
{
    if j > s.len() {
        j
    } else if is_run_end(s, j) {
        j
    } else {
        next_end(s, j + 1)
    }
}

proof fn lemma_next_end_ge(s: Seq<char>, j: int)
    ensures
        next_end(s, j) >= j,
    decreases s.len() + 1 - j,
{
    if j <= s.len() && !is_run_end(s, j) {
        lemma_next_end_ge(s, j + 1);
    }
}

proof fn lemma_next_end_props(s: Seq<char>, j: int)
    requires
        j <= s.len() + 1,
    ensures
        j <= next_end(s, j) <= s.len() + 1,
        next_end(s, j) <= s.len() ==> is_run_end(s, next_end(s, j)),
        forall|e: int| j <= e < next_end(s, j) ==> !is_run_end(s, e),
    decreases s.len() + 1 - j,
{
    if j <= s.len() && !is_run_end(s, j) {
        lemma_next_end_props(s, j + 1);
    }
}

/// The end position of the word run with index `k`, counting runs from the
/// front of the text.
pub open spec fn kth_end(s: Seq<char>, k: nat) -> int
    decreases k,
{
    if k == 0 {
        next_end(s, 1)
    } else {
        next_end(s, kth_end(s, (k - 1) as nat) + 1)
    }
}

/// The number of word runs ending at or after position `j`.
pub open spec fn run_count_from(s: Seq<char>, j: int) -> nat
    decreases s.len() + 1 - j,
    via run_count_from_dec
{
    if next_end(s, j) > s.len() {
        0
    } else {
        1 + run_count_from(s, next_end(s, j) + 1)
    }
}

#[via_fn]
proof fn run_count_from_dec(s: Seq<char>, j: int) {
    lemma_next_end_ge(s, j);
}

/// The number of maximal non-whitespace runs in the text.
pub open spec fn word_run_count(s: Seq<char>) -> nat {
    run_count_from(s, 1)
}

/// Every run index below the run count names a real run end: a position
/// within the text that ends a run, placed after the previous run's end, and
/// with exactly the remaining runs ending after it.
proof fn lemma_kth_end_chain(s: Seq<char>, k: nat)
    requires
        k < word_run_count(s),
    ensures
        1 <= kth_end(s, k) <= s.len(),
        is_run_end(s, kth_end(s, k)),
        run_count_from(s, kth_end(s, k) + 1) == word_run_count(s) - k - 1,
        k >= 1 ==> kth_end(s, (k - 1) as nat) < kth_end(s, k),
    decreases k,
{
    if k == 0 {
        lemma_next_end_props(s, 1);
        if next_end(s, 1) > s.len() {
            assert(run_count_from(s, 1) == 0);
        }
    } else {
        lemma_kth_end_chain(s, (k - 1) as nat);
        let prev = kth_end(s, (k - 1) as nat);
        lemma_next_end_props(s, prev + 1);
        if next_end(s, prev + 1) > s.len() {
            assert(run_count_from(s, prev + 1) == 0);
        }
    }
}

/// Law (soundness of the run model): every run index below the run count
/// names a run end inside the text, and later indices name strictly later
/// ends.
pub proof fn lemma_kth_end_is_run_end(s: Seq<char>, k: nat)
    requires
        k < word_run_count(s),
    ensures
        1 <= kth_end(s, k) <= s.len(),
        is_run_end(s, kth_end(s, k)),
        k >= 1 ==> kth_end(s, (k - 1) as nat) < kth_end(s, k),
{
    lemma_kth_end_chain(s, k);
}

proof fn lemma_kth_end_complete_from(s: Seq<char>, k: nat, e: int)
    requires
        is_run_end(s, e),
        k < word_run_count(s),
        kth_end(s, k) <= e,
    ensures
        exists|k2: nat| k2 < word_run_count(s) && kth_end(s, k2) == e,
    decreases e - kth_end(s, k),
{
    lemma_kth_end_chain(s, k);
    if kth_end(s, k) == e {
        assert(k < word_run_count(s) && kth_end(s, k) == e);
    } else {
        let base = kth_end(s, k) + 1;
        lemma_next_end_props(s, base);
        assert(next_end(s, base) <= e);
        if run_count_from(s, base) == 0 {
            assert(next_end(s, base) > s.len());
            assert(false);
        }
        assert(k + 1 < word_run_count(s));
        assert(kth_end(s, (k + 1) as nat) == next_end(s, base));
        lemma_kth_end_chain(s, (k + 1) as nat);
        lemma_kth_end_complete_from(s, (k + 1) as nat, e);
    }
}

/// Law (completeness of the run model): every run end of the text is named
/// by some run index below the run count, so the run count really is the
/// number of maximal non-whitespace runs.
pub proof fn lemma_kth_end_complete(s: Seq<char>, e: int)
    requires
        is_run_end(s, e),
    ensures
        exists|k: nat| k < word_run_count(s) && kth_end(s, k) == e,
{
    lemma_next_end_props(s, 1);
    assert(next_end(s, 1) <= e);
    if word_run_count(s) == 0 {
        assert(next_end(s, 1) > s.len());
        assert(false);
    }
    assert(kth_end(s, 0) <= e);
    lemma_kth_end_complete_from(s, 0, e);
}

/// Run ends come in increasing order of run index.
proof fn lemma_kth_end_mono(s: Seq<char>, k1: nat, k2: nat)
    requires
        k1 <= k2 < word_run_count(s),
    ensures
        kth_end(s, k1) <= kth_end(s, k2),
    decreases k2 - k1,
{
    if k1 < k2 {
        lemma_kth_end_chain(s, k2);
        lemma_kth_end_mono(s, k1, (k2 - 1) as nat);
    }
}

/// The number of pieces the text is split into: `n` when there are at least
/// `n` word runs, and one piece per run otherwise.
pub open spec fn split_parts(s: Seq<char>, n: int) -> int {
    if n <= 0 {
        0
    } else if n <= word_run_count(s) {
        n
    } else {
        word_run_count(s) as int
    }
}

/// The character index where piece `i` starts: the start of the text for the
/// first piece, and the end of the previous piece's last run otherwise, so
/// the whitespace before a group's first run belongs to that group.
pub open spec fn group_start(s: Seq<char>, n: int, i: int) -> int {
    if i == 0 {
        0
    } else {
        kth_end(s, (i * (word_run_count(s) as int) / split_parts(s, n) - 1) as nat)
    }
}

/// The character index where piece `i` ends: the end of its last assigned
/// word run, so whitespace after that run is never carried by piece `i`.
pub open spec fn group_end(s: Seq<char>, n: int, i: int) -> int {
    kth_end(s, ((i + 1) * (word_run_count(s) as int) / split_parts(s, n) - 1) as nat)
}

/// The pieces of splitting the text into at most `n` whole-word groups:
/// piece `i` covers the word runs with indices from `i*total/parts` through
/// `(i+1)*total/parts - 1`, extended left to the end of the previous group's
/// last run.
pub open spec fn spec_split_groups(s: Seq<char>, n: int) -> Seq<Seq<char>> {
    Seq::new(
        split_parts(s, n) as nat,
        |i: int| s.subrange(group_start(s, n, i), group_end(s, n, i)),
    )
}

/// Position `j` ends a run exactly when a non-whitespace character stands
/// before it and whitespace (or the end of the text) after it.
fn run_end_at(chars: &Vec<char>, j: usize) -> (b: bool)
    requires
        1 <= j <= chars@.len(),
    ensures
        b == is_run_end(chars@, j as int),
{
    let n = chars.len();
    !is_space(chars[j - 1]) && (j == n || is_space(chars[j]))
}

/// The end positions of all word runs, in order.
fn run_ends(chars: &Vec<char>) -> (ends: Vec<usize>)
    ensures
        ends@.len() == word_run_count(chars@),
        forall|k: int| 0 <= k < ends@.len() ==> ends@[k] == kth_end(chars@, k as nat),
{
    let n = chars.len();
    let mut ends: Vec<usize> = Vec::new();
    let mut scanned: usize = 0;
    while scanned < n
        invariant
            n == chars@.len(),
            0 <= scanned <= n,
            forall|k: int| 0 <= k < ends@.len() ==> ends@[k] == kth_end(chars@, k as nat),
            kth_end(chars@, ends@.len()) == next_end(chars@, scanned as int + 1),
            word_run_count(chars@) == ends@.len() + run_count_from(chars@, scanned as int + 1),
        decreases n - scanned,
    {
        let j = scanned + 1;
        if run_end_at(chars, j) {
            proof {
                assert(next_end(chars@, j as int) == j);
                assert(run_count_from(chars@, j as int) == 1 + run_count_from(
                    chars@,
                    j as int + 1,
                ));
                assert(kth_end(chars@, ends@.len() + 1) == next_end(chars@, j as int + 1));
            }
            ends.push(j);
        } else {
            proof {
                assert(next_end(chars@, j as int) == next_end(chars@, j as int + 1));
                assert(run_count_from(chars@, j as int) == run_count_from(chars@, j as int + 1));
            }
        }
        scanned = j;
    }
    proof {
        assert(next_end(chars@, scanned as int + 1) == scanned + 1);
        assert(run_count_from(chars@, scanned as int + 1) == 0);
    }
    ends
}

/// Splits the text into at most `n` pieces at whitespace boundaries: one
/// piece per word run when the text has fewer than `n` runs, and `n` pieces
/// of nearly equal run counts otherwise. Each piece starts where the
/// previous piece's last run ended, so the pieces concatenate back to the
/// text up to (and excluding) any whitespace after the last run. Text
/// without any word run, or `n == 0`, yields no pieces.
pub fn split_upto_n_by_word(text: &str, n: usize) -> (groups: Vec<String>)
    ensures
        groups.deep_view() == spec_split_groups(text@, n as int),
{
    let chars = str_to_chars(text);
    let ends = run_ends(&chars);
    let total = ends.len();
    let mut groups: Vec<String> = Vec::new();
    if total == 0 || n == 0 {
        proof {
            assert(split_parts(text@, n as int) == 0);
            assert(groups.deep_view() =~= spec_split_groups(text@, n as int));
        }
        return groups;
    }
    let parts: usize = if n < total {
        n
    } else {
        total
    };
    proof {
        assert(parts == split_parts(chars@, n as int));
        assert forall|k: int| 0 <= k < total implies 1 <= #[trigger] ends@[k] <= chars@.len() by {
            lemma_kth_end_chain(chars@, k as nat);
        }
        assert(groups.deep_view() =~= spec_split_groups(chars@, n as int).take(0));
    }
    let mut i: usize = 0;
    while i < parts
        invariant
            chars@ == text@,
            total == word_run_count(chars@),
            ends@.len() == total,
            forall|k: int| 0 <= k < total ==> ends@[k] == kth_end(chars@, k as nat),
            forall|k: int| 0 <= k < total ==> 1 <= #[trigger] ends@[k] <= chars@.len(),
            1 <= parts <= total,
            parts == split_parts(chars@, n as int),
            0 <= i <= parts,
            groups.deep_view() == spec_split_groups(chars@, n as int).take(i as int),
        decreases parts - i,
    {
        let ghost ti = total as int;
        let ghost pi = parts as int;
        proof {
            assert((i as u128) * (total as u128) <= 0xFFFF_FFFF_FFFF_FFFF * 0xFFFF_FFFF_FFFF_FFFF
                && (i as u128 + 1) * (total as u128) <= 0x1_0000_0000_0000_0000
                * 0xFFFF_FFFF_FFFF_FFFF) by (nonlinear_arith)
                requires
                    i as u128 <= 0xFFFF_FFFF_FFFF_FFFF,
                    total as u128 <= 0xFFFF_FFFF_FFFF_FFFF,
            ;
            // The group's run-index bounds stay within the run count.
            lemma_mul_inequality(i as int + 1, pi, ti);
            lemma_multiply_divide_le((i as int + 1) * ti, pi, ti);
            lemma_mul_inequality(1, i as int + 1, ti);
            lemma_div_is_ordered(pi, (i as int + 1) * ti, pi);
            lemma_div_by_self(pi);
            assert(1 <= (i as int + 1) * ti / pi <= ti);
            if i >= 1 {
                lemma_mul_inequality(1, i as int, ti);
                lemma_div_is_ordered(pi, i as int * ti, pi);
                assert(1 <= i as int * ti / pi);
            }
            // The group holds at least one run: its end index is past its
            // start index.
            lemma_div_plus_one(i as int * ti, pi);
            lemma_div_is_ordered(i as int * ti + pi, i as int * ti + ti, pi);
            assert((i as int + 1) * ti == i as int * ti + ti) by (nonlinear_arith);
            assert(i as int * ti / pi + 1 <= (i as int + 1) * ti / pi);
        }
        let hi_w: u128 = ((i as u128) + 1) * (total as u128) / (parts as u128);
        proof {
            assert(hi_w == (i as int + 1) * ti / pi);
            assert(hi_w <= total as u128);
        }
        let hi: usize = hi_w as usize;
        let start: usize = if i == 0 {
            0
        } else {
            let lo_w: u128 = (i as u128) * (total as u128) / (parts as u128);
            proof {
                assert((i as u128) * (total as u128) <= (i as u128 + 1) * (total as u128))
                    by (nonlinear_arith);
                assert(lo_w == i as int * ti / pi);
                assert(1 <= lo_w <= total as u128);
            }
            let lo: usize = lo_w as usize;
            ends[lo - 1]
        };
        let end_pos: usize = ends[hi - 1];
        proof {
            assert(end_pos == kth_end(chars@, (hi - 1) as nat));
            assert(start as int == group_start(chars@, n as int, i as int));
            assert(end_pos as int == group_end(chars@, n as int, i as int));
            if i >= 1 {
                let lo = i as int * ti / pi;
                lemma_kth_end_mono(chars@, (lo - 1) as nat, (hi - 1) as nat);
            }
            assert(start <= end_pos);
        }
        let piece = string_of_range(&chars, start, end_pos);
        let ghost old_dv = groups.deep_view();
        groups.push(piece);
        proof {
            let spec_groups = spec_split_groups(chars@, n as int);
            assert(groups.deep_view() =~= old_dv.push(piece@));
            assert(spec_groups[i as int] == piece@);
            assert(groups.deep_view() =~= spec_groups.take(i as int + 1));
        }
        i = i + 1;
    }
    proof {
        assert(spec_split_groups(chars@, n as int).take(parts as int) =~= spec_split_groups(
            chars@,
            n as int,
        ));
    }
    groups
}

/// Law: the number of pieces is the minimum of `n` and the number of word
/// runs in the text.
pub proof fn lemma_split_groups_len(s: Seq<char>, n: int)
    requires
        n >= 0,
    ensures
        spec_split_groups(s, n).len() == if n <= word_run_count(s) {
            n
        } else {
            word_run_count(s) as int
        },
{
}

/// When the text ends with a non-whitespace character, its last word run
/// ends exactly at the end of the text.
pub proof fn lemma_last_run_end(s: Seq<char>)
    requires
        is_run_end(s, s.len() as int),
    ensures
        word_run_count(s) >= 1,
        kth_end(s, (word_run_count(s) - 1) as nat) == s.len(),
{
    let len = s.len() as int;
    lemma_next_end_props(s, 1);
    if word_run_count(s) == 0 {
        assert(next_end(s, 1) > s.len());
        assert(!is_run_end(s, len));
        assert(false);
    }
    let k = (word_run_count(s) - 1) as nat;
    lemma_kth_end_chain(s, k);
    let last = kth_end(s, k);
    assert(run_count_from(s, last + 1) == 0);
    lemma_next_end_props(s, last + 1);
    if next_end(s, last + 1) <= s.len() {
        assert(run_count_from(s, last + 1) >= 1);
    }
    if last < len {
        assert(!is_run_end(s, len));
        assert(false);
    }
}

/// The run indices assigned to piece `i` stay within the run count, the
/// piece holds at least one run, and its character bounds are well formed.
proof fn lemma_group_index_bounds(s: Seq<char>, n: int, i: int)
    requires
        1 <= split_parts(s, n),
        0 <= i < split_parts(s, n),
    ensures
        1 <= (i + 1) * (word_run_count(s) as int) / split_parts(s, n) <= word_run_count(s),
        i >= 1 ==> 1 <= i * (word_run_count(s) as int) / split_parts(s, n),
        i * (word_run_count(s) as int) / split_parts(s, n) + 1 <= (i + 1) * (word_run_count(
            s,
        ) as int) / split_parts(s, n),
        0 <= group_start(s, n, i) <= group_end(s, n, i) <= s.len(),
{
    let t = word_run_count(s) as int;
    let p = split_parts(s, n);
    lemma_mul_inequality(i + 1, p, t);
    lemma_multiply_divide_le((i + 1) * t, p, t);
    lemma_mul_inequality(1, i + 1, t);
    lemma_div_is_ordered(p, (i + 1) * t, p);
    lemma_div_by_self(p);
    assert(1 <= (i + 1) * t / p <= t);
    if i >= 1 {
        lemma_mul_inequality(1, i, t);
        lemma_div_is_ordered(p, i * t, p);
        assert(1 <= i * t / p);
    }
    lemma_div_plus_one(i * t, p);
    lemma_div_is_ordered(i * t + p, i * t + t, p);
    assert((i + 1) * t == i * t + t) by (nonlinear_arith);
    assert(i * t / p + 1 <= (i + 1) * t / p);
    let hi = (i + 1) * t / p;
    lemma_kth_end_chain(s, (hi - 1) as nat);
    if i >= 1 {
        let lo = i * t / p;
        lemma_kth_end_chain(s, (lo - 1) as nat);
        lemma_kth_end_mono(s, (lo - 1) as nat, (hi - 1) as nat);
    }
}

/// The first `m` pieces, concatenated in order, rebuild the text from its
/// start through the end of the last run assigned to piece `m - 1`.
proof fn lemma_groups_prefix_cover(s: Seq<char>, n: int, m: int)
    requires
        1 <= split_parts(s, n),
        0 <= m <= split_parts(s, n),
    ensures
        spec_split_groups(s, n).take(m).flatten() == if m == 0 {
            Seq::<char>::empty()
        } else {
            s.subrange(0, group_end(s, n, m - 1))
        },
    decreases m,
{
    let groups = spec_split_groups(s, n);
    if m == 0 {
        assert(groups.take(0) =~= Seq::<Seq<char>>::empty());
        assert(Seq::<Seq<char>>::empty().flatten() =~= Seq::<char>::empty());
    } else {
        lemma_groups_prefix_cover(s, n, m - 1);
        lemma_group_index_bounds(s, n, m - 1);
        assert(groups.take(m) =~= groups.take(m - 1).push(groups[m - 1]));
        Seq::lemma_flatten_push(groups.take(m - 1), groups[m - 1]);
        if m == 1 {
            assert(Seq::<char>::empty() + s.subrange(0, group_end(s, n, 0)) =~= s.subrange(
                0,
                group_end(s, n, 0),
            ));
        } else {
            lemma_group_index_bounds(s, n, m - 2);
            assert(group_start(s, n, m - 1) == group_end(s, n, m - 2));
            assert(s.subrange(0, group_end(s, n, m - 2)) + s.subrange(
                group_start(s, n, m - 1),
                group_end(s, n, m - 1),
            ) =~= s.subrange(0, group_end(s, n, m - 1)));
        }
    }
}

/// Law: concatenating all pieces in order rebuilds the text from its start
/// through the end of its last word run; only whitespace after the last run
/// is never part of any piece.
pub proof fn lemma_split_groups_cover(s: Seq<char>, n: int)
    requires
        n >= 1,
        word_run_count(s) >= 1,
    ensures
        spec_split_groups(s, n).flatten() == s.subrange(
            0,
            kth_end(s, (word_run_count(s) - 1) as nat),
        ),
{
    let t = word_run_count(s) as int;
    let p = split_parts(s, n);
    lemma_groups_prefix_cover(s, n, p);
    assert(spec_split_groups(s, n).take(p) =~= spec_split_groups(s, n));
    lemma_div_multiples_vanish(t, p);
    assert((p - 1 + 1) * t == p * t);
    assert(group_end(s, n, p - 1) == kth_end(s, (t - 1) as nat));
}

/// Law: the word runs are distributed nearly evenly: every piece is
/// assigned either `total / parts` or `total / parts + 1` runs, so group
/// sizes differ by at most one run.
pub proof fn lemma_split_groups_balanced(s: Seq<char>, n: int, i: int)
    requires
        1 <= split_parts(s, n),
        0 <= i < split_parts(s, n),
    ensures
        ({
            let t = word_run_count(s) as int;
            let p = split_parts(s, n);
            let assigned = (i + 1) * t / p - i * t / p;
            t / p <= assigned <= t / p + 1
        }),
{
    let t = word_run_count(s) as int;
    let p = split_parts(s, n);
    lemma_fundamental_div_mod(i * t, p);
    lemma_fundamental_div_mod(t, p);
    lemma_mod_division_less_than_divisor(i * t, p);
    lemma_mod_division_less_than_divisor(t, p);
    let q1 = i * t / p;
    let r1 = (i * t) % p;
    let q2 = t / p;
    let r2 = t % p;
    if r1 + r2 < p {
        assert((i + 1) * t == (q1 + q2) * p + (r1 + r2)) by (nonlinear_arith)
            requires
                i * t == p * q1 + r1,
                t == p * q2 + r2,
        ;
        lemma_fundamental_div_mod_converse((i + 1) * t, p, q1 + q2, r1 + r2);
    } else {
        assert((i + 1) * t == (q1 + q2 + 1) * p + (r1 + r2 - p)) by (nonlinear_arith)
            requires
                i * t == p * q1 + r1,
                t == p * q2 + r2,
        ;
        lemma_fundamental_div_mod_converse((i + 1) * t, p, q1 + q2 + 1, r1 + r2 - p);
    }
}

/// Law: with `n == 1` and at least one word run, the single piece is the
/// text from its start through the end of its last word run; when the text
/// ends with a non-whitespace character, that piece is the whole text.
pub proof fn lemma_split_single(s: Seq<char>)
    requires
        word_run_count(s) >= 1,
    ensures
        spec_split_groups(s, 1).len() == 1,
        spec_split_groups(s, 1)[0] == s.subrange(0, kth_end(s, (word_run_count(s) - 1) as nat)),
        is_run_end(s, s.len() as int) ==> spec_split_groups(s, 1)[0] == s,
{
    let t = word_run_count(s) as int;
    assert(split_parts(s, 1) == 1);
    lemma_div_basics(t);
    assert(group_end(s, 1, 0) == kth_end(s, (t - 1) as nat));
    if is_run_end(s, s.len() as int) {
        lemma_last_run_end(s);
        assert(s.subrange(0, s.len() as int) =~= s);
    }
}

} // verus!
