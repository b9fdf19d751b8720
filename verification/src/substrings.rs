//! Single-pass substring helpers: split at the first occurrence of a
//! separator, take the prefix before a separator, look a key up in a list of
//! `key=value` strings, and trim one matching character from an end.

use crate::chars::str_to_chars;
use crate::chars::string_of_range;
use vstd::prelude::*;

verus! {

broadcast use vstd::string::group_string_axioms;

/// The pattern occurs in `s` starting at index `i`.
pub open spec fn occurs_at(s: Seq<char>, pat: Seq<char>, i: int) -> bool {
    0 <= i && i + pat.len() <= s.len() && s.subrange(i, i + pat.len() as int) == pat
}

/// The least index `>= j` where the pattern occurs, or `s.len() + 1` when it
/// occurs nowhere at or after `j`.
pub open spec fn find_from(s: Seq<char>, pat: Seq<char>, j: int) -> int
    decreases s.len() + 1 - j,
{
    if j > s.len() {
        j
    } else if occurs_at(s, pat, j) {
        j
    } else {
        find_from(s, pat, j + 1)
    }
}

/// The index of the first occurrence of the pattern, or `s.len() + 1` when
/// there is none. `occurs_at(s, pat, spec_find(s, pat))` says whether the
/// search succeeded.
pub open spec fn spec_find(s: Seq<char>, pat: Seq<char>) -> int {
    find_from(s, pat, 0)
}

/// The two halves of splitting at the first occurrence of the separator: the
/// prefix before it, and the text from one character past the occurrence's
/// start. When the separator does not occur, the whole text and an empty
/// second half.
pub open spec fn spec_first_of_split(s: Seq<char>, sep: Seq<char>) -> (Seq<char>, Seq<char>) {
    let f = spec_find(s, sep);
    if occurs_at(s, sep, f) {
        let cut = if f + 1 <= s.len() {
            f + 1
        } else {
            s.len() as int
        };
        (s.take(f), s.skip(cut))
    } else {
        (s, Seq::empty())
    }
}

/// The prefix before the first occurrence of the separator, or empty when the
/// separator does not occur.
pub open spec fn spec_first_occurrence(s: Seq<char>, sep: Seq<char>) -> Seq<char> {
    let f = spec_find(s, sep);
    if occurs_at(s, sep, f) {
        s.take(f)
    } else {
        Seq::empty()
    }
}

/// The value of a `key=value` item when its part before the first `=` equals
/// the key; `None` when the item has no `=` or the key differs.
pub open spec fn kv_value(item: Seq<char>, key: Seq<char>) -> Option<Seq<char>> {
    let f = spec_find(item, seq!['=']);
    if occurs_at(item, seq!['='], f) && item.take(f) == key {
        Some(item.skip(f + 1))
    } else {
        None
    }
}

/// The value of the first item whose key matches, scanning the items in
/// order; `None` when no item matches.
pub open spec fn spec_find_value(items: Seq<Seq<char>>, key: Seq<char>) -> Option<Seq<char>>
    decreases items.len(),
{
    if items.len() == 0 {
        None
    } else if kv_value(items[0], key) is Some {
        kv_value(items[0], key)
    } else {
        spec_find_value(items.drop_first(), key)
    }
}

/// The text with its first (or last) character removed when that character
/// equals the target, and unchanged otherwise.
pub open spec fn spec_remove_char(begin: bool, s: Seq<char>, target: char) -> Seq<char> {
    if begin {
        if s.len() > 0 && s[0] == target {
            s.drop_first()
        } else {
            s
        }
    } else {
        if s.len() > 0 && s.last() == target {
            s.drop_last()
        } else {
            s
        }
    }
}

/// The pattern occurs at `j`, decided by comparing characters.
pub(crate) fn match_at(chars: &Vec<char>, pat: &Vec<char>, j: usize) -> (b: bool)
    requires
        j <= chars@.len(),
    ensures
        b == occurs_at(chars@, pat@, j as int),
{
    let n = chars.len();
    let m = pat.len();
    if m > n - j {
        return false;
    }
    let mut k: usize = 0;
    while k < m
        invariant
            j + m <= n,
            n == chars@.len(),
            m == pat@.len(),
            0 <= k <= m,
            forall|l: int| 0 <= l < k ==> chars@[j + l] == pat@[l],
        decreases m - k,
    {
        if chars[j + k] != pat[k] {
            proof {
                assert(chars@.subrange(j as int, j + m) != pat@) by {
                    assert(chars@.subrange(j as int, j + m)[k as int] != pat@[k as int]);
                }
            }
            return false;
        }
        k = k + 1;
    }
    proof {
        assert(chars@.subrange(j as int, j + m) =~= pat@);
    }
    true
}

/// The first occurrence of the pattern, scanning from the left.
fn find_first(chars: &Vec<char>, pat: &Vec<char>) -> (r: Option<usize>)
    ensures
        match r {
            Some(p) => p == spec_find(chars@, pat@) && occurs_at(chars@, pat@, p as int),
            None => spec_find(chars@, pat@) == chars@.len() + 1,
        },
{
    let n = chars.len();
    let m = pat.len();
    if m == 0 {
        proof {
            assert(chars@.subrange(0, 0) =~= pat@);
        }
        return Some(0);
    }
    let mut j: usize = 0;
    while j < n
        invariant
            n == chars@.len(),
            0 <= j <= n,
            spec_find(chars@, pat@) == find_from(chars@, pat@, j as int),
        decreases n - j,
    {
        if match_at(chars, pat, j) {
            return Some(j);
        }
        j = j + 1;
    }
    proof {
        assert(pat@.len() > 0);
        assert(!occurs_at(chars@, pat@, n as int));
        assert(find_from(chars@, pat@, n as int) == n + 1) by {
            reveal_with_fuel(find_from, 3);
        }
    }
    None
}

/// Splits the text at the first occurrence of the separator: the part before
/// the occurrence, and the part starting one character past the occurrence's
/// start. When the separator does not occur, the original text and an empty
/// string.
pub fn get_first_of_split(s: &str, separator: &str) -> (r: (String, String))
    ensures
        r.0@ == spec_first_of_split(s@, separator@).0,
        r.1@ == spec_first_of_split(s@, separator@).1,
{
    let chars = str_to_chars(s);
    let sep = str_to_chars(separator);
    let n = chars.len();
    match find_first(&chars, &sep) {
        Some(p) => {
            let cut = if p < n {
                p + 1
            } else {
                n
            };
            let before = string_of_range(&chars, 0, p);
            let after = string_of_range(&chars, cut, n);
            proof {
                assert(chars@.subrange(0, p as int) =~= chars@.take(p as int));
                assert(chars@.subrange(cut as int, n as int) =~= chars@.skip(cut as int));
            }
            (before, after)
        },
        None => {
            let whole = string_of_range(&chars, 0, n);
            proof {
                assert(chars@.subrange(0, n as int) =~= chars@);
            }
            (whole, String::new())
        },
    }
}

/// The prefix of the text before the first occurrence of the separator, or an
/// empty string when the separator does not occur.
pub fn get_first_occurrance(s: &str, separator: &str) -> (r: String)
    ensures
        r@ == spec_first_occurrence(s@, separator@),
{
    let chars = str_to_chars(s);
    let sep = str_to_chars(separator);
    match find_first(&chars, &sep) {
        Some(p) => {
            let before = string_of_range(&chars, 0, p);
            proof {
                assert(chars@.subrange(0, p as int) =~= chars@.take(p as int));
            }
            before
        },
        None => String::new(),
    }
}

/// Looks the key up in a list of `key=value` strings and returns the value of
/// the first item whose part before its first `=` equals the key, or `None`
/// when no item matches.
pub fn find_value_by_key(kv_pairs: &Vec<String>, key_to_find: &str) -> (r: Option<String>)
    ensures
        r.deep_view() == spec_find_value(kv_pairs.deep_view(), key_to_find@),
{
    let key = str_to_chars(key_to_find);
    let mut eq_pat: Vec<char> = Vec::new();
    eq_pat.push('=');
    proof {
        assert(eq_pat@ =~= seq!['=']);
    }
    let n = kv_pairs.len();
    let mut i: usize = 0;
    proof {
        assert(kv_pairs.deep_view().skip(0) =~= kv_pairs.deep_view());
    }
    while i < n
        invariant
            n == kv_pairs@.len(),
            0 <= i <= n,
            key@ == key_to_find@,
            eq_pat@ == seq!['='],
            spec_find_value(kv_pairs.deep_view(), key_to_find@) == spec_find_value(
                kv_pairs.deep_view().skip(i as int),
                key_to_find@,
            ),
        decreases n - i,
    {
        let item = str_to_chars(kv_pairs[i].as_str());
        proof {
            assert(kv_pairs.deep_view().skip(i as int)[0] == item@);
            assert(kv_pairs.deep_view().skip(i as int).drop_first() =~= kv_pairs.deep_view().skip(
                i as int + 1,
            ));
        }
        match find_first(&item, &eq_pat) {
            Some(p) => {
                proof {
                    assert(seq!['='].len() == 1);
                    assert(p + 1 <= item@.len());
                }
                let mut matches: bool = p == key.len();
                if matches {
                    let mut k: usize = 0;
                    while k < p && matches
                        invariant
                            p == key@.len(),
                            p < item@.len(),
                            0 <= k <= p,
                            matches ==> (forall|l: int| 0 <= l < k ==> item@[l] == key@[l]),
                            !matches ==> item@.take(p as int) != key@,
                        decreases p - k + (if matches {
                            1int
                        } else {
                            0int
                        }),
                    {
                        if item[k] != key[k] {
                            proof {
                                assert(item@.take(p as int) != key@) by {
                                    assert(item@.take(p as int)[k as int] != key@[k as int]);
                                }
                            }
                            matches = false;
                        } else {
                            k = k + 1;
                        }
                    }
                    proof {
                        if matches {
                            assert(item@.take(p as int) =~= key@);
                        }
                    }
                } else {
                    proof {
                        assert(item@.take(p as int).len() != key@.len());
                    }
                }
                if matches {
                    let ilen = item.len();
                    let value = string_of_range(&item, p + 1, ilen);
                    proof {
                        assert(item@.subrange(p as int + 1, item@.len() as int) =~= item@.skip(
                            p as int + 1,
                        ));
                    }
                    return Some(value);
                } else {
                    proof {
                        assert(kv_value(item@, key_to_find@) is None);
                    }
                }
            },
            None => {
                proof {
                    assert(kv_value(item@, key_to_find@) is None);
                }
            },
        }
        i = i + 1;
    }
    proof {
        assert(kv_pairs.deep_view().skip(n as int) =~= Seq::<Seq<char>>::empty());
    }
    None
}

/// Removes the first (`begin == true`) or last (`begin == false`) character
/// of the text when it equals the target character, and returns the text
/// unchanged otherwise.
pub fn remove_char(begin: bool, input: String, target: char) -> (r: String)
    ensures
        r@ == spec_remove_char(begin, input@, target),
{
    let chars = str_to_chars(input.as_str());
    let n = chars.len();
    if n == 0 {
        return input;
    }
    if begin {
        if chars[0] == target {
            let out = string_of_range(&chars, 1, n);
            proof {
                assert(chars@.subrange(1, n as int) =~= chars@.drop_first());
            }
            out
        } else {
            input
        }
    } else {
        if chars[n - 1] == target {
            let out = string_of_range(&chars, 0, n - 1);
            proof {
                assert(chars@.subrange(0, n as int - 1) =~= chars@.drop_last());
            }
            out
        } else {
            input
        }
    }
}

} // verus!
