//! Character-level helpers: whitespace, string equality, word splitting.

use vstd::prelude::*;
use vstd::string::*;

verus! {

/// ASCII whitespace as HTML defines it for attribute values.
pub open spec fn is_ws(c: char) -> bool {
    c == ' ' || c == '\t' || c == '\n' || c == '\r' || c == '\x0C'
}

/// `s[i..j]` is a maximal run of non-whitespace characters of `s`.
pub open spec fn token_at(s: Seq<char>, i: int, j: int) -> bool {
    &&& 0 <= i < j <= s.len()
    &&& forall|k: int| i <= k < j ==> !is_ws(#[trigger] s[k])
    &&& (i == 0 || is_ws(s[i - 1]))
    &&& (j == s.len() || is_ws(s[j]))
}

/// `t` is one of the whitespace-separated words of `s`.
pub open spec fn has_token(s: Seq<char>, t: Seq<char>) -> bool {
    exists|i: int, j: int| #[trigger] token_at(s, i, j) && s.subrange(i, j) == t
}

pub fn is_whitespace(c: char) -> (r: bool)
    ensures
        r == is_ws(c),
{
    c == ' ' || c == '\t' || c == '\n' || c == '\r' || c == '\x0C'
}

/// Character-wise equality of two strings.
pub fn str_eq(a: &str, b: &str) -> (r: bool)
    ensures
        r == (a@ == b@),
{
    let n = a.unicode_len();
    if n != b.unicode_len() {
        return false;
    }
    let mut i: usize = 0;
    while i < n
        invariant
            n == a@.len(),
            n == b@.len(),
            i <= n,
            forall|k: int| 0 <= k < i ==> a@[k] == b@[k],
        decreases n - i,
    {
        if a.get_char(i) != b.get_char(i) {
            return false;
        }
        i = i + 1;
    }
    proof {
        assert(a@ =~= b@);
    }
    true
}

/// The whitespace-separated words of `s`.
pub fn tokens(s: &str) -> (r: Vec<String>)
    ensures
        forall|q: int| 0 <= q < r.len() ==> has_token(s@, #[trigger] r[q]@),
        forall|t: Seq<char>| has_token(s@, t) ==> exists|q: int| 0 <= q < r.len() && r[q]@ == t,
{
    let n = s.unicode_len();
    let mut out: Vec<String> = Vec::new();
    let mut start: usize = 0;
    let mut in_token = false;
    let mut i: usize = 0;
    while i < n
        invariant
            n == s@.len(),
            i <= n,
            start <= i,
            in_token ==> start < i && (start == 0 || is_ws(s@[start - 1])) && forall|k: int|
                start <= k < i ==> !is_ws(#[trigger] s@[k]),
            !in_token ==> (i == 0 || is_ws(s@[i - 1])),
            forall|q: int| 0 <= q < out.len() ==> has_token(s@, #[trigger] out[q]@),
            forall|a: int, b: int|
                #[trigger] token_at(s@, a, b) && b < i ==> exists|q: int|
                    0 <= q < out.len() && out[q]@ == s@.subrange(a, b),
        decreases n - i,
    {
        let c = s.get_char(i);
        if is_whitespace(c) {
            if in_token {
                let word = s.substring_char(start, i).to_owned();
                proof {
                    assert(token_at(s@, start as int, i as int));
                }
                let ghost prev = out@;
                out.push(word);
                proof {
                    assert forall|a: int, b: int|
                        #[trigger] token_at(s@, a, b) && b < i + 1 implies exists|q: int|
                            0 <= q < out.len() && out[q]@ == s@.subrange(a, b) by {
                        if b < i {
                            let q0 = choose|q: int|
                                0 <= q < prev.len() && prev[q]@ == s@.subrange(a, b);
                            assert(out@[q0] == prev[q0]);
                        } else {
                            if a < start {
                                assert(!is_ws(s@[start - 1]));
                            }
                            if a > start {
                                assert(!is_ws(s@[a - 1]));
                            }
                            assert(out[out.len() - 1]@ == s@.subrange(a, b));
                        }
                    }
                }
                in_token = false;
            } else {
                proof {
                    assert forall|a: int, b: int| #[trigger]
                        token_at(s@, a, b) && b < i + 1 implies b < i by {
                        if b == i {
                            assert(!is_ws(s@[i - 1]));
                        }
                    }
                }
            }
        } else {
            if !in_token {
                start = i;
                in_token = true;
            }
        }
        i = i + 1;
    }
    if in_token {
        let word = s.substring_char(start, n).to_owned();
        proof {
            assert(token_at(s@, start as int, n as int));
        }
        let ghost prev = out@;
        out.push(word);
        proof {
            assert forall|a: int, b: int| #[trigger] token_at(s@, a, b) implies exists|q: int|
                0 <= q < out.len() && out[q]@ == s@.subrange(a, b) by {
                if b < n {
                    let q0 = choose|q: int|
                        0 <= q < prev.len() && prev[q]@ == s@.subrange(a, b);
                    assert(out@[q0] == prev[q0]);
                } else {
                    if a < start {
                        assert(!is_ws(s@[start - 1]));
                    }
                    if a > start {
                        assert(!is_ws(s@[a - 1]));
                    }
                    assert(out[out.len() - 1]@ == s@.subrange(a, b));
                }
            }
        }
    } else {
        proof {
            assert forall|a: int, b: int| #[trigger] token_at(s@, a, b) implies b < n by {
                if b == n {
                    assert(!is_ws(s@[n - 1]));
                }
            }
        }
    }
    proof {
        assert forall|t: Seq<char>| has_token(s@, t) implies exists|q: int|
            0 <= q < out.len() && out[q]@ == t by {
            let (a, b) = choose|a: int, b: int| #[trigger] token_at(s@, a, b) && s@.subrange(a, b) == t;
            assert(token_at(s@, a, b));
        }
    }
    out
}

} // verus!
