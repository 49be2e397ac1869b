//! Pattern matcher: evaluates a relative path against glob patterns.
//!
//! Supported syntax: `*` matches any run of characters within one path
//! segment (never a `/`), `?` matches exactly one such character, `**`
//! matches any run of characters, separators included, and `[...]` /
//! `[!...]` character classes match one non-separator character. A class
//! with no closing bracket, or an empty class body, matches nothing.

use vstd::prelude::*;

verus! {

/// Index of the first closing bracket in `p`, if any.
pub open spec fn find_close(p: Seq<char>) -> Option<int>
    decreases p.len(),
{
    if p.len() == 0 {
        None
    } else if p[0] == ']' {
        Some(0int)
    } else {
        match find_close(p.skip(1)) {
            Some(k) => Some(k + 1),
            None => None,
        }
    }
}

/// The first closing bracket is a closing bracket, and nothing before it is.
pub proof fn lemma_find_close_char(p: Seq<char>)
    ensures
        (find_close(p) matches Some(k) ==> 0 <= k < p.len() && p[k] == ']' && forall|j: int|
            0 <= j < k ==> p[j] != ']'),
        (find_close(p) is None ==> forall|j: int| 0 <= j < p.len() ==> p[j] != ']'),
    decreases p.len(),
{
    if p.len() > 0 && p[0] != ']' {
        lemma_find_close_char(p.skip(1));
        assert(forall|j: int| 0 <= j < p.skip(1).len() ==> p.skip(1)[j] == p[j + 1]);
        match find_close(p.skip(1)) {
            Some(k1) => {
                assert(find_close(p) == Some(k1 + 1));
                assert(p.skip(1)[k1] == ']');
                assert forall|j: int| 0 <= j < k1 + 1 implies p[j] != ']' by {
                    if j > 0 {
                        assert(p.skip(1)[j - 1] != ']');
                    }
                }
            },
            None => {
                assert forall|j: int| 0 <= j < p.len() implies p[j] != ']' by {
                    if j > 0 {
                        assert(p.skip(1)[j - 1] != ']');
                    }
                }
            },
        }
    }
}

/// Membership of `c` in a class body: `x-y` ranges by code point, any other
/// character stands for itself.
pub open spec fn class_member(body: Seq<char>, c: char) -> bool
    decreases body.len(),
{
    if body.len() >= 3 && body[1] == '-' {
        ((body[0] as u32) <= (c as u32) && (c as u32) <= (body[2] as u32)) || class_member(
            body.skip(3),
            c,
        )
    } else if body.len() >= 1 {
        c == body[0] || class_member(body.skip(1), c)
    } else {
        false
    }
}

/// Whether glob pattern `p` matches the whole of `s`. This one function is
/// the matching semantics: the executable matcher is proved equal to it.
pub open spec fn glob_match(p: Seq<char>, s: Seq<char>) -> bool
    decreases p.len(), s.len() via glob_match_decreases
{
    if p.len() == 0 {
        s.len() == 0
    } else if p[0] == '*' {
        if p.len() >= 2 && p[1] == '*' {
            glob_match(p.skip(2), s) || (s.len() > 0 && glob_match(p, s.skip(1)))
        } else {
            glob_match(p.skip(1), s) || (s.len() > 0 && s[0] != '/' && glob_match(p, s.skip(1)))
        }
    } else if p[0] == '?' {
        s.len() > 0 && s[0] != '/' && glob_match(p.skip(1), s.skip(1))
    } else if p[0] == '[' {
        let negate = p.len() >= 2 && p[1] == '!';
        let scan = if negate {
            p.skip(2)
        } else {
            p.skip(1)
        };
        match find_close(scan) {
            Some(k) => k > 0 && s.len() > 0 && s[0] != '/' && (class_member(scan.take(k), s[0])
                != negate) && glob_match(scan.skip(k + 1), s.skip(1)),
            None => false,
        }
    } else {
        s.len() > 0 && s[0] == p[0] && glob_match(p.skip(1), s.skip(1))
    }
}

#[via_fn]
proof fn glob_match_decreases(p: Seq<char>, s: Seq<char>) {
    if p.len() > 0 && p[0] == '[' {
        let negate = p.len() >= 2 && p[1] == '!';
        let scan = if negate {
            p.skip(2)
        } else {
            p.skip(1)
        };
        lemma_find_close_char(scan);
    }
}

/// Finds the first closing bracket in `p` at or after `from`.
fn find_close_at(p: &str, from: usize) -> (r: Option<usize>)
    requires
        from <= p@.len(),
    ensures
        (r matches Some(k) ==> from <= k < p@.len() && Some(k - from) == find_close(
            p@.skip(from as int),
        )),
        (r is None ==> find_close(p@.skip(from as int)) is None),
{
    let plen = p.unicode_len();
    let mut i: usize = from;
    while i < plen
        invariant
            from <= i <= plen,
            plen == p@.len(),
            forall|j: int| from <= j < i ==> p@[j] != ']',
        decreases plen - i,
    {
        if p.get_char(i) == ']' {
            proof {
                lemma_find_close_char(p@.skip(from as int));
                let q = p@.skip(from as int);
                assert(forall|j: int| 0 <= j < q.len() ==> q[j] == p@[j + from]);
                assert(q[i - from] == ']');
                if find_close(q) is None {
                    assert(false);
                }
                let k = find_close(q)->Some_0;
                if k < i - from {
                    assert(p@[k + from] == ']');
                    assert(false);
                }
                if k > i - from {
                    assert(q[i - from] != ']');
                    assert(false);
                }
            }
            return Some(i);
        }
        i = i + 1;
    }
    proof {
        lemma_find_close_char(p@.skip(from as int));
        let q = p@.skip(from as int);
        assert(forall|j: int| 0 <= j < q.len() ==> q[j] == p@[j + from]);
        if find_close(q) is Some {
            let k = find_close(q)->Some_0;
            assert(p@[k + from] == ']');
            assert(false);
        }
    }
    None
}

/// Decides membership of `c` in the class body `p[lo..hi]`.
fn class_member_at(p: &str, lo: usize, hi: usize, c: char) -> (r: bool)
    requires
        lo <= hi <= p@.len(),
    ensures
        r == class_member(p@.subrange(lo as int, hi as int), c),
    decreases hi - lo,
{
    let ghost body = p@.subrange(lo as int, hi as int);
    proof {
        assert(forall|j: int| 0 <= j < body.len() ==> body[j] == p@[j + lo]);
    }
    if hi - lo >= 3 && p.get_char(lo + 1) == '-' {
        let a = p.get_char(lo);
        let b = p.get_char(lo + 2);
        if (a as u32) <= (c as u32) && (c as u32) <= (b as u32) {
            true
        } else {
            proof {
                assert(body.skip(3) =~= p@.subrange(lo + 3 as int, hi as int));
            }
            class_member_at(p, lo + 3, hi, c)
        }
    } else if hi - lo >= 1 {
        if c == p.get_char(lo) {
            true
        } else {
            proof {
                assert(body.skip(1) =~= p@.subrange(lo + 1 as int, hi as int));
            }
            class_member_at(p, lo + 1, hi, c)
        }
    } else {
        false
    }
}

/// Matches the pattern from index `pi` against the path from index `si`.
fn glob_match_at(p: &str, pi: usize, s: &str, si: usize) -> (r: bool)
    requires
        pi <= p@.len(),
        si <= s@.len(),
    ensures
        r == glob_match(p@.skip(pi as int), s@.skip(si as int)),
    decreases p@.len() - pi, s@.len() - si,
{
    let plen = p.unicode_len();
    let slen = s.unicode_len();
    let ghost pp = p@.skip(pi as int);
    let ghost ss = s@.skip(si as int);
    proof {
        assert(forall|j: int| 0 <= j < pp.len() ==> pp[j] == p@[j + pi]);
        assert(forall|j: int| 0 <= j < ss.len() ==> ss[j] == s@[j + si]);
    }
    if pi == plen {
        return si == slen;
    }
    let c0 = p.get_char(pi);
    if c0 == '*' {
        if pi + 1 < plen && p.get_char(pi + 1) == '*' {
            proof {
                assert(pp.skip(2) =~= p@.skip(pi + 2 as int));
            }
            if glob_match_at(p, pi + 2, s, si) {
                return true;
            }
            if si < slen {
                proof {
                    assert(ss.skip(1) =~= s@.skip(si + 1 as int));
                }
                if glob_match_at(p, pi, s, si + 1) {
                    return true;
                }
            }
            false
        } else {
            proof {
                assert(pp.skip(1) =~= p@.skip(pi + 1 as int));
            }
            if glob_match_at(p, pi + 1, s, si) {
                return true;
            }
            if si < slen && s.get_char(si) != '/' {
                proof {
                    assert(ss.skip(1) =~= s@.skip(si + 1 as int));
                }
                if glob_match_at(p, pi, s, si + 1) {
                    return true;
                }
            }
            false
        }
    } else if c0 == '?' {
        if si < slen && s.get_char(si) != '/' {
            proof {
                assert(pp.skip(1) =~= p@.skip(pi + 1 as int));
                assert(ss.skip(1) =~= s@.skip(si + 1 as int));
            }
            glob_match_at(p, pi + 1, s, si + 1)
        } else {
            false
        }
    } else if c0 == '[' {
        let negate = pi + 1 < plen && p.get_char(pi + 1) == '!';
        let scan_start = if negate {
            pi + 2
        } else {
            pi + 1
        };
        let ghost scan = if negate {
            pp.skip(2)
        } else {
            pp.skip(1)
        };
        proof {
            assert(scan =~= p@.skip(scan_start as int));
            lemma_find_close_char(scan);
        }
        match find_close_at(p, scan_start) {
            None => false,
            Some(k) => {
                // `k` is the absolute index of the closing bracket.
                if k == scan_start || si == slen {
                    return false;
                }
                let sc = s.get_char(si);
                if sc == '/' {
                    return false;
                }
                proof {
                    assert(scan.take(k - scan_start) =~= p@.subrange(
                        scan_start as int,
                        k as int,
                    ));
                    assert(scan.skip(k - scan_start + 1) =~= p@.skip(k + 1 as int));
                    assert(ss.skip(1) =~= s@.skip(si + 1 as int));
                }
                let m = class_member_at(p, scan_start, k, sc);
                if m != negate {
                    glob_match_at(p, k + 1, s, si + 1)
                } else {
                    false
                }
            },
        }
    } else {
        if si < slen && s.get_char(si) == c0 {
            proof {
                assert(pp.skip(1) =~= p@.skip(pi + 1 as int));
                assert(ss.skip(1) =~= s@.skip(si + 1 as int));
            }
            glob_match_at(p, pi + 1, s, si + 1)
        } else {
            false
        }
    }
}

/// Whether `pattern` matches the whole of `path`.
pub fn glob_match_str(pattern: &str, path: &str) -> (r: bool)
    ensures
        r == glob_match(pattern@, path@),
{
    proof {
        assert(pattern@.skip(0) =~= pattern@);
        assert(path@.skip(0) =~= path@);
    }
    glob_match_at(pattern, 0, path, 0)
}

/// Some pattern in the set matches the path.
pub open spec fn matches_any(patterns: Seq<Seq<char>>, path: Seq<char>) -> bool {
    exists|i: int| 0 <= i < patterns.len() && glob_match(patterns[i], path)
}

/// The filtering rule: a path is a candidate when the inclusion set is empty
/// or some inclusion pattern matches it; an exclusion match rejects it
/// regardless, so exclusion has strict precedence.
pub open spec fn accepted(
    includes: Seq<Seq<char>>,
    excludes: Seq<Seq<char>>,
    path: Seq<char>,
) -> bool {
    !matches_any(excludes, path) && (includes.len() == 0 || matches_any(includes, path))
}

/// Law: exclusion has strict precedence. A path that matches any exclusion
/// pattern is rejected, whatever the inclusion patterns say of it.
pub proof fn lemma_exclusion_precedence(
    includes: Seq<Seq<char>>,
    excludes: Seq<Seq<char>>,
    path: Seq<char>,
)
    requires
        matches_any(excludes, path),
    ensures
        !accepted(includes, excludes, path),
{
}

/// Some pattern in the vector matches the path.
pub fn matches_any_str(patterns: &Vec<String>, path: &str) -> (r: bool)
    ensures
        r == matches_any(patterns.deep_view(), path@),
{
    let mut i: usize = 0;
    while i < patterns.len()
        invariant
            i <= patterns@.len(),
            forall|j: int| 0 <= j < i ==> !glob_match(patterns.deep_view()[j], path@),
        decreases patterns@.len() - i,
    {
        if glob_match_str(patterns[i].as_str(), path) {
            proof {
                assert(patterns.deep_view()[i as int] == patterns@[i as int]@);
            }
            return true;
        }
        proof {
            assert(patterns.deep_view()[i as int] == patterns@[i as int]@);
        }
        i = i + 1;
    }
    false
}

/// Decides whether a relative path passes the inclusion/exclusion filters.
pub fn is_path_included(path: &str, includes: &Vec<String>, excludes: &Vec<String>) -> (r: bool)
    ensures
        r == accepted(includes.deep_view(), excludes.deep_view(), path@),
{
    if matches_any_str(excludes, path) {
        return false;
    }
    if includes.len() == 0 {
        return true;
    }
    matches_any_str(includes, path)
}

} // verus!
