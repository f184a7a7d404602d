//! Glob pattern matching over file paths.  A pattern matches a whole
//! path; `*` matches any run of characters (possibly empty), `?`
//! matches exactly one character, and every other character matches
//! itself.

use vstd::prelude::*;
use crate::text;

verus! {

/// Whether the glob pattern `p` matches the whole path `s`.
pub open spec fn glob_matches(p: Seq<char>, s: Seq<char>) -> bool
    decreases p.len(), s.len(),
{
    if p.len() == 0 {
        s.len() == 0
    } else if p[0] == '*' {
        glob_matches(p.skip(1), s) || (s.len() > 0 && glob_matches(p, s.skip(1)))
    } else if s.len() == 0 {
        false
    } else {
        (p[0] == '?' || p[0] == s[0]) && glob_matches(p.skip(1), s.skip(1))
    }
}

fn glob_match_at(p: &Vec<char>, i: usize, s: &Vec<char>, j: usize) -> (r: bool)
    requires
        i <= p@.len(),
        j <= s@.len(),
    ensures
        r == glob_matches(p@.skip(i as int), s@.skip(j as int)),
    decreases p@.len() - i, s@.len() - j,
{
    proof {
        if i < p@.len() {
            assert(p@.skip(i as int)[0] == p@[i as int]);
            assert(p@.skip(i as int).skip(1) =~= p@.skip(i as int + 1));
        }
        if j < s@.len() {
            assert(s@.skip(j as int)[0] == s@[j as int]);
            assert(s@.skip(j as int).skip(1) =~= s@.skip(j as int + 1));
        }
    }
    if i == p.len() {
        j == s.len()
    } else if p[i] == '*' {
        if glob_match_at(p, i + 1, s, j) {
            true
        } else if j < s.len() {
            glob_match_at(p, i, s, j + 1)
        } else {
            false
        }
    } else if j == s.len() {
        false
    } else if p[i] == '?' || p[i] == s[j] {
        glob_match_at(p, i + 1, s, j + 1)
    } else {
        false
    }
}

/// Decides whether the glob pattern matches the path.
pub fn glob_match(pattern: &str, path: &str) -> (r: bool)
    ensures
        r == glob_matches(pattern@, path@),
{
    let p = text::chars_of(pattern);
    let s = text::chars_of(path);
    proof {
        assert(p@.skip(0) =~= pattern@);
        assert(s@.skip(0) =~= path@);
    }
    glob_match_at(&p, 0, &s, 0)
}

/// Whether any of the patterns matches the path.
pub open spec fn any_matches(pats: Seq<Seq<char>>, s: Seq<char>) -> bool {
    exists|k: int| 0 <= k < pats.len() && glob_matches(pats[k], s)
}

/// Decides whether any of the patterns matches the path.
pub fn any_match(patterns: &Vec<String>, path: &str) -> (r: bool)
    ensures
        r == any_matches(patterns.deep_view(), path@),
{
    let mut k: usize = 0;
    while k < patterns.len()
        invariant
            k <= patterns@.len(),
            forall|t: int| 0 <= t < k ==> !glob_matches(patterns.deep_view()[t], path@),
        decreases patterns@.len() - k,
    {
        if glob_match(patterns[k].as_str(), path) {
            proof {
                assert(patterns.deep_view()[k as int] == patterns@[k as int]@);
            }
            return true;
        }
        k = k + 1;
    }
    false
}

} // verus!
