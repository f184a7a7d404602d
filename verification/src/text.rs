//! Verified text helpers: converting between strings and character
//! vectors, appending, and the lexicographic order used to sort matched
//! file paths deterministically.

use vstd::prelude::*;
use vstd::string::StrSliceExecFns;
use vstd::string::StringExecFns;

verus! {

/// Relies on String::push: appends exactly the given character to the
/// end of the string.  vstd specifies no contract for it.
#[verifier::external_body]
pub(crate) fn push_char(s: &mut String, c: char)
    ensures
        final(s)@ == old(s)@.push(c),
{
    s.push(c);
}

/// The characters of a string slice, as a vector.
pub fn chars_of(s: &str) -> (r: Vec<char>)
    ensures
        r@ == s@,
{
    let n: usize = s.unicode_len();
    let mut r: Vec<char> = Vec::new();
    let mut i: usize = 0;
    while i < n
        invariant
            i <= n,
            n == s@.len(),
            r@ == s@.subrange(0, i as int),
        decreases n - i,
    {
        r.push(s.get_char(i));
        i = i + 1;
        proof {
            assert(r@ =~= s@.subrange(0, i as int));
        }
    }
    proof {
        assert(r@ =~= s@);
    }
    r
}

/// A string holding exactly the given characters.
pub fn string_of(cs: &Vec<char>) -> (r: String)
    ensures
        r@ == cs@,
{
    let mut r = String::new();
    let mut i: usize = 0;
    while i < cs.len()
        invariant
            i <= cs.len(),
            r@ == cs@.subrange(0, i as int),
        decreases cs.len() - i,
    {
        push_char(&mut r, cs[i]);
        i = i + 1;
        proof {
            assert(r@ =~= cs@.subrange(0, i as int));
        }
    }
    proof {
        assert(r@ =~= cs@);
    }
    r
}

/// Appends `other` to `s`.
pub fn append_str(s: &mut String, other: &str)
    ensures
        final(s)@ == old(s)@ + other@,
{
    s.append(other);
}

/// Strict lexicographic order on character sequences, by code point.
pub open spec fn lex_lt(a: Seq<char>, b: Seq<char>) -> bool
    decreases a.len(),
{
    if b.len() == 0 {
        false
    } else if a.len() == 0 {
        true
    } else if (a[0] as u32) < (b[0] as u32) {
        true
    } else if (a[0] as u32) > (b[0] as u32) {
        false
    } else {
        lex_lt(a.skip(1), b.skip(1))
    }
}

/// Decides the lexicographic order on two strings.
pub fn str_lt(a: &String, b: &String) -> (r: bool)
    ensures
        r == lex_lt(a@, b@),
{
    let an: usize = a.as_str().unicode_len();
    let bn: usize = b.as_str().unicode_len();
    let mut i: usize = 0;
    proof {
        assert(a@.skip(0) =~= a@);
        assert(b@.skip(0) =~= b@);
        assert(a@.subrange(0, 0) =~= b@.subrange(0, 0));
    }
    loop
        invariant
            i <= an,
            i <= bn,
            an == a@.len(),
            bn == b@.len(),
            lex_lt(a@, b@) == lex_lt(a@.skip(i as int), b@.skip(i as int)),
            a@.subrange(0, i as int) == b@.subrange(0, i as int),
        decreases an - i,
    {
        if i == bn {
            proof {
                assert(!lex_lt(a@.skip(i as int), b@.skip(i as int)));
            }
            return false;
        }
        if i == an {
            proof {
                assert(b@.skip(i as int).len() > 0);
                assert(lex_lt(a@.skip(i as int), b@.skip(i as int)));
            }
            return true;
        }
        let ac = a.as_str().get_char(i);
        let bc = b.as_str().get_char(i);
        proof {
            assert(a@.skip(i as int)[0] == a@[i as int]);
            assert(b@.skip(i as int)[0] == b@[i as int]);
        }
        if (ac as u32) < (bc as u32) {
            return true;
        }
        if (ac as u32) > (bc as u32) {
            return false;
        }
        proof {
            assert(a@.skip(i as int).skip(1) =~= a@.skip(i as int + 1));
            assert(b@.skip(i as int).skip(1) =~= b@.skip(i as int + 1));
            assert(a@.subrange(0, i as int + 1) =~= a@.subrange(0, i as int).push(a@[i as int]));
            assert(b@.subrange(0, i as int + 1) =~= b@.subrange(0, i as int).push(b@[i as int]));
        }
        i = i + 1;
    }
}

/// Decides equality of two strings.
pub fn str_eq(a: &String, b: &String) -> (r: bool)
    ensures
        r == (a@ == b@),
{
    a.eq(b)
}

} // verus!
