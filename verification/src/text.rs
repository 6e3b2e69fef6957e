//! Building strings character by character.

use vstd::prelude::*;
use vstd::string::StrSliceExecFns;

verus! {

/// Relies on String::push: appends exactly the given character.
#[verifier::external_body]
pub(crate) fn push_char(s: &mut String, c: char)
    ensures
        final(s)@ == old(s)@.push(c),
{
    s.push(c);
}

/// Collects the characters of a string.
#[verifier::loop_isolation(false)]
pub(crate) fn string_to_chars(s: &str) -> (r: Vec<char>)
    ensures
        r@ == s@,
{
    let n = s.unicode_len();
    let mut cs: Vec<char> = Vec::new();
    let mut i: usize = 0;
    while i < n
        invariant
            i <= n,
            n == s@.len(),
            cs@.len() == i,
            forall|k: int| 0 <= k < i ==> cs@[k] == s@[k],
        decreases n - i,
    {
        cs.push(s.get_char(i));
        i += 1;
    }
    proof {
        assert(cs@ =~= s@);
    }
    cs
}

/// Builds a string holding exactly the given characters.
#[verifier::loop_isolation(false)]
pub(crate) fn chars_to_string(cs: &Vec<char>) -> (r: String)
    ensures
        r@ == cs@,
{
    let mut r = String::new();
    let mut j: usize = 0;
    while j < cs.len()
        invariant
            j <= cs@.len(),
            r@ == cs@.take(j as int),
        decreases cs@.len() - j,
    {
        proof {
            assert(cs@.take(j as int + 1) =~= cs@.take(j as int).push(cs@[j as int]));
        }
        push_char(&mut r, cs[j]);
        j += 1;
    }
    proof {
        assert(cs@.take(cs@.len() as int) =~= cs@);
    }
    r
}

} // verus!
