//! Reading a text character by character.

use vstd::prelude::*;
use vstd::string::*;

verus! {

/// The characters of a text, one by one.
pub fn collect_chars(s: &str) -> (v: Vec<char>)
    ensures
        v@ == s@,
{
    let mut v: Vec<char> = Vec::new();
    for c in it: s.chars()
        invariant
            v@ == it.seq().take(it.index() as int),
    {
        v.push(c);
    }
    v
}

} // verus!
