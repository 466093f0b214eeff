//! Text in and out: the characters of a string slice, and a string grown by characters.

use itertools::Itertools;
use vstd::prelude::*;

verus! {

/// `String::push` appends one character to the string and leaves the rest as it was.
pub assume_specification[ String::push ](s: &mut String, ch: char)
    ensures
        final(s)@ == old(s)@.push(ch),
;

/// `Itertools::collect_vec` gathers what an iterator yields, in order, into a vector;
/// over `str::chars` those are the characters of the text.
#[verifier::external_body]
pub(crate) fn chars_of(text: &str) -> (chars: Vec<char>)
    ensures
        chars@ == text@,
{
    text.chars().collect_vec()
}

} // verus!
