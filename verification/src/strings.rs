//! Character-level helpers for `str` and `String`.

use vstd::prelude::*;

verus! {

/// Appends `ch` to the end of `text`.
///
/// Trusted: the body is `String::push` of the standard library, for which vstd has no
/// specification. The contract claims that the string afterwards is the string before with
/// exactly `ch` added at its end.
#[verifier::external_body]
pub(crate) fn push_char(text: &mut String, ch: char)
    ensures
        final(text)@ == old(text)@.push(ch),
{
    text.push(ch);
}

/// Whether `ch` occurs anywhere in `text`.
pub fn contains_char(text: &str, ch: char) -> (found: bool)
    ensures
        found == text@.contains(ch),
{
    for c in iter: text.chars()
        invariant
            iter.seq() == text@,
            !text@.take(iter.index()).contains(ch),
    {
        if c == ch {
            assert(text@[iter.index()] == ch);
            return true;
        }
        assert(text@.take(iter.index() + 1) =~= text@.take(iter.index()).push(c));
    }
    assert(text@.take(text@.len() as int) =~= text@);
    false
}

} // verus!
