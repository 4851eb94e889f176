use vstd::prelude::*;

verus! {

/// Appends one character to a string.
///
/// Calls `String::push`, which appends the character, as its documentation
/// says; the contract claims exactly that of the characters of the string.
#[verifier::external_body]
pub fn push_char(s: &mut String, c: char)
    ensures
        final(s)@ == old(s)@.push(c),
{
    s.push(c);
}

} // verus!
