//! Small trusted bridges to `String` operations that vstd leaves
//! unspecified.

use vstd::prelude::*;

verus! {

/// Relies on `String::push`: appends exactly the given character to
/// the end of the string.
#[verifier::external_body]
pub fn string_push(s: &mut String, c: char)
    ensures
        final(s)@ == old(s)@.push(c),
{
    s.push(c)
}

/// Relies on `String::pop`: removes the last character if the string
/// is non-empty and leaves an empty string unchanged.
#[verifier::external_body]
pub fn string_pop(s: &mut String)
    ensures
        old(s)@.len() == 0 ==> final(s)@ == old(s)@,
        old(s)@.len() > 0 ==> final(s)@ == old(s)@.drop_last(),
{
    s.pop();
}

} // verus!
