use vstd::prelude::*;

verus! {

/// Appends `c` to `s` by `String::push`, which vstd does not specify.
/// Trusted: the characters of `s` afterwards are those it held before,
/// followed by `c`.
#[verifier::external_body]
pub(crate) fn push_char(s: &mut String, c: char)
    ensures
        final(s)@ == old(s)@.push(c),
{
    s.push(c)
}

} // verus!
