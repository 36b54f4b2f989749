use vstd::prelude::*;

verus! {

/// Relies on String::push: it appends the one character to the end.
#[verifier::external_body]
pub(crate) fn push_char(s: &mut String, c: char)
    ensures
        final(s)@ == old(s)@.push(c),
{
    s.push(c)
}

/// Relies on String::push_str: it appends the whole of `t` to the end.
#[verifier::external_body]
pub(crate) fn push_text(s: &mut String, t: &str)
    ensures
        final(s)@ == old(s)@ + t@,
{
    s.push_str(t)
}

} // verus!
