//! The few points where the library leans on outside code, each behind
//! a contract that Verus believes without proof.
use vstd::prelude::*;

verus! {

/// What `char::is_alphabetic` answers for a character: a function of
/// the character alone, fixed by the Unicode tables.
pub uninterp spec fn is_word_char(c: char) -> bool;

/// Relies on char::is_alphabetic: whether the character is alphabetic;
/// the answer depends on the character alone.
#[verifier::external_body]
pub(crate) fn is_word_char_exec(c: char) -> (r: bool)
    ensures
        r == is_word_char(c),
{
    c.is_alphabetic()
}

/// Relies on uuid::Uuid::new_v4 and its Display form: a random
/// version-4 identifier written as 36 characters of lower-case
/// hexadecimal and hyphens. The value is random, so nothing more than
/// its shape is promised; callers use it as an opaque fresh suffix.
#[verifier::external_body]
pub(crate) fn fresh_suffix() -> (r: String)
    ensures
        r@.len() == 36,
{
    uuid::Uuid::new_v4().to_string()
}

} // verus!
