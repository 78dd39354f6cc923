//! Interned strings.
//!
//! A string is interned once and then stands for its text: copies are cheap and two
//! interned strings with the same text are the same value.
use vstd::prelude::*;

verus! {

#[verifier::external_type_specification]
#[verifier::external_body]
pub struct ExUstr(ustr::Ustr);

/// An interned string. Make one with [`intern`].
pub type IString = ustr::Ustr;

/// The text that an interned string stands for.
pub uninterp spec fn interned_text(string: ustr::Ustr) -> Seq<char>;

/// Interns `text`.
///
/// Calls `ustr::Ustr::from`, which looks the text up in the string cache, stores a copy
/// of it there if it is new, and returns a handle to the cached copy. The contract
/// claims that the handle stands for exactly the text given.
#[verifier::external_body]
pub(crate) fn intern_text(text: &str) -> (string: IString)
    ensures
        interned_text(string) == text@,
{
    ustr::Ustr::from(text)
}

/// The text of an interned string as an owned `String`.
///
/// Calls `ustr::Ustr::as_str`, which returns the cached text that the handle points to.
/// The contract claims that this is the text the handle stands for.
#[verifier::external_body]
pub(crate) fn text_of(string: &IString) -> (text: String)
    ensures
        text@ == interned_text(*string),
{
    String::from(string.as_str())
}

/// Interns `text` and returns the interned string that stands for it.
pub fn intern(text: &str) -> (string: IString)
    ensures
        interned_text(string) == text@,
{
    intern_text(text)
}

} // verus!
