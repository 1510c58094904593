//! Character classification and case conversion primitives.
//!
//! The word/separator split and the case handling of this library rest on
//! std's Unicode tables. Those tables cannot be restated here, so each
//! primitive is a thin trusted wrapper whose result is either pinned exactly
//! (`push_char`) or given a name (`is_alpha`, `is_upper`, `lower_of`,
//! `upper_of`, `char_upper_of`) that the rest of the library reasons with.

use vstd::prelude::*;

verus! {

/// Whether std classifies `c` as alphabetic.
pub uninterp spec fn is_alpha(c: char) -> bool;

/// Whether std classifies `c` as uppercase.
pub uninterp spec fn is_upper(c: char) -> bool;

/// The lowercase form of `s`, as `str::to_lowercase` produces it.
pub uninterp spec fn lower_of(s: Seq<char>) -> Seq<char>;

/// The uppercase form of `s`, as `str::to_uppercase` produces it.
pub uninterp spec fn upper_of(s: Seq<char>) -> Seq<char>;

/// The uppercase mapping of the single character `c`, as `char::to_uppercase`
/// produces it (it may be more than one character).
pub uninterp spec fn char_upper_of(c: char) -> Seq<char>;

/// Every character of `w` is uppercase.
pub open spec fn all_upper(w: Seq<char>) -> bool {
    forall|i: int| 0 <= i < w.len() ==> is_upper(w[i])
}

/// Every character of `w` is alphabetic.
pub open spec fn all_alpha(w: Seq<char>) -> bool {
    forall|i: int| 0 <= i < w.len() ==> is_alpha(w[i])
}

/// Relies on `char::is_alphabetic`: a pure classification of one character.
#[verifier::external_body]
pub(crate) fn char_is_alphabetic(c: char) -> (r: bool)
    ensures
        r == is_alpha(c),
{
    c.is_alphabetic()
}

/// Relies on `char::is_uppercase`: a pure classification of one character.
#[verifier::external_body]
pub(crate) fn char_is_uppercase(c: char) -> (r: bool)
    ensures
        r == is_upper(c),
{
    c.is_uppercase()
}

/// Relies on `str::to_lowercase`: the result depends on the characters alone.
#[verifier::external_body]
pub(crate) fn to_lowercase(s: &str) -> (r: String)
    ensures
        r@ == lower_of(s@),
{
    s.to_lowercase()
}

/// Relies on `str::to_uppercase`: the result depends on the characters alone.
#[verifier::external_body]
pub(crate) fn to_uppercase(s: &str) -> (r: String)
    ensures
        r@ == upper_of(s@),
{
    s.to_uppercase()
}

/// Relies on `char::to_uppercase`: the characters it yields depend on `c`
/// alone; they are collected into a `String` unchanged.
#[verifier::external_body]
pub(crate) fn char_to_uppercase(c: char) -> (r: String)
    ensures
        r@ == char_upper_of(c),
{
    c.to_uppercase().collect()
}

/// Relies on `String::push`: appends exactly the one character `c`.
#[verifier::external_body]
pub(crate) fn push_char(s: &mut String, c: char)
    ensures
        final(s)@ == old(s)@.push(c),
{
    s.push(c)
}

} // verus!
