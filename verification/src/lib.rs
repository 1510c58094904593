//! Conversion of English text between two spelling variants.
//!
//! The library splits a text into maximal runs of alphabetic characters
//! ("words") and maximal runs of everything else ("separators"), looks each
//! word up case-insensitively in a dictionary, and on a hit substitutes the
//! replacement re-cased after the original word's case pattern. Separators
//! are copied verbatim, so the shape of the text is never altered.

pub mod convert;
pub mod dict;
pub mod segment;
pub mod unicode;
