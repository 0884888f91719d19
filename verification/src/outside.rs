//! The outside parser's table of abbreviations, which is the same for both orders of bytes.

use crate::dwarf::Abbreviation;
use vstd::prelude::*;

verus! {

/// A table of abbreviations, `gimli::Abbreviations`.
#[verifier::external_type_specification]
#[verifier::external_body]
pub struct ExAbbreviations(gimli::Abbreviations);

/// The abbreviations of a unit by their codes.
pub uninterp spec fn abbreviations(table: gimli::Abbreviations) -> Map<u64, Abbreviation>;

} // verus!
