//! Declarations of the outside items that the library calls.

use vstd::prelude::*;
use matchkit::Match;

verus! {

/// `matchkit::Match`, carried through the scanner as an opaque value.
#[verifier::external_type_specification]
#[verifier::external_body]
pub struct ExMatch(Match);

/// The value that `Match::from_parts(pattern_id, start, end)` builds.
pub uninterp spec fn match_of(pattern_id: u32, start: u32, end: u32) -> Match;

/// `Match::from_parts` builds the match with the three given fields; it is a
/// plain constructor, so its result is a function of its arguments alone.
pub assume_specification[ Match::from_parts ](pattern_id: u32, start: u32, end: u32) -> (m: Match)
    ensures
        m == match_of(pattern_id, start, end),
;

} // verus!
