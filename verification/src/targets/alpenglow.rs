//! Target for the Alpenglow vote grammar: ten validators with a tenth of the
//! stake each, two of them Byzantine and two possibly absent; active
//! validators may emit one or more votes, duplicates included.

use vstd::prelude::*;

verus! {

/// The grammar target of the Alpenglow vote grammar: a marker type
/// that names it.
pub struct Alpenglow;

} // verus!
