use vstd::prelude::*;

pub mod compose;
pub mod conversions;
pub mod motion;
pub mod punchcat;
pub mod record;
pub mod surface2;

verus! {

} // verus!
