//! Compiles line art, given as polylines, into a timed AutoHotkey script that
//! draws it: the polylines are curated, carried into drawing space, emitted as
//! an instruction log, and rendered into text with duration totals.
use vstd::prelude::*;

pub mod compile;
pub mod curate;
pub mod geometry;
pub mod script;
pub mod text;

verus! {

} // verus!
