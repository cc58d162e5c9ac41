//! Contributor and language statistics of a git history.
use vstd::prelude::*;

pub mod clock;
pub mod csv_output;
pub mod diff;
pub mod languages;
pub mod laws;
pub mod model;
pub mod oid;
pub mod sorting;
pub mod stats;
pub mod tally;
pub mod templates;
pub mod text;
pub mod view;

verus! {

} // verus!
