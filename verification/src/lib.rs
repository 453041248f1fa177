//! Learned-knowledge store for Punkt-style sentence boundary detection:
//! sets of abbreviations and sentence starters, a map of token collocations,
//! and per-token orthographic context flags, together with a JSON-shaped
//! loading protocol and a lazy iterator over recorded collocations.
use vstd::prelude::*;

pub mod collocations;
pub mod data;
pub mod json;
pub mod ortho;
pub mod strset;

verus! {

/// Orthographic context flags for one token, kept as an opaque bit-set.
pub type OrthographicContext = u8;

} // verus!
