//! Step-function series: an append-only container of index/value pairs
//! whose value is held constant between consecutive index points, and a
//! resampling engine that re-expresses such a series on new breakpoints.
//!
//! - `key`: index types and the integer keys that order them.
//! - `series`: the container, its insertion rule and its point lookup.
//! - `projection`: exact resampling of extensive and intensive quantities.
//! - `laws`: properties that hold across calls, proved over the contracts.

pub mod key;
pub mod series;
pub mod projection;
pub mod laws;
