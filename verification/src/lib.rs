//! A per-category nickname generator.
//!
//! A [`champion::Champion`] learns, from training nicknames, how often each
//! character is followed by each other character, and samples new
//! plausible-looking nicknames from those statistics.  The learned table can
//! be rendered to and restored from a textual snapshot.

pub mod champion;
pub mod laws;
pub mod errors;
mod numbers;
mod rng;
pub mod snapshot;
pub mod table;
mod text;
