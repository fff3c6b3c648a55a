//! Finds hard (rare) vocabulary in long-form prose, leaving out proper nouns
//! and words that text extraction glued together.
use vstd::prelude::*;

pub mod analysis;
pub mod candidates;
pub mod entities;
pub mod filter;
pub mod laws;
pub mod lexicon;
pub mod library;
pub mod malformed;
pub mod pipeline;
pub mod progress;
pub mod ranking;
pub mod resources;
pub mod text;

verus! {

} // verus!
