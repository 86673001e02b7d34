//! Text, configuration and document-layout logic for an academic paper reader.
use vstd::prelude::*;

pub mod chars;
pub mod text;
pub mod mineru;
pub mod graph;
pub mod env;
pub mod env_laws;
pub mod pattern;
pub mod extract;
pub mod mdfmt;
pub mod captions;
pub mod names;
pub mod logging;
pub mod authors;
pub mod order;
pub mod cli;
pub mod stats;
pub mod layout;
pub mod config;
pub mod query;
pub mod provider_laws;
pub mod validate;
pub mod caption_swap;
pub mod merge;
pub mod author_stats;
pub mod propagate;
pub mod text_laws;

verus! {
} // verus!
