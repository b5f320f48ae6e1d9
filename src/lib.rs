//! Name-consistent translation of serialized fiction.
//!
//! The library holds the decisions of the pipeline: how text is cut into
//! chunks, which extracted names are credible, how repeated votes settle on
//! one English rendering per original name, how those renderings are put
//! into the text, and how model replies are checked and retried. Requests to
//! the model, files and the console belong to the program around it.
use vstd::prelude::*;

pub mod chapters;
pub mod chunker;
pub mod config;
pub mod console;
pub mod name_mapping;
pub mod refusal;
pub mod retry;
pub mod rules;
pub mod scout;
pub mod text;
pub mod translation;

verus! {

} // verus!
