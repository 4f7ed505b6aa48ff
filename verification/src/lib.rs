//! Atlas: a research-notes vault index and its board placement rules.
use vstd::prelude::*;

pub mod board;
pub mod jobs;
pub mod markdown;
pub mod registry;
pub mod search;
pub mod shell;
pub mod sort;
pub mod text;
pub mod vault;

verus! {

} // verus!
