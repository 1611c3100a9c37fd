//! The decision core of an agent runtime.

use vstd::prelude::*;

pub mod blueprint;
pub mod components;
pub mod context;
pub mod engine;
pub mod fanout;
pub mod gate_prompt;
pub mod graph;
pub mod host;
pub mod interaction;
pub mod json;
pub mod stages;
pub mod table;
pub mod text;
pub mod world;

verus! {

} // verus!
