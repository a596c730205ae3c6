//! Adaptive frequency tables for an arithmetic coder, with byte-stream adapters.
use vstd::prelude::*;

pub mod adapters;
pub mod blend;
pub mod codec;
pub mod model;

verus! {

} // verus!
