//! Higher-order unification of simply typed lambda terms.
use vstd::prelude::*;

pub mod alpha;
pub mod annotated;
pub mod commands;
pub mod counter;
pub mod display;
pub mod names;
pub mod parser;
pub mod reader;
pub mod report;
pub mod session;
pub mod term;
pub mod text;
pub mod tree;
pub mod unification;
pub mod utils;

verus! {
} // verus!
