use vstd::prelude::*;

pub mod bench;
pub mod grade;
pub mod json;
pub mod model;
pub mod records;
pub mod report;
pub mod stats;
pub mod stdio;
pub mod text;

verus! {
} // verus!
