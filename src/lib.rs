//! Body mass index: exact reading of heights and weights, the index they
//! give, and the health band it falls in.
use vstd::prelude::*;

pub mod bmi;
pub mod category;
pub mod measure;
pub mod reader;

verus! {

} // verus!
