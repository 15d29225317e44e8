//! Misère game forms: construction, outcomes, reductions and comparisons.

use vstd::prelude::*;

pub mod bit_vec;
pub mod commands;
pub mod misere;
pub mod partizan;
pub mod result;
pub mod subsets;
pub mod transposition_table;

verus! {
} // verus!
