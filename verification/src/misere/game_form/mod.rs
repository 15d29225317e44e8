//! Game forms under misère play

pub mod tree;
pub mod form;
pub mod theory;
pub mod context;
pub mod laws;
pub mod parse;
pub mod display;
pub mod errors;
pub mod roundtrip;
pub mod arbitrary;
pub mod outcome_order;
pub mod enumerate;
pub mod positions;
