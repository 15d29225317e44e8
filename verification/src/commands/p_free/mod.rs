//! Searches over P-free game forms

pub mod list;
pub mod order;
pub mod outcome_table;
