//! A line-oriented substring scanner built around a right-to-left
//! Boyer-Moore style matching engine, with every occurrence reported and
//! proved to be reported.

pub mod boyermoore;
pub mod laws;
pub mod render;
pub mod char_table;
