//! Occasion: a configuration model for date-triggered messages and a parser
//! for its small colour/style markup language.

pub mod config;
pub mod errors;
pub mod formatting;
