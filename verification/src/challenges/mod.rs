//! Small exercises on strings and arrays.

pub mod brackets;
pub mod missing;
pub mod majority;
pub mod runs;
