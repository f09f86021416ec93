//! Field coverage and risk indicators over line-delimited procurement records.
pub mod json;
pub mod ratio;
pub mod coverage;
pub mod tallies;
pub mod indicators;
pub mod r003;
pub mod r030;
pub mod r038;
