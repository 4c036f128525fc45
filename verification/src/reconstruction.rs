//! Grouping of detector hits into track candidates.

pub mod accumulator;
pub mod connectivity;
pub mod hough;
pub mod proximity;
pub mod track_finding;
