//! Classifies the lines of a log by the `"type"` field of their JSON payload
//! and reports per-type line counts and byte totals as an aligned table.
//!
//! The pipeline has three stages: splitting the raw text into lines
//! ([`text`]), classifying each line and accumulating per-type counts and
//! byte totals ([`classify`], [`aggregate`]), and rendering the result as a
//! bordered table ([`render`]).

pub mod aggregate;
pub mod classify;
pub mod digits;
pub mod render;
pub mod text;
