//! Parsing of structured web-server log lines and aggregation of the parsed
//! entries into ranked and thresholded statistics.

pub mod analyzer;
pub mod laws;
pub mod parser;
pub mod ranking;
pub mod text;
