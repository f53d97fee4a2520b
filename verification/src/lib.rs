//! Source bookkeeping, line lookup, scanning and diagnostic rendering for the
//! Amber language front end.

pub mod location;
pub mod text;
pub mod line_map;
pub mod tiling;
pub mod source;
pub mod manager;
pub mod diagnostic;
pub mod token;
pub mod scanner;
pub mod report;
pub mod cli;
