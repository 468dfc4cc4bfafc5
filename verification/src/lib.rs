//! A verified parser for a compact git log format.
//!
//! The input is a newline-separated text in which each commit is reported as
//! a header line `[<rev>] <author> <epoch> <message>`, followed by numstat
//! lines `<deleted> <added> <path>`, and closed by a boundary line (a blank
//! line, or any line that matches none of the recognized patterns). The
//! parser classifies each line, accumulates file changes per commit, and
//! emits the finished commits in input order.

pub mod laws;
pub mod model;
pub mod parser;
pub mod text;

pub use model::CocoCommit;
pub use model::FileChange;
pub use parser::GitMessageParser;
