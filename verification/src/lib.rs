//! Canonicalization of sampled districting-plan ensembles.
//!
//! The input of one run is a sequence of text lines: either a console
//! transcript, where the assignment vectors follow a fixed sentinel line, or
//! tabular rows, where every line is a comma-separated record whose first
//! field is a row label.  Each successfully parsed assignment is numbered,
//! starting at 1, and handed in order to one of two encoders: a
//! line-delimited structured-text encoder defined here, or an external
//! compact binary codec reached through a narrow write contract.

pub mod binsink;
pub mod encode;
pub mod parse;
pub mod pipeline;
pub mod text;
