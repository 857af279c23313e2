//! A delta-debugging minimizer for failing SQL scripts.
//!
//! The engine shrinks a `;`-separated script to a small script that still
//! reproduces an observed behaviour, as judged by a black-box oracle.  It
//! works at three granularities: whole statements, referenced tables, and
//! tokens within one statement.

pub mod bruteforce_debug;
pub mod delta_debug;
pub mod delta_debug_stmt;
pub mod oracle;
pub mod parser;
pub mod reducer;
pub mod statements;
pub mod text;
pub mod utils;
