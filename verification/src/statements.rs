//! The structured form of SQL statements: the data model, the removal of
//! table references, and the best-effort statement parsers.

pub mod parsers;
pub mod statement;
pub mod types;
