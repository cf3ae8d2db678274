//! Push-based decoding of CSV records, and a sketch of the values of a column.

pub mod cuts;
pub mod decoder;
pub mod delivery;
pub mod error;
pub mod handler;
pub mod hll;
pub mod layout;
pub mod malformed;
pub mod model;
pub mod notices;
pub mod outcomes;
pub mod pieces;
pub mod progress;
pub mod reader;
pub mod records;
pub mod sessions;
pub mod skipping;
pub mod stream;
pub mod text;
pub mod verdicts;
