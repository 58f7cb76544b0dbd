//! A viewer core for whitespace-aligned tabular text: a parser that infers
//! column positions from a header line, a substring row filter, and the
//! state machine of the interactive viewer that drives them.

pub mod app;
pub mod table;
pub mod text;

pub use app::{App, Key, Mode};
pub use table::{ParseError, Row, Table};
