//! Loading, sorting and drawing of comma-separated tables.
//!
//! A table is read from delimited text, its data rows are optionally put in
//! order by one column, and the result is drawn as an aligned grid. The first
//! record of a table is its header, which sorting never moves.

pub mod order;
pub mod parse;
pub mod table;
pub mod render;
pub mod sort;
pub mod sort_laws;
