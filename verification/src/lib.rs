//! A year calendar laid out as text, built from pull-based sequences.
//!
//! The crate has two layers. `sequence` and the combinators hold the generic
//! part: chunking, interleaving, transposition, flattening and joining of
//! sequences. `date` holds the half-open range of dates and its grouping by
//! month and by week; `format` and `page` lay the groups out as text, with
//! the help of `text`.

pub mod sequence;
pub mod text;
pub mod interleave;
pub mod chunk;
pub mod chain_all;
pub mod advanced_iterator;
pub mod gregorian;
pub mod date;
pub mod format;
pub mod page;
