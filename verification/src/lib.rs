//! Minimum, mean and maximum of `name;value` records, grouped by name.
//!
//! The crate is built around a fixed-capacity, open-addressing table,
//! [`hashish::Table`], whose probing is stated in [`probing`] and whose
//! operations are related to one another in [`laws`]. [`room`] says when
//! a key is sure to find a slot.
//!
//! An extent of records is cut into slices at line ends by
//! [`chunk::chunkify`]. [`aggregate::aggregate_chunk`] makes one pass over a
//! slice, reading each value with [`parse::parse_temperature`] and taking
//! it into the [`stat::Stat`] of its name. [`merge::merge_all`] makes one
//! table of the passes, and [`report`] puts its names in order. [`records`]
//! says what the records of a slice are and what they amount to, and
//! [`split`] why the passes over the slices amount to one pass over the
//! extent.

pub mod aggregate;
pub mod chunk;
pub mod hashish;
pub mod laws;
pub mod merge;
pub mod parse;
pub mod probing;
pub mod records;
pub mod report;
pub mod room;
pub mod split;
pub mod stat;
