//! A household chore list, grouped by owner.
//!
//! The list is kept as an ordered store of chores, written to and read from a
//! small textual encoding, and laid out as one table per owner.

pub mod app;
pub mod chore;
pub mod codec;
pub mod table;
