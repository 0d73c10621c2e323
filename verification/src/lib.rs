//! An in-memory line-sorting engine in the spirit of the UNIX `sort` utility.
//!
//! Lines are turned into typed keys under a selectable mode (plain text,
//! numeric, numeric with magnitude suffix, month name, or a composite of
//! whitespace-delimited columns), ordered by a total comparator, and run
//! through an orchestrated pipeline: optional trailing-whitespace trim,
//! optional sortedness check, stable sort, optional reversal, and optional
//! adjacent deduplication.

pub mod chars;
pub mod keys;
pub mod fields;
pub mod fieldspec;
pub mod month;
pub mod numkey;
pub mod numparse;
pub mod order;
pub mod pipeline;
pub mod sortseq;
