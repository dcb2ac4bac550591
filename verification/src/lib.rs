//! Core of a lottery history manager: normalization of raw draw rows into
//! canonical records, year-partitioned merge with first-seen deduplication,
//! and omission/frequency statistics over several derived dimensions.
//!
//! All file and network handling lives outside this crate; the library works
//! on plain in-memory values and states its behaviour in contracts.

pub mod attrs;
pub mod merge;
pub mod normalize;
pub mod record;
pub mod sorting;
pub mod stats;
pub mod strutil;
