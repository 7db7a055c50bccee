//! Decoding of flat, ordered rows of typed column values into structured,
//! possibly nested, possibly aggregated records.
//!
//! A row is an ordered sequence of typed column values. A container descriptor
//! says how the columns of a row are partitioned among the container's
//! properties (one column each, variable-width sub-ranges claimed by nested
//! containers, or a homogeneous fixed-stride sequence) and how several rows
//! collapse into grouped output values. The validator checks a descriptor
//! once, before any row is touched; the partitioner decodes one row into one
//! record; the merger folds a row stream into keyed groups.

pub mod descriptor;
pub mod validate;
pub mod partition;
pub mod merge;
