//! Collection traces: append-only, time-indexed logs of differential updates,
//! with time compaction and shared handles that coordinate compaction.
pub mod order;
pub mod consolidation;
pub mod lattice;
pub mod batch;
pub mod cursor;
pub mod trace;
pub mod rc;
