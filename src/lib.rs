//! Parallel filesystem-tree building: typed entries, the pending-branch map
//! and the bottom-up assembler that links them into an arena-backed tree,
//! with the file records and the notes view that callers build from it.
pub mod arena;
pub mod files;
pub mod notes;
pub mod paths;
pub mod tree;
