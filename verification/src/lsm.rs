//! The levels of the tree and the compaction between them.

pub mod level;

pub mod compaction_plan;
pub mod merge;
pub mod compaction;
pub mod merge_laws;
pub mod compaction_laws;
