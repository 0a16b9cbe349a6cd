//! Level-state bookkeeping for an LSM-tree storage engine.
//!
//! Each level of the tree is tracked by a [`level_handler::LevelHandler`]:
//! which sorted tables (SSTs) are resident, which are claimed by an
//! in-flight compaction task, and which output key ranges such tasks are
//! about to write into the level. A compaction scheduler drives the
//! task lifecycle through the handler's operations; the handler itself is
//! a pure, synchronous state machine.

pub mod expr;
pub mod key_range;
pub mod level_handler;
pub mod snapshot;
