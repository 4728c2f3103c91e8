//! An observable, versioned key-value tree.
//!
//! Values live at dotted paths (`"scene.some.property"`). Every write bumps the
//! version of the written node and of each of its ancestors and marks them as
//! updated for the current cycle, records the change for the next checkpoint,
//! and hands an update message to every registered listener. Checkpoints can be
//! revisited later by replaying the recorded changes through the same write
//! path, so listeners observe undo and redo like any other edit.
//!
//! [`ObservableTree`] is the lighter variant: optional values, a version per
//! node and per-node update trackers of the caller's choosing, without
//! listeners or history.
//!
//! Each operation's contract is stated over the abstract model in [`model`];
//! the laws that relate operations are proved in [`laws`]. Versions are `i32`
//! counters: a write requires the root version to have room for one more, and
//! navigating the history requires room for every write the recorded history
//! can replay.

mod channel;
pub mod laws;
pub mod model;
pub mod path;
mod simple_tree;
mod snapshot;
mod table;
mod tracker;
mod tree;
mod value;

pub use snapshot::Snapshot;
pub use table::NodeTable;
pub use tracker::{LeafVersionTracker, TrackerModel};
pub use tree::{ObservableKVTree, Update};
pub use value::{CanBeNone, ExampleValueType};
pub use simple_tree::{NotifyUpdate, ObservableTree, SimpleTreeModel, SimpleUpdateTracker};
