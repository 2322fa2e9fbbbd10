//! Analysis core for V8 memory profiles (heap snapshots, sampling heap
//! profiles and allocation timelines), with its contracts proved by Verus.

pub mod text;
pub mod types;
pub mod graph;
pub mod labels;
pub mod reach;
pub mod revedges;
pub mod dominators;
pub mod retained;
pub mod path;
pub mod nodes;
pub mod retainers;
pub mod pattern;
pub mod sorting;
pub mod grouping;
pub mod summary;
pub mod diff;
pub mod page;
pub mod queries;
pub mod owners;
pub mod snapshot;
pub mod bytes;
pub mod load;
pub mod format;
pub mod cli;
pub mod timeline;
pub mod allocations;
pub mod profile;
pub mod profile_parse;
pub mod calltree;
pub mod listing;
pub mod records;
pub mod session;

pub use text::{chars_of, contains_chars, decimal_string, str_eq};
pub use types::{
    detect_profile_type, EdgeFieldOffsets, Error, NodeFieldOffsets, SnapshotMeta,
    SnapshotMetaFields,
};
pub use graph::SnapshotGraph;
