//! Fuzzy-matching engine front end: ingestion, pattern updates, consistent
//! snapshots of ranked matches, and best-score merging of two snapshots.

pub mod types;
pub mod snapshot;
pub mod join;
pub mod engine;

pub use crate::engine::{
    nucleo_dart_add, nucleo_dart_add_all, nucleo_dart_capture, nucleo_dart_destroy,
    nucleo_dart_get_snapshot,
    nucleo_dart_new, nucleo_dart_reparse, nucleo_dart_tick, DriveStatus, NucleoHandle,
};
pub use crate::join::{nucleo_dart_destroy_join, nucleo_dart_join_snapshot, JoinError};
pub use crate::snapshot::{
    nucleo_dart_snapshot_get_item, nucleo_dart_snapshot_get_item_count,
    nucleo_dart_snapshot_get_matched_item, nucleo_dart_snapshot_get_matched_item_count,
    nucleo_dart_snapshot_get_matched_items, Capture, IndexOutOfRange, SnapshotHandle,
};
pub use crate::types::{
    IsAppend, JoinSide, NucleoDartMMatch, NucleoDartMatch, NucleoDartSnapshot2,
    NucleoDartSnapshot2Match, NucleoDartString, NucleoDartStringMut,
};
