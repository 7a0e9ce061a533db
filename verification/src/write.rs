//! The binary writer as `BPlistWrite`.
pub mod bplist_write;
