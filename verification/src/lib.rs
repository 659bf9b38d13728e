//! Host-side companion library for keeping a Flipper Zero device in sync
//! with a set of upstream repositories, and for staging firmware updates.
//!
//! The crate holds the verified core: the sync-state file codec, the arena
//! trees and the walking diff engine, the op stream model, the mapping and
//! firmware configuration types, and the small decision functions that an
//! I/O shell drives against a device transport.

pub mod sync_file;
pub mod tree;
pub mod diff;
pub mod oracle;
pub mod ids;
pub mod digest;
pub mod validators;
pub mod mapping;
pub mod paths;
pub mod directory;
pub mod firmware;
pub mod project;
pub mod upload;
pub mod install;
