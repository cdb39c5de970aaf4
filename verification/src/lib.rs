//! Verified core of an archive-transfer audit tool.
//!
//! The library judges a tree of dated archive bundles: whether each day's
//! bundle is present, structurally sound and of a normal size, and how
//! healthy each calendar month has been.  Every function here is a pure
//! computation over a snapshot of file metadata supplied by the caller;
//! scanning, rendering and alert transport live outside the library.

pub mod alerts;
pub mod date;
pub mod emailcfg;
pub mod estimates;
pub mod gaps;
pub mod ratio;
pub mod present;
pub mod ranking;
pub mod record;
pub mod stats;
pub mod sysio;
pub mod text;
pub mod validity;

pub use date::Date;
pub use record::FileEntry;
