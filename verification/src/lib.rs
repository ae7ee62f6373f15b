//! Verified core of a directory-watching image gallery generator.
//!
//! The crate has two parts. The [`event`] module classifies filesystem
//! change notifications and decides which of them must trigger a
//! regeneration of the gallery. The [`gallery`] module turns a snapshot
//! of a directory listing into a complete HTML gallery document,
//! filtering the entries to those with a recognized image extension.
//!
//! All I/O (watching a directory, reading its entries, writing the
//! output file) lives outside this crate; the functions here are pure
//! and fully specified.

pub mod event;
pub mod gallery;
