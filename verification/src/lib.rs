//! Retention policy for media files: which files of a directory tree may be
//! removed, given what a scan of the tree found, a floor on the number of
//! files to keep and a window of days during which every file is kept.
//!
//! A run goes through these steps, each in a module of its own:
//!
//! - [`config`] checks the settings: the window must span at least one day.
//! - [`scan`] takes the entries that walking the tree has met, keeps the
//!   regular files that carry the wanted extension ([`extension`]) and reads
//!   their ages; a file whose age cannot be trusted is left out.
//! - [`order`] puts the files in order, the newest first.
//! - [`policy`] selects the files to remove: those that are not among the
//!   newest and were last modified before the window began.
//! - [`deleter`] says in which order the selected files are removed and when
//!   to stop.
//!
//! [`guarantees`] states what holds of every selection. Walking the tree and
//! removing files is left to the caller.

mod clock;
pub mod config;
pub mod deleter;
pub mod extension;
pub mod guarantees;
pub mod order;
pub mod policy;
pub mod scan;
