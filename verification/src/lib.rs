//! The decisions of a junk cleaner and memory monitor for macOS: which
//! cached, logged, trashed and developer files may be listed and deleted,
//! how a deletion proceeds and reports, how sizes read, and how the
//! application reacts to keys and to background results.
pub mod text;
pub mod ui;
pub mod running;
pub mod scan;
pub mod clean;
pub mod mem;
pub mod app;
