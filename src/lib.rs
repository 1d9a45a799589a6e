//! The state of an interactive file chooser: browsing a directory tree,
//! choosing paths (also paths that do not exist), searching the listing,
//! and writing the chosen paths out.
//!
//! Everything here is computed from plain values. Reading directories and
//! resolving paths is left to the caller, who hands in what it found: a
//! listing, or the canonical form of a path (none where it did not resolve).
pub mod app;
pub mod config;
pub mod file_browser;
pub mod input;
pub mod path;
pub mod selection;
pub mod text;
pub mod ui;
