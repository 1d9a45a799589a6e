//! The options a session starts with.
use vstd::prelude::*;

verus! {

/// Command-line options: output form, hidden rows, the list file, and the
/// paths chosen from the start.
#[derive(Debug)]
pub struct Config {
    /// Write absolute paths instead of relative ones.
    pub absolute: bool,
    /// Write relative paths (the default; wins over `absolute`).
    pub relative: bool,
    /// Show hidden rows from the start.
    pub show_hidden: bool,
    /// The list file read at the start and written on saving.
    pub selections_file: Option<String>,
    /// Paths chosen from the start.
    pub files: Vec<String>,
}

impl Config {
    /// Whether paths are written absolute: asked for, and relative not asked for.
    pub fn use_absolute_paths(&self) -> (r: bool)
        ensures
            r == (self.absolute && !self.relative),
    {
        self.absolute && !self.relative
    }
}

} // verus!
