//! Where the tracker keeps its data, and the sheet it starts on.

use vstd::prelude::*;

verus! {

/// The tracker's settings.
pub struct Config {
    /// Path of the entry database.
    pub database_file: String,
    /// The sheet used when no other is known.
    pub default_sheet: String,
}

impl Config {
    /// Whether the default sheet can serve as a sheet name.
    pub open spec fn wf(&self) -> bool {
        self.default_sheet@.len() > 0
    }
}

} // verus!
