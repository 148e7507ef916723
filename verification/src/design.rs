//! The design data page's view modes.

use vstd::prelude::*;

verus! {

/// How the design data page shows the selected file.
#[derive(Clone, Copy, Debug, PartialEq, Eq, Structural)]
pub enum ViewMode {
    Json,
    Graph,
}

impl ViewMode {
    /// The name of the mode on its toggle.
    pub fn label(self) -> (s: &'static str)
        ensures
            s@ == match self {
                ViewMode::Json => "JSON"@,
                ViewMode::Graph => "Graph"@,
            },
    {
        match self {
            ViewMode::Json => "JSON",
            ViewMode::Graph => "Graph",
        }
    }
}

} // verus!
