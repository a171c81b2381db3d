//! The engine's configuration surface.

use vstd::prelude::*;
use crate::entry::Project;
use crate::fanout::FilterSpec;

verus! {

/// What the engine is configured with: the output root path, the target
/// template text, the projects to poll, and the filter chains, each an
/// ordered list of filter steps producing its own output subtree.
pub struct Config {
    pub output_folder: String,
    pub target: String,
    pub projects: Vec<Project>,
    pub filters: Vec<Vec<FilterSpec>>,
}

} // verus!
