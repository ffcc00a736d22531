//! The configuration assembled once at start-up and passed by reference
//! into every component that needs it.  Evaluating the configuration file
//! into these plain values happens outside the library.

use vstd::prelude::*;

verus! {

/// The start-up configuration: where backends are discovered, where the
/// world file lives, the shared environment handed to spawned backends —
/// an insertion-ordered list whose later pairs win when merged — and the
/// backend priority order for merging results.
pub struct Config {
    pub backend_dir: String,
    pub world_path: String,
    pub env: Vec<(String, String)>,
    pub priority: Vec<String>,
}

} // verus!
