//! Command-line surface for `cargo-sift`.

use vstd::prelude::*;

verus! {

/// `cargo sift` — remove build artifacts from Cargo `target/` directories that
/// the current build graph can no longer reference.
pub struct Args {
    /// Project directories or `target/` directories to sift (default: `.`).
    pub paths: Vec<String>,
    /// Recurse into sub-directories, sifting every Cargo project found.
    pub recursive: bool,
    /// Show what would be removed without deleting anything.
    pub dry_run: bool,
    /// List every removed unit and why.
    pub verbose: bool,
    /// Suppress per-target output; print only the final summary.
    pub quiet: bool,
}

} // verus!
