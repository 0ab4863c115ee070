//! The options of a run.
use vstd::prelude::*;

verus! {

/// What the user asked for: where to read and write, the output format, how
/// many leading path components to drop, how many conversions to run at once,
/// and the animation settings.
#[derive(Debug, Clone, PartialEq, Eq)]
pub struct Cli {
    pub input: String,
    pub output: String,
    pub format: String,
    pub strip_segments: usize,
    pub concurrency: usize,
    pub dry_run: bool,
    pub verbose: bool,
    pub continue_on_error: bool,
    pub animation_mode: bool,
    pub frame_delay: u16,
    pub animation_format: String,
}

} // verus!
