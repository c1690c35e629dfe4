//! Settings that every rule of a build shares.

use crate::pattern::PathPattern;
use vstd::prelude::*;

verus! {

/// Where a build reads and writes, and how.
pub struct Configuration {
    /// Root directory scanned for source files.
    pub input: String,
    /// Root directory under which every write lands.
    pub output: String,
    /// How many workers run jobs at once.
    pub threads: usize,
    /// Paths whose file name matches this are skipped by the input scan.
    pub ignore: Option<PathPattern>,
    /// Whether cleaning leaves dot files alone.
    pub ignore_hidden: bool,
    /// Whether this is a preview build (drafts are published).
    pub is_preview: bool,
    /// Whether to log in detail.
    pub is_verbose: bool,
}

impl Configuration {
    /// A configuration reading from `input` and writing to `output`, with
    /// four workers and every flag off.
    pub fn new(input: String, output: String) -> (r: Configuration)
        ensures
            r.input == input,
            r.output == output,
            r.threads == 4,
            r.ignore is None,
            !r.ignore_hidden,
            !r.is_preview,
            !r.is_verbose,
    {
        Configuration {
            input,
            output,
            threads: 4,
            ignore: None,
            ignore_hidden: false,
            is_preview: false,
            is_verbose: false,
        }
    }
}

} // verus!
