//! The settings of a run.

use vstd::prelude::*;
use vstd::string::StringExecFns;

verus! {

/// What a run is asked to do.
#[derive(Clone, Debug, PartialEq, Eq)]
pub struct Settings {
    /// The root directory of the digest.
    pub path: String,
    /// Globs of the files to take. Where there are any, only files that match
    /// one of them are discovered.
    pub include_patterns: Vec<String>,
    /// Globs of files and directories to leave out, besides the built-in ones.
    /// What is left out stays out, whatever the other patterns say.
    pub exclude_patterns: Vec<String>,
    /// The largest size, in KiB, of a file whose content is taken.
    pub max_size: u64,
    /// The name of the file that the digest is written to. The rule set
    /// always holds a line that excludes it.
    pub output: String,
}

impl Default for Settings {
    /// The current directory, no patterns, a limit of 100 KiB, and
    /// `digest.txt` as output.
    fn default() -> (settings: Settings)
        ensures
            settings.path@ == "."@,
            settings.include_patterns@.len() == 0,
            settings.exclude_patterns@.len() == 0,
            settings.max_size == 100,
            settings.output@ == "digest.txt"@,
    {
        Settings {
            path: String::from_str("."),
            include_patterns: Vec::new(),
            exclude_patterns: Vec::new(),
            max_size: 100,
            output: String::from_str("digest.txt"),
        }
    }
}

} // verus!
