//! The values a command-line invocation hands to the engine: a parsed
//! source pattern, the destination template text, and the overwrite flag.

use vstd::prelude::*;

use crate::source_path_pattern::SourcePathPattern;

verus! {

/// Arguments of one renaming run: which files to pick up, the template of
/// the name they move to, and whether existing files may be replaced.
#[derive(Debug, Clone)]
pub struct CLIArgs {
    /// Source pattern; `*` matches any number of any characters.
    pub source_pattern: SourcePathPattern,
    /// Destination template text; markers `#N` are replaced by the
    /// characters the `N`th wildcard matched.
    pub destination_template: String,
    /// Replace existing files.
    pub force: bool,
}

} // verus!
