//! A small pattern engine for renaming batches of files: it compiles a
//! `*`-wildcard glob into literal blocks, matches candidate filenames against
//! it while capturing the text each wildcard consumed, and substitutes the
//! captured fragments into a destination template holding `#N` markers.

pub mod cli_args;
pub mod destination_path_template;
pub mod glob_star_pattern;
pub mod source_path_pattern;
pub mod text;

pub use cli_args::CLIArgs;
pub use destination_path_template::DestinationPathTemplate;
pub use destination_path_template::SubstituteError;
pub use glob_star_pattern::GlobStarPattern;
pub use source_path_pattern::SourcePathPattern;
pub use source_path_pattern::SourcePatternError;
