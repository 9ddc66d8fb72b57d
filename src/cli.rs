//! The command line's data: which operation to run and with what.

use vstd::prelude::*;

verus! {

/// A parsed command line.
pub struct Cli {
    pub command: Option<Commands>,
}

/// The operations the program offers.
pub enum Commands {
    /// Merge the documents found under a directory (the default).
    Merge(MergeArgs),
    /// Split one document into several.
    Split(SplitArgs),
    /// Run the interactive terminal front-end.
    Tui(TuiArgs),
}

impl Cli {
    /// The chosen operation; a merge with default settings where none was named.
    pub fn default_to_merge(self) -> (r: Commands)
        ensures
            match self.command {
                Some(c) => r == c,
                None => r matches Commands::Merge(a) && a.input_dir@ == "."@ && a.output@ == "merged.pdf"@
                    && a.pages is None && a.includes@.len() == 0 && a.excludes@.len() == 0 && !a.force,
            },
    {
        match self.command {
            Some(cmd) => cmd,
            None => Commands::Merge(MergeArgs::default()),
        }
    }
}

/// Settings of a merge.
pub struct MergeArgs {
    /// Directory scanned recursively for inputs.
    pub input_dir: String,
    /// Output file; a relative one lies under `input_dir`.
    pub output: String,
    /// Page selection applied to each input, e.g. `"1-3,5,10-"`.
    pub pages: Option<String>,
    /// Globs (relative to `input_dir`) that inputs must match.
    pub includes: Vec<String>,
    /// Globs (relative to `input_dir`) that inputs must not match.
    pub excludes: Vec<String>,
    /// Overwrite an existing output.
    pub force: bool,
}

impl Default for MergeArgs {
    fn default() -> (r: MergeArgs)
        ensures
            r.input_dir@ == "."@,
            r.output@ == "merged.pdf"@,
            r.pages is None,
            r.includes@.len() == 0,
            r.excludes@.len() == 0,
            !r.force,
    {
        MergeArgs {
            input_dir: String::from_str("."),
            output: String::from_str("merged.pdf"),
            pages: None,
            includes: Vec::new(),
            excludes: Vec::new(),
            force: false,
        }
    }
}

/// Settings of a split.
pub struct SplitArgs {
    /// The document to split.
    pub input: String,
    /// Directory the parts are written to.
    pub out_dir: String,
    /// One part per page (the default where no ranges are given).
    pub each: bool,
    /// One part per range, e.g. `"1-3,4-6,7-"`.
    pub ranges: Option<String>,
    /// Part file name, with `{base}`, `{start}`, `{end}` and `{index}`.
    pub pattern: String,
    /// Overwrite existing parts instead of choosing free names.
    pub force: bool,
}

/// Settings of the terminal front-end.
pub struct TuiArgs {
    /// Theme name.
    pub theme: Option<String>,
    /// Theme file.
    pub theme_file: Option<String>,
    /// Directory scanned first.
    pub input_dir: String,
}

} // verus!
