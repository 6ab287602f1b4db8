//! The tool's configuration: which paths to process, which glob patterns
//! to exclude, the file-size limit, and where the output goes.

use vstd::prelude::*;

verus! {

/// The parsed command-line configuration.
#[derive(Debug)]
pub struct Args {
    /// Paths to process (default: the current directory).
    pub paths: Vec<String>,
    /// Glob patterns to exclude.
    pub exclude: Vec<String>,
    /// Maximum size in bytes of file contents to include; 0 disables the
    /// limit.
    pub max_file_bytes: u64,
    /// Do not respect `.gitignore` files.
    pub no_gitignore: bool,
    /// Print to standard output instead of the clipboard.
    pub stdout: bool,
    /// Output to a file instead of the clipboard.
    pub out: Option<String>,
}

impl Default for Args {
    /// The default configuration: the current directory, no excludes, a
    /// 16 KiB size limit, and clipboard output.
    fn default() -> (r: Self)
        ensures
            r.paths@.len() == 1,
            r.paths@[0]@ == "."@,
            r.exclude@.len() == 0,
            r.max_file_bytes == 16384,
            !r.no_gitignore,
            !r.stdout,
            r.out is None,
    {
        let mut paths: Vec<String> = Vec::new();
        paths.push(".".to_owned());
        Args {
            paths,
            exclude: Vec::new(),
            max_file_bytes: 16384,
            no_gitignore: false,
            stdout: false,
            out: None,
        }
    }
}

} // verus!
