use vstd::prelude::*;

verus! {

/// Format in which a scan result is reported.
#[derive(Debug, Clone, Copy, PartialEq, Eq, Structural)]
pub enum OutputFormat {
    Human,
    Json,
    Csv,
}

impl Default for OutputFormat {
    fn default() -> (r: Self)
        ensures
            r == OutputFormat::Human,
    {
        OutputFormat::Human
    }
}

/// Rule that picks, in a group of duplicates, the one file that is kept.
#[derive(Debug, Clone, Copy, PartialEq, Eq, Structural)]
pub enum KeepStrategy {
    /// The first file of the group.
    First,
    /// The file with the earliest modification time (the first such on ties).
    Oldest,
    /// The file with the latest modification time (the last such on ties).
    Newest,
    /// The file with the shortest path in bytes (the first such on ties).
    ShortestPath,
    /// The file with the longest path in bytes (the last such on ties).
    LongestPath,
}

impl Default for KeepStrategy {
    fn default() -> (r: Self)
        ensures
            r == KeepStrategy::First,
    {
        KeepStrategy::First
    }
}

/// The command line of a scan, as given: paths as raw bytes, sizes as
/// written, options as switched.
#[derive(Debug, Clone)]
pub struct Args {
    /// Directories to scan.
    pub paths: Vec<Vec<u8>>,
    /// Smallest size of a file considered, as written (`1K`, `1M`, ...).
    pub min_size: Option<String>,
    /// Largest size of a file considered, as written.
    pub max_size: Option<String>,
    /// Only files with these extensions are considered.
    pub extensions: Option<Vec<String>>,
    /// Glob patterns of paths that are left out.
    pub exclude: Vec<String>,
    /// Hidden files are considered too.
    pub hidden: bool,
    /// Symbolic links are followed.
    pub follow_symlinks: bool,
    /// Deepest directory level scanned.
    pub depth: Option<usize>,
    pub output: OutputFormat,
    pub quiet: bool,
    pub verbose: bool,
    /// Whether to show progress; when not given it follows the terminal.
    pub progress: Option<bool>,
    /// Duplicates are to be deleted.
    pub delete: bool,
    /// Directory that duplicates are copied to before deletion.
    pub backup_dir: Option<Vec<u8>>,
    /// Report what would be deleted without deleting.
    pub dry_run: bool,
    pub keep: KeepStrategy,
    /// Delete without asking.
    pub yes: bool,
    /// Number of worker threads.
    pub threads: Option<usize>,
    /// Compare candidates byte by byte after their digests match.
    pub paranoid: bool,
    /// Leave out empty files.
    pub skip_empty: bool,
}

} // verus!
