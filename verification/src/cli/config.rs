use vstd::prelude::*;

use globset::GlobSet;

use crate::cli::args::{Args, KeepStrategy, OutputFormat};
use crate::glob::{clone_glob_set, build_glob_set, glob_set_patterns, patterns_usable, string_views};
use crate::scanner::FileFilter;
use crate::text::{
    lowercase_of, strip_leading, strip_leading_char, to_lowercase, to_uppercase, trim, trim_spec,
    uppercase_of,
};

verus! {

/// Why a size string was refused.
#[derive(Debug, Clone)]
pub enum SizeError {
    /// Nothing but whitespace was given.
    Empty,
    /// The leading digits (held here) are missing or exceed `u64::MAX`.
    InvalidNumber(String),
    /// What follows the digits (held here) is not a known unit.
    UnknownSuffix(String),
    /// The value times its unit (the normalized text is held) exceeds `u64::MAX`.
    Overflow(String),
}

pub open spec fn is_ascii_digit(c: char) -> bool {
    '0' <= c <= '9'
}

pub open spec fn digit_value(c: char) -> nat {
    (c as u32 - '0' as u32) as nat
}

/// Number of ASCII digits at the start of `u`.
pub open spec fn digit_run(u: Seq<char>) -> nat
    decreases u.len(),
{
    if u.len() > 0 && is_ascii_digit(u[0]) {
        1 + digit_run(u.drop_first())
    } else {
        0
    }
}

/// The decimal value of a string of ASCII digits.
pub open spec fn decimal_value(d: Seq<char>) -> nat
    decreases d.len(),
{
    if d.len() == 0 {
        0
    } else {
        decimal_value(d.drop_last()) * 10 + digit_value(d.last())
    }
}

/// The digits that open a size string.
pub open spec fn number_part(u: Seq<char>) -> Seq<char> {
    u.subrange(0, digit_run(u) as int)
}

/// What follows the digits of a size string.
pub open spec fn suffix_part(u: Seq<char>) -> Seq<char> {
    u.subrange(digit_run(u) as int, u.len() as int)
}

/// The digits form a number that fits in a `u64`.
pub open spec fn number_ok(u: Seq<char>) -> bool {
    number_part(u).len() > 0 && decimal_value(number_part(u)) <= u64::MAX
}

/// The factor that a unit stands for: none, `K`/`KB`, `M`/`MB`, `G`/`GB`, `T`/`TB`.
pub open spec fn unit_multiplier(t: Seq<char>) -> Option<u64> {
    if t.len() == 0 {
        Some(1)
    } else if t.len() == 1 || (t.len() == 2 && t[1] == 'B') {
        if t[0] == 'K' {
            Some(1024)
        } else if t[0] == 'M' {
            Some(1048576)
        } else if t[0] == 'G' {
            Some(1073741824)
        } else if t[0] == 'T' {
            Some(1099511627776)
        } else {
            None
        }
    } else {
        None
    }
}

/// `r` is what parsing the upper-cased, trimmed size string `u` gives.
pub open spec fn size_result(u: Seq<char>, r: Result<u64, SizeError>) -> bool {
    let value = decimal_value(number_part(u));
    let unit = unit_multiplier(trim_spec(suffix_part(u)));
    match r {
        Ok(v) => u.len() > 0 && number_ok(u) && unit is Some && value * unit->0 <= u64::MAX && v
            == value * unit->0,
        Err(SizeError::Empty) => u.len() == 0,
        Err(SizeError::InvalidNumber(n)) => u.len() > 0 && !number_ok(u) && n@ == number_part(u),
        Err(SizeError::UnknownSuffix(x)) => u.len() > 0 && number_ok(u) && unit is None && x@
            == suffix_part(u),
        Err(SizeError::Overflow(t)) => u.len() > 0 && number_ok(u) && unit is Some && value
            * unit->0 > u64::MAX && t@ == u,
    }
}

proof fn lemma_decimal_prefix_monotone(d: Seq<char>, j: int, k: int)
    requires
        0 <= j <= k <= d.len(),
    ensures
        decimal_value(d.subrange(0, j)) <= decimal_value(d.subrange(0, k)),
    decreases k - j,
{
    if j < k {
        lemma_decimal_prefix_monotone(d, j, k - 1);
        assert(d.subrange(0, k).drop_last() =~= d.subrange(0, k - 1));
    }
}

fn digit_at(c: char) -> (r: u64)
    requires
        is_ascii_digit(c),
    ensures
        r == digit_value(c),
{
    (c as u32 - '0' as u32) as u64
}

/// The factor of a unit, if `t` is one.
fn unit_factor(t: &str) -> (r: Option<u64>)
    ensures
        r == unit_multiplier(t@),
{
    let n = t.unicode_len();
    if n == 0 {
        return Some(1);
    }
    if n == 1 || (n == 2 && t.get_char(1) == 'B') {
        let c = t.get_char(0);
        if c == 'K' {
            Some(1024)
        } else if c == 'M' {
            Some(1048576)
        } else if c == 'G' {
            Some(1073741824)
        } else if c == 'T' {
            Some(1099511627776)
        } else {
            None
        }
    } else {
        None
    }
}

/// Parses a size that is already trimmed and upper-cased: decimal digits,
/// then optionally (after whitespace) a unit `K`, `KB`, `M`, `MB`, `G`, `GB`,
/// `T` or `TB` standing for a power of 1024.
pub fn parse_normalized_size(u: &str) -> (r: Result<u64, SizeError>)
    ensures
        size_result(u@, r),
{
    let n = u.unicode_len();
    if n == 0 {
        return Err(SizeError::Empty);
    }
    let mut k: usize = 0;
    assert(u@.subrange(0, n as int) =~= u@);
    while k < n && '0' <= u.get_char(k) && u.get_char(k) <= '9'
        invariant
            n == u@.len(),
            k <= n,
            digit_run(u@) == k + digit_run(u@.subrange(k as int, n as int)),
            forall|i: int| 0 <= i < k ==> is_ascii_digit(#[trigger] u@[i]),
        decreases n - k,
    {
        proof {
            assert(u@.subrange(k as int, n as int).drop_first() =~= u@.subrange(
                k + 1,
                n as int,
            ));
        }
        k += 1;
    }
    assert(digit_run(u@.subrange(k as int, n as int)) == 0) by {
        if k < n {
            assert(u@.subrange(k as int, n as int)[0] == u@[k as int]);
        }
    }
    let ghost num = number_part(u@);
    assert(num =~= u@.subrange(0, k as int));
    let mut value: u64 = 0;
    let mut i: usize = 0;
    let mut fits = true;
    while i < k
        invariant
            k <= n == u@.len(),
            num == u@.subrange(0, k as int),
            forall|j: int| 0 <= j < k ==> is_ascii_digit(#[trigger] u@[j]),
            i <= k,
            fits ==> value == decimal_value(num.subrange(0, i as int)),
            !fits ==> decimal_value(num) > u64::MAX,
        decreases k - i,
    {
        if fits {
            let d = digit_at(u.get_char(i));
            proof {
                assert(num.subrange(0, i + 1).drop_last() =~= num.subrange(0, i as int));
                assert(num.subrange(0, i + 1).last() == u@[i as int]);
            }
            match value.checked_mul(10) {
                Some(t) => match t.checked_add(d) {
                    Some(v) => {
                        value = v;
                    },
                    None => {
                        fits = false;
                        proof {
                            lemma_decimal_prefix_monotone(num, i + 1, k as int);
                            assert(num.subrange(0, k as int) =~= num);
                        }
                    },
                },
                None => {
                    fits = false;
                    proof {
                        lemma_decimal_prefix_monotone(num, i + 1, k as int);
                        assert(num.subrange(0, k as int) =~= num);
                    }
                },
            }
        }
        i += 1;
    }
    if fits {
        assert(num.subrange(0, k as int) =~= num);
    }
    if k == 0 || !fits {
        return Err(SizeError::InvalidNumber(u.substring_char(0, k).to_owned()));
    }
    let suffix = u.substring_char(k, n);
    match unit_factor(trim(suffix)) {
        None => Err(SizeError::UnknownSuffix(suffix.to_owned())),
        Some(m) => match value.checked_mul(m) {
            Some(v) => Ok(v),
            None => Err(SizeError::Overflow(u.to_owned())),
        },
    }
}

/// Parses a human-readable size such as `1234`, `10k`, `1MB` or ` 2 GB `:
/// the text is trimmed and upper-cased, then read by `parse_normalized_size`.
pub fn parse_size(s: &str) -> (r: Result<u64, SizeError>)
    ensures
        size_result(uppercase_of(trim_spec(s@)), r),
{
    let t = trim(s);
    let up = to_uppercase(t);
    parse_normalized_size(up.as_str())
}

/// The form in which a size string is read: trimmed, then upper-cased.
pub open spec fn normalized_size(s: Seq<char>) -> Seq<char> {
    uppercase_of(trim_spec(s))
}

/// The normalized size string `u` reads as a size that fits in a `u64`.
pub open spec fn size_ok(u: Seq<char>) -> bool {
    let unit = unit_multiplier(trim_spec(suffix_part(u)));
    &&& u.len() > 0
    &&& number_ok(u)
    &&& unit is Some
    &&& decimal_value(number_part(u)) * unit->0 <= u64::MAX
}

/// The size that the normalized size string `u` reads as.
pub open spec fn size_value(u: Seq<char>) -> nat {
    decimal_value(number_part(u)) * (unit_multiplier(trim_spec(suffix_part(u)))->0 as nat)
}

/// What the surroundings of a run tell about a scanned path.
#[derive(Debug, Clone, Copy, PartialEq, Eq, Structural)]
pub enum PathStatus {
    Missing,
    NotADirectory,
    Directory,
}

/// What a run learns from its surroundings: whether standard output is a
/// terminal, how many threads the machine offers (if known), and the status
/// of each path to scan, in the order of the paths.
#[derive(Debug, Clone)]
pub struct RunEnv {
    pub stdout_is_tty: bool,
    pub available_threads: Option<usize>,
    pub path_status: Vec<PathStatus>,
}

/// Why a command line was refused.
#[derive(Debug)]
pub enum ConfigError {
    /// `--quiet` and `--verbose` were both given.
    QuietAndVerbose,
    /// The minimum size does not read as a size.
    InvalidMinSize(SizeError),
    /// The maximum size does not read as a size.
    InvalidMaxSize(SizeError),
    /// The minimum size exceeds the maximum; both are held as written.
    SizeRange(String, String),
    /// An exclude pattern does not parse, or the set does not build.
    InvalidExclude(globset::Error),
    /// The thread count is zero.
    ZeroThreads,
    /// `--yes` was given with `--dry-run`.
    YesWithDryRun,
    /// `--backup-dir` was given without `--delete`.
    BackupDirWithoutDelete,
    /// A path to scan does not exist.
    PathNotExists(Vec<u8>),
    /// A path to scan is not a directory.
    NotADirectory(Vec<u8>),
}

/// The settings of a run, checked and completed from the command line.
#[derive(Debug)]
pub struct Config {
    pub paths: Vec<Vec<u8>>,
    pub min_size: Option<u64>,
    pub max_size: Option<u64>,
    /// Accepted extensions, without leading dots and lower-cased.
    pub extensions: Option<Vec<String>>,
    pub exclude: GlobSet,
    pub hidden: bool,
    pub follow_symlinks: bool,
    pub depth: Option<usize>,
    pub output: OutputFormat,
    pub quiet: bool,
    pub verbose: bool,
    pub progress: bool,
    pub delete: bool,
    pub backup_dir: Option<Vec<u8>>,
    pub dry_run: bool,
    pub keep: KeepStrategy,
    pub yes: bool,
    pub threads: usize,
    pub paranoid: bool,
    pub skip_empty: bool,
}

/// An extension as it is accepted: leading dots dropped, then lower-cased.
pub open spec fn normalized_ext(e: Seq<char>) -> Seq<char> {
    lowercase_of(strip_leading(e, '.'))
}

pub open spec fn normalized_exts(v: Seq<String>) -> Seq<Seq<char>> {
    v.map_values(|s: String| normalized_ext(s@))
}

/// Drops the leading dots of each extension and lower-cases it.
pub fn normalize_extensions(exts: Vec<String>) -> (r: Vec<String>)
    ensures
        string_views(r@) == normalized_exts(exts@),
{
    let mut out: Vec<String> = Vec::new();
    let mut i: usize = 0;
    while i < exts.len()
        invariant
            i <= exts@.len(),
            string_views(out@) == normalized_exts(exts@).subrange(0, i as int),
        decreases exts@.len() - i,
    {
        let stripped = strip_leading_char(exts[i].as_str(), '.');
        let lower = to_lowercase(stripped);
        let ghost old_out = out@;
        out.push(lower);
        proof {
            assert(string_views(out@) =~= string_views(old_out).push(lower@));
            assert(normalized_exts(exts@).subrange(0, i + 1) =~= normalized_exts(exts@).subrange(
                0,
                i as int,
            ).push(normalized_exts(exts@)[i as int]));
        }
        i += 1;
    }
    assert(normalized_exts(exts@).subrange(0, i as int) =~= normalized_exts(exts@));
    out
}

/// Position of the first path that is not a directory, or -1.
pub open spec fn first_bad_path(s: Seq<PathStatus>) -> int
    decreases s.len(),
{
    if s.len() == 0 {
        -1
    } else if s[0] != PathStatus::Directory {
        0
    } else {
        let r = first_bad_path(s.drop_first());
        if r < 0 {
            -1
        } else {
            r + 1
        }
    }
}

proof fn lemma_first_bad_path(s: Seq<PathStatus>)
    ensures
        -1 <= first_bad_path(s) < s.len(),
        first_bad_path(s) == -1 <==> forall|j: int| 0 <= j < s.len() ==> s[j] == PathStatus::Directory,
        first_bad_path(s) >= 0 ==> s[first_bad_path(s)] != PathStatus::Directory && forall|j: int|
            0 <= j < first_bad_path(s) ==> s[j] == PathStatus::Directory,
    decreases s.len(),
{
    if s.len() > 0 {
        lemma_first_bad_path(s.drop_first());
        if s[0] == PathStatus::Directory {
            assert forall|j: int| 0 < j < s.len() implies s[j] == s.drop_first()[j - 1] by {}
            if first_bad_path(s.drop_first()) == -1 {
                assert forall|j: int| 0 <= j < s.len() implies s[j] == PathStatus::Directory by {
                    if j > 0 {
                        assert(s[j] == s.drop_first()[j - 1]);
                    }
                }
            }
        }
    }
}

/// The minimum size given does not read as a size.
pub open spec fn min_size_bad(a: Args) -> bool {
    a.min_size matches Some(s) && !size_ok(normalized_size(s@))
}

/// The maximum size given does not read as a size.
pub open spec fn max_size_bad(a: Args) -> bool {
    a.max_size matches Some(s) && !size_ok(normalized_size(s@))
}

/// Both sizes are given and the minimum exceeds the maximum.
pub open spec fn size_range_bad(a: Args) -> bool {
    a.min_size matches Some(lo) && a.max_size matches Some(hi) && size_value(normalized_size(lo@))
        > size_value(normalized_size(hi@))
}

/// The thread count of a run: as given, else what the machine offers, else 4.
pub open spec fn thread_count(a: Args, env: RunEnv) -> usize {
    match a.threads {
        Some(t) => t,
        None => match env.available_threads {
            Some(n) => n,
            None => 4,
        },
    }
}

/// The checks of `Config::from_args`, in their order, up to the one for
/// `stage` (0: quiet with verbose, 1: minimum size, 2: maximum size, 3: size
/// range, 4: exclude patterns, 5: threads, 6: yes with dry run, 7: backup
/// directory, 8: paths) all pass.
pub open spec fn checks_pass(a: Args, env: RunEnv, stage: int) -> bool {
    &&& (stage > 0 ==> !(a.quiet && a.verbose))
    &&& (stage > 1 ==> !min_size_bad(a))
    &&& (stage > 2 ==> !max_size_bad(a))
    &&& (stage > 3 ==> !size_range_bad(a))
    &&& (stage > 4 ==> patterns_usable(string_views(a.exclude@)))
    &&& (stage > 5 ==> thread_count(a, env) != 0)
    &&& (stage > 6 ==> !(a.yes && a.dry_run))
    &&& (stage > 7 ==> !(a.backup_dir is Some && !a.delete))
    &&& (stage > 8 ==> first_bad_path(env.path_status@) == -1)
}

impl Config {
    /// Checks a command line and completes it with defaults.
    ///
    /// The checks run in this order, and the first that fails gives the
    /// error: `--quiet` with `--verbose`; the minimum size, then the maximum
    /// size, must read as sizes; the minimum must not exceed the maximum;
    /// the exclude patterns must build a glob set; the thread count must not
    /// be zero; `--yes` must not come with `--dry-run`; `--backup-dir` needs
    /// `--delete`; each path, in order, must exist and be a directory.
    pub fn from_args(args: Args, env: &RunEnv) -> (r: Result<Config, ConfigError>)
        requires
            env.path_status@.len() == args.paths@.len(),
        ensures
            r is Ok <==> checks_pass(args, *env, 9),
            args.quiet && args.verbose ==> r matches Err(ConfigError::QuietAndVerbose),
            checks_pass(args, *env, 1) && min_size_bad(args) ==> (r matches Err(
                ConfigError::InvalidMinSize(e),
            ) && size_result(normalized_size(args.min_size->0@), Err(e))),
            checks_pass(args, *env, 2) && max_size_bad(args) ==> (r matches Err(
                ConfigError::InvalidMaxSize(e),
            ) && size_result(normalized_size(args.max_size->0@), Err(e))),
            checks_pass(args, *env, 3) && size_range_bad(args) ==> (r matches Err(
                ConfigError::SizeRange(lo, hi),
            ) && lo@ == args.min_size->0@ && hi@ == args.max_size->0@),
            checks_pass(args, *env, 4) && !patterns_usable(string_views(args.exclude@)) ==> r matches Err(
                ConfigError::InvalidExclude(_),
            ),
            args.exclude@.len() == 0 ==> !(r matches Err(ConfigError::InvalidExclude(_))),
            checks_pass(args, *env, 5) && thread_count(args, *env) == 0 ==> r matches Err(
                ConfigError::ZeroThreads,
            ),
            checks_pass(args, *env, 6) && args.yes && args.dry_run ==> r matches Err(
                ConfigError::YesWithDryRun,
            ),
            checks_pass(args, *env, 7) && args.backup_dir is Some && !args.delete ==> r matches Err(
                ConfigError::BackupDirWithoutDelete,
            ),
            checks_pass(args, *env, 8) && first_bad_path(env.path_status@) >= 0 ==> ({
                let i = first_bad_path(env.path_status@);
                &&& env.path_status@[i] == PathStatus::Missing ==> (r matches Err(
                    ConfigError::PathNotExists(p),
                ) && p@ == args.paths@[i]@)
                &&& env.path_status@[i] == PathStatus::NotADirectory ==> (r matches Err(
                    ConfigError::NotADirectory(p),
                ) && p@ == args.paths@[i]@)
            }),
            r matches Ok(c) ==> {
                &&& c.paths@ == args.paths@
                &&& c.min_size == (match args.min_size {
                    Some(s) => Some(size_value(normalized_size(s@)) as u64),
                    None => None,
                })
                &&& c.max_size == (match args.max_size {
                    Some(s) => Some(size_value(normalized_size(s@)) as u64),
                    None => None,
                })
                &&& (c.extensions is None <==> args.extensions is None)
                &&& (args.extensions matches Some(e) ==> string_views(c.extensions->0@)
                    == normalized_exts(e@))
                &&& glob_set_patterns(c.exclude) == string_views(args.exclude@)
                &&& c.hidden == args.hidden
                &&& c.follow_symlinks == args.follow_symlinks
                &&& c.depth == args.depth
                &&& c.output == args.output
                &&& c.quiet == args.quiet
                &&& c.verbose == args.verbose
                &&& c.progress == (match args.progress {
                    Some(p) => p,
                    None => !args.quiet && env.stdout_is_tty,
                })
                &&& c.delete == args.delete
                &&& c.backup_dir == args.backup_dir
                &&& c.dry_run == args.dry_run
                &&& c.keep == args.keep
                &&& c.yes == args.yes
                &&& c.threads == thread_count(args, *env)
                &&& c.paranoid == args.paranoid
                &&& c.skip_empty == args.skip_empty
            },
    {
        if args.quiet && args.verbose {
            return Err(ConfigError::QuietAndVerbose);
        }
        let min_size = match &args.min_size {
            Some(s) => match parse_size(s.as_str()) {
                Ok(v) => Some(v),
                Err(e) => {
                    return Err(ConfigError::InvalidMinSize(e));
                },
            },
            None => None,
        };
        let max_size = match &args.max_size {
            Some(s) => match parse_size(s.as_str()) {
                Ok(v) => Some(v),
                Err(e) => {
                    return Err(ConfigError::InvalidMaxSize(e));
                },
            },
            None => None,
        };
        if let (Some(lo), Some(hi)) = (min_size, max_size) {
            if lo > hi {
                let lo_text = args.min_size.clone().unwrap();
                let hi_text = args.max_size.clone().unwrap();
                return Err(ConfigError::SizeRange(lo_text, hi_text));
            }
        }
        let exclude = match build_glob_set(args.exclude.as_slice()) {
            Ok(s) => s,
            Err(e) => {
                return Err(ConfigError::InvalidExclude(e));
            },
        };
        let progress = match args.progress {
            Some(p) => p,
            None => !args.quiet && env.stdout_is_tty,
        };
        let threads = match args.threads {
            Some(t) => t,
            None => match env.available_threads {
                Some(n) => n,
                None => 4,
            },
        };
        if threads == 0 {
            return Err(ConfigError::ZeroThreads);
        }
        if args.yes && args.dry_run {
            return Err(ConfigError::YesWithDryRun);
        }
        if args.backup_dir.is_some() && !args.delete {
            return Err(ConfigError::BackupDirWithoutDelete);
        }
        proof {
            lemma_first_bad_path(env.path_status@);
        }
        let mut i: usize = 0;
        while i < args.paths.len()
            invariant
                env.path_status@.len() == args.paths@.len(),
                checks_pass(args, *env, 8),
                i <= args.paths@.len(),
                forall|j: int| 0 <= j < i ==> env.path_status@[j] == PathStatus::Directory,
                -1 <= first_bad_path(env.path_status@) < env.path_status@.len(),
                first_bad_path(env.path_status@) == -1 <==> forall|j: int|
                    0 <= j < env.path_status@.len() ==> env.path_status@[j] == PathStatus::Directory,
                first_bad_path(env.path_status@) >= 0 ==> env.path_status@[first_bad_path(
                    env.path_status@,
                )] != PathStatus::Directory && forall|j: int|
                    0 <= j < first_bad_path(env.path_status@) ==> env.path_status@[j]
                        == PathStatus::Directory,
            decreases args.paths@.len() - i,
        {
            match env.path_status[i] {
                PathStatus::Missing => {
                    return Err(ConfigError::PathNotExists(args.paths[i].clone()));
                },
                PathStatus::NotADirectory => {
                    return Err(ConfigError::NotADirectory(args.paths[i].clone()));
                },
                PathStatus::Directory => {},
            }
            i += 1;
        }
        let extensions = match args.extensions {
            Some(exts) => Some(normalize_extensions(exts)),
            None => None,
        };
        Ok(
            Config {
                paths: args.paths,
                min_size,
                max_size,
                extensions,
                exclude,
                hidden: args.hidden,
                follow_symlinks: args.follow_symlinks,
                depth: args.depth,
                output: args.output,
                quiet: args.quiet,
                verbose: args.verbose,
                progress,
                delete: args.delete,
                backup_dir: args.backup_dir,
                dry_run: args.dry_run,
                keep: args.keep,
                yes: args.yes,
                threads,
                paranoid: args.paranoid,
                skip_empty: args.skip_empty,
            },
        )
    }

    /// The file filter of this run: its size bounds, extensions, exclude
    /// patterns and the hidden and empty-file switches.
    pub fn file_filter(&self) -> (r: FileFilter)
        ensures
            r.min_size == self.min_size,
            r.max_size == self.max_size,
            r.extensions is None <==> self.extensions is None,
            self.extensions matches Some(e) ==> r.extensions->0@ == e@,
            glob_set_patterns(r.exclude_patterns) == glob_set_patterns(self.exclude),
            r.include_hidden == self.hidden,
            r.skip_empty == self.skip_empty,
    {
        FileFilter {
            min_size: self.min_size,
            max_size: self.max_size,
            extensions: match &self.extensions {
                Some(e) => {
                    let c = e.clone();
                    assert(c@ =~= e@);
                    Some(c)
                },
                None => None,
            },
            exclude_patterns: clone_glob_set(&self.exclude),
            include_hidden: self.hidden,
            skip_empty: self.skip_empty,
        }
    }
}

} // verus!
