use duperr::cli::{Args, Config, ConfigError, KeepStrategy, OutputFormat, PathStatus, RunEnv};

fn base_args(paths: &[&str]) -> Args {
    Args {
        paths: paths.iter().map(|p| p.as_bytes().to_vec()).collect(),
        min_size: None,
        max_size: None,
        extensions: None,
        exclude: vec![],
        hidden: false,
        follow_symlinks: false,
        depth: None,
        output: OutputFormat::Human,
        quiet: false,
        verbose: false,
        progress: None,
        delete: false,
        backup_dir: None,
        dry_run: false,
        keep: KeepStrategy::First,
        yes: false,
        threads: None,
        paranoid: false,
        skip_empty: true,
    }
}

fn dirs_env(n: usize) -> RunEnv {
    RunEnv { stdout_is_tty: false, available_threads: Some(8), path_status: vec![PathStatus::Directory; n] }
}

#[test]
fn test_conflicting_options() {
    let mut args = base_args(&["/data"]);
    args.quiet = true;
    args.verbose = true;
    let r = Config::from_args(args, &dirs_env(1));
    assert!(matches!(r, Err(ConfigError::QuietAndVerbose)));
}

#[test]
fn test_size_range() {
    let mut args = base_args(&["/data"]);
    args.min_size = Some("100".to_string());
    args.max_size = Some("1000".to_string());
    let c = Config::from_args(args, &dirs_env(1)).unwrap();
    assert_eq!(c.min_size, Some(100));
    assert_eq!(c.max_size, Some(1000));
}

#[test]
fn test_invalid_size_format() {
    let mut args = base_args(&["/data"]);
    args.min_size = Some("invalid".to_string());
    let r = Config::from_args(args, &dirs_env(1));
    assert!(matches!(r, Err(ConfigError::InvalidMinSize(_))));
}

#[test]
fn test_backup_requires_delete() {
    let mut args = base_args(&["/data"]);
    args.backup_dir = Some(b"/backup".to_vec());
    let r = Config::from_args(args, &dirs_env(1));
    assert!(matches!(r, Err(ConfigError::BackupDirWithoutDelete)));
}

#[test]
fn test_invalid_path() {
    let args = base_args(&["/nonexistent/path/that/does/not/exist"]);
    let env = RunEnv { stdout_is_tty: false, available_threads: Some(2), path_status: vec![PathStatus::Missing] };
    match Config::from_args(args, &env) {
        Err(ConfigError::PathNotExists(p)) => assert_eq!(p, b"/nonexistent/path/that/does/not/exist".to_vec()),
        other => panic!("unexpected {:?}", other),
    }
}

#[test]
fn from_args_defaults_and_normalization() {
    let mut args = base_args(&["/a", "/b"]);
    args.extensions = Some(vec![".JPG".to_string(), "..Png".to_string(), "txt".to_string()]);
    args.min_size = Some(" 1k ".to_string());
    let env = RunEnv { stdout_is_tty: true, available_threads: None, path_status: vec![PathStatus::Directory; 2] };
    let c = Config::from_args(args, &env).unwrap();
    assert_eq!(c.paths, vec![b"/a".to_vec(), b"/b".to_vec()]);
    assert_eq!(c.extensions, Some(vec!["jpg".to_string(), "png".to_string(), "txt".to_string()]));
    assert_eq!(c.min_size, Some(1024));
    assert_eq!(c.max_size, None);
    assert_eq!(c.threads, 4);
    assert!(c.progress);
    assert!(c.skip_empty);
    assert_eq!(c.keep, KeepStrategy::First);
}

#[test]
fn from_args_progress_and_threads() {
    let mut args = base_args(&["/a"]);
    args.quiet = true;
    args.threads = Some(3);
    let env = RunEnv { stdout_is_tty: true, available_threads: Some(16), path_status: vec![PathStatus::Directory] };
    let c = Config::from_args(args, &env).unwrap();
    assert!(!c.progress);
    assert_eq!(c.threads, 3);

    let mut args = base_args(&["/a"]);
    args.progress = Some(true);
    args.quiet = true;
    let c = Config::from_args(args, &dirs_env(1)).unwrap();
    assert!(c.progress);
    assert_eq!(c.threads, 8);
}

#[test]
fn from_args_error_order() {
    // Every check fails: the first in order wins.
    let mut args = base_args(&["/missing"]);
    args.quiet = true;
    args.verbose = true;
    args.min_size = Some("x".to_string());
    args.threads = Some(0);
    let env = RunEnv { stdout_is_tty: false, available_threads: None, path_status: vec![PathStatus::Missing] };
    assert!(matches!(Config::from_args(args, &env), Err(ConfigError::QuietAndVerbose)));

    let mut args = base_args(&["/a"]);
    args.min_size = Some("5".to_string());
    args.max_size = Some("bad".to_string());
    assert!(matches!(Config::from_args(args, &dirs_env(1)), Err(ConfigError::InvalidMaxSize(_))));

    let mut args = base_args(&["/a"]);
    args.min_size = Some("2K".to_string());
    args.max_size = Some("1K".to_string());
    match Config::from_args(args, &dirs_env(1)) {
        Err(ConfigError::SizeRange(lo, hi)) => {
            assert_eq!(lo, "2K");
            assert_eq!(hi, "1K");
        }
        other => panic!("unexpected {:?}", other),
    }

    let mut args = base_args(&["/a"]);
    args.exclude = vec!["ok*".to_string(), "[unclosed".to_string()];
    args.threads = Some(0);
    assert!(matches!(Config::from_args(args, &dirs_env(1)), Err(ConfigError::InvalidExclude(_))));

    let mut args = base_args(&["/a"]);
    args.threads = Some(0);
    args.yes = true;
    args.dry_run = true;
    assert!(matches!(Config::from_args(args, &dirs_env(1)), Err(ConfigError::ZeroThreads)));

    let mut args = base_args(&["/a"]);
    args.yes = true;
    args.dry_run = true;
    args.backup_dir = Some(b"/b".to_vec());
    assert!(matches!(Config::from_args(args, &dirs_env(1)), Err(ConfigError::YesWithDryRun)));
}

#[test]
fn from_args_first_bad_path() {
    let args = base_args(&["/ok", "/file", "/gone"]);
    let env = RunEnv {
        stdout_is_tty: false,
        available_threads: Some(1),
        path_status: vec![PathStatus::Directory, PathStatus::NotADirectory, PathStatus::Missing],
    };
    match Config::from_args(args, &env) {
        Err(ConfigError::NotADirectory(p)) => assert_eq!(p, b"/file".to_vec()),
        other => panic!("unexpected {:?}", other),
    }
}

#[test]
fn from_args_backup_with_delete_and_filter() {
    let mut args = base_args(&["/a"]);
    args.delete = true;
    args.backup_dir = Some(b"/backup".to_vec());
    args.exclude = vec!["*.tmp".to_string()];
    args.hidden = true;
    let c = Config::from_args(args, &dirs_env(1)).unwrap();
    assert_eq!(c.backup_dir, Some(b"/backup".to_vec()));
    let f = c.file_filter();
    assert!(f.include_hidden);
    assert!(f.skip_empty);
    assert!(!f.should_include(b"/a/x.tmp", 10));
    assert!(f.should_include(b"/a/.x.txt", 10));
}
