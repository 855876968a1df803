use duperr::actions::{
    choice_from_selection, create_backup_path, dry_run_totals, resolve_backup_dir, validate_backup_dir, BackupStats, DeleteChoice,
    DeleteSession, DeleteStats, FileAction,
};
use duperr::cli::{Args, Config, KeepStrategy, OutputFormat, PathStatus, RunEnv};
use duperr::error::ScanError;
use duperr::grouper::DuplicateGroup;
use duperr::pipeline::{plan_actions, DeleteMode};
use duperr::scanner::{FileEntry, FileId};

fn entry(path: &str, size: u64, modified: i128) -> FileEntry {
    FileEntry::from_parts(path.as_bytes().to_vec(), size, FileId { device: 1, inode: 9 }, modified)
}

#[test]
fn backup_path_keeps_structure() {
    let dest = create_backup_path(b"rel/dup.jpg", Some(b"/home/user/photos/dup.jpg".to_vec()), b"/backup");
    assert_eq!(dest, b"/backup/home/user/photos/dup.jpg".to_vec());
    let dest = create_backup_path(b"/home/u/a.txt", None, b"/backup/");
    assert_eq!(dest, b"/backup/home/u/a.txt".to_vec());
    // Without a canonical form, a relative path loses its first component.
    let dest = create_backup_path(b"dir/sub/a.txt", None, b"/b");
    assert_eq!(dest, b"/b/sub/a.txt".to_vec());
    let dest = create_backup_path(b"", None, b"/b");
    assert_eq!(dest, b"/b/".to_vec());
}

#[test]
fn validate_backup_dir_cases() {
    let scans = vec![b"/data".to_vec(), b"/photos".to_vec()];
    let canon = vec![Some(b"/srv/data".to_vec()), Some(b"/srv/photos".to_vec())];
    assert!(validate_backup_dir(b"/backup", Ok(b"/srv/backup".to_vec()), &scans, &canon).is_ok());
    match validate_backup_dir(b"/photos/bk", Ok(b"/srv/photos/bk".to_vec()), &scans, &canon) {
        Err(ScanError::BackupInsideScanned(d, s)) => {
            assert_eq!(d, b"/photos/bk".to_vec());
            assert_eq!(s, b"/photos".to_vec());
        }
        other => panic!("unexpected {:?}", other),
    }
    // Component-wise prefix only: /srv/database is not inside /srv/data.
    assert!(validate_backup_dir(b"/x", Ok(b"/srv/database".to_vec()), &scans, &canon).is_ok());
    // A scanned directory that could not be resolved is passed over.
    let canon2 = vec![None, Some(b"/srv/photos".to_vec())];
    assert!(validate_backup_dir(b"/x", Ok(b"/srv/data/x".to_vec()), &scans, &canon2).is_ok());
    let err = std::io::Error::new(std::io::ErrorKind::NotFound, "gone");
    match validate_backup_dir(b"/nope", Err(err), &scans, &canon) {
        Err(ScanError::FileRead(p, _)) => assert_eq!(p, b"/nope".to_vec()),
        other => panic!("unexpected {:?}", other),
    }
}

#[test]
fn backup_stats_counts() {
    let mut s = BackupStats::default();
    s.record_backed_up(10);
    s.record_backed_up(5);
    s.record_failed();
    assert_eq!((s.files_backed_up, s.bytes_backed_up, s.files_failed), (2, 15, 1));
}

#[test]
fn selection_to_choice() {
    assert_eq!(choice_from_selection(0), DeleteChoice::No);
    assert_eq!(choice_from_selection(1), DeleteChoice::Yes);
    assert_eq!(choice_from_selection(2), DeleteChoice::All);
    assert_eq!(choice_from_selection(3), DeleteChoice::Quit);
    assert_eq!(choice_from_selection(17), DeleteChoice::Quit);
}

#[test]
fn delete_session_transitions() {
    let mut s = DeleteSession::new(false);
    assert!(s.needs_prompt());
    assert_eq!(s.on_choice(DeleteChoice::No), FileAction::Skip);
    assert_eq!(s.on_choice(DeleteChoice::Yes), FileAction::Delete);
    s.on_deleted(100);
    assert!(s.needs_prompt());
    assert_eq!(s.on_choice(DeleteChoice::All), FileAction::Delete);
    s.on_failed();
    assert!(!s.needs_prompt());
    s.on_deleted(50);
    assert_eq!(s.on_choice(DeleteChoice::Quit), FileAction::Stop);
    let DeleteStats { files_deleted, bytes_freed, files_skipped, files_failed } = s.stats;
    assert_eq!((files_deleted, bytes_freed, files_skipped, files_failed), (2, 150, 1, 1));
    assert!(!DeleteSession::new(true).needs_prompt());
}

#[test]
fn dry_run_totals_use_file_sizes() {
    let g1 = DuplicateGroup::new(10, vec![entry("a", 10, 3), entry("b", 11, 1), entry("c", 12, 2)]);
    let g2 = DuplicateGroup::new(5, vec![]);
    let g3 = DuplicateGroup::new(7, vec![entry("d", 7, 0), entry("e", 7, 0)]);
    let groups = vec![g1, g2, g3];
    // Oldest keeps b in the first group and d in the last.
    assert_eq!(dry_run_totals(&groups, KeepStrategy::Oldest), Some((3, 22 + 7)));
    assert_eq!(dry_run_totals(&groups, KeepStrategy::First), Some((3, 23 + 7)));
    let huge = vec![DuplicateGroup::new(1, vec![entry("x", 1, 0), entry("y", u64::MAX, 0), entry("z", 1, 0)])];
    assert_eq!(dry_run_totals(&huge, KeepStrategy::First), None);
}

fn config(delete: bool, dry_run: bool, yes: bool, backup: Option<&[u8]>) -> Config {
    let args = Args {
        paths: vec![b"/a".to_vec()],
        min_size: None,
        max_size: None,
        extensions: None,
        exclude: vec![],
        hidden: false,
        follow_symlinks: false,
        depth: None,
        output: OutputFormat::Human,
        quiet: false,
        verbose: false,
        progress: Some(false),
        delete,
        backup_dir: backup.map(|b| b.to_vec()),
        dry_run,
        keep: KeepStrategy::Newest,
        yes,
        threads: Some(1),
        paranoid: false,
        skip_empty: true,
    };
    let env = RunEnv { stdout_is_tty: false, available_threads: None, path_status: vec![PathStatus::Directory] };
    Config::from_args(args, &env).unwrap()
}

#[test]
fn plan_actions_cases() {
    let p = plan_actions(&config(false, false, false, None), true);
    assert!(p.backup_dir.is_none() && p.delete.is_none());
    let p = plan_actions(&config(true, true, false, Some(b"/bk")), false);
    assert!(p.backup_dir.is_none() && p.delete.is_none());
    let p = plan_actions(&config(true, true, false, Some(b"/bk")), true);
    assert_eq!(p.backup_dir, Some(b"/bk".to_vec()));
    assert_eq!(p.delete, Some(DeleteMode::DryRun));
    let p = plan_actions(&config(true, false, true, None), true);
    assert!(p.backup_dir.is_none());
    assert_eq!(p.delete, Some(DeleteMode::Remove));
    // Deletion is a dry run unless --yes is given.
    let p = plan_actions(&config(true, false, false, Some(b"/bk")), true);
    assert_eq!(p.backup_dir, Some(b"/bk".to_vec()));
    assert_eq!(p.delete, Some(DeleteMode::DryRun));
}

#[test]
fn resolve_backup_dir_fallbacks() {
    let gone = || Err(std::io::Error::new(std::io::ErrorKind::NotFound, "gone"));
    assert_eq!(resolve_backup_dir(b"bk", Ok(b"/real/bk".to_vec()), None).unwrap(), b"/real/bk".to_vec());
    assert_eq!(
        resolve_backup_dir(b"/srv/new-bk", gone(), Some(Ok(b"/mnt/srv".to_vec()))).unwrap(),
        b"/mnt/srv/new-bk".to_vec()
    );
    // No file name: the parent's canonical form with a separator.
    assert_eq!(resolve_backup_dir(b"/srv/..", gone(), Some(Ok(b"/srv".to_vec()))).unwrap(), b"/srv/".to_vec());
    assert_eq!(resolve_backup_dir(b"/", gone(), None).unwrap(), b"/".to_vec());
    assert!(resolve_backup_dir(b"/a/b", gone(), Some(gone())).is_err());
}
