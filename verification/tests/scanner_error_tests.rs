use duperr::error::{ErrorLog, IoErrorKind, ScanError, WARNINGS_LISTED};
use duperr::scanner::{FileFilter, FileId, Scanner};

fn any_filter() -> FileFilter {
    FileFilter::new(None, None, None, &[], true, false).unwrap()
}

#[test]
fn scanner_collects_each_physical_file_once() {
    let mut s = Scanner::new(any_filter(), false, None);
    assert!(s.process_entry(b"/a/one".to_vec(), true, 5, FileId { device: 1, inode: 10 }, 0));
    // A hard link to the same file under another path.
    assert!(!s.process_entry(b"/a/link".to_vec(), true, 5, FileId { device: 1, inode: 10 }, 0));
    // Same inode on another device is another file.
    assert!(s.process_entry(b"/b/one".to_vec(), true, 5, FileId { device: 2, inode: 10 }, 0));
    // Directories and other non-regular entries are not collected.
    assert!(!s.process_entry(b"/a".to_vec(), false, 4096, FileId { device: 1, inode: 11 }, 0));
    let files = s.into_files();
    let paths: Vec<Vec<u8>> = files.iter().map(|f| f.path.clone()).collect();
    assert_eq!(paths, vec![b"/a/one".to_vec(), b"/b/one".to_vec()]);
    assert_eq!(files[1].file_id, FileId { device: 2, inode: 10 });
}

#[test]
fn scanner_applies_filter_before_dedup() {
    let filter = FileFilter::new(Some(10), None, None, &[], false, true).unwrap();
    let mut s = Scanner::new(filter, true, Some(3));
    assert!(s.follow_symlinks);
    assert_eq!(s.max_depth, Some(3));
    assert!(!s.process_entry(b"/a/small".to_vec(), true, 5, FileId { device: 1, inode: 1 }, 0));
    // The refused entry did not record its identity.
    assert!(s.process_entry(b"/a/big".to_vec(), true, 50, FileId { device: 1, inode: 1 }, 7));
    assert!(!s.process_entry(b"/a/.hidden".to_vec(), true, 50, FileId { device: 1, inode: 2 }, 0));
    let files = s.into_files();
    assert_eq!(files.len(), 1);
    assert_eq!(files[0].modified, 7);
    assert_eq!(files[0].size, 50);
    assert!(files[0].partial_hash.is_none() && files[0].full_hash.is_none());
}

#[test]
fn io_errors_get_their_variant() {
    let e = ScanError::from_io_kind(b"/p", IoErrorKind::PermissionDenied, std::io::Error::other("x"));
    assert!(matches!(&e, ScanError::PermissionDenied(p) if p == b"/p"));
    let e = ScanError::from_io_kind(b"/p", IoErrorKind::NotFound, std::io::Error::other("x"));
    assert!(matches!(&e, ScanError::NotFound(p) if p == b"/p"));
    let e = ScanError::from_io_kind(b"/p", IoErrorKind::Other, std::io::Error::other("x"));
    assert!(matches!(&e, ScanError::FileRead(p, _) if p == b"/p"));
    let e = ScanError::from_io_with_path(b"/q", std::io::Error::from(std::io::ErrorKind::NotFound));
    assert!(matches!(&e, ScanError::NotFound(p) if p == b"/q"));
    let e = ScanError::from_io_with_path(b"/q", std::io::Error::from(std::io::ErrorKind::PermissionDenied));
    assert!(matches!(&e, ScanError::PermissionDenied(_)));
    let e = ScanError::from_io_with_path(b"/q", std::io::Error::from(std::io::ErrorKind::InvalidData));
    assert!(matches!(&e, ScanError::FileRead(_, _)));
}

#[test]
fn fatal_and_ignorable_errors() {
    assert!(ScanError::Config("x".to_string()).is_fatal());
    assert!(ScanError::BackupInsideScanned(vec![], vec![]).is_fatal());
    assert!(ScanError::Cancelled.is_fatal());
    assert!(!ScanError::NotFound(vec![]).is_fatal());
    assert!(ScanError::NotFound(vec![]).is_ignorable());
    assert!(ScanError::PermissionDenied(vec![]).is_ignorable());
    assert!(ScanError::FileRead(vec![], std::io::Error::other("x")).is_ignorable());
    assert!(!ScanError::Cancelled.is_ignorable());
    assert!(!ScanError::DeleteFailed(vec![], std::io::Error::other("x")).is_ignorable());
}

#[test]
fn error_log_keeps_order() {
    let mut log = ErrorLog::new();
    assert!(log.is_empty());
    for i in 0..12u8 {
        log.add(ScanError::NotFound(vec![i]));
    }
    assert_eq!(log.len(), 12);
    assert!(!log.is_empty());
    assert_eq!(log.unlisted_count(), 12 - WARNINGS_LISTED);
    assert!(matches!(&log.warnings[3], ScanError::NotFound(p) if p == &vec![3u8]));
    assert_eq!(ErrorLog::default().unlisted_count(), 0);
}
