use std::time::Duration;

use duperr::grouper::DuplicateGroup;
use duperr::output::{
    count_and_size, csv_fields, digest_hex, group_heading, json_path, summary_texts, CsvRecord,
};
use duperr::scanner::{FileEntry, FileId};
use duperr::ScanStats;

#[test]
fn csv_fields_render_each_value() {
    let mut hash = [0u8; 32];
    hash[0] = 0xab;
    hash[31] = 0x0f;
    let rec = CsvRecord { group: 12, hash: Some(hash), size: 4096, path: b"/d/f\xffx".to_vec(), modified: Some(0) };
    let f = csv_fields(&rec);
    assert_eq!(f.group, "12");
    assert_eq!(f.hash.len(), 64);
    assert!(f.hash.starts_with("ab00"));
    assert!(f.hash.ends_with("000f"));
    assert_eq!(f.size, "4096");
    assert_eq!(f.path, "/d/f\u{fffd}x");
    assert_eq!(f.modified, "0");
    let rec = CsvRecord { group: 1, hash: None, size: 0, path: b"/ok".to_vec(), modified: None };
    let f = csv_fields(&rec);
    assert_eq!((f.hash.as_str(), f.path.as_str(), f.modified.as_str()), ("", "/ok", ""));
}

#[test]
fn json_texts() {
    assert_eq!(digest_hex(None), None);
    assert_eq!(digest_hex(Some([0x10u8; 32])).unwrap(), "10".repeat(32));
    assert_eq!(json_path(b"/a/b.txt"), "/a/b.txt");
    assert_eq!(json_path(b"/a/\xc3\xa9"), "/a/\u{e9}");
    assert_eq!(json_path(b"/a/\xc3"), "<invalid utf8>");
}

#[test]
fn heading_and_summary_texts() {
    let files = vec![
        FileEntry::from_parts(b"/x".to_vec(), 2048, FileId { device: 1, inode: 1 }, 0),
        FileEntry::from_parts(b"/y".to_vec(), 2048, FileId { device: 1, inode: 2 }, 0),
    ];
    let h = group_heading(&DuplicateGroup::new(2048, files), 7);
    assert_eq!((h.index.as_str(), h.files.as_str(), h.size.as_str()), ("7", "2", "2 KiB"));
    let stats = ScanStats {
        total_files_scanned: 0,
        total_bytes_scanned: 0,
        files_with_unique_size: 0,
        duplicate_groups: 3,
        duplicate_files: 10,
        wasted_bytes: 1536,
        scan_duration: Duration::from_secs(0),
    };
    let t = summary_texts(&stats);
    assert_eq!((t.groups.as_str(), t.files.as_str(), t.wasted.as_str()), ("3", "10", "1.50 KiB"));
    let (n, b) = count_and_size(0, 100);
    assert_eq!((n.as_str(), b.as_str()), ("0", "100 B"));
}
