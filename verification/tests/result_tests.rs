use std::time::Duration;

use duperr::cli::KeepStrategy;
use duperr::grouper::DuplicateGroup;
use duperr::output::{csv_records, keeper_marks, modified_secs};
use duperr::hasher::{full_hash, partial_hash};
use duperr::pipeline::{empty_result, finish_scan, scan_totals, sort_groups_by_waste, Pipeline, PipelineStep};
use duperr::scanner::{FileEntry, FileId};
use duperr::{group_totals, ScanResult, ScanStats};

const NANOS: i128 = 1_000_000_000;

fn make_entry(path: &str, size: u64) -> FileEntry {
    FileEntry::from_parts(path.as_bytes().to_vec(), size, FileId { device: 1, inode: 1 }, 1000 * NANOS)
}

fn make_result() -> ScanResult {
    let group = DuplicateGroup::with_hash([1u8; 32], 100, vec![make_entry("/a.txt", 100), make_entry("/b.txt", 100)]);
    ScanResult {
        groups: vec![group],
        stats: ScanStats {
            total_files_scanned: 10,
            total_bytes_scanned: 1000,
            files_with_unique_size: 5,
            duplicate_groups: 1,
            duplicate_files: 1,
            wasted_bytes: 100,
            scan_duration: Duration::from_secs(1),
        },
    }
}

#[test]
fn test_no_duplicates() {
    let result = ScanResult { groups: vec![], stats: ScanStats::default() };
    assert!(!result.has_duplicates());
}

#[test]
fn test_has_duplicates() {
    let result = make_result();
    assert!(result.has_duplicates());
}

fn group(size: u64, n: usize, tag: &str) -> DuplicateGroup {
    let files = (0..n).map(|i| make_entry(&format!("{}{}", tag, i), size)).collect();
    DuplicateGroup::new(size, files)
}

#[test]
fn scan_result_new_counts() {
    let r = ScanResult::new(vec![group(10, 3, "a"), group(7, 2, "b"), group(1, 1, "c")]);
    assert_eq!(r.stats.duplicate_groups, 3);
    assert_eq!(r.stats.duplicate_files, 3);
    assert_eq!(r.stats.wasted_bytes, 27);
    assert_eq!(r.stats.total_files_scanned, 0);
    assert_eq!(r.groups.len(), 3);
}

#[test]
fn group_totals_overflow_is_none() {
    let big = group(u64::MAX, 2, "x");
    assert_eq!(group_totals(&vec![big]), Some((1, u64::MAX)));
    let r = group_totals(&vec![group(u64::MAX, 2, "x"), group(1, 2, "y")]);
    assert_eq!(r, None);
    assert_eq!(group_totals(&vec![]), Some((0, 0)));
}

#[test]
fn sort_by_waste_descending_and_stable() {
    let gs = vec![group(5, 2, "a"), group(10, 2, "b"), group(5, 2, "c"), group(1, 4, "d"), group(10, 2, "e")];
    let sorted = sort_groups_by_waste(gs);
    let tags: Vec<u8> = sorted.iter().map(|g| g.files[0].path[0]).collect();
    assert_eq!(tags, b"beacd".to_vec());
}

#[test]
fn finish_scan_sorts_and_counts() {
    let r = finish_scan(vec![group(1, 2, "s"), group(50, 3, "l")], 9, 500, 4, Duration::from_secs(2));
    assert_eq!(r.groups[0].size, 50);
    assert_eq!(r.stats.total_files_scanned, 9);
    assert_eq!(r.stats.total_bytes_scanned, 500);
    assert_eq!(r.stats.files_with_unique_size, 4);
    assert_eq!(r.stats.duplicate_groups, 2);
    assert_eq!(r.stats.duplicate_files, 3);
    assert_eq!(r.stats.wasted_bytes, 101);
    assert_eq!(r.stats.scan_duration, Duration::from_secs(2));
    let e = empty_result(3, 30, 3, Duration::from_secs(1));
    assert!(!e.has_duplicates());
    assert_eq!(e.stats.total_bytes_scanned, 30);
    assert_eq!(e.stats.duplicate_files, 0);
}

#[test]
fn scan_totals_counts_and_sums() {
    let files = vec![make_entry("a", 3), make_entry("b", 4)];
    assert_eq!(scan_totals(&files), Some((2, 7)));
    let files = vec![make_entry("a", u64::MAX), make_entry("b", 1)];
    assert_eq!(scan_totals(&files), None);
    assert_eq!(scan_totals(&vec![]), Some((0, 0)));
}

#[test]
fn keeper_marks_follow_strategy() {
    let files = vec![
        FileEntry::from_parts(b"/x/long-name".to_vec(), 1, FileId { device: 1, inode: 1 }, 5),
        FileEntry::from_parts(b"/s".to_vec(), 1, FileId { device: 1, inode: 2 }, 9),
    ];
    let g = DuplicateGroup::new(1, files);
    assert_eq!(keeper_marks(&g, KeepStrategy::First), vec![true, false]);
    assert_eq!(keeper_marks(&g, KeepStrategy::ShortestPath), vec![false, true]);
    assert_eq!(keeper_marks(&g, KeepStrategy::Newest), vec![false, true]);
    assert!(keeper_marks(&DuplicateGroup::new(1, vec![]), KeepStrategy::First).is_empty());
    // Paths compare component by component, as `Path` values do.
    let files = vec![
        FileEntry::from_parts(b"a/b".to_vec(), 1, FileId { device: 1, inode: 1 }, 0),
        FileEntry::from_parts(b"a//b/".to_vec(), 1, FileId { device: 1, inode: 2 }, 0),
        FileEntry::from_parts(b"a/c".to_vec(), 1, FileId { device: 1, inode: 3 }, 0),
    ];
    assert_eq!(keeper_marks(&DuplicateGroup::new(1, files), KeepStrategy::First), vec![true, true, false]);
}

#[test]
fn csv_records_rows() {
    let mut result = make_result();
    result.groups.push(DuplicateGroup::new(
        7,
        vec![
            FileEntry::from_parts(b"/c".to_vec(), 7, FileId { device: 1, inode: 3 }, -5),
            FileEntry::from_parts(b"/d".to_vec(), 7, FileId { device: 1, inode: 4 }, 2_500_000_000),
        ],
    ));
    let rows = csv_records(&result);
    assert_eq!(rows.len(), 4);
    assert_eq!(rows[0].group, 1);
    assert_eq!(rows[0].hash, Some([1u8; 32]));
    assert_eq!(rows[0].size, 100);
    assert_eq!(rows[0].path, b"/a.txt".to_vec());
    assert_eq!(rows[0].modified, Some(1000));
    assert_eq!(rows[1].path, b"/b.txt".to_vec());
    assert_eq!(rows[2].group, 2);
    assert_eq!(rows[2].hash, None);
    assert_eq!(rows[2].modified, None);
    assert_eq!(rows[3].modified, Some(2));
}

#[test]
fn modified_secs_values() {
    assert_eq!(modified_secs(0), Some(0));
    assert_eq!(modified_secs(999_999_999), Some(0));
    assert_eq!(modified_secs(1_000_000_000), Some(1));
    assert_eq!(modified_secs(-1), None);
}

#[test]
fn pipeline_runs_each_pass() {

    let contents: Vec<(&str, &[u8])> = vec![
        ("/d/a", b"same-same"),
        ("/d/b", b"same-same"),
        ("/d/c", b"different"),
        ("/d/u", b"unique size!"),
        ("/d/e1", b""),
        ("/d/e2", b""),
    ];
    let files: Vec<FileEntry> = contents
        .iter()
        .enumerate()
        .map(|(i, (p, c))| {
            FileEntry::from_parts(p.as_bytes().to_vec(), c.len() as u64, FileId { device: 1, inode: i as u64 + 1 }, 0)
        })
        .collect();
    let content_of = |f: &FileEntry| contents.iter().find(|(p, _)| p.as_bytes() == &f.path[..]).unwrap().1;

    let (run, step) = Pipeline::after_scan(files, true, true).unwrap();
    assert_eq!(step, PipelineStep::PartialDigests);
    assert_eq!(run.total_files, 6);
    assert_eq!(run.total_bytes, 9 * 3 + 12);
    assert_eq!(run.unique_sizes, 1);
    assert_eq!(run.groups.len(), 1);

    let hs: Vec<Vec<[u8; 32]>> =
        run.groups.iter().map(|g| g.files.iter().map(|f| partial_hash(content_of(f))).collect()).collect();
    let (run, step) = run.after_partial(&hs);
    assert_eq!(step, PipelineStep::FullDigests);
    assert_eq!(run.groups[0].files.len(), 2);

    let hs: Vec<Vec<[u8; 32]>> =
        run.groups.iter().map(|g| g.files.iter().map(|f| full_hash(content_of(f))).collect()).collect();
    let (run, step) = run.after_full(&hs);
    assert_eq!(step, PipelineStep::ByteComparison);
    let run = run.after_comparison(&vec![vec![true]]);
    assert!(run.totals_fit());
    let result = run.finish(Duration::from_secs(3));
    assert_eq!(result.groups.len(), 1);
    assert_eq!(result.groups[0].hash, Some(full_hash(b"same-same")));
    assert_eq!(result.stats.duplicate_files, 1);
    assert_eq!(result.stats.wasted_bytes, 9);
    assert_eq!(result.stats.total_files_scanned, 6);
    assert_eq!(result.stats.scan_duration, Duration::from_secs(3));
}

#[test]
fn pipeline_stops_early() {
    let files = vec![make_entry("/x", 1), make_entry("/y", 2)];
    let (run, step) = Pipeline::after_scan(files, true, false).unwrap();
    assert_eq!(step, PipelineStep::Finished);
    let result = run.finish(Duration::from_secs(0));
    assert!(!result.has_duplicates());
    assert_eq!(result.stats.files_with_unique_size, 2);
    assert_eq!(result.stats.total_bytes_scanned, 3);

    let files = vec![make_entry("/x", u64::MAX), make_entry("/y", u64::MAX)];
    assert!(Pipeline::after_scan(files, true, false).is_none());

    // Not paranoid: the full pass finishes.
    let files = vec![make_entry("/p", 4), make_entry("/q", 4)];
    let (run, _) = Pipeline::after_scan(files, true, false).unwrap();
    let (run, step) = run.after_partial(&vec![vec![[1u8; 32], [1u8; 32]]]);
    assert_eq!(step, PipelineStep::FullDigests);
    let (_, step) = run.after_full(&vec![vec![[2u8; 32], [2u8; 32]]]);
    assert_eq!(step, PipelineStep::Finished);
}

#[test]
fn default_stats_are_zero() {
    let s = ScanStats::default();
    assert_eq!(s.scan_duration, Duration::from_secs(0));
    assert_eq!((s.total_files_scanned, s.duplicate_groups, s.wasted_bytes), (0, 0, 0));
    let r = ScanResult::new(vec![]);
    assert_eq!(r.stats.scan_duration, Duration::from_secs(0));
}
