use duperr::grouper::{group_by_size, group_by_size_with_stats};
use duperr::scanner::{FileEntry, FileId};

fn make_entry(path: &str, size: u64) -> FileEntry {
    FileEntry::from_parts(path.as_bytes().to_vec(), size, FileId { device: 0, inode: 0 }, 0)
}

#[test]
fn test_group_by_size_filters_unique() {
    let files = vec![
        make_entry("a.txt", 100),
        make_entry("b.txt", 100),
        make_entry("c.txt", 200),
        make_entry("d.txt", 300),
        make_entry("e.txt", 300),
    ];
    let groups = group_by_size(files, true);
    assert_eq!(groups.len(), 2);
    let sizes: Vec<u64> = groups.iter().map(|g| g.size).collect();
    assert!(sizes.contains(&100));
    assert!(sizes.contains(&300));
    assert!(!sizes.contains(&200));
}

#[test]
fn test_group_by_size_empty_files() {
    let files = vec![make_entry("empty1.txt", 0), make_entry("empty2.txt", 0)];
    let groups_include = group_by_size(files.clone(), true);
    let groups_exclude = group_by_size(files, false);
    assert_eq!(groups_include.len(), 1);
    assert_eq!(groups_exclude.len(), 0);
}

#[test]
fn test_group_by_size_single_files() {
    let files = vec![make_entry("a.txt", 100), make_entry("b.txt", 200), make_entry("c.txt", 300)];
    let groups = group_by_size(files, true);
    assert_eq!(groups.len(), 0);
}

#[test]
fn test_group_by_size_with_stats() {
    let files = vec![
        make_entry("a.txt", 100),
        make_entry("b.txt", 100),
        make_entry("c.txt", 200),
        make_entry("d.txt", 300),
        make_entry("e.txt", 300),
        make_entry("f.txt", 300),
    ];
    let (groups, stats) = group_by_size_with_stats(files, true);
    assert_eq!(stats.total_files, 6);
    assert_eq!(stats.unique_sizes, 1);
    assert_eq!(stats.candidate_groups, 2);
    assert_eq!(stats.candidate_files, 5);
    assert_eq!(groups.len(), 2);
}

#[test]
fn group_by_size_first_occurrence_order_and_members() {
    let files = vec![
        make_entry("p", 300),
        make_entry("q", 100),
        make_entry("r", 300),
        make_entry("s", 0),
        make_entry("t", 100),
        make_entry("u", 0),
    ];
    let (groups, stats) = group_by_size_with_stats(files, false);
    assert_eq!(groups.len(), 2);
    assert_eq!(groups[0].size, 300);
    assert_eq!(groups[1].size, 100);
    let names: Vec<Vec<u8>> = groups[0].files.iter().map(|f| f.path.clone()).collect();
    assert_eq!(names, vec![b"p".to_vec(), b"r".to_vec()]);
    let names: Vec<Vec<u8>> = groups[1].files.iter().map(|f| f.path.clone()).collect();
    assert_eq!(names, vec![b"q".to_vec(), b"t".to_vec()]);
    assert_eq!(stats.empty_files_skipped, 2);
    assert_eq!(stats.total_files, 6);
    assert_eq!(stats.unique_sizes, 0);
    assert_eq!(stats.candidate_files, 4);
    assert_eq!(stats.total_files, stats.empty_files_skipped + stats.unique_sizes + stats.candidate_files);
    assert!(groups.iter().all(|g| g.hash.is_none()));
}

#[test]
fn group_by_size_nothing_in() {
    let (groups, stats) = group_by_size_with_stats(vec![], true);
    assert!(groups.is_empty());
    assert_eq!(stats.total_files, 0);
    assert_eq!(stats.candidate_files, 0);
}
