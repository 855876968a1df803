use duperr::cli::KeepStrategy;
use duperr::grouper::DuplicateGroup;
use duperr::scanner::{FileEntry, FileId};

const NANOS: i128 = 1_000_000_000;

fn make_entry(path: &str, modified_secs: u64) -> FileEntry {
    FileEntry::from_parts(
        path.as_bytes().to_vec(),
        100,
        FileId { device: 0, inode: 0 },
        modified_secs as i128 * NANOS,
    )
}

fn path_of(f: &FileEntry) -> &str {
    std::str::from_utf8(&f.path).unwrap()
}

#[test]
fn test_select_keeper_oldest() {
    let group = DuplicateGroup::new(
        100,
        vec![make_entry("new.txt", 2000), make_entry("old.txt", 1000), make_entry("mid.txt", 1500)],
    );
    let keeper = group.select_keeper(KeepStrategy::Oldest).unwrap();
    assert_eq!(path_of(keeper), "old.txt");
}

#[test]
fn test_select_keeper_newest() {
    let group = DuplicateGroup::new(100, vec![make_entry("new.txt", 2000), make_entry("old.txt", 1000)]);
    let keeper = group.select_keeper(KeepStrategy::Newest).unwrap();
    assert_eq!(path_of(keeper), "new.txt");
}

#[test]
fn test_select_keeper_shortest_path() {
    let group = DuplicateGroup::new(
        100,
        vec![make_entry("/very/long/path/file.txt", 1000), make_entry("/short.txt", 1000)],
    );
    let keeper = group.select_keeper(KeepStrategy::ShortestPath).unwrap();
    assert_eq!(path_of(keeper), "/short.txt");
}

#[test]
fn test_select_keeper_longest_path() {
    let group = DuplicateGroup::new(
        100,
        vec![make_entry("/very/long/path/file.txt", 1000), make_entry("/short.txt", 1000)],
    );
    let keeper = group.select_keeper(KeepStrategy::LongestPath).unwrap();
    assert_eq!(path_of(keeper), "/very/long/path/file.txt");
}

#[test]
fn test_select_keeper_first() {
    let group = DuplicateGroup::new(100, vec![make_entry("first.txt", 1000), make_entry("second.txt", 2000)]);
    let keeper = group.select_keeper(KeepStrategy::First).unwrap();
    assert_eq!(path_of(keeper), "first.txt");
}

#[test]
fn test_wasted_bytes() {
    let group = DuplicateGroup::new(
        100,
        vec![make_entry("a.txt", 1000), make_entry("b.txt", 1000), make_entry("c.txt", 1000)],
    );
    assert_eq!(group.wasted_bytes(), 200);
}

#[test]
fn test_duplicate_count() {
    let group = DuplicateGroup::new(
        100,
        vec![make_entry("a.txt", 1000), make_entry("b.txt", 1000), make_entry("c.txt", 1000)],
    );
    assert_eq!(group.duplicate_count(), 2);
}

#[test]
fn test_get_duplicates() {
    let group = DuplicateGroup::new(
        100,
        vec![make_entry("a.txt", 1000), make_entry("b.txt", 2000), make_entry("c.txt", 3000)],
    );
    let duplicates = group.get_duplicates(KeepStrategy::Oldest);
    assert_eq!(duplicates.len(), 2);
    let dup_names: Vec<&str> = duplicates.iter().map(|f| path_of(f)).collect();
    assert!(dup_names.contains(&"b.txt"));
    assert!(dup_names.contains(&"c.txt"));
    assert!(!dup_names.contains(&"a.txt"));
}

#[test]
fn test_empty_group() {
    let group = DuplicateGroup::new(100, vec![]);
    assert!(group.select_keeper(KeepStrategy::First).is_none());
    assert_eq!(group.wasted_bytes(), 0);
    assert_eq!(group.duplicate_count(), 0);
    assert_eq!(group.get_duplicates(KeepStrategy::First).len(), 0);
}

#[test]
fn keeper_ties_first_min_last_max() {
    let group = DuplicateGroup::new(
        100,
        vec![make_entry("aa", 5), make_entry("bb", 5), make_entry("c", 9), make_entry("dd", 9)],
    );
    assert_eq!(group.keeper_index(KeepStrategy::Oldest), Some(0));
    assert_eq!(group.keeper_index(KeepStrategy::Newest), Some(3));
    assert_eq!(group.keeper_index(KeepStrategy::ShortestPath), Some(2));
    assert_eq!(group.keeper_index(KeepStrategy::LongestPath), Some(3));
    assert_eq!(group.keeper_index(KeepStrategy::First), Some(0));
}

#[test]
fn get_duplicates_keeps_order_and_omits_keeper() {
    let group = DuplicateGroup::new(
        100,
        vec![make_entry("w", 3), make_entry("x", 1), make_entry("y", 2), make_entry("z", 1)],
    );
    let names: Vec<&str> = group.get_duplicates(KeepStrategy::Oldest).iter().map(|f| path_of(f)).collect();
    assert_eq!(names, vec!["w", "y", "z"]);
    let names: Vec<&str> = group.get_duplicates(KeepStrategy::Newest).iter().map(|f| path_of(f)).collect();
    assert_eq!(names, vec!["x", "y", "z"]);
}

#[test]
fn wasted_bytes_saturates() {
    let files = vec![make_entry("a", 1), make_entry("b", 1), make_entry("c", 1)];
    let group = DuplicateGroup::with_hash([7u8; 32], u64::MAX / 2 + 1, files);
    assert_eq!(group.wasted_bytes(), u64::MAX);
    assert_eq!(group.hash, Some([7u8; 32]));
    let single = DuplicateGroup::new(1000, vec![make_entry("a", 1)]);
    assert_eq!(single.wasted_bytes(), 0);
    assert_eq!(single.duplicate_count(), 0);
    assert!(single.get_duplicates(KeepStrategy::Newest).is_empty());
}

#[test]
fn negative_times_order_before_epoch() {
    let files = vec![
        FileEntry::from_parts(b"late".to_vec(), 1, FileId { device: 0, inode: 0 }, 10),
        FileEntry::from_parts(b"early".to_vec(), 1, FileId { device: 0, inode: 0 }, -10),
    ];
    let group = DuplicateGroup::new(1, files);
    assert_eq!(path_of(group.select_keeper(KeepStrategy::Oldest).unwrap()), "early");
}

#[test]
fn is_same_file_needs_nonzero_inode() {
    let a = FileEntry::from_parts(b"a".to_vec(), 1, FileId { device: 1, inode: 5 }, 0);
    let b = FileEntry::from_parts(b"b".to_vec(), 1, FileId { device: 1, inode: 5 }, 0);
    let c = FileEntry::from_parts(b"c".to_vec(), 1, FileId { device: 2, inode: 5 }, 0);
    let z1 = FileEntry::from_parts(b"z1".to_vec(), 1, FileId { device: 1, inode: 0 }, 0);
    let z2 = FileEntry::from_parts(b"z2".to_vec(), 1, FileId { device: 1, inode: 0 }, 0);
    assert!(a.is_same_file(&b));
    assert!(!a.is_same_file(&c));
    assert!(!z1.is_same_file(&z2));
}
