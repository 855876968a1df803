use duperr::grouper::{group_by_full_hash, group_by_partial_hash, verify_with_byte_compare, DuplicateGroup};
use duperr::hasher::{compare_files, full_hash, partial_hash};
use duperr::scanner::{FileEntry, FileId};

const NANOS: i128 = 1_000_000_000;

fn make_entry(path: &str, size: u64) -> FileEntry {
    FileEntry::from_parts(path.as_bytes().to_vec(), size, FileId { device: 1, inode: rand::random() }, 1000 * NANOS)
}

/// The partial digests of each group's files, from their contents.
fn partial_digests(contents: &[Vec<&[u8]>]) -> Vec<Vec<[u8; 32]>> {
    contents.iter().map(|g| g.iter().map(|c| partial_hash(c)).collect()).collect()
}

fn full_digests(contents: &[Vec<&[u8]>]) -> Vec<Vec<[u8; 32]>> {
    contents.iter().map(|g| g.iter().map(|c| full_hash(c)).collect()).collect()
}

/// For each group, whether each file after the first equals the first.
fn byte_matches(contents: &[Vec<&[u8]>]) -> Vec<Vec<bool>> {
    contents.iter().map(|g| g.iter().skip(1).map(|c| compare_files(g[0], c)).collect()).collect()
}

#[test]
fn test_group_by_partial_hash_same_content() {
    let content: &[u8] = b"duplicate content for partial hash test";
    let entry1 = make_entry("file1.txt", content.len() as u64);
    let entry2 = make_entry("file2.txt", content.len() as u64);
    let groups = vec![DuplicateGroup::new(content.len() as u64, vec![entry1, entry2])];
    let result = group_by_partial_hash(groups, &partial_digests(&[vec![content, content]]));
    assert_eq!(result.len(), 1, "Same content should form one group");
    assert_eq!(result[0].files.len(), 2);
}

#[test]
fn test_group_by_partial_hash_different_content() {
    let entry1 = make_entry("file1.txt", 11);
    let entry2 = make_entry("file2.txt", 11);
    let groups = vec![DuplicateGroup::new(11, vec![entry1, entry2])];
    let result = group_by_partial_hash(groups, &partial_digests(&[vec![b"content one", b"content two"]]));
    assert_eq!(result.len(), 0, "Different content should not group");
}

#[test]
fn test_group_by_full_hash_same_content() {
    let content: &[u8] = b"duplicate content for full hash test";
    let mut entry1 = make_entry("file1.txt", content.len() as u64);
    let mut entry2 = make_entry("file2.txt", content.len() as u64);
    entry1.partial_hash = Some([0u8; 32]);
    entry2.partial_hash = Some([0u8; 32]);
    let groups = vec![DuplicateGroup::new(content.len() as u64, vec![entry1, entry2])];
    let result = group_by_full_hash(groups, &full_digests(&[vec![content, content]]));
    assert_eq!(result.len(), 1, "Same content should form one group");
    assert_eq!(result[0].files.len(), 2);
    assert!(result[0].hash.is_some(), "Full hash should be set");
}

#[test]
fn test_group_by_full_hash_different_content() {
    let entry1 = make_entry("file1.txt", 11);
    let entry2 = make_entry("file2.txt", 11);
    let groups = vec![DuplicateGroup::new(11, vec![entry1, entry2])];
    let result = group_by_full_hash(groups, &full_digests(&[vec![b"different 1", b"different 2"]]));
    assert_eq!(result.len(), 0, "Different content should not group");
}

#[test]
fn test_verify_with_byte_compare_identical() {
    let content: &[u8] = b"content for paranoid verification";
    let entry1 = make_entry("file1.txt", content.len() as u64);
    let entry2 = make_entry("file2.txt", content.len() as u64);
    let groups = vec![DuplicateGroup::with_hash([1u8; 32], content.len() as u64, vec![entry1, entry2])];
    let result = verify_with_byte_compare(groups, &byte_matches(&[vec![content, content]]));
    assert_eq!(result.len(), 1);
    assert_eq!(result[0].files.len(), 2);
}

#[test]
fn test_verify_with_byte_compare_different() {
    let entry1 = make_entry("file1.txt", 9);
    let entry2 = make_entry("file2.txt", 9);
    let groups = vec![DuplicateGroup::with_hash([1u8; 32], 9, vec![entry1, entry2])];
    let result = verify_with_byte_compare(groups, &byte_matches(&[vec![b"content A", b"content B"]]));
    assert!(result.is_empty() || result[0].files.len() < 2);
}

#[test]
fn test_empty_groups() {
    let result = group_by_partial_hash(vec![], &vec![]);
    assert!(result.is_empty());
    let result = group_by_full_hash(vec![], &vec![]);
    assert!(result.is_empty());
    let result = verify_with_byte_compare(vec![], &vec![]);
    assert!(result.is_empty());
}

#[test]
fn test_single_file_groups_filtered() {
    let content: &[u8] = b"single file";
    let entry = make_entry("single.txt", content.len() as u64);
    let groups = vec![DuplicateGroup::new(content.len() as u64, vec![entry])];
    let result = group_by_partial_hash(groups, &partial_digests(&[vec![content]]));
    assert!(result.is_empty(), "Single file should be filtered");
}

#[test]
fn partial_pass_splits_and_records_digests() {
    let a: &[u8] = b"aaaa";
    let b: &[u8] = b"bbbb";
    let files = vec![make_entry("1", 4), make_entry("2", 4), make_entry("3", 4), make_entry("4", 4), make_entry("5", 4)];
    let groups = vec![DuplicateGroup::new(4, files)];
    let contents = [vec![b, a, b, a, b"cccc"]];
    let result = group_by_partial_hash(groups, &partial_digests(&contents));
    assert_eq!(result.len(), 2);
    // Groups follow the first occurrence of their digest.
    let names: Vec<Vec<u8>> = result[0].files.iter().map(|f| f.path.clone()).collect();
    assert_eq!(names, vec![b"1".to_vec(), b"3".to_vec()]);
    let names: Vec<Vec<u8>> = result[1].files.iter().map(|f| f.path.clone()).collect();
    assert_eq!(names, vec![b"2".to_vec(), b"4".to_vec()]);
    assert!(result.iter().all(|g| g.hash.is_none() && g.size == 4));
    assert_eq!(result[0].files[0].partial_hash, Some(partial_hash(b)));
    assert_eq!(result[1].files[1].partial_hash, Some(partial_hash(a)));
    assert!(result[0].files[0].full_hash.is_none());
}

#[test]
fn full_pass_sets_group_digest() {
    let c: &[u8] = b"same bytes";
    let files = vec![make_entry("x", 10), make_entry("y", 10)];
    let result = group_by_full_hash(vec![DuplicateGroup::new(10, files)], &full_digests(&[vec![c, c]]));
    assert_eq!(result.len(), 1);
    assert_eq!(result[0].hash, Some(full_hash(c)));
    assert_eq!(result[0].files[1].full_hash, Some(full_hash(c)));
}

#[test]
fn verify_keeps_first_and_matching() {
    let files = vec![make_entry("f0", 3), make_entry("f1", 3), make_entry("f2", 3)];
    let groups = vec![
        DuplicateGroup::with_hash([2u8; 32], 3, files),
        DuplicateGroup::with_hash([3u8; 32], 3, vec![make_entry("lonely", 3)]),
    ];
    let matches = vec![vec![false, true], vec![]];
    let result = verify_with_byte_compare(groups, &matches);
    assert_eq!(result.len(), 1);
    let names: Vec<Vec<u8>> = result[0].files.iter().map(|f| f.path.clone()).collect();
    assert_eq!(names, vec![b"f0".to_vec(), b"f2".to_vec()]);
    assert_eq!(result[0].hash, Some([2u8; 32]));
}
