use duperr::hasher::{compare_files, full_hash, partial_hash, uses_mmap, MMAP_THRESHOLD, PARTIAL_HASH_SIZE};

fn pattern(size: usize, shift: usize) -> Vec<u8> {
    (0..size).map(|i| ((i + shift) % 256) as u8).collect()
}

#[test]
fn test_full_hash_small_file_buffered() {
    let content = b"small content for buffered reading";
    let hash = full_hash(content);
    assert_eq!(hash.len(), 32);
    let hash2 = full_hash(content);
    assert_eq!(hash, hash2);
    assert!(!uses_mmap(content.len() as u64));
}

#[test]
fn test_full_hash_large_file_mmap() {
    let size = 200 * 1024;
    let content = pattern(size, 0);
    assert!(uses_mmap(size as u64));
    let hash = full_hash(&content);
    assert_eq!(hash.len(), 32);
    let copy = content.clone();
    let hash2 = full_hash(&copy);
    assert_eq!(hash, hash2);
}

#[test]
fn test_full_hash_at_mmap_threshold() {
    let size = MMAP_THRESHOLD as usize;
    let content = pattern(size, 0);
    assert!(!uses_mmap(size as u64));
    let hash = full_hash(&content);
    assert_eq!(hash.len(), 32);
}

#[test]
fn test_full_hash_different_content_same_size() {
    let size = 1000;
    let hash1 = full_hash(&pattern(size, 0));
    let hash2 = full_hash(&pattern(size, 1));
    assert_ne!(hash1, hash2);
}

#[test]
fn test_compare_files_identical_small() {
    let content = b"identical content for comparison";
    assert!(compare_files(content, &content.to_vec()));
}

#[test]
fn test_compare_files_identical_large() {
    let size = 200 * 1024;
    assert!(compare_files(&pattern(size, 0), &pattern(size, 0)));
}

#[test]
fn test_compare_files_different_small() {
    assert!(!compare_files(b"content one", b"content two"));
}

#[test]
fn test_compare_files_different_large() {
    let size = 200 * 1024;
    let content1 = pattern(size, 0);
    let mut content2 = content1.clone();
    content2[size / 2] = !content2[size / 2];
    assert!(!compare_files(&content1, &content2));
}

#[test]
fn test_full_hash_empty_file() {
    let hash = full_hash(b"");
    assert_eq!(hash.len(), 32);
}

#[test]
fn test_full_hash_binary_content() {
    let content: Vec<u8> = vec![0, 1, 2, 0, 255, 254, 0, 128];
    let hash = full_hash(&content);
    assert_eq!(hash.len(), 32);
}

#[test]
fn test_partial_hash_small_file() {
    let content = b"small file content";
    let hash = partial_hash(content);
    assert_eq!(hash.len(), 32);
    let hash2 = partial_hash(&content.to_vec());
    assert_eq!(hash, hash2);
}

#[test]
fn test_partial_hash_exactly_4kb() {
    let content = pattern(PARTIAL_HASH_SIZE, 0);
    let hash = partial_hash(&content);
    assert_eq!(hash.len(), 32);
}

#[test]
fn test_partial_hash_large_file() {
    let content = pattern(10240, 0);
    let hash = partial_hash(&content);
    let mut different_tail: Vec<u8> = content[..PARTIAL_HASH_SIZE].to_vec();
    different_tail.extend(vec![0u8; 6144]);
    let hash2 = partial_hash(&different_tail);
    assert_eq!(hash, hash2, "Same prefix should produce same partial hash");
}

#[test]
fn test_partial_hash_different_content() {
    let hash1 = partial_hash(b"content one");
    let hash2 = partial_hash(b"content two");
    assert_ne!(hash1, hash2);
}

#[test]
fn test_partial_hash_empty_file() {
    let hash = partial_hash(b"");
    assert_eq!(hash.len(), 32);
}

#[test]
fn test_partial_hash_deterministic() {
    let content = b"test content for determinism";
    let hash1 = partial_hash(content);
    let hash2 = partial_hash(content);
    let hash3 = partial_hash(content);
    assert_eq!(hash1, hash2);
    assert_eq!(hash2, hash3);
}

#[test]
fn digests_are_blake3() {
    // BLAKE3 of the empty input.
    let empty = full_hash(b"");
    assert_eq!(empty[..4], [0xaf, 0x13, 0x49, 0xb9]);
    assert_eq!(partial_hash(b""), empty);
    // A short content: the partial digest covers all of it.
    assert_eq!(partial_hash(b"abc"), full_hash(b"abc"));
    assert_eq!(full_hash(b"abc")[..4], [0x64, 0x37, 0xb3, 0xac]);
}

#[test]
fn partial_hash_is_digest_of_prefix() {
    let content = pattern(PARTIAL_HASH_SIZE + 1, 3);
    assert_eq!(partial_hash(&content), full_hash(&content[..PARTIAL_HASH_SIZE]));
    assert_ne!(partial_hash(&content), full_hash(&content));
}
