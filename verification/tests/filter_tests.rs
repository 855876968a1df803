use duperr::scanner::FileFilter;

#[test]
fn filter_test_extension_filter() {
    let filter = FileFilter::new(None, None, Some(vec!["txt".to_string(), "md".to_string()]), &[], false, false)
        .unwrap();
    let txt_path = b"/tmp/dir/test.txt";
    let jpg_path = b"/tmp/dir/test.jpg";
    assert!(filter.should_include(txt_path, 7));
    assert!(!filter.should_include(jpg_path, 7));
}

#[test]
fn test_size_filter() {
    let filter = FileFilter::new(Some(100), Some(1000), None, &[], false, true).unwrap();
    assert!(!filter.should_include(b"/tmp/dir/small.txt", 50));
    assert!(filter.should_include(b"/tmp/dir/medium.txt", 500));
    assert!(!filter.should_include(b"/tmp/dir/large.txt", 2000));
}

#[test]
fn test_hidden_file_filter() {
    let filter = FileFilter::new(None, None, None, &[], false, false).unwrap();
    let filter_include = FileFilter::new(None, None, None, &[], true, false).unwrap();
    let hidden = b"/tmp/dir/.hidden";
    assert!(!filter.should_include(hidden, 7));
    assert!(filter_include.should_include(hidden, 7));
}

#[test]
fn test_empty_file_filter() {
    let filter_skip = FileFilter::new(None, None, None, &[], false, true).unwrap();
    let filter_include = FileFilter::new(None, None, None, &[], false, false).unwrap();
    let empty = b"/tmp/dir/empty.txt";
    assert!(!filter_skip.should_include(empty, 0));
    assert!(filter_include.should_include(empty, 0));
}

#[test]
fn filter_test_exclude_pattern() {
    let filter =
        FileFilter::new(None, None, None, &["*.tmp".to_string(), "cache/*".to_string()], false, false).unwrap();
    assert!(!filter.should_include(b"/tmp/dir/temp.tmp", 7));
    assert!(filter.should_include(b"/tmp/dir/file.txt", 7));
}

#[test]
fn extension_matching_is_case_insensitive() {
    let filter = FileFilter::new(None, None, Some(vec!["JPG".to_string()]), &[], false, false).unwrap();
    assert!(filter.should_include(b"/p/photo.Jpg", 1));
    assert!(filter.should_include(b"/p/photo.jpg", 1));
    assert!(!filter.should_include(b"/p/photo", 1));
    assert!(!filter.should_include(b"/p/.jpg", 1));
    assert!(!filter.should_include(b"/p/a.jpg/..", 1));
}

#[test]
fn hidden_only_looks_at_file_name() {
    let filter = FileFilter::new(None, None, None, &[], false, false).unwrap();
    assert!(filter.should_include(b"/home/.config/file.txt", 1));
    assert!(!filter.should_include(b"/home/user/.bashrc", 1));
    assert!(filter.should_include(b"/home/user/./x", 1));
    // A file name that is not valid UTF-8 is never treated as hidden.
    assert!(filter.should_include(b"/home/user/.\xff", 1));
}

#[test]
fn bounds_are_inclusive() {
    let filter = FileFilter::new(Some(10), Some(20), None, &[], false, false).unwrap();
    assert!(filter.should_include(b"/a", 10));
    assert!(filter.should_include(b"/a", 20));
    assert!(!filter.should_include(b"/a", 9));
    assert!(!filter.should_include(b"/a", 21));
}

#[test]
fn bad_exclude_pattern_refused() {
    assert!(FileFilter::new(None, None, None, &["a[".to_string()], false, false).is_err());
}
