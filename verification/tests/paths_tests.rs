use std::path::Path;

use duperr::paths::{extension, file_name, is_hidden, join, path_components, same_path, starts_with};

fn sp(p: &[u8]) -> &Path {
    Path::new(std::str::from_utf8(p).unwrap())
}

fn bytes_of(p: &Path) -> Vec<u8> {
    p.to_str().unwrap().as_bytes().to_vec()
}

fn std_components(p: &[u8]) -> Vec<Vec<u8>> {
    sp(p).components().map(|c| bytes_of(Path::new(c.as_os_str()))).collect()
}

const SAMPLES: &[&[u8]] = &[
    b"",
    b"/",
    b"//",
    b".",
    b"./",
    b"./a",
    b"..",
    b"../a/b",
    b"a",
    b"a/",
    b"a//b",
    b"a/./b/.",
    b"/a/b/../c",
    b"/./a",
    b"a/.hidden",
    b"/x/y.tar.gz",
    b"/x/.y",
    b"/x/y.",
    b"/x/..y",
    b"/x/y/..",
    b".../z",
];

#[test]
fn components_agree_with_std() {
    for p in SAMPLES {
        assert_eq!(path_components(p), std_components(p), "path {:?}", p);
    }
}

#[test]
fn file_name_and_extension_agree_with_std() {
    for p in SAMPLES {
        let ours = file_name(p);
        let theirs = sp(p).file_name().map(|n| bytes_of(Path::new(n)));
        assert_eq!(ours, theirs, "path {:?}", p);
        let ext = ours.as_ref().and_then(|n| extension(n));
        let std_ext = sp(p).extension().map(|e| bytes_of(Path::new(e)));
        assert_eq!(ext, std_ext, "path {:?}", p);
    }
}

#[test]
fn starts_with_agrees_with_std() {
    for a in SAMPLES {
        for b in SAMPLES {
            let theirs = sp(a).starts_with(sp(b));
            assert_eq!(starts_with(a, b), theirs, "{:?} starts with {:?}", a, b);
        }
    }
}

#[test]
fn join_agrees_with_std() {
    for a in SAMPLES {
        for b in SAMPLES {
            let theirs = sp(a).join(sp(b));
            assert_eq!(join(a, b), bytes_of(&theirs), "{:?} joined with {:?}", a, b);
        }
    }
}

#[test]
fn hidden_names() {
    assert!(is_hidden(b"/home/u/.profile"));
    assert!(!is_hidden(b"/home/.u/profile"));
    assert!(!is_hidden(b"/home/u/.."));
    assert!(!is_hidden(b"."));
    assert!(is_hidden(b".git"));
}

#[test]
fn same_path_agrees_with_std() {
    for a in SAMPLES {
        for b in SAMPLES {
            assert_eq!(same_path(a, b), sp(a) == sp(b), "{:?} == {:?}", a, b);
        }
    }
}
