use promptls::path::{
    copy_bytes, extension, is_same_path, is_under, join, same_bytes, split_components, starts_with,
};
use promptls::rank::bytes_before;
use std::path::{Path, PathBuf};

const PATHS: [&str; 24] = [
    "", "/", "//", ".", "./", "..", "a", "a/", "a//", "./a", "a/.", "a/./b", "a//b", "/a", "//a/b", "/a/..",
    "/a/../b", "a/b.c", ".hidden", ".hidden.txt", "x.tar.gz", "x.", "/./a", "ab/c",
];

#[test]
fn prefixes_and_equality_agree_with_std() {
    for a in PATHS {
        for b in PATHS {
            assert_eq!(
                starts_with(a.as_bytes(), b.as_bytes()),
                Path::new(a).starts_with(Path::new(b)),
                "{a:?} starts with {b:?}"
            );
            assert_eq!(
                is_same_path(a.as_bytes(), b.as_bytes()),
                Path::new(a) == Path::new(b),
                "{a:?} is {b:?}"
            );
        }
    }
}

#[test]
fn joining_agrees_with_std() {
    for a in PATHS {
        for b in PATHS {
            let joined = PathBuf::from(a).join(b);
            assert_eq!(
                join(a.as_bytes(), b.as_bytes()),
                joined.to_str().unwrap().as_bytes(),
                "{a:?} and {b:?}"
            );
            if !a.is_empty() && !b.starts_with('/') {
                assert!(starts_with(&join(a.as_bytes(), b.as_bytes()), a.as_bytes()));
            }
        }
    }
}

#[test]
fn components_agree_with_std() {
    for a in PATHS {
        let expected: Vec<Vec<u8>> =
            Path::new(a).components().map(|c| c.as_os_str().as_encoded_bytes().to_vec()).collect();
        assert_eq!(split_components(a.as_bytes()), expected, "{a:?}");
    }
}

#[test]
fn extensions_agree_with_std() {
    for a in PATHS {
        let expected = Path::new(a).extension().map(|e| e.as_encoded_bytes().to_vec());
        assert_eq!(extension(a.as_bytes()), expected, "{a:?}");
    }
}

#[test]
fn bytes_are_compared_and_copied() {
    for a in PATHS {
        for b in PATHS {
            assert_eq!(same_bytes(a.as_bytes(), b.as_bytes()), a == b);
            assert_eq!(bytes_before(a.as_bytes(), b.as_bytes()), a < b);
        }
    }
    assert_eq!(copy_bytes(b"abcd", 1, 3), b"bc");
}

#[test]
fn what_names_something_under_a_directory() {
    for path in ["/p", "/p/a", "/p/./a//b", "/p/a/../b", "/p/a/b/../..", "/p/a/.."] {
        assert!(is_under(path.as_bytes(), b"/p"), "{path}");
    }
    for path in ["/", "/q", "/pp", "/p/..", "/p/../p", "/p/../q", "/p/a/../../b", "/p/a/../../p/a", "p/a", ""] {
        assert!(!is_under(path.as_bytes(), b"/p"), "{path}");
    }
}
