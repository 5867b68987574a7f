use gitrw::error::GitError;
use gitrw::remove::{
    build_file_delete_patterns, build_folder_delete_patterns, build_regex_pattern, is_file_pattern,
};

fn patterns(texts: &[&str]) -> Vec<Vec<u8>> {
    texts.iter().map(|text| text.as_bytes().to_vec()).collect()
}

#[test]
pub fn folder_deletion_patterns() {
    let patterns: Vec<Vec<u8>> = patterns(&[
        "/some/folder",
        "/another/folder/",
        "*some_folder",
        "*my/directory",
        "/x/y*",
        "bin/debug",
        "foo/bar/",
    ]);

    let matcher = build_folder_delete_patterns(&patterns).unwrap();
    let matches = |path: &[u8]| matcher.matches(path);

    assert!(matches(b"/some/folder/"));
    assert!(matches(b"/another/folder/"));
    assert!(matches(b"/this/is_some_folder/"));
    assert!(matches(b"/this/is/some_folder/"));
    assert!(matches(b"/my/directory/"));
    assert!(matches(b"/_my/directory/"));
    assert!(matches(b"/x/y/"));
    assert!(matches(b"/x/y/z/"));
    assert!(matches(b"/src/bin/debug/"));
    assert!(matches(b"/bin/debug/"));
    assert!(matches(b"/baz/foo/bar/"));
    assert!(matches(b"/foo/bar/"));

    assert!(!matches(b"/_bin/debug/"));
    assert!(!matches(b"/bin/debug_/"));
    assert!(!matches(b"/a/some/folder/"));
    assert!(!matches(b"/this/is_some_folder/b/"));
    assert!(!matches(b"/my/directory/b/"));
}

#[test]
pub fn file_deletion_patterns() {
    let patterns = patterns(&[
        "/some/folder/removeme.txt",
        "test.txt",
        "*/bin/test_with_folder.txt",
        "*test1.txt",
        "/var/opt/myfile*",
        "thisfile*",
    ]);
    let matcher = build_file_delete_patterns(&patterns).unwrap();
    let should_delete = |path: &[u8], name: &[u8]| matcher.matches(path, name);

    assert!(should_delete(b"/some/folder/", b"removeme.txt"));
    assert!(!should_delete(b"/some/folder/", b"1removeme.txt"));
    assert!(!should_delete(b"/some/folder/", b"removeme.txt1"));
    assert!(!should_delete(b"/some/folder/", b"removeme.tx"));
    assert!(!should_delete(b"/some/folder_/", b"removeme.txt"));

    assert!(should_delete(b"/", b"test.txt"));
    assert!(should_delete(b"/hello/world/", b"test.txt"));

    assert!(should_delete(b"/test/bin/", b"test_with_folder.txt"));
    assert!(!should_delete(b"/test/bin/another_folder", b"test_with_folder.txt"));

    assert!(should_delete(b"/some/folder/", b"test1.txt"));
    assert!(should_delete(b"/", b"test1.txt"));
    assert!(should_delete(b"/some/folder/", b"more_to_this_test1.txt"));
    assert!(should_delete(b"/", b"more_to_this_test1.txt"));

    assert!(should_delete(b"/var/opt/", b"myfile.txt"));
    assert!(should_delete(b"/var/opt/", b"myfile"));
    assert!(!should_delete(b"/var/opt/", b"_myfile.txt"));

    assert!(should_delete(b"/some/folder/", b"thisfile.txt"));
    assert!(should_delete(b"/another/folder/", b"thisfile.txt"));
    assert!(should_delete(b"/some/folder/", b"thisfile"));
    assert!(should_delete(b"/", b"thisfile"));

    assert!(!should_delete(b"/", b"_thisfile"));
    assert!(!should_delete(b"/", b"test.txt1"));
    assert!(!should_delete(b"/hello/world", b"1test.txt"));
}

#[test]
fn unsupported_patterns_are_refused() {
    assert!(!is_file_pattern(b"some/file.txt"));
    assert!(!is_file_pattern(b""));
    assert!(is_file_pattern(b"file.txt"));
    assert_eq!(
        build_file_delete_patterns(&patterns(&["ok.txt", "some/file.txt"])).err(),
        Some(GitError::InvalidPattern)
    );
    assert_eq!(
        build_folder_delete_patterns(&patterns(&["ok", ""])).err(),
        Some(GitError::InvalidPattern)
    );
    assert!(build_file_delete_patterns(&patterns(&[])).unwrap().matches(b"/", b"a") == false);
    assert!(build_folder_delete_patterns(&patterns(&[])).unwrap().matches(b"/a/") == false);
}

#[test]
fn regex_patterns_match_on_the_whole_path() {
    let matcher =
        build_regex_pattern(&vec![String::from(r"^/src/.*\.key$"), String::from("tmp")]).unwrap();
    assert!(matcher.matches(b"/src/", b"secret.key"));
    assert!(matcher.matches(b"/src/deep/", b"a.key"));
    assert!(matcher.matches(b"/other/", b"tmpfile"));
    assert!(!matcher.matches(b"/lib/", b"secret.key"));
    assert!(!matcher.matches(b"/src/", b"secret.key.bak"));
    let none = build_regex_pattern(&Vec::new()).unwrap();
    assert!(!none.matches(b"/src/", b"secret.key"));
    assert_eq!(
        build_regex_pattern(&vec![String::from("(")]).err(),
        Some(GitError::InvalidPattern)
    );
}
