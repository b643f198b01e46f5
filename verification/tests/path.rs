use mempe::path::{extension, file_name, file_stem, replace_extension};

fn name(path: &str) -> Option<String> {
    file_name(path)
}

#[test]
fn finds_file_names() {
    assert_eq!(name("C:\\Windows\\System32\\ntdll.dll"), Some("ntdll.dll".to_string()));
    assert_eq!(name("C:ntdll.dll"), Some("ntdll.dll".to_string()));
    assert_eq!(name("a/b\\c"), Some("c".to_string()));
    assert_eq!(name("folder\\.\\"), Some("folder".to_string()));
    assert_eq!(name("folder\\.."), None);
    assert_eq!(name("C:\\"), None);
    assert_eq!(name(""), None);
    assert_eq!(name("\\\\server\\share"), None);
    assert_eq!(name("\\\\server\\share\\file.txt"), Some("file.txt".to_string()));
    assert_eq!(name("\\\\?\\C:\\a/b"), Some("a/b".to_string()));
    assert_eq!(name("\\\\.\\device\\x"), Some("x".to_string()));
    assert_eq!(name("\\\\?\\C:/a"), Some("a".to_string()));
    assert_eq!(name("\\\\?\\C:/foo/bar"), Some("foo/bar".to_string()));
    assert_eq!(name("\\\\?\\C:/"), None);
    assert_eq!(name("\\\\?\\C:x"), None);
    assert_eq!(name("\\\\?\\UNC\\server\\share\\f"), Some("f".to_string()));
    assert_eq!(name("\\\\?\\UNC/server\\share\\f"), Some("f".to_string()));
    assert_eq!(name("\\\\?\\UNC/server\\share"), None);
}

#[test]
fn splits_names_at_the_last_dot() {
    assert_eq!(file_stem("a.b.dll"), Some("a.b".to_string()));
    assert_eq!(extension("a.b.dll"), Some("dll".to_string()));
    assert_eq!(file_stem(".profile"), Some(".profile".to_string()));
    assert_eq!(extension(".profile"), None);
    assert_eq!(extension("name."), Some("".to_string()));
    assert_eq!(extension("plain"), None);
    assert_eq!(file_stem(".."), None);
}

#[test]
fn replaces_extensions() {
    assert_eq!(replace_extension("a\\b.exe", "dll"), "a\\b.dll");
    assert_eq!(replace_extension("a\\b", "dll"), "a\\b.dll");
    assert_eq!(replace_extension("a\\b.exe", ""), "a\\b");
    assert_eq!(replace_extension("..", "dll"), "..");
}
