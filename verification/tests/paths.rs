use std::path::PathBuf;

use amiga_lzx::paths::{
    clean_archive_path, entry_name, input_action, sanitize_archive_path, InputAction,
};

#[test]
fn sanitizer_accepts_relative_archive_paths() {
    assert_eq!(
        PathBuf::from(sanitize_archive_path("dir/sub/file.txt").unwrap()),
        PathBuf::from("dir").join("sub").join("file.txt")
    );
    assert_eq!(
        PathBuf::from(sanitize_archive_path("./file.txt").unwrap()),
        PathBuf::from("file.txt")
    );
}

#[test]
fn sanitizer_rejects_paths_that_can_escape_or_target_windows_roots() {
    for name in [
        "",
        "/abs.txt",
        "../evil.txt",
        "dir/../../evil.txt",
        r"..\evil.txt",
        r"C:\tmp\evil.txt",
        "C:evil.txt",
        "file.txt:stream",
    ] {
        assert!(sanitize_archive_path(name).is_none(), "{name}");
    }
}

#[test]
fn idle_segments_are_dropped() {
    assert_eq!(sanitize_archive_path("a//b/./c/").as_deref(), Some("a/b/c"));
    assert_eq!(sanitize_archive_path("...").as_deref(), Some("..."));
    assert_eq!(sanitize_archive_path("a/..b").as_deref(), Some("a/..b"));
    assert_eq!(sanitize_archive_path("./."), None);
    assert_eq!(sanitize_archive_path("a/.."), None);
    let once = sanitize_archive_path("x/./y").unwrap();
    assert_eq!(sanitize_archive_path(&once), Some(once));
}

#[test]
fn cleaning_strips_a_root() {
    assert_eq!(clean_archive_path("//dir/file").as_deref(), Some("dir/file"));
    assert_eq!(clean_archive_path("a:b\\c").as_deref(), Some("a:b\\c"));
    assert_eq!(clean_archive_path("/"), None);
    assert_eq!(clean_archive_path("x/../y"), None);
    let once = clean_archive_path("//a/./b").unwrap();
    assert_eq!(clean_archive_path(&once), Some(once));
}

#[test]
fn names_in_directories() {
    assert_eq!(entry_name("dir", "é.txt"), "dir/é.txt");
}

#[test]
fn links_are_skipped_before_anything_else() {
    assert_eq!(input_action(true, true, true), InputAction::SkipLink);
    assert_eq!(input_action(false, true, false), InputAction::Add);
    assert_eq!(input_action(false, false, true), InputAction::Enter);
    assert_eq!(input_action(false, false, false), InputAction::SkipOther);
}
