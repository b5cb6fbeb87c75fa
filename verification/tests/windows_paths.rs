use viewer_on_tauri::archive::{
    flat_entry_output, outer_entry_action, rar_entry_rel, OuterEntry, Phase1Collector, RarOutcome,
};
use viewer_on_tauri::media::{
    entry_name, file_name_or_default, file_stem_or_default, is_supported_image, join, paths_equal,
    safe_relative_path,
};

#[test]
fn backslashes_separate_components() {
    assert_eq!(safe_relative_path("..\\..\\evil.png").as_deref(), Some("evil.png"));
    assert_eq!(safe_relative_path("a\\..\\..\\b.jpg").as_deref(), Some("a/b.jpg"));
    assert_eq!(safe_relative_path("sub\\dir/img.png").as_deref(), Some("sub/dir/img.png"));
    assert_eq!(safe_relative_path("..\\.."), None);
    assert_eq!(entry_name("sub\\img.png"), "img.png");
    assert_eq!(entry_name("C:\\x\\a.png"), "a.png");
    assert_eq!(file_stem_or_default("dir\\book.cbz", "archive"), "book");
    assert!(is_supported_image("x\\y.PNG"));
}

#[test]
fn drive_prefixes_are_no_components() {
    assert_eq!(safe_relative_path("C:\\Users\\me\\p.png").as_deref(), Some("Users/me/p.png"));
    assert_eq!(safe_relative_path("C:p.png").as_deref(), Some("p.png"));
    assert_eq!(file_name_or_default("D:", "archive"), "archive");
    assert_eq!(file_name_or_default("D:\\", "archive"), "archive");
    // a drive-like name that does not start the path is an ordinary name
    assert_eq!(safe_relative_path("\\C:x").as_deref(), Some("C:x"));
}

#[test]
fn joining_on_windows_paths() {
    assert_eq!(join("C:\\tmp", "x"), "C:\\tmp/x");
    assert_eq!(join("C:\\tmp\\", "x"), "C:\\tmp\\x");
    assert_eq!(join("C:\\tmp", "D:\\y"), "D:\\y");
    assert_eq!(join("C:\\tmp", "\\y"), "C:\\y");
    assert_eq!(join("C:", "x"), "C:x");
    assert_eq!(join("/tmp", "\\y"), "\\y");
}

#[test]
fn path_equality_with_drives_and_backslashes() {
    assert!(paths_equal("C:\\a\\b\\", "c:/a//b"));
    assert!(paths_equal("C:\\a\\.\\b", "C:/a/b"));
    assert!(!paths_equal("C:\\a", "D:\\a"));
    assert!(!paths_equal("C:a", "C:\\a"));
    assert!(!paths_equal(".\\a", "a"));
}

#[test]
fn flattening_drops_backslashed_directories() {
    assert_eq!(flat_entry_output("sub\\img.png", "/f").as_deref(), Some("/f/img.png"));
    assert!(matches!(outer_entry_action("b\\c.png", "/o"), OuterEntry::Image { out } if out == "/o/b\\c.png"));
}

#[test]
fn rar_entries_and_phase_one_steps() {
    assert_eq!(rar_entry_rel(true, "..\\a\\p.png").as_deref(), Some("a/p.png"));
    assert_eq!(rar_entry_rel(false, "a\\p.png"), None);
    assert_eq!(rar_entry_rel(true, ".."), None);

    let mut c = Phase1Collector::new(3);
    let img = OuterEntry::Image { out: "/o/p.png".to_string() };
    assert!(c.settle_rar_entry("p.png", 5, &img, RarOutcome::AsPlanned));
    assert_eq!((c.current, c.images.len()), (1, 1));
    assert_eq!(c.images[0].name, "p.png");
    let nested = OuterEntry::Nested { out: "/o/n.zip".to_string() };
    assert!(c.settle_rar_entry("n.zip", 2, &nested, RarOutcome::AsPlanned));
    assert_eq!(c.nested_archives, vec!["/o/n.zip".to_string()]);
    assert!(c.settle_rar_entry("q.png", 1, &img, RarOutcome::Skipped));
    assert_eq!((c.current, c.images.len()), (3, 1));
    assert!(!c.settle_rar_entry("r.png", 1, &img, RarOutcome::Failed));
    assert_eq!(c.current, 3);
}

#[test]
fn unc_device_and_verbatim_prefixes_are_no_components() {
    assert_eq!(safe_relative_path("\\\\server\\share\\a.png").as_deref(), Some("a.png"));
    assert_eq!(safe_relative_path("//server/share/x/a.png").as_deref(), Some("x/a.png"));
    assert_eq!(safe_relative_path("\\\\?\\C:\\x\\a.png").as_deref(), Some("x/a.png"));
    assert_eq!(safe_relative_path("\\\\?\\UNC\\srv\\sh\\b.png").as_deref(), Some("b.png"));
    assert_eq!(file_name_or_default("\\\\.\\COM1", "image"), "image");
    // without a share there is no UNC prefix: a root and a name
    assert_eq!(safe_relative_path("\\\\server").as_deref(), Some("server"));
    assert!(paths_equal("\\\\server\\share", "//server/share\\"));
    assert!(paths_equal("\\\\?\\c:\\x", "\\\\?\\C:\\x"));
    assert!(!paths_equal("\\\\server\\share\\a", "\\\\?\\UNC\\server\\share\\a"));
    assert_eq!(join("\\\\server\\share\\dir", "\\y"), "\\\\server\\share\\y");
    assert_eq!(join("C:\\tmp", "\\\\server\\share\\y"), "\\\\server\\share\\y");
}
