use viewer_on_tauri::media::paths_equal;
use viewer_on_tauri::archive::{final_rar_progress, rar_progress, 
    archive_names, drop_action, extract_dir_name, extract_dir_path, extracted_file,
    flat_entry_output, folder_extraction, nested_entry_action, nested_stem, outer_entry_action,
    progress_due, push_image, sort_by_path, stream_entry_output, temp_rar_path, temp_root,
    DropAction, ExtractState, ExtractedFile, NestedEntry, OuterEntry, Phase1Collector, Phase1Event,
};

fn file(path: &str) -> ExtractedFile {
    ExtractedFile { path: path.to_string(), name: String::new(), size: 0 }
}

fn paths(files: &[ExtractedFile]) -> Vec<&str> {
    files.iter().map(|f| f.path.as_str()).collect()
}

#[test]
fn push_image_records_entry_name() {
    let mut images = vec![file("/first")];
    push_image("/out/dir/p1.png", "dir/p1.png", 42, &mut images);
    assert_eq!(images.len(), 2);
    assert_eq!(images[0].path, "/first");
    assert_eq!(images[1].path, "/out/dir/p1.png");
    assert_eq!(images[1].name, "p1.png");
    assert_eq!(images[1].size, 42);
}

#[test]
fn extracted_file_defaults_name_to_image() {
    let f = extracted_file("/out/x", "..", 3);
    assert_eq!(f.name, "image");
    assert_eq!(f.path, "/out/x");
    assert_eq!(f.size, 3);
}

#[test]
fn sort_by_path_ignores_case() {
    let mut files = vec![file("B.png"), file("a.png"), file("C.png")];
    sort_by_path(&mut files);
    assert_eq!(paths(&files), vec!["a.png", "B.png", "C.png"]);
}

#[test]
fn sort_by_path_is_stable() {
    let mut files = vec![
        ExtractedFile { path: "X.png".into(), name: "first".into(), size: 1 },
        ExtractedFile { path: "b.png".into(), name: "b".into(), size: 2 },
        ExtractedFile { path: "x.png".into(), name: "second".into(), size: 3 },
        ExtractedFile { path: "a.png".into(), name: "a".into(), size: 4 },
    ];
    sort_by_path(&mut files);
    assert_eq!(paths(&files), vec!["a.png", "b.png", "X.png", "x.png"]);
    assert_eq!(files[2].name, "first");
    assert_eq!(files[3].name, "second");
    // sorting again changes nothing
    sort_by_path(&mut files);
    assert_eq!(paths(&files), vec!["a.png", "b.png", "X.png", "x.png"]);
}

#[test]
fn sort_by_path_orders_numbers_as_text() {
    let mut files = vec![file("p10.png"), file("p2.png"), file("p1.png")];
    sort_by_path(&mut files);
    assert_eq!(paths(&files), vec!["p1.png", "p10.png", "p2.png"]);
}

#[test]
fn extract_state_register_forget_take() {
    let mut st = ExtractState::new();
    st.register("/t/1".to_string());
    st.register("/t/2".to_string());
    st.register("/t/1".to_string());
    st.register("/t/3".to_string());
    st.forget("/t/1");
    assert_eq!(st.session_dirs, vec!["/t/2".to_string(), "/t/3".to_string()]);
    st.forget("/t/unknown");
    assert_eq!(st.session_dirs.len(), 2);
    let all = st.take_all();
    assert_eq!(all, vec!["/t/2".to_string(), "/t/3".to_string()]);
    assert!(st.session_dirs.is_empty());
}

#[test]
fn forget_compares_paths_by_component() {
    let mut st = ExtractState::new();
    st.register("/t/a".to_string());
    st.register("/t//a/".to_string());
    st.register("/t/./a".to_string());
    st.register("t/a".to_string());
    st.register("./t/a".to_string());
    st.register("/t/ab".to_string());
    st.forget("/t/a/");
    assert_eq!(st.session_dirs, vec!["t/a".to_string(), "./t/a".to_string(), "/t/ab".to_string()]);
    st.forget("./t/a");
    assert_eq!(st.session_dirs, vec!["t/a".to_string(), "/t/ab".to_string()]);
}

#[test]
fn paths_equal_follows_std_path() {
    let cases = ["/a/b", "/a/b/", "/a//b", "/a/./b", "a/b", "./a/b", ".", "", "/", "a/../b", "a/b/..", "./", ".a"];
    for x in cases {
        for y in cases {
            assert_eq!(
                paths_equal(x, y),
                std::path::Path::new(x) == std::path::Path::new(y),
                "{x:?} vs {y:?}"
            );
        }
    }
}

#[test]
fn register_then_forget_restores() {
    let mut st = ExtractState::new();
    st.register("/a".to_string());
    st.register("/b".to_string());
    let before = st.session_dirs.clone();
    st.register("/c".to_string());
    st.forget("/c");
    assert_eq!(st.session_dirs, before);
}

#[test]
fn extract_dir_names() {
    assert_eq!(extract_dir_name(1_700_000_000_000, "My Comic.zip"), "1700000000000-My_Comic_zip");
    assert_eq!(extract_dir_name(0, ""), "0-archive");
    assert_eq!(temp_root("/tmp"), "/tmp/viewer-on-tauri");
    assert_eq!(extract_dir_path("/tmp", 5, "a.rar"), "/tmp/viewer-on-tauri/5-a_rar");
}

#[test]
fn folder_extraction_layout() {
    let f = folder_extraction("/tmp", 5, "/x/y/Book.cbz");
    assert_eq!(f.session_dir, "/tmp/viewer-on-tauri/5-Book_cbz");
    assert_eq!(f.extract_dir, "/tmp/viewer-on-tauri/5-Book_cbz/Book");
    let g = folder_extraction("/tmp/", 6, "/");
    assert_eq!(g.session_dir, "/tmp/viewer-on-tauri/6-archive");
    assert_eq!(g.extract_dir, "/tmp/viewer-on-tauri/6-archive/archive");
}

#[test]
fn archive_names_and_temp_rar() {
    let (name, stem) = archive_names("/d/Vol 1.rar");
    assert_eq!(name, "Vol 1.rar");
    assert_eq!(stem, "Vol 1");
    assert_eq!(temp_rar_path("/d", "a b.rar"), "/d/a_b_rar.rar");
    assert_eq!(nested_stem("/d/inner.zip"), "inner");
    assert_eq!(nested_stem("/"), "nested");
}

#[test]
fn outer_entry_actions() {
    match outer_entry_action("ch1/p01.PNG", "/out") {
        OuterEntry::Image { out } => assert_eq!(out, "/out/ch1/p01.PNG"),
        _ => panic!("expected image"),
    }
    match outer_entry_action("ch1/inner.cbz", "/out") {
        OuterEntry::Nested { out } => assert_eq!(out, "/out/inner.cbz"),
        _ => panic!("expected nested"),
    }
    match outer_entry_action("inner.rar", "/out") {
        OuterEntry::Nested { out } => assert_eq!(out, "/out/inner.rar"),
        _ => panic!("expected nested"),
    }
    assert!(matches!(outer_entry_action("readme.txt", "/out"), OuterEntry::Skip));
    assert!(matches!(outer_entry_action("doc.pdf", "/out"), OuterEntry::Skip));
}

#[test]
fn stream_and_flat_entry_outputs() {
    assert_eq!(stream_entry_output("a/b.jpg", "/o").as_deref(), Some("/o/a/b.jpg"));
    assert_eq!(stream_entry_output("a/b.zip", "/o"), None);
    assert_eq!(flat_entry_output("a/b.jpg", "/o").as_deref(), Some("/o/b.jpg"));
    assert_eq!(flat_entry_output("a/c.pdf", "/o").as_deref(), Some("/o/c.pdf"));
    assert_eq!(flat_entry_output("a/d.cbz", "/o").as_deref(), Some("/o/d.cbz"));
    assert_eq!(flat_entry_output("a/e.txt", "/o"), None);
}

#[test]
fn nested_entry_actions() {
    match nested_entry_action("x/y.webp", "/o", false) {
        NestedEntry::Image { out } => assert_eq!(out, "/o/x/y.webp"),
        _ => panic!("expected image"),
    }
    match nested_entry_action("x/inner.zip", "/o", true) {
        NestedEntry::NestedZip { sub_dir, temp_path } => {
            assert_eq!(sub_dir, "/o/inner");
            assert_eq!(temp_path, "/o/inner.zip");
        }
        _ => panic!("expected nested zip"),
    }
    match nested_entry_action("x/inner.rar", "/o", true) {
        NestedEntry::NestedRar { sub_dir, temp_path } => {
            assert_eq!(sub_dir, "/o/inner");
            assert_eq!(temp_path, "/o/inner.rar");
        }
        _ => panic!("expected nested rar"),
    }
    assert!(matches!(nested_entry_action("x/inner.rar", "/o", false), NestedEntry::Skip));
    assert!(matches!(nested_entry_action("x/notes.txt", "/o", true), NestedEntry::Skip));
}

#[test]
fn progress_due_rules() {
    assert!(progress_due(100, 1, 10));
    assert!(!progress_due(99, 1, 10));
    assert!(progress_due(0, 10, 10));
}

#[test]
fn phase1_collector_reports() {
    let mut c = Phase1Collector::new(3);
    c.add_image("/o/b.png", "b.png", 1);
    c.advance();
    c.add_nested("/o/n.zip".to_string());
    c.advance();
    c.add_image("/o/A.png", "A.png", 2);
    c.advance();
    match c.progress() {
        Phase1Event::Progress { current, total } => assert_eq!((current, total), (3, 3)),
        _ => panic!("expected progress"),
    }
    match c.finish() {
        Phase1Event::Done { images, nested_archives } => {
            assert_eq!(paths(&images), vec!["/o/A.png", "/o/b.png"]);
            assert_eq!(nested_archives, vec!["/o/n.zip".to_string()]);
        }
        _ => panic!("expected done"),
    }
}

#[test]
fn drop_actions() {
    match drop_action("/p/pic.jpg", false) {
        DropAction::AddFile { name } => assert_eq!(name, "pic.jpg"),
        _ => panic!("expected file"),
    }
    match drop_action("/p/book.pdf", false) {
        DropAction::AddFile { name } => assert_eq!(name, "book.pdf"),
        _ => panic!("expected file"),
    }
    match drop_action("/p/vol.cbz", false) {
        DropAction::ExtractZip { new_dir_name } => assert_eq!(new_dir_name.as_deref(), Some("vol.cbz")),
        _ => panic!("expected zip"),
    }
    match drop_action("/p/vol.cbz", true) {
        DropAction::ExtractZip { new_dir_name } => assert_eq!(new_dir_name, None),
        _ => panic!("expected zip"),
    }
    match drop_action("/p/vol.rar", false) {
        DropAction::ExtractRar { new_dir_name } => assert_eq!(new_dir_name.as_deref(), Some("vol.rar")),
        _ => panic!("expected rar"),
    }
    assert!(matches!(drop_action("/p/notes.txt", false), DropAction::Ignore));
}

#[test]
fn extract_dir_name_is_one_component() {
    for name in ["../../etc/passwd", "/abs", "..", "", "a/b\\c"] {
        let n = extract_dir_name(42, name);
        assert!(!n.contains('/'), "{n:?}");
        assert!(n.len() >= 3);
        assert_ne!(n, "..");
    }
    assert_eq!(extract_dir_name(5, "../../etc"), "5-______etc");
}

#[test]
fn rar_flattening_progress() {
    assert!(rar_progress(99, 3).is_none());
    let p = rar_progress(100, 3).unwrap();
    assert_eq!((p.current, p.total), (3, 0));
    assert!(final_rar_progress(0).is_none());
    let p = final_rar_progress(7).unwrap();
    assert_eq!((p.current, p.total), (7, 0));
}
