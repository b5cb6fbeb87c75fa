use viewer_on_tauri::directory::{
    folder_entry, folder_entry_type, not_a_directory_message, sort_folder_entries, sort_paths,
};

#[test]
fn folder_entry_types() {
    assert_eq!(folder_entry_type("/d/a.PNG").as_deref(), Some("image"));
    assert_eq!(folder_entry_type("/d/a.cbz").as_deref(), Some("zip"));
    assert_eq!(folder_entry_type("/d/a.rar").as_deref(), Some("rar"));
    assert_eq!(folder_entry_type("/d/a.pdf").as_deref(), Some("pdf"));
    assert_eq!(folder_entry_type("/d/a.txt"), None);
}

#[test]
fn folder_entries_are_built_and_sorted() {
    let mut entries: Vec<_> = ["/d/b.zip", "/d/A.png", "/d/skip.txt", "/d/c.pdf"]
        .iter()
        .enumerate()
        .filter_map(|(i, p)| folder_entry(p, i as u64 * 10))
        .collect();
    assert_eq!(entries.len(), 3);
    sort_folder_entries(&mut entries);
    let got: Vec<(&str, &str, &str, u64)> = entries
        .iter()
        .map(|e| (e.path.as_str(), e.name.as_str(), e.entry_type.as_str(), e.size))
        .collect();
    assert_eq!(
        got,
        vec![("/d/A.png", "A.png", "image", 10), ("/d/b.zip", "b.zip", "zip", 0), ("/d/c.pdf", "c.pdf", "pdf", 30)]
    );
}

#[test]
fn sort_paths_is_plain_string_order() {
    let mut v = vec!["b".to_string(), "B".to_string(), "a".to_string(), "a".to_string()];
    sort_paths(&mut v);
    assert_eq!(v, vec!["B", "a", "a", "b"]);
}

#[test]
fn not_a_directory_message_text() {
    assert_eq!(not_a_directory_message("/x"), "Not a directory: /x");
}
