use std::path::Path;
use viewer_on_tauri::media::{
    entry_name, file_name_or_default, file_stem_or_default, is_supported_archive,
    is_supported_image, is_supported_pdf, is_supported_rar, join, safe_relative_path,
    sanitize_name,
};

const SAMPLE_PATHS: &[&str] = &[
    "",
    "/",
    ".",
    "..",
    "a",
    "a.png",
    "A.PNG",
    ".png",
    "..png",
    "a.",
    "a.b.c",
    "dir/sub/pic.JPG",
    "dir/sub/",
    "dir/sub/.",
    "dir/sub/..",
    "./x.webp",
    "/abs/y.gif",
    "//double//slash.bmp",
    "comic.cbz",
    "book.ZIP",
    "archive.rar",
    "doc.pdf",
    "noext",
    "weird name.avif",
    "x.svg/",
    "x.tar.gz",
    ".hidden",
    "dots...",
    "a/./b/../c.jpeg",
];

#[test]
fn entry_name_matches_std_file_name() {
    for p in SAMPLE_PATHS {
        let expected = Path::new(p)
            .file_name()
            .map(|n| n.to_string_lossy().to_string())
            .unwrap_or_else(|| "image".to_string());
        assert_eq!(entry_name(p), expected, "path {p:?}");
    }
}

#[test]
fn file_stem_matches_std_file_stem() {
    for p in SAMPLE_PATHS {
        let expected = Path::new(p)
            .file_stem()
            .map(|n| n.to_string_lossy().to_string())
            .unwrap_or_else(|| "archive".to_string());
        assert_eq!(file_stem_or_default(p, "archive"), expected, "path {p:?}");
    }
}

fn std_ext(p: &str) -> Option<String> {
    Path::new(p).extension().and_then(|e| e.to_str()).map(|e| e.to_ascii_lowercase())
}

#[test]
fn classification_matches_std_extension() {
    for p in SAMPLE_PATHS {
        let ext = std_ext(p);
        let e = ext.as_deref();
        assert_eq!(
            is_supported_image(p),
            matches!(e, Some("png" | "jpg" | "jpeg" | "webp" | "gif" | "svg" | "bmp" | "avif")),
            "path {p:?}"
        );
        assert_eq!(is_supported_archive(p), matches!(e, Some("zip" | "cbz")), "path {p:?}");
        assert_eq!(is_supported_rar(p), e == Some("rar"), "path {p:?}");
        assert_eq!(is_supported_pdf(p), e == Some("pdf"), "path {p:?}");
    }
}

#[test]
fn classification_examples() {
    assert!(is_supported_image("a/b/C.PNG"));
    assert!(is_supported_image("x.jpeg"));
    assert!(is_supported_image("a.png/"));
    assert!(!is_supported_image(".png"));
    assert!(!is_supported_image("png"));
    assert!(!is_supported_image("a.png/.."));
    assert!(!is_supported_image("dir.zip/x.txt"));
    assert!(is_supported_archive("x.CBZ"));
    assert!(is_supported_archive("x.zip"));
    assert!(!is_supported_archive("x.rar"));
    assert!(is_supported_rar("X.Rar"));
    assert!(is_supported_pdf("paper.PDF"));
    assert!(!is_supported_pdf("paper.pdfx"));
}

#[test]
fn classification_is_exclusive() {
    for p in SAMPLE_PATHS {
        let n = [
            is_supported_image(p),
            is_supported_archive(p),
            is_supported_rar(p),
            is_supported_pdf(p),
        ]
        .iter()
        .filter(|b| **b)
        .count();
        assert!(n <= 1, "path {p:?}");
    }
}

#[test]
fn sanitize_name_replaces_other_characters() {
    assert_eq!(sanitize_name("My Comic.zip"), "My_Comic_zip");
    assert_eq!(sanitize_name("a-b_c9"), "a-b_c9");
    assert_eq!(sanitize_name("日本"), "__");
    assert_eq!(sanitize_name(""), "archive");
    assert_eq!(sanitize_name("../x"), "___x");
}

#[test]
fn sanitize_name_is_idempotent() {
    for s in ["My Comic.zip", "", "日本語.rar", "ok_name", "a b c"] {
        let once = sanitize_name(s);
        assert_eq!(sanitize_name(&once), once);
        assert!(!once.is_empty());
        assert!(once.chars().all(|c| c.is_ascii_alphanumeric() || c == '-' || c == '_'));
    }
}

fn std_safe_relative(p: &str) -> Option<String> {
    let mut clean = std::path::PathBuf::new();
    for component in Path::new(p).components() {
        if let std::path::Component::Normal(segment) = component {
            clean.push(segment);
        }
    }
    if clean.as_os_str().is_empty() {
        None
    } else {
        Some(clean.to_string_lossy().to_string())
    }
}

#[test]
fn safe_relative_path_examples() {
    assert_eq!(safe_relative_path("../a/./b//c.png").as_deref(), Some("a/b/c.png"));
    assert_eq!(safe_relative_path("/abs/x.jpg").as_deref(), Some("abs/x.jpg"));
    assert_eq!(safe_relative_path("../.."), None);
    assert_eq!(safe_relative_path(""), None);
    assert_eq!(safe_relative_path("a/../b").as_deref(), Some("a/b"));
}

#[test]
fn safe_relative_path_matches_std_components() {
    for p in SAMPLE_PATHS {
        assert_eq!(safe_relative_path(p), std_safe_relative(p), "path {p:?}");
    }
}

#[test]
fn safe_relative_path_is_idempotent() {
    for p in SAMPLE_PATHS {
        if let Some(q) = safe_relative_path(p) {
            assert_eq!(safe_relative_path(&q).as_deref(), Some(q.as_str()));
            assert!(!q.starts_with('/'));
            assert!(!q.split('/').any(|s| s == ".." || s == "." || s.is_empty()));
        }
    }
}

#[test]
fn entry_name_examples() {
    assert_eq!(entry_name("dir/sub/pic.png"), "pic.png");
    assert_eq!(entry_name("/"), "image");
    assert_eq!(entry_name("a/.."), "image");
    assert_eq!(entry_name("a/b/"), "b");
}

#[test]
fn file_name_and_stem_defaults() {
    assert_eq!(file_name_or_default("x/y.pdf", "document"), "y.pdf");
    assert_eq!(file_name_or_default("x/..", "document"), "document");
    assert_eq!(file_stem_or_default("a/b.tar.gz", "archive"), "b.tar");
    assert_eq!(file_stem_or_default(".hidden", "archive"), ".hidden");
    assert_eq!(file_stem_or_default("/", "archive"), "archive");
}

#[test]
fn join_matches_std_join() {
    let cases = [("/tmp", "x"), ("/tmp/", "x"), ("", "x"), ("/tmp", "/abs"), ("a/b", "c/d.png"), ("a", "")];
    for (base, rel) in cases {
        let expected = Path::new(base).join(rel).to_string_lossy().to_string();
        assert_eq!(join(base, rel), expected, "join {base:?} {rel:?}");
    }
}

#[test]
fn safe_entry_paths_stay_inside_the_directory() {
    for p in ["../../x.png", "/etc/passwd", "a/../../b.jpg", "./c/./d.gif"] {
        let rel = safe_relative_path(p).unwrap();
        let out = join("/out", &rel);
        assert!(out.starts_with("/out/"), "{out:?}");
        assert!(!out["/out/".len()..].split('/').any(|s| s == ".."));
    }
    assert_eq!(join("/out", &safe_relative_path("../../x.png").unwrap()), "/out/x.png");
}
