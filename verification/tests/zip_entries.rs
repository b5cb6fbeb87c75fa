use std::io::{Cursor, Write};
use viewer_on_tauri::archive::{NestedEntry, OuterEntry};
use viewer_on_tauri::upscale::ncnn_file_data;
use viewer_on_tauri::zip_entries::{
    flat_zip_plan, nested_zip_plan, outer_zip_plan, read_zip_entry, read_zip_listing, stream_zip_plan,
    zip_entry_total,
};
use zip::write::SimpleFileOptions;
use zip::{CompressionMethod, ZipWriter};

fn archive(files: &[(&str, &[u8])], dirs: &[&str]) -> Vec<u8> {
    let mut w = ZipWriter::new(Cursor::new(Vec::new()));
    let opts = SimpleFileOptions::default().compression_method(CompressionMethod::Deflated);
    for d in dirs {
        w.add_directory(*d, opts).unwrap();
    }
    for (name, data) in files {
        w.start_file(*name, opts).unwrap();
        w.write_all(data).unwrap();
    }
    w.finish().unwrap().into_inner()
}

fn sample() -> Vec<u8> {
    archive(
        &[
            ("dir/p1.png", b"png-data"),
            ("../evil.png", b"x"),
            ("notes.txt", b"text"),
            ("inner.zip", b"zz"),
            ("sub/b.rar", b"rr"),
            ("doc.PDF", b"pdf"),
        ],
        &["dir/"],
    )
}

#[test]
fn listing_reads_every_entry() {
    let bytes = sample();
    assert_eq!(zip_entry_total(&bytes), Ok(7));
    let listing = read_zip_listing(&bytes).unwrap();
    assert_eq!(listing.len(), 7);
    let first = listing[0].as_ref().unwrap();
    assert!(first.is_dir);
    assert_eq!(first.name, "dir/");
    let png = listing[1].as_ref().unwrap();
    assert!(!png.is_dir);
    assert_eq!(png.enclosed_name.as_deref(), Some("dir/p1.png"));
    assert_eq!(png.size, 8);
    let evil = listing[2].as_ref().unwrap();
    assert_eq!(evil.enclosed_name, None);
    assert_eq!(read_zip_entry(&bytes, 1).unwrap(), b"png-data".to_vec());
    assert!(read_zip_entry(&bytes, 7).is_err());
}

#[test]
fn broken_archive_is_refused() {
    assert!(zip_entry_total(b"not a zip").is_err());
    assert!(read_zip_listing(b"not a zip").is_err());
    assert!(read_zip_listing(&[]).is_err());
}

#[test]
fn outer_plan_keeps_files_with_safe_names() {
    let bytes = sample();
    let listing = read_zip_listing(&bytes).unwrap();
    let plan = outer_zip_plan(&listing, "/x");
    let indices: Vec<usize> = plan.iter().map(|s| s.index).collect();
    assert_eq!(indices, vec![1, 3, 4, 5, 6]);
    assert!(matches!(&plan[0].action, OuterEntry::Image { out } if out == "/x/dir/p1.png"));
    assert_eq!(plan[0].size, 8);
    assert!(matches!(plan[1].action, OuterEntry::Skip));
    assert!(matches!(&plan[2].action, OuterEntry::Nested { out } if out == "/x/inner.zip"));
    assert!(matches!(&plan[3].action, OuterEntry::Nested { out } if out == "/x/b.rar"));
    assert!(matches!(plan[4].action, OuterEntry::Skip));
}

#[test]
fn flat_and_stream_plans() {
    let bytes = sample();
    let listing = read_zip_listing(&bytes).unwrap();
    let flat = flat_zip_plan(&listing, "/f");
    assert!(flat.failure.is_none());
    let outs: Vec<Option<String>> = flat.steps.into_iter().map(|s| s.action).collect();
    assert_eq!(
        outs,
        vec![
            Some("/f/p1.png".to_string()),
            None,
            Some("/f/inner.zip".to_string()),
            Some("/f/b.rar".to_string()),
            Some("/f/doc.PDF".to_string()),
        ]
    );
    let stream = stream_zip_plan(&listing, "/s");
    assert!(stream.failure.is_none());
    let outs: Vec<Option<String>> = stream.steps.into_iter().map(|s| s.action).collect();
    assert_eq!(outs, vec![Some("/s/dir/p1.png".to_string()), None, None, None, None]);
}

#[test]
fn nested_plan_opens_archives_only_when_recursing() {
    let bytes = sample();
    let listing = read_zip_listing(&bytes).unwrap();
    let plan = nested_zip_plan(&listing, "/n", true);
    assert!(matches!(&plan.steps[2].action,
        NestedEntry::NestedZip { sub_dir, temp_path } if sub_dir == "/n/inner" && temp_path == "/n/inner.zip"));
    assert!(matches!(&plan.steps[3].action,
        NestedEntry::NestedRar { sub_dir, temp_path } if sub_dir == "/n/b" && temp_path == "/n/b.rar"));
    let flat = nested_zip_plan(&listing, "/n", false);
    assert!(matches!(flat.steps[2].action, NestedEntry::Skip));
    assert!(matches!(flat.steps[3].action, NestedEntry::Skip));
}

#[test]
fn strict_plans_stop_at_an_unreadable_entry() {
    let mut bytes = archive(&[("a.png", b"aaaa"), ("b.png", b"bbbb"), ("c.png", b"cccc")], &[]);
    // break the local header of the second entry; the central directory still lists it
    let second = bytes.windows(4).enumerate().filter(|(_, w)| *w == b"PK\x03\x04").nth(1).unwrap().0;
    bytes[second] = b'X';
    let listing = read_zip_listing(&bytes).unwrap();
    assert_eq!(listing.len(), 3);
    assert!(listing[0].is_ok());
    assert!(listing[1].is_err());
    let plan = nested_zip_plan(&listing, "/n", true);
    assert_eq!(plan.steps.len(), 1);
    assert_eq!(plan.steps[0].index, 0);
    assert_eq!(plan.failure.as_ref().map(|f| f.0), Some(1));
    // the first phase passes over it and goes on
    let outer = outer_zip_plan(&listing, "/o");
    let indices: Vec<usize> = outer.iter().map(|s| s.index).collect();
    assert_eq!(indices, vec![0, 2]);
}

#[test]
fn ncnn_files_are_read_by_name() {
    let bytes = archive(
        &[("realcugan-ncnn-vulkan-20220728-windows/models-se/up2x-no-denoise.param", b"param")],
        &[],
    );
    assert_eq!(ncnn_file_data(&bytes, "models-se/up2x-no-denoise.param").unwrap(), b"param".to_vec());
    assert!(ncnn_file_data(&bytes, "vcomp140.dll").is_err());
}

