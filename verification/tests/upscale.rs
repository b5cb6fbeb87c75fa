use viewer_on_tauri::upscale::descreenton::{Descreenton, DescreentonVariant, FIXED_SIZE};
use viewer_on_tauri::upscale::pixels::RgbPixels;
use viewer_on_tauri::upscale::real_cugan::RealCugan;
use viewer_on_tauri::upscale::{
    ncnn_zip_path, output_pixel_indices, tile_crop, tile_plan, upscale_output_dir,
    upscaled_file_name, uses_ncnn, CacheKey, SessionCache, TILE_OVERLAP, TILE_SIZE,
};

fn image(w: u32, h: u32, f: impl Fn(u32, u32) -> [u8; 3]) -> RgbPixels {
    let mut data = Vec::new();
    for y in 0..h {
        for x in 0..w {
            data.extend_from_slice(&f(x, y));
        }
    }
    RgbPixels { width: w, height: h, data }
}

#[test]
fn encode_region_pads_to_fixed_size_with_edge_replication() {
    let model = Descreenton(DescreentonVariant::Vl4);
    let img = image(5, 3, |x, y| [(x * 10) as u8, (y * 20) as u8, 100]);
    let (bytes, pad_w, pad_h) = model.encode_region(&img, 0, 0, 5, 3);
    let data: Vec<f32> = bytes.iter().map(|b| *b as f32 / 255.0).collect();
    assert_eq!(pad_w, FIXED_SIZE);
    assert_eq!(pad_h, FIXED_SIZE);
    assert_eq!(data.len(), 3 * FIXED_SIZE * FIXED_SIZE);

    // the right edge repeats the last column
    let last_col = img.get(4, 0, 0);
    assert_eq!(data[0 * pad_h * pad_w + 0 * pad_w + 5], last_col as f32 / 255.0);
    // the bottom edge repeats the last row
    let last_row = img.get(0, 2, 0);
    assert_eq!(data[0 * pad_h * pad_w + 3 * pad_w + 0], last_row as f32 / 255.0);
}

#[test]
fn descreenton_constants() {
    let m = Descreenton(DescreentonVariant::Vh4);
    assert_eq!(m.model_file(2), "descreenton_vh4.onnx");
    assert_eq!(Descreenton(DescreentonVariant::Vl4).model_file(2), "descreenton_vl4.onnx");
    assert_eq!(m.output_scale(2), 4);
    assert_eq!(m.tile_size() + 2 * m.tile_overlap(), FIXED_SIZE);
    assert_eq!(m.input_name(), "input");
    assert_eq!(m.output_name(), "output");
}

#[test]
fn real_cugan_pads_odd_sides_by_one() {
    let model = RealCugan;
    let img = image(4, 4, |x, y| [(x + 10 * y) as u8, 0, 200]);
    let (data, pad_w, pad_h) = model.encode_region(&img, 1, 1, 3, 3);
    assert_eq!((pad_w, pad_h), (4, 4));
    assert_eq!(data.len(), 3 * 16);
    let at = |c: usize, y: usize, x: usize| data[c * 16 + y * 4 + x];
    assert_eq!(at(0, 0, 0), 11);
    assert_eq!(at(0, 0, 2), 13);
    assert_eq!(at(0, 0, 3), 13); // repeated last column
    assert_eq!(at(0, 3, 1), 32); // repeated last row
    assert_eq!(at(0, 3, 3), 33); // corner
    assert_eq!(at(2, 2, 2), 200);
    let (even, w2, h2) = model.encode_region(&img, 0, 0, 4, 2);
    assert_eq!((w2, h2, even.len()), (4, 2, 24));
}

#[test]
fn real_cugan_constants() {
    let m = RealCugan;
    assert_eq!(m.model_file(4), "realcugan_4x_conservative.onnx");
    assert_eq!(m.model_file(2), "realcugan_2x_conservative.onnx");
    assert_eq!(m.model_file(3), "realcugan_2x_conservative.onnx");
    assert_eq!(m.output_scale(3), 3);
    assert_eq!((m.tile_size(), m.tile_overlap()), (256, 32));
    assert_eq!(m.decode_indices(2, 3, 1, 1), (4, 10, 16));
}

#[test]
fn tile_plan_layout() {
    let plan = tile_plan(600, 300, TILE_SIZE, TILE_OVERLAP);
    assert_eq!(plan.len(), 6);
    let t = &plan[0];
    assert_eq!((t.x0, t.y0, t.x1, t.y1, t.ex0, t.ey0, t.ex1, t.ey1), (0, 0, 256, 256, 0, 0, 288, 288));
    let t = &plan[2];
    assert_eq!((t.x0, t.x1, t.ex0, t.ex1), (512, 600, 480, 600));
    let t = &plan[4];
    assert_eq!((t.x0, t.y0, t.x1, t.y1, t.ex0, t.ey0, t.ex1, t.ey1), (256, 256, 512, 300, 224, 224, 544, 300));
    assert!(tile_plan(0, 10, TILE_SIZE, TILE_OVERLAP).is_empty());
    assert!(tile_plan(10, 0, TILE_SIZE, TILE_OVERLAP).is_empty());
}

#[test]
fn tile_plan_cores_partition_the_image() {
    for (w, h, t, o) in [(7usize, 5usize, 3usize, 1usize), (10, 10, 5, 2), (1, 1, 4, 4), (9, 4, 2, 0)] {
        let plan = tile_plan(w, h, t, o);
        for y in 0..h {
            for x in 0..w {
                let n = plan.iter().filter(|k| k.x0 <= x && x < k.x1 && k.y0 <= y && y < k.y1).count();
                assert_eq!(n, 1, "pixel ({x},{y}) of {w}x{h}");
            }
        }
        for k in &plan {
            assert!(k.ex0 <= k.x0 && k.x1 <= k.ex1 && k.ex1 <= w);
            assert!(k.ey0 <= k.y0 && k.y1 <= k.ey1 && k.ey1 <= h);
        }
    }
}

#[test]
fn tile_crop_scales_margins() {
    let plan = tile_plan(600, 300, TILE_SIZE, TILE_OVERLAP);
    let c = tile_crop(&plan[4], 2);
    assert_eq!((c.crop_left, c.crop_top, c.crop_w, c.crop_h, c.dst_x, c.dst_y), (64, 64, 512, 88, 512, 512));
}

#[test]
fn output_indices_are_per_plane() {
    assert_eq!(output_pixel_indices(4, 5, 2, 3), (17, 37, 57));
}

fn key(scale: u32, provider: &str) -> CacheKey {
    CacheKey { scale, provider: provider.to_string() }
}

#[test]
fn session_cache_is_lru_with_two_entries() {
    let mut cache: SessionCache<&'static str> = SessionCache::new();
    assert_eq!(cache.find(2, "cpu"), None);
    cache.store(key(2, "cpu"), "s1");
    cache.store(key(4, "cpu"), "s2");
    assert_eq!(cache.find(2, "cpu"), Some(0));
    cache.promote(0);
    assert_eq!(cache.entries.last().unwrap().1, "s1");
    cache.store(key(2, "gpu"), "s3");
    assert_eq!(cache.entries.len(), 2);
    assert_eq!(cache.find(4, "cpu"), None);
    assert_eq!(cache.find(2, "cpu"), Some(0));
    assert_eq!(cache.find(2, "gpu"), Some(1));
    assert_eq!(cache.entries.last().unwrap().1, "s3");
}

#[test]
fn session_cache_obtain_hits_builds_and_fails() {
    let mut cache: SessionCache<&'static str> = SessionCache::new();
    let made: Result<(), String> = cache.obtain(2, "cpu", || Ok("s1"));
    assert_eq!(made, Ok(()));
    assert_eq!(cache.entries.len(), 1);
    cache.obtain(4, "cpu", || Ok::<_, String>("s2")).unwrap();
    // a hit does not build and makes the entry the most recent one
    let hit: Result<(), String> = cache.obtain(2, "cpu", || panic!("must not build"));
    assert_eq!(hit, Ok(()));
    assert_eq!(cache.entries.iter().map(|e| e.1).collect::<Vec<_>>(), vec!["s2", "s1"]);
    // a failed build leaves the cache as it was
    let failed: Result<(), String> = cache.obtain(2, "gpu", || Err("no model".to_string()));
    assert_eq!(failed, Err("no model".to_string()));
    assert_eq!(cache.entries.iter().map(|e| e.1).collect::<Vec<_>>(), vec!["s2", "s1"]);
    // a new one drops the least recently used
    cache.obtain(2, "gpu", || Ok::<_, String>("s3")).unwrap();
    assert_eq!(cache.entries.iter().map(|e| e.1).collect::<Vec<_>>(), vec!["s1", "s3"]);
    assert_eq!(cache.find(4, "cpu"), None);
}

#[test]
fn upscale_names() {
    assert_eq!(upscaled_file_name(123, "/p/q/photo.jpg", 2), "123_photo_2x.png");
    assert_eq!(upscaled_file_name(0, "/", 4), "0_image_4x.png");
    assert_eq!(upscale_output_dir("/tmp"), "/tmp/viewer-on-tauri/upscaled");
    assert!(uses_ncnn("vulkan"));
    assert!(!uses_ncnn("gpu"));
    assert_eq!(
        ncnn_zip_path("models-se/up2x-conservative.bin"),
        "realcugan-ncnn-vulkan-20220728-windows/models-se/up2x-conservative.bin"
    );
}

#[test]
fn upscaled_name_is_one_component() {
    assert_eq!(upscaled_file_name(1, "a/b/../c.d.png", 2), "1_c.d_2x.png");
    for p in ["", "/", "x/..", "dir/file", "../../up.jpg"] {
        assert!(!upscaled_file_name(9, p, 4).contains('/'));
    }
}

#[test]
fn scaled_tile_crops_cover_the_output_once() {
    let (w, h, s) = (7usize, 5usize, 2usize);
    let plan = tile_plan(w, h, 3, 1);
    let mut hits = vec![0u32; w * s * h * s];
    for t in &plan {
        let c = tile_crop(t, s);
        for cy in 0..c.crop_h {
            for cx in 0..c.crop_w {
                hits[(c.dst_y + cy) * w * s + c.dst_x + cx] += 1;
            }
        }
    }
    assert!(hits.iter().all(|n| *n == 1));
}
