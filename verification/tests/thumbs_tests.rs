use forge_meta_link::thumbs::cache_key;
use forge_meta_link::thumbs::resolve_thumbnail_entry;
use forge_meta_link::thumbs::plan_precache;
use forge_meta_link::thumbs::precache_outcome;
use forge_meta_link::thumbs::render_thumbnail;
use forge_meta_link::thumbs::thumbnail_file_names;
use forge_meta_link::thumbs::PathSet;
use forge_meta_link::thumbs::PrecacheGate;

#[test]
fn cache_key_is_stable_and_content_addressed() {
    let a1 = cache_key("c:/images/a.png");
    let a2 = cache_key("c:/images/a.png");
    let b = cache_key("c:/images/b.png");
    assert_eq!(a1, a2);
    assert_ne!(a1, b);
    assert_eq!(a1.len(), 32);
    assert!(a1.chars().all(|c| c.is_ascii_hexdigit()));
    assert_ne!(a1, "c:/images/a.png");
}

#[test]
fn thumbnail_names_carry_both_formats() {
    let (jpg, webp) = thumbnail_file_names("c:/images/a.png");
    let key = cache_key("c:/images/a.png");
    assert_eq!(jpg, format!("{key}.jpg"));
    assert_eq!(webp, format!("{key}.webp"));
}

#[test]
fn precache_on_empty_library_reports_zeroes() {
    let cached = PathSet::new();
    let plan = plan_precache(&Vec::new(), &cached);
    assert_eq!(plan.pending.len(), 0);
    assert_eq!(plan.skipped, 0);
    let outcome = precache_outcome(0, 0, 0, 0);
    assert_eq!(outcome.total, 0);
    assert_eq!(outcome.generated, 0);
    assert_eq!(outcome.skipped, 0);
    assert_eq!(outcome.failed, 0);
}

#[test]
fn precache_skips_cached_keys() {
    let mut cached = PathSet::new();
    cached.insert(cache_key("a.png").as_str());
    let all = vec!["a.png".to_string(), "b.png".to_string()];
    let plan = plan_precache(&all, &cached);
    assert_eq!(plan.skipped, 1);
    assert_eq!(plan.pending, vec!["b.png".to_string()]);
}

#[test]
fn path_sets_track_hits_and_failures() {
    let mut s = PathSet::new();
    assert!(!s.contains("x"));
    s.insert("x");
    s.insert("x");
    assert!(s.contains("x"));
    s.remove("x");
    assert!(!s.contains("x"));
}

#[test]
fn precache_gate_admits_one_pass() {
    let mut gate = PrecacheGate::new();
    assert!(gate.try_start());
    assert!(!gate.try_start());
    gate.finish();
    assert!(gate.try_start());
}

#[test]
fn render_thumbnail_reencodes_real_pixels() {
    let mut png: Vec<u8> = Vec::new();
    {
        let img = image::RgbImage::from_pixel(64, 64, image::Rgb([200u8, 10u8, 10u8]));
        let mut cursor = std::io::Cursor::new(&mut png);
        img.write_to(&mut cursor, image::ImageFormat::Png)
            .expect("encoding the sample image failed");
    }
    let jpeg = render_thumbnail(&png, 85).expect("expected a thumbnail");
    assert!(jpeg.len() > 2);
    assert_eq!(&jpeg[..2], &[0xFF, 0xD8]);
    assert!(render_thumbnail(&b"not an image".to_vec(), 85).is_none());
}

#[test]
fn resolution_falls_back_to_the_source_path() {
    assert_eq!(resolve_thumbnail_entry("s.png", Some("cache/k.jpg"), None), "cache/k.jpg");
    assert_eq!(resolve_thumbnail_entry("s.png", None, Some("cache/k.jpg")), "cache/k.jpg");
    assert_eq!(resolve_thumbnail_entry("s.png", None, None), "s.png");
}
