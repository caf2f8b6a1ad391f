use dumap::color::ColorCache;
use dumap::color::NodeColor;
use dumap::color::Rgb;
use dumap::color::dynamic_color;
use dumap::color::extension_of;
use dumap::color::hsl_to_rgb;
use dumap::tree::Node;

fn leaf(name: &str, size: u64) -> Node {
    Node {
        name: name.to_string(),
        size,
        path: vec![name.to_string()],
        children: vec![],
        is_dir: false,
    }
}

#[test]
fn memoized_lookups_are_identical() {
    let mut cache = ColorCache::new();
    let first = cache.color_for_extension(Some("rs"));
    let second = cache.color_for_extension(Some("rs"));
    assert_eq!(first, second);
}

#[test]
fn extension_case_folds_to_one_color() {
    let mut cache = ColorCache::new();
    let lower = cache.color_for_extension(Some("rs"));
    let upper = cache.color_for_extension(Some("RS"));
    let mixed = cache.color_for_extension(Some("Rs"));
    assert_eq!(lower, upper);
    assert_eq!(lower, mixed);
}

#[test]
fn empty_extension_is_neutral_gray() {
    let mut cache = ColorCache::new();
    assert_eq!(cache.color_for_extension(None), Rgb { r: 150, g: 150, b: 150 });
    assert_eq!(cache.color_for_extension(Some("")), Rgb { r: 150, g: 150, b: 150 });
}

#[test]
fn distinct_extensions_differ_in_practice() {
    let mut cache = ColorCache::new();
    let a = cache.color_for_extension(Some("rs"));
    let b = cache.color_for_extension(Some("txt"));
    assert_ne!(a, b);
}

#[test]
fn hsl_primaries() {
    assert_eq!(hsl_to_rgb(0, 100, 50), Rgb { r: 255, g: 0, b: 0 });
    assert_eq!(hsl_to_rgb(120, 100, 50), Rgb { r: 0, g: 255, b: 0 });
    assert_eq!(hsl_to_rgb(240, 100, 50), Rgb { r: 0, g: 0, b: 255 });
    assert_eq!(hsl_to_rgb(0, 0, 100), Rgb { r: 255, g: 255, b: 255 });
    assert_eq!(hsl_to_rgb(0, 0, 0), Rgb { r: 0, g: 0, b: 0 });
}

#[test]
fn extension_of_name_forms() {
    assert_eq!(extension_of("a.txt").as_deref(), Some("txt"));
    assert_eq!(extension_of("archive.tar.gz").as_deref(), Some("gz"));
    assert_eq!(extension_of(".bashrc"), None);
    assert_eq!(extension_of("name."), Some(String::new()));
    assert_eq!(extension_of("plain"), None);
    assert_eq!(extension_of(""), None);
}

#[test]
fn empty_level_is_dark_gray() {
    let mut cache = ColorCache::new();
    let n = leaf("a.rs", 0);
    assert_eq!(dynamic_color(&n, 0, false, &mut cache), NodeColor::DarkGray);
}

#[test]
fn aggregate_bucket_shades_gray() {
    let mut cache = ColorCache::new();
    // full weight: brightness 255, lowered by 30 and capped at 180
    let n = leaf("Other", 500);
    assert_eq!(
        dynamic_color(&n, 500, true, &mut cache),
        NodeColor::Shade(Rgb { r: 180, g: 180, b: 180 })
    );
    // vanishing weight: brightness 90, lowered to the band floor of 60
    let tiny = leaf("Other", 0);
    assert_eq!(
        dynamic_color(&tiny, 500, true, &mut cache),
        NodeColor::Shade(Rgb { r: 60, g: 60, b: 60 })
    );
}

#[test]
fn directory_shades_blue_green() {
    let mut cache = ColorCache::new();
    let d = Node {
        name: "dir".to_string(),
        size: 500,
        path: vec!["dir".to_string()],
        children: vec![leaf("x", 500)],
        is_dir: true,
    };
    // full weight: brightness 255 gives 63/170/231 inside the clamp bands
    assert_eq!(
        dynamic_color(&d, 500, false, &mut cache),
        NodeColor::Shade(Rgb { r: 63, g: 170, b: 231 })
    );
}

#[test]
fn file_color_is_deterministic_per_extension() {
    let mut cache = ColorCache::new();
    let a = dynamic_color(&leaf("one.rs", 250), 1000, false, &mut cache);
    let b = dynamic_color(&leaf("two.rs", 250), 1000, false, &mut cache);
    assert_eq!(a, b, "same extension and same weight shade alike");
}
