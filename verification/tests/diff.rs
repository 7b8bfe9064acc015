use gloomy::diff::{compare_images, deepest_widget, diff_overlay, screenshot_diff, DiffConfig, DiffReport, HitNode};
use gloomy::pixels::PixelBuffer;

fn solid_image(w: u32, h: u32, rgba: [u8; 4]) -> PixelBuffer {
    let mut img = PixelBuffer::new(w, h);
    for y in 0..h {
        for x in 0..w {
            img.put_pixel(x, y, (rgba[0], rgba[1], rgba[2], rgba[3]));
        }
    }
    img
}

fn copy(img: &PixelBuffer) -> PixelBuffer {
    PixelBuffer::from_raw(img.width(), img.height(), img.as_raw().clone()).unwrap()
}

#[test]
fn identical_images_pass() {
    let a = solid_image(64, 64, [128, 0, 0, 255]);
    let b = solid_image(64, 64, [128, 0, 0, 255]);
    let report = compare_images(&a, &b, &DiffConfig::default());
    assert!(report.passed);
    assert_eq!(report.diff_pixels, 0);
    assert_eq!(report.diff_pixels as f64 / report.total_pixels as f64, 0.0);
    assert!(report.regions.is_empty());
}

#[test]
fn single_pixel_diff_detected() {
    let a = solid_image(64, 64, [0, 0, 0, 255]);
    let mut b = copy(&a);
    b.put_pixel(10, 10, (255, 0, 0, 255));
    let report = compare_images(&a, &b, &DiffConfig::default());
    assert!(!report.passed);
    assert_eq!(report.diff_pixels, 1);
    assert_eq!(report.regions.len(), 1);
    assert_eq!(report.regions[0].x, 0);
    assert_eq!(report.regions[0].y, 0);
}

#[test]
fn two_separate_blobs_produce_two_regions() {
    let a = solid_image(128, 128, [0, 0, 0, 255]);
    let mut b = copy(&a);
    for y in 0..5 {
        for x in 0..5 {
            b.put_pixel(x, y, (255, 0, 0, 255));
        }
    }
    for y in 100..105 {
        for x in 100..105 {
            b.put_pixel(x, y, (0, 255, 0, 255));
        }
    }
    let report = compare_images(&a, &b, &DiffConfig::default());
    assert!(!report.passed);
    assert_eq!(report.regions.len(), 2);
}

#[test]
fn threshold_filters_small_diffs() {
    let a = solid_image(32, 32, [100, 100, 100, 255]);
    let b = solid_image(32, 32, [103, 100, 100, 255]);
    let strict = compare_images(&a, &b, &DiffConfig::default());
    assert!(!strict.passed);
    let lenient = compare_images(&a, &b, &DiffConfig { threshold: 5, ..Default::default() });
    assert!(lenient.passed);
}

#[test]
fn severity_labels_medium_and_high() {
    let a = solid_image(4, 4, [0, 0, 0, 255]);
    let cfg = DiffConfig { cell_size: 4, ..Default::default() };

    let mut b = copy(&a);
    b.put_pixel(0, 0, (255, 0, 0, 255));
    let r = compare_images(&a, &b, &cfg);
    assert_eq!(r.regions[0].severity, "medium");

    let mut b = copy(&a);
    for x in 0..4 {
        b.put_pixel(x, 0, (255, 0, 0, 255));
    }
    let r = compare_images(&a, &b, &cfg);
    assert_eq!(r.regions[0].severity, "high");
}

#[test]
fn region_diff_pixels_sum_equals_total() {
    let a = solid_image(128, 128, [0, 0, 0, 255]);
    let mut b = copy(&a);
    for y in 0..5 {
        for x in 0..5 {
            b.put_pixel(x, y, (255, 0, 0, 255));
        }
    }
    for y in 100..110 {
        for x in 100..110 {
            b.put_pixel(x, y, (0, 255, 0, 255));
        }
    }
    let r = compare_images(&a, &b, &DiffConfig::default());
    let sum: u64 = r.regions.iter().map(|rg| rg.diff_pixels).sum();
    assert_eq!(sum, r.diff_pixels);
}

#[test]
fn cell_size_zero_does_not_panic() {
    let a = solid_image(32, 32, [0, 0, 0, 255]);
    let mut b = copy(&a);
    b.put_pixel(5, 5, (255, 0, 0, 255));
    let r = compare_images(&a, &b, &DiffConfig { cell_size: 0, ..Default::default() });
    assert!(!r.passed);
    assert_eq!(r.diff_pixels, 1);
}

#[test]
fn report_counts_and_largest_gap() {
    let a = solid_image(8, 4, [10, 10, 10, 255]);
    let mut b = copy(&a);
    b.put_pixel(7, 3, (10, 70, 10, 255));
    let r = compare_images(&a, &b, &DiffConfig::default());
    assert_eq!(r.total_pixels, 32);
    assert_eq!(r.width, 8);
    assert_eq!(r.height, 4);
    assert_eq!(r.max_channel_diff, 60);
    assert_eq!(r.regions.len(), 1);
    assert_eq!(r.regions[0].width, 8);
    assert_eq!(r.regions[0].height, 4);
    assert_eq!(r.regions[0].diff_pixels, 1);
    assert_eq!(r.regions[0].severity, "low");
}

#[test]
fn diagonal_cells_are_separate_regions() {
    let a = solid_image(8, 8, [0, 0, 0, 255]);
    let mut b = copy(&a);
    b.put_pixel(0, 0, (255, 255, 255, 255));
    b.put_pixel(5, 5, (255, 255, 255, 255));
    let cfg = DiffConfig { cell_size: 4, ..Default::default() };
    let r = compare_images(&a, &b, &cfg);
    assert_eq!(r.regions.len(), 2);
    assert_eq!((r.regions[0].x, r.regions[0].y), (0, 0));
    assert_eq!((r.regions[1].x, r.regions[1].y), (4, 4));
}

#[test]
fn overlay_marks_changes_and_dims_the_rest() {
    let a = solid_image(2, 1, [100, 50, 20, 200]);
    let mut b = copy(&a);
    b.put_pixel(1, 0, (0, 0, 0, 200));
    let o = diff_overlay(&a, &b, &DiffConfig::default());
    assert_eq!(o.width(), 2);
    assert_eq!(o.height(), 1);
    assert_eq!(o.get_pixel(0, 0), (50, 25, 10, 200));
    assert_eq!(o.get_pixel(1, 0), (255, 0, 255, 255));
}

#[test]
fn screenshot_mismatches_are_counted_and_marked() {
    let a = solid_image(3, 1, [90, 60, 30, 128]);
    let mut b = copy(&a);
    b.put_pixel(2, 0, (90, 60, 40, 128));
    let (n, img) = screenshot_diff(&a, &b, 5);
    assert_eq!(n, 1);
    assert_eq!(img.get_pixel(0, 0), (30, 20, 10, 255));
    assert_eq!(img.get_pixel(2, 0), (255, 0, 0, 255));
    let (n, _) = screenshot_diff(&a, &b, 10);
    assert_eq!(n, 0);
}

struct Bounds {
    id: Option<&'static str>,
    x: f32,
    y: f32,
    width: f32,
    height: f32,
    children: Vec<Bounds>,
}

fn hit_tree(b: &Bounds, px: f32, py: f32) -> HitNode {
    HitNode {
        holds_point: px >= b.x && px < b.x + b.width && py >= b.y && py < b.y + b.height,
        id: b.id.map(|s| s.to_string()),
        children: b.children.iter().map(|c| hit_tree(c, px, py)).collect(),
    }
}

fn name_regions(report: &mut DiffReport, tree: &Bounds) {
    for r in report.regions.iter_mut() {
        let cx = r.x as f32 + r.width as f32 / 2.0;
        let cy = r.y as f32 + r.height as f32 / 2.0;
        r.widget_id = deepest_widget(&hit_tree(tree, cx, cy));
    }
}

#[test]
fn widget_id_mapped_to_region() {
    let button = Bounds { id: Some("act"), x: 0.0, y: 0.0, width: 64.0, height: 32.0, children: vec![] };
    let root = Bounds { id: Some("root"), x: 0.0, y: 0.0, width: 64.0, height: 64.0, children: vec![button] };
    let a = solid_image(64, 64, [0, 0, 0, 255]);
    let mut b = copy(&a);
    b.put_pixel(5, 5, (255, 0, 0, 255));
    let mut report = compare_images(&a, &b, &DiffConfig::default());
    name_regions(&mut report, &root);
    assert_eq!(report.regions.len(), 1);
    assert_eq!(report.regions[0].widget_id.as_deref(), Some("act"));
}

#[test]
fn find_deepest_widget_prefers_deepest_named() {
    let toggle = Bounds { id: Some("toggle"), x: 30.0, y: 30.0, width: 20.0, height: 20.0, children: vec![] };
    let inner = Bounds { id: Some("inner"), x: 20.0, y: 20.0, width: 60.0, height: 60.0, children: vec![toggle] };
    let outer = Bounds { id: Some("outer"), x: 0.0, y: 0.0, width: 100.0, height: 100.0, children: vec![inner] };
    let a = solid_image(100, 100, [0, 0, 0, 255]);
    let mut b = copy(&a);
    b.put_pixel(35, 35, (255, 0, 0, 255));
    let mut r = compare_images(&a, &b, &DiffConfig { cell_size: 32, ..Default::default() });
    name_regions(&mut r, &outer);
    assert_eq!(r.regions.len(), 1);
    assert_eq!(r.regions[0].widget_id.as_deref(), Some("toggle"));
}

#[test]
fn deepest_widget_search_order() {
    let leaf = |id: Option<&str>, hit: bool| HitNode { holds_point: hit, id: id.map(|s| s.to_string()), children: vec![] };
    // The last child holding the point wins over an earlier one.
    let root = HitNode { holds_point: true, id: Some("root".to_string()), children: vec![leaf(Some("a"), true), leaf(Some("b"), true)] };
    assert_eq!(deepest_widget(&root), Some("b".to_string()));
    // A child without an id gives way to the one before it.
    let root = HitNode { holds_point: true, id: Some("root".to_string()), children: vec![leaf(Some("a"), true), leaf(None, true)] };
    assert_eq!(deepest_widget(&root), Some("a".to_string()));
    // No child holds the point: the root's own id.
    let root = HitNode { holds_point: true, id: Some("root".to_string()), children: vec![leaf(Some("a"), false)] };
    assert_eq!(deepest_widget(&root), Some("root".to_string()));
    // The root misses the point: nothing, whatever its children say.
    let root = HitNode { holds_point: false, id: Some("root".to_string()), children: vec![leaf(Some("a"), true)] };
    assert_eq!(deepest_widget(&root), None);
}
