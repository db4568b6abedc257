use encounter_counter::region::bottom_region;
use encounter_counter::region::pixel_bounds;
use encounter_counter::region::top_region;
use encounter_counter::region::Region;

#[test]
fn bottom_region_bounds_on_full_hd() {
    let b = pixel_bounds(1920, 1080, &bottom_region());
    assert_eq!(b, (115, 1344, 648, 842));
}

#[test]
fn top_region_bounds_on_full_hd() {
    let b = pixel_bounds(1920, 1080, &top_region());
    assert_eq!(b, (115, 1804, 64, 324));
}

#[test]
fn bounds_truncate_toward_zero() {
    // 33 * 6 / 100 = 1.98, truncated to 1.
    let b = pixel_bounds(33, 50, &bottom_region());
    assert_eq!(b.0, 1);
    // 50 * 60 / 100 = 30 exactly.
    assert_eq!(b.2, 30);
}

#[test]
fn degenerate_window_has_empty_bounds() {
    let b = pixel_bounds(0, 0, &top_region());
    assert_eq!(b, (0, 0, 0, 0));
}

#[test]
fn whole_window_region_covers_the_window() {
    let r = Region { x0: 0, x1: 100, y0: 0, y1: 100 };
    let b = pixel_bounds(640, 480, &r);
    assert_eq!(b, (0, 640, 0, 480));
}
