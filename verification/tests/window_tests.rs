use deckhand::window::{
    area_for, clamp_into, default_rect, intersects, is_bottom_anchored, reflow_height, restore_or_fallback,
    window_height, Rect, HEADER_H_LOGICAL, ROW_H_LOGICAL,
};

fn area(x: i32, y: i32, w: i32, h: i32) -> Rect {
    Rect::new(x, y, w, h)
}

#[test]
fn window_height_grows_with_row_count() {
    let h1 = window_height(1, 2000);
    let h3 = window_height(3, 2000);
    assert!(h3 > h1);
    assert_eq!(h3 - h1, (2.0 * ROW_H_LOGICAL as f64).round() as i32);
}

#[test]
fn window_height_never_drops_below_one_row_even_with_zero_sessions() {
    assert_eq!(window_height(0, 2000), window_height(1, 2000), "the empty list still shows the No sessions row");
}

#[test]
fn window_height_is_capped_at_the_monitor_work_area() {
    let uncapped = window_height(50, 100_000);
    let capped = window_height(50, 300);
    assert!(capped < uncapped);
    assert_eq!(capped, 300, "fifty rows must be capped to the work area height");
}

#[test]
fn reflow_height_keeps_the_top_edge_when_not_bottom_anchored() {
    let old = area(100, 100, 360, 200);
    let next = reflow_height(old, 400, false);
    assert_eq!(next.y, 100, "the top edge must not move");
    assert_eq!(next.h, 400);
}

#[test]
fn reflow_height_keeps_the_bottom_edge_when_bottom_anchored() {
    let old = area(100, 100, 360, 200);
    let next = reflow_height(old, 400, true);
    assert_eq!(next.bottom(), 300, "the bottom edge must stay put");
    assert_eq!(next.y, -100);
}

#[test]
fn is_bottom_anchored_true_in_the_bottom_half_of_the_monitor() {
    let mon = area(0, 0, 1920, 1080);
    let bottom_window = area(100, 900, 360, 100);
    let top_window = area(100, 50, 360, 100);
    assert!(is_bottom_anchored(bottom_window, mon));
    assert!(!is_bottom_anchored(top_window, mon));
}

#[test]
fn clamp_into_leaves_a_rect_already_inside_untouched() {
    let mon = area(0, 0, 1920, 1080);
    let r = area(100, 100, 360, 200);
    assert_eq!(clamp_into(r, mon), r);
}

#[test]
fn clamp_into_translates_a_rect_hanging_off_the_right_and_bottom_edges() {
    let mon = area(0, 0, 1920, 1080);
    let r = area(1800, 1000, 360, 200);
    let clamped = clamp_into(r, mon);
    assert_eq!(clamped.right(), 1920);
    assert_eq!(clamped.bottom(), 1080);
    assert_eq!(clamped.w, 360);
    assert_eq!(clamped.h, 200);
}

#[test]
fn clamp_into_translates_a_rect_off_the_left_and_top_edges() {
    let mon = area(0, 0, 1920, 1080);
    let r = area(-50, -50, 360, 200);
    let clamped = clamp_into(r, mon);
    assert_eq!(clamped.x, 0);
    assert_eq!(clamped.y, 0);
}

#[test]
fn clamp_into_shrinks_a_rect_bigger_than_the_whole_monitor() {
    let mon = area(0, 0, 800, 600);
    let r = area(0, 0, 1200, 2000);
    let clamped = clamp_into(r, mon);
    assert_eq!(clamped.w, 800);
    assert_eq!(clamped.h, 600);
}

#[test]
fn restore_or_fallback_removed_monitor_uses_the_fallback() {
    let saved = area(2000, 100, 360, 200);
    let areas = [area(0, 0, 1920, 1080)];
    let fallback = default_rect(areas[0], 360, 200);
    let got = restore_or_fallback(saved, &areas, fallback);
    assert!(intersects(got, areas[0]), "the fallback must land on a real monitor");
    assert_eq!(got, fallback);
}

#[test]
fn restore_or_fallback_resolution_change_clamps_rather_than_falls_back() {
    let saved = area(1560, 880, 360, 200);
    let areas = [area(0, 0, 1600, 900)];
    let fallback = default_rect(areas[0], 360, 200);
    assert!(intersects(saved, areas[0]), "sanity: the saved rect still overlaps the shrunk monitor");
    let got = restore_or_fallback(saved, &areas, fallback);
    assert_eq!(got.right(), 1600);
    assert_eq!(got.bottom(), 900);
}

#[test]
fn restore_or_fallback_leaves_a_fully_visible_saved_rect_alone() {
    let saved = area(200, 200, 360, 200);
    let areas = [area(0, 0, 1920, 1080)];
    let fallback = default_rect(areas[0], 360, 200);
    assert_eq!(restore_or_fallback(saved, &areas, fallback), saved);
}

#[test]
fn restore_or_fallback_bottom_preset_growth_keeps_the_bottom_edge_onscreen() {
    let mon = area(0, 0, 1920, 1080);
    let old = area(600, 980, 360, 100);
    assert!(is_bottom_anchored(old, mon));
    let grown = reflow_height(old, 400, true);
    let areas = [mon];
    let fallback = default_rect(mon, 360, 400);
    let got = restore_or_fallback(grown, &areas, fallback);
    assert_eq!(got.bottom(), 1080, "the bottom edge must still be exactly onscreen");
    assert_eq!(got.y, 680);
}

#[test]
fn area_for_picks_the_monitor_the_rect_overlaps() {
    let left = area(0, 0, 1920, 1080);
    let right = area(1920, 0, 1920, 1080);
    let r = area(2000, 100, 360, 200);
    let areas = [left, right];
    let picked = area_for(r, &areas).unwrap();
    assert_eq!(*picked, right);
}

#[test]
fn area_for_falls_back_to_the_first_monitor_when_nothing_overlaps() {
    let left = area(0, 0, 1920, 1080);
    let r = area(5000, 100, 360, 200);
    let areas = [left];
    let picked = area_for(r, &areas).unwrap();
    assert_eq!(*picked, left);
}

#[test]
fn area_for_gives_none_with_no_monitors() {
    let r = area(0, 0, 360, 200);
    assert!(area_for(r, &[]).is_none());
}

// ---- beyond the scenarios above ----

#[test]
fn window_height_is_the_header_plus_one_row_per_session() {
    assert_eq!(window_height(1, 2000), HEADER_H_LOGICAL + ROW_H_LOGICAL);
    assert_eq!(window_height(4, 2000), 56 + 4 * 48);
}

#[test]
fn a_work_area_smaller_than_one_row_caps_the_height_at_the_work_area() {
    assert_eq!(window_height(10, 20), 20);
    assert_eq!(window_height(0, 50), 50);
}

#[test]
fn a_rect_covering_no_pixel_intersects_nothing() {
    let a = area(0, 0, 10, 10);
    assert!(!intersects(area(5, 5, 0, 0), a));
    assert!(!intersects(area(5, 5, 3, 0), a));
    assert!(!intersects(area(5, 5, 2, 2), area(0, 0, 0, 10)));
    assert!(intersects(area(5, 5, 1, 1), a));
}

#[test]
fn touching_edges_do_not_intersect() {
    let a = area(0, 0, 100, 100);
    assert!(!intersects(area(100, 0, 10, 10), a));
    assert!(intersects(area(99, 99, 10, 10), a));
}

#[test]
fn default_rect_sits_a_margin_in_from_the_top_left_corner() {
    let r = default_rect(area(100, 50, 1920, 1080), 360, 200);
    assert_eq!(r, area(112, 62, 360, 200));
}
