use ttwm::types::{strut_totals, usable_area, Rect, RectSnapshot, StrutPartial};

#[test]
fn types_test_rect_center() {
    let rect = Rect::new(0, 0, 100, 100);
    assert_eq!(rect.center_x(), 50);
    assert_eq!(rect.center_y(), 50);

    let rect = Rect::new(10, 20, 100, 200);
    assert_eq!(rect.center_x(), 60);
    assert_eq!(rect.center_y(), 120);
}

#[test]
fn test_rect_snapshot_from_rect() {
    let rect = Rect::new(10, 20, 100, 200);
    let snapshot: RectSnapshot = rect.into();
    assert_eq!(snapshot.x, 10);
    assert_eq!(snapshot.y, 20);
    assert_eq!(snapshot.width, 100);
    assert_eq!(snapshot.height, 200);
}

#[test]
fn monitor_test_rect_center() {
    let rect = Rect::new(0, 0, 1920, 1080);
    assert_eq!(rect.center_x(), 960);
    assert_eq!(rect.center_y(), 540);
}

#[test]
fn test_rect_center_with_offset() {
    let rect = Rect::new(1920, 0, 1920, 1080);
    assert_eq!(rect.center_x(), 2880);
    assert_eq!(rect.center_y(), 540);
}

#[test]
fn rect_center_rounds_odd_sizes_down() {
    let rect = Rect::new(-10, 5, 7, 9);
    assert_eq!(rect.center_x(), -7);
    assert_eq!(rect.center_y(), 9);
}

fn strut(left: u32, right: u32, top: u32, bottom: u32) -> StrutPartial {
    StrutPartial { left, right, top, bottom, ..StrutPartial::default() }
}

#[test]
fn struts_take_the_largest_reservation_per_edge() {
    let docks = vec![strut(0, 0, 30, 0), strut(10, 0, 20, 5), strut(0, 4, 0, 0)];
    assert_eq!(strut_totals(&docks), (10, 4, 30, 5));
    assert_eq!(strut_totals(&vec![]), (0, 0, 0, 0));
}

#[test]
fn usable_area_removes_gaps_and_struts() {
    let base = Rect::new(1920, 0, 1920, 1080);
    let docks = vec![strut(0, 0, 30, 0)];
    let r = usable_area(base, 8, &docks);
    assert_eq!(r, Rect::new(1928, 38, 1904, 1034));
    let r = usable_area(base, 0, &vec![]);
    assert_eq!(r, base);
}

#[test]
fn usable_area_saturates_at_zero() {
    let base = Rect::new(0, 0, 10, 10);
    let r = usable_area(base, 8, &vec![]);
    assert_eq!(r, Rect::new(8, 8, 0, 0));
}
