use ttwm::layout::LayoutTree;
use ttwm::monitor::MonitorId;
use ttwm::orientation::{vertical_window_rect, VerticalTabs};
use ttwm::types::Rect;

#[test]
fn toggling_a_frame_between_orientations() {
    let tree = LayoutTree::new();
    let key = (MonitorId::default(), 0usize, tree.root);
    let mut vertical = VerticalTabs::new();
    assert!(!vertical.contains(&key));
    assert!(vertical.toggle(key));
    assert!(vertical.contains(&key));
    assert!(!vertical.toggle(key));
    assert!(!vertical.contains(&key));
}

#[test]
fn frames_that_are_gone_lose_their_orientation() {
    let tree = LayoutTree::new();
    let mon = MonitorId::default();
    let kept = (mon, 0usize, tree.root);
    let other_ws = (mon, 1usize, tree.root);
    let mut vertical = VerticalTabs::new();
    vertical.toggle(kept);
    vertical.toggle(other_ws);
    vertical.retain_frames(mon, 0, &vec![tree.root]);
    assert!(vertical.contains(&kept));
    assert!(vertical.contains(&other_ws));
    vertical.retain_frames(mon, 0, &Vec::new());
    assert!(!vertical.contains(&kept));
    assert!(vertical.contains(&other_ws));
}

#[test]
fn a_window_beside_vertical_tabs() {
    let r = vertical_window_rect(Rect::new(10, 20, 300, 200), 28, 2);
    assert_eq!(r, Rect::new(38, 20, 268, 196));
    let narrow = vertical_window_rect(Rect::new(0, 0, 20, 200), 28, 2);
    assert_eq!(narrow, Rect::new(28, 0, 0, 196));
}
