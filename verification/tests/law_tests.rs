use ttwm::layout::{LayoutTree, SplitDirection};
use ttwm::types::Rect;

#[test]
fn cycling_forward_then_backward_returns_to_the_same_tab() {
    let mut tree = LayoutTree::new();
    tree.add_window(1);
    tree.add_window(2);
    tree.add_window(3);
    tree.focus_tab(1);
    tree.cycle_tab(true);
    assert_eq!(tree.cycle_tab(false), Some(2));
    tree.focus_tab(0);
    tree.cycle_tab(false);
    assert_eq!(tree.cycle_tab(true), Some(1));
}

#[test]
fn adding_then_removing_a_window_restores_the_frame() {
    let mut tree = LayoutTree::new();
    tree.add_window(1);
    tree.add_window(2);
    let before = tree.focused_frame().unwrap().windows.clone();
    tree.add_window(3);
    assert_eq!(tree.remove_window(3), Some(tree.focused));
    assert_eq!(tree.focused_frame().unwrap().windows, before);
    assert_eq!(tree.focused_frame().unwrap().focused, 1);
}

#[test]
fn reordering_keeps_the_focused_window() {
    let mut tree = LayoutTree::new();
    for w in [1, 2, 3, 4] {
        tree.add_window(w);
    }
    tree.focus_tab(1);
    let frame = tree.focused;
    assert!(tree.reorder_tab(frame, 3, 0));
    let f = tree.focused_frame().unwrap();
    assert_eq!(f.windows, vec![4, 1, 2, 3]);
    assert_eq!(f.focused_window(), Some(2));
}

#[test]
fn split_children_and_gap_fill_the_parent() {
    let mut tree = LayoutTree::new();
    tree.split_focused(SplitDirection::Horizontal);
    let g = tree.calculate_geometries(Rect::new(0, 0, 1000, 500), 20);
    assert_eq!(g[0].1.width + 20 + g[1].1.width, 1000);
    assert_eq!(g[0].1.width, 490);
    assert_eq!(g[1].1.x, 510);
}

#[test]
fn added_window_is_found() {
    let mut tree = ttwm::layout::LayoutTree::new();
    tree.split_focused(ttwm::layout::SplitDirection::Horizontal);
    assert_eq!(tree.find_window(42), None);
    tree.add_window(42);
    assert_eq!(tree.find_window(42), Some(tree.focused));
}

#[test]
fn split_and_cleanup_keep_every_window_in_order() {
    let mut tree = LayoutTree::new();
    tree.add_window(1);
    tree.add_window(2);
    tree.split_focused(SplitDirection::Horizontal);
    tree.add_window(3);
    let before = tree.all_windows();
    assert_eq!(before, vec![1, 2, 3]);
    tree.split_focused(SplitDirection::Vertical);
    assert_eq!(tree.all_windows(), before);
    assert!(tree.remove_empty_frames());
    assert_eq!(tree.all_windows(), before);
    assert_eq!(tree.all_frames().len(), 2);
}

#[test]
fn cleanup_moves_focus_from_a_removed_frame_to_the_first() {
    let mut tree = LayoutTree::new();
    tree.add_window(1);
    tree.split_focused(SplitDirection::Horizontal);
    tree.add_window(2);
    tree.split_focused(SplitDirection::Vertical);
    let first = tree.all_frames()[0];
    assert!(tree.remove_empty_frames());
    assert_eq!(tree.focused, first);
    assert_eq!(tree.all_frames()[0], first);
}

#[test]
fn range_checks_on_a_small_screen() {
    let mut tree = LayoutTree::new();
    tree.split_focused(SplitDirection::Horizontal);
    let screen = Rect::new(0, 0, 1000, 800);
    assert!(tree.geometries_fit_check(screen, 10));
    assert!(tree.gap_search_check(screen, 10, 500, 400));
    assert_eq!(tree.calculate_geometries(screen, 10).len(), 2);
    let far = Rect::new(i32::MAX - 10, 0, 1000, 800);
    assert!(!tree.geometries_fit_check(far, 10));
    assert!(!tree.gap_search_check(far, 10, 0, 0));
}

#[test]
fn cycling_through_every_tab_comes_back() {
    let mut tree = LayoutTree::new();
    tree.add_window(1);
    tree.add_window(2);
    tree.add_window(3);
    let start = tree.focused_frame().unwrap().focused;
    for _ in 0..3 {
        tree.cycle_tab(true);
    }
    assert_eq!(tree.focused_frame().unwrap().focused, start);
    for _ in 0..3 {
        tree.cycle_tab(false);
    }
    assert_eq!(tree.focused_frame().unwrap().focused, start);
}
