use ttwm::layout::{Direction, Frame, LayoutTree, Node, SplitDirection};
use ttwm::types::Rect;

// ==================== Tree Creation Tests ====================

#[test]
fn test_new_tree_has_single_frame() {
    let tree = LayoutTree::new();

    // Should have exactly one frame
    let frames = tree.all_frames();
    assert_eq!(frames.len(), 1);

    // Root should be the focused frame
    assert_eq!(tree.root, tree.focused);

    // Frame should be empty
    let frame = tree.focused_frame().unwrap();
    assert!(frame.is_empty());
}

#[test]
fn test_root_has_no_parent() {
    let tree = LayoutTree::new();
    assert!(tree.parent(tree.root).is_none());
}

// ==================== Split Tests ====================

#[test]
fn test_split_horizontal_creates_two_frames() {
    let mut tree = LayoutTree::new();
    let original_root = tree.root;

    tree.split_focused(SplitDirection::Horizontal);

    // Should now have 2 frames
    let frames = tree.all_frames();
    assert_eq!(frames.len(), 2);

    // Root should now be a split, not the original frame
    assert_ne!(tree.root, original_root);
    assert!(tree.get(tree.root).unwrap().as_split().is_some());
}

#[test]
fn test_split_vertical_creates_two_frames() {
    let mut tree = LayoutTree::new();

    tree.split_focused(SplitDirection::Vertical);

    let frames = tree.all_frames();
    assert_eq!(frames.len(), 2);

    // Check the split direction
    let split = tree.get(tree.root).unwrap().as_split().unwrap();
    assert_eq!(split.direction, SplitDirection::Vertical);
}

#[test]
fn test_split_focuses_new_frame() {
    let mut tree = LayoutTree::new();
    let original_focused = tree.focused;

    let new_frame = tree.split_focused(SplitDirection::Horizontal);

    // Focus should move to the new frame
    assert_eq!(tree.focused, new_frame);
    assert_ne!(tree.focused, original_focused);
}

#[test]
fn test_nested_splits() {
    let mut tree = LayoutTree::new();

    // Split horizontally, then vertically
    tree.split_focused(SplitDirection::Horizontal);
    tree.split_focused(SplitDirection::Vertical);

    // Should have 3 frames now
    let frames = tree.all_frames();
    assert_eq!(frames.len(), 3);
}

#[test]
fn test_split_ratio_is_half() {
    let mut tree = LayoutTree::new();
    tree.split_focused(SplitDirection::Horizontal);

    let split = tree.get(tree.root).unwrap().as_split().unwrap();
    assert_eq!(split.ratio, 500_000);
}

// ==================== Geometry Tests ====================

#[test]
fn test_single_frame_fills_screen() {
    let tree = LayoutTree::new();
    let screen = Rect::new(0, 0, 1920, 1080);

    let geometries = tree.calculate_geometries(screen, 0);

    assert_eq!(geometries.len(), 1);
    let (_, rect) = &geometries[0];
    assert_eq!(rect.x, 0);
    assert_eq!(rect.y, 0);
    assert_eq!(rect.width, 1920);
    assert_eq!(rect.height, 1080);
}

#[test]
fn test_horizontal_split_divides_width() {
    let mut tree = LayoutTree::new();
    tree.split_focused(SplitDirection::Horizontal);

    let screen = Rect::new(0, 0, 1000, 500);
    let geometries = tree.calculate_geometries(screen, 0);

    assert_eq!(geometries.len(), 2);

    // Both should have same height
    assert_eq!(geometries[0].1.height, 500);
    assert_eq!(geometries[1].1.height, 500);

    // Widths should roughly add up (allowing for gap calculations)
    let total_width = geometries[0].1.width + geometries[1].1.width;
    assert!(total_width <= 1000);
}

#[test]
fn test_vertical_split_divides_height() {
    let mut tree = LayoutTree::new();
    tree.split_focused(SplitDirection::Vertical);

    let screen = Rect::new(0, 0, 1000, 500);
    let geometries = tree.calculate_geometries(screen, 0);

    assert_eq!(geometries.len(), 2);

    // Both should have same width
    assert_eq!(geometries[0].1.width, 1000);
    assert_eq!(geometries[1].1.width, 1000);

    // Heights should roughly add up
    let total_height = geometries[0].1.height + geometries[1].1.height;
    assert!(total_height <= 500);
}

#[test]
fn test_gaps_reduce_available_space() {
    let mut tree = LayoutTree::new();
    tree.split_focused(SplitDirection::Horizontal);

    let screen = Rect::new(0, 0, 1000, 500);
    let gap = 20;
    let geometries = tree.calculate_geometries(screen, gap);

    // With a gap, total width should be less
    let total_width = geometries[0].1.width + geometries[1].1.width;
    assert!(total_width < 1000);

    // Second rect should start after first + gap
    let expected_x = geometries[0].1.x + geometries[0].1.width as i32 + gap as i32;
    assert_eq!(geometries[1].1.x, expected_x);
}

// ==================== Spatial Navigation Tests ====================

#[test]
fn test_spatial_focus_left() {
    let mut tree = LayoutTree::new();
    tree.split_focused(SplitDirection::Horizontal);
    // Now focused on right frame

    let screen = Rect::new(0, 0, 1000, 500);
    let geometries = tree.calculate_geometries(screen, 0);
    let right_frame = tree.focused;

    // Focus left should move to left frame
    assert!(tree.focus_spatial(Direction::Left, &geometries));
    assert_ne!(tree.focused, right_frame);
}

#[test]
fn test_spatial_focus_right() {
    let mut tree = LayoutTree::new();
    tree.split_focused(SplitDirection::Horizontal);

    let screen = Rect::new(0, 0, 1000, 500);
    let geometries = tree.calculate_geometries(screen, 0);

    // Focus left first
    tree.focus_spatial(Direction::Left, &geometries);
    let left_frame = tree.focused;

    // Focus right should move to right frame
    assert!(tree.focus_spatial(Direction::Right, &geometries));
    assert_ne!(tree.focused, left_frame);
}

#[test]
fn test_spatial_focus_up() {
    let mut tree = LayoutTree::new();
    tree.split_focused(SplitDirection::Vertical);
    // Now focused on bottom frame

    let screen = Rect::new(0, 0, 1000, 500);
    let geometries = tree.calculate_geometries(screen, 0);
    let bottom_frame = tree.focused;

    // Focus up should move to top frame
    assert!(tree.focus_spatial(Direction::Up, &geometries));
    assert_ne!(tree.focused, bottom_frame);
}

#[test]
fn test_spatial_focus_down() {
    let mut tree = LayoutTree::new();
    tree.split_focused(SplitDirection::Vertical);

    let screen = Rect::new(0, 0, 1000, 500);
    let geometries = tree.calculate_geometries(screen, 0);

    // Focus up first
    tree.focus_spatial(Direction::Up, &geometries);
    let top_frame = tree.focused;

    // Focus down should move to bottom frame
    assert!(tree.focus_spatial(Direction::Down, &geometries));
    assert_ne!(tree.focused, top_frame);
}

#[test]
fn test_spatial_focus_no_frame_in_direction() {
    let mut tree = LayoutTree::new();
    tree.split_focused(SplitDirection::Horizontal);

    let screen = Rect::new(0, 0, 1000, 500);
    let geometries = tree.calculate_geometries(screen, 0);

    // Focus left (to leftmost frame)
    tree.focus_spatial(Direction::Left, &geometries);

    // Focus left again should fail (no frame to the left)
    assert!(!tree.focus_spatial(Direction::Left, &geometries));
}

#[test]
fn test_spatial_focus_single_frame() {
    let tree = LayoutTree::new();
    let screen = Rect::new(0, 0, 1000, 500);
    let geometries = tree.calculate_geometries(screen, 0);

    // With single frame, can't focus in any direction
    assert!(tree.find_frame_in_direction(Direction::Left, &geometries).is_none());
    assert!(tree.find_frame_in_direction(Direction::Right, &geometries).is_none());
    assert!(tree.find_frame_in_direction(Direction::Up, &geometries).is_none());
    assert!(tree.find_frame_in_direction(Direction::Down, &geometries).is_none());
}

// ==================== Frame/Window Tests ====================

#[test]
fn test_add_window_to_frame() {
    let mut tree = LayoutTree::new();

    tree.add_window(1001);

    let frame = tree.focused_frame().unwrap();
    assert_eq!(frame.windows.len(), 1);
    assert_eq!(frame.windows[0], 1001);
}

#[test]
fn test_add_multiple_windows() {
    let mut tree = LayoutTree::new();

    tree.add_window(1001);
    tree.add_window(1002);
    tree.add_window(1003);

    let frame = tree.focused_frame().unwrap();
    assert_eq!(frame.windows.len(), 3);
}

#[test]
fn test_add_window_focuses_it() {
    let mut tree = LayoutTree::new();

    tree.add_window(1001);
    tree.add_window(1002);

    let frame = tree.focused_frame().unwrap();
    assert_eq!(frame.focused, 1); // Second window (index 1)
    assert_eq!(frame.focused_window(), Some(1002));
}

#[test]
fn test_remove_window() {
    let mut tree = LayoutTree::new();

    tree.add_window(1001);
    tree.add_window(1002);

    let removed = tree.remove_window(1001);
    assert!(removed.is_some());

    let frame = tree.focused_frame().unwrap();
    assert_eq!(frame.windows.len(), 1);
    assert_eq!(frame.windows[0], 1002);
}

#[test]
fn test_remove_nonexistent_window() {
    let mut tree = LayoutTree::new();
    tree.add_window(1001);

    let removed = tree.remove_window(9999);
    assert!(removed.is_none());
}

#[test]
fn test_find_window() {
    let mut tree = LayoutTree::new();
    tree.add_window(1001);

    let found = tree.find_window(1001);
    assert!(found.is_some());
    assert_eq!(found.unwrap(), tree.focused);
}

#[test]
fn test_find_window_not_found() {
    let tree = LayoutTree::new();
    assert!(tree.find_window(9999).is_none());
}

// ==================== Tab Cycling Tests ====================

#[test]
fn test_cycle_tab_forward() {
    let mut tree = LayoutTree::new();
    tree.add_window(1001);
    tree.add_window(1002);
    tree.add_window(1003);

    // Currently focused on 1003 (last added)
    let next = tree.cycle_tab(true);
    assert_eq!(next, Some(1001)); // Wraps around

    let next = tree.cycle_tab(true);
    assert_eq!(next, Some(1002));
}

#[test]
fn test_cycle_tab_backward() {
    let mut tree = LayoutTree::new();
    tree.add_window(1001);
    tree.add_window(1002);
    tree.add_window(1003);

    // Currently focused on 1003 (index 2)
    let prev = tree.cycle_tab(false);
    assert_eq!(prev, Some(1002));

    let prev = tree.cycle_tab(false);
    assert_eq!(prev, Some(1001));

    let prev = tree.cycle_tab(false);
    assert_eq!(prev, Some(1003)); // Wraps around
}

#[test]
fn test_cycle_tab_empty_frame() {
    let mut tree = LayoutTree::new();

    let result = tree.cycle_tab(true);
    assert!(result.is_none());
}

#[test]
fn test_cycle_tab_single_window() {
    let mut tree = LayoutTree::new();
    tree.add_window(1001);

    let result = tree.cycle_tab(true);
    assert_eq!(result, Some(1001)); // Stays on same window
}

#[test]
fn test_focus_tab_by_index() {
    let mut tree = LayoutTree::new();
    tree.add_window(1001);
    tree.add_window(1002);
    tree.add_window(1003);

    let result = tree.focus_tab(0);
    assert_eq!(result, Some(1001));

    let result = tree.focus_tab(2);
    assert_eq!(result, Some(1003));
}

#[test]
fn test_focus_tab_out_of_bounds() {
    let mut tree = LayoutTree::new();
    tree.add_window(1001);

    let result = tree.focus_tab(5);
    assert!(result.is_none());
}

// ==================== Empty Frame Cleanup Tests ====================

#[test]
fn test_remove_empty_frames_single_frame() {
    let mut tree = LayoutTree::new();

    // Single empty frame at root should NOT be removed
    let changed = tree.remove_empty_frames();
    assert!(!changed);
    assert_eq!(tree.all_frames().len(), 1);
}

#[test]
fn test_remove_empty_frames_after_split() {
    let mut tree = LayoutTree::new();
    tree.add_window(1001);
    tree.split_focused(SplitDirection::Horizontal);

    // Now we have: [frame with window] | [empty frame (focused)]
    // The empty frame should be removed
    let changed = tree.remove_empty_frames();
    assert!(changed);

    // Should be back to 1 frame
    assert_eq!(tree.all_frames().len(), 1);
}

#[test]
fn test_remove_empty_frames_preserves_windows() {
    let mut tree = LayoutTree::new();
    tree.add_window(1001);
    tree.split_focused(SplitDirection::Horizontal);
    tree.add_window(1002);

    // Remove 1002, making the second frame empty
    tree.remove_window(1002);
    tree.remove_empty_frames();

    // Window 1001 should still exist
    assert!(tree.find_window(1001).is_some());
    assert_eq!(tree.all_windows().len(), 1);
}

// ==================== Move Window Tests ====================

#[test]
fn test_move_window_to_adjacent_forward() {
    let mut tree = LayoutTree::new();
    tree.add_window(1001);
    tree.split_focused(SplitDirection::Horizontal);

    // Focus back to first frame using spatial navigation
    let screen = Rect::new(0, 0, 1000, 500);
    let geometries = tree.calculate_geometries(screen, 0);
    tree.focus_spatial(Direction::Left, &geometries);

    // Move window forward
    let moved = tree.move_window_to_adjacent(true);
    assert_eq!(moved, Some(1001));

    // Window should now be in the second frame
    assert_eq!(tree.focused_frame().unwrap().windows.len(), 1);
}

#[test]
fn test_move_window_single_frame() {
    let mut tree = LayoutTree::new();
    tree.add_window(1001);

    // Can't move with only one frame
    let moved = tree.move_window_to_adjacent(true);
    assert!(moved.is_none());
}

// ==================== Resize Tests ====================

#[test]
fn test_resize_focused_split() {
    let mut tree = LayoutTree::new();
    tree.split_focused(SplitDirection::Horizontal);

    // Focus first frame using spatial navigation
    let screen = Rect::new(0, 0, 1000, 500);
    let geometries = tree.calculate_geometries(screen, 0);
    tree.focus_spatial(Direction::Left, &geometries);

    let original_ratio = tree.get(tree.root).unwrap().as_split().unwrap().ratio;

    tree.resize_focused_split(100_000);

    let new_ratio = tree.get(tree.root).unwrap().as_split().unwrap().ratio;
    assert!(new_ratio > original_ratio);
}

#[test]
fn test_resize_clamps_ratio() {
    let mut tree = LayoutTree::new();
    tree.split_focused(SplitDirection::Horizontal);

    // Try to resize way past the limit
    for _ in 0..20 {
        tree.resize_focused_split(100_000);
    }

    let ratio = tree.get(tree.root).unwrap().as_split().unwrap().ratio;
    assert!(ratio <= 900_000);
    assert!(ratio >= 100_000);
}

#[test]
fn test_resize_no_parent() {
    let mut tree = LayoutTree::new();

    // Single frame has no parent split
    let resized = tree.resize_focused_split(100_000);
    assert!(!resized);
}

// ==================== Frame Operations Tests ====================

#[test]
fn test_frame_remove_adjusts_focus() {
    let mut frame = Frame::new();
    frame.add_window(1001);
    frame.add_window(1002);
    frame.add_window(1003);

    // Focus is on 1003 (index 2)
    assert_eq!(frame.focused, 2);

    // Remove focused window
    frame.remove_window(1003);

    // Focus should move to last remaining
    assert_eq!(frame.focused, 1);
    assert_eq!(frame.focused_window(), Some(1002));
}

#[test]
fn test_frame_remove_middle() {
    let mut frame = Frame::new();
    frame.add_window(1001);
    frame.add_window(1002);
    frame.add_window(1003);

    frame.focused = 0; // Focus first
    frame.remove_window(1002); // Remove middle

    // Focus should stay at 0
    assert_eq!(frame.focused, 0);
    assert_eq!(frame.focused_window(), Some(1001));
}

// ==================== All Windows Tests ====================

#[test]
fn test_all_windows_multiple_frames() {
    let mut tree = LayoutTree::new();
    tree.add_window(1001);
    tree.split_focused(SplitDirection::Horizontal);
    tree.add_window(1002);
    tree.split_focused(SplitDirection::Vertical);
    tree.add_window(1003);

    let all = tree.all_windows();
    assert_eq!(all.len(), 3);
    assert!(all.contains(&1001));
    assert!(all.contains(&1002));
    assert!(all.contains(&1003));
}

// ==================== Tab Reorder Tests ====================

#[test]
fn test_reorder_tab_forward() {
    let mut tree = LayoutTree::new();
    tree.add_window(1001);
    tree.add_window(1002);
    tree.add_window(1003);

    let frame_id = tree.focused;

    // Move tab 0 to position 2
    assert!(tree.reorder_tab(frame_id, 0, 2));

    let frame = tree.focused_frame().unwrap();
    assert_eq!(frame.windows, vec![1002, 1003, 1001]);
}

#[test]
fn test_reorder_tab_backward() {
    let mut tree = LayoutTree::new();
    tree.add_window(1001);
    tree.add_window(1002);
    tree.add_window(1003);

    let frame_id = tree.focused;

    // Move tab 2 to position 0
    assert!(tree.reorder_tab(frame_id, 2, 0));

    let frame = tree.focused_frame().unwrap();
    assert_eq!(frame.windows, vec![1003, 1001, 1002]);
}

#[test]
fn test_reorder_tab_same_position() {
    let mut tree = LayoutTree::new();
    tree.add_window(1001);
    tree.add_window(1002);

    let frame_id = tree.focused;

    // Reorder to same position should return false
    assert!(!tree.reorder_tab(frame_id, 0, 0));
}

#[test]
fn test_reorder_tab_out_of_bounds() {
    let mut tree = LayoutTree::new();
    tree.add_window(1001);
    tree.add_window(1002);

    let frame_id = tree.focused;

    // Out of bounds should return false
    assert!(!tree.reorder_tab(frame_id, 0, 5));
    assert!(!tree.reorder_tab(frame_id, 5, 0));
}

#[test]
fn test_reorder_tab_updates_focus() {
    let mut tree = LayoutTree::new();
    tree.add_window(1001);
    tree.add_window(1002);
    tree.add_window(1003);

    let frame_id = tree.focused;

    // Focus is on 1003 (index 2), move it to position 0
    assert!(tree.reorder_tab(frame_id, 2, 0));

    let frame = tree.focused_frame().unwrap();
    // Focus should follow the moved window
    assert_eq!(frame.focused, 0);
    assert_eq!(frame.focused_window(), Some(1003));
}

// ==================== Move Window to Frame Tests ====================

#[test]
fn test_move_window_to_frame() {
    let mut tree = LayoutTree::new();
    tree.add_window(1001);
    tree.add_window(1002);

    let source_frame = tree.focused;
    tree.split_focused(SplitDirection::Horizontal);
    let target_frame = tree.focused;

    // Move window 1001 from source to target
    assert!(tree.move_window_to_frame(1001, source_frame, target_frame));

    // Source frame should have only 1002
    if let Some(Node::Frame(frame)) = tree.get(source_frame) {
        assert_eq!(frame.windows, vec![1002]);
    }

    // Target frame should have 1001
    if let Some(Node::Frame(frame)) = tree.get(target_frame) {
        assert!(frame.windows.contains(&1001));
    }
}

#[test]
fn test_move_window_to_frame_updates_focus() {
    let mut tree = LayoutTree::new();
    tree.add_window(1001);

    let source_frame = tree.focused;
    tree.split_focused(SplitDirection::Horizontal);
    let target_frame = tree.focused;

    // Focus should change to target frame after move
    tree.focused = source_frame;
    assert!(tree.move_window_to_frame(1001, source_frame, target_frame));
    assert_eq!(tree.focused, target_frame);
}

#[test]
fn test_move_window_nonexistent() {
    let mut tree = LayoutTree::new();
    tree.add_window(1001);

    let source_frame = tree.focused;
    tree.split_focused(SplitDirection::Horizontal);
    let target_frame = tree.focused;

    // Moving nonexistent window should fail
    assert!(!tree.move_window_to_frame(9999, source_frame, target_frame));
}

#[test]
fn node_ids_read_as_node_ids() {
    let mut tree = LayoutTree::new();
    assert_eq!(tree.focused_frame_id(), "NodeId(1v1)");
    tree.split_focused(SplitDirection::Horizontal);
    assert_eq!(tree.focused_frame_id(), "NodeId(2v1)");
}
