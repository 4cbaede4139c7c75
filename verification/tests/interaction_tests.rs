use ttwm::config::{find_binding, ParsedBinding, WmAction};
use ttwm::drag::{
    float_resize, frame_at_point, motion_fits_check, on_motion, on_release, ratio_at, resize_edge_at, DragState,
    MotionAction, ReleaseAction, ResizeEdge,
};
use ttwm::layout::{LayoutTree, SplitDirection};
use ttwm::tabs::{drop_target, tab_at, tab_background, tab_layout, vertical_tab_at, TabBarArea};
use ttwm::config::LayoutConfig;
use ttwm::types::Rect;

#[test]
fn resize_edges_of_a_floating_window() {
    assert_eq!(resize_edge_at(0, 0, 200, 100), Some(ResizeEdge::TopLeft));
    assert_eq!(resize_edge_at(195, 0, 200, 100), Some(ResizeEdge::TopRight));
    assert_eq!(resize_edge_at(3, 95, 200, 100), Some(ResizeEdge::BottomLeft));
    assert_eq!(resize_edge_at(199, 99, 200, 100), Some(ResizeEdge::BottomRight));
    assert_eq!(resize_edge_at(100, 7, 200, 100), Some(ResizeEdge::Top));
    assert_eq!(resize_edge_at(100, 92, 200, 100), Some(ResizeEdge::Bottom));
    assert_eq!(resize_edge_at(7, 50, 200, 100), Some(ResizeEdge::Left));
    assert_eq!(resize_edge_at(192, 50, 200, 100), Some(ResizeEdge::Right));
    assert_eq!(resize_edge_at(100, 50, 200, 100), None);
    // a window so small that both sides are near: no edge
    assert_eq!(resize_edge_at(5, 50, 10, 100), None);
}

#[test]
fn float_resize_respects_minimum_size() {
    // dragging the left edge right by 50 shrinks the window
    assert_eq!(float_resize(ResizeEdge::Left, 100, 100, 300, 200, 50, 0), (150, 100, 250, 200));
    // but not below 100 pixels
    assert_eq!(float_resize(ResizeEdge::Left, 100, 100, 300, 200, 500, 0), (300, 100, 100, 200));
    // growing from the bottom-right
    assert_eq!(float_resize(ResizeEdge::BottomRight, 0, 0, 300, 200, 20, -150), (0, 0, 320, 100));
    // the top edge moved up grows the window
    assert_eq!(float_resize(ResizeEdge::TopLeft, 10, 10, 150, 150, -10, -20), (0, -10, 160, 170));
}

#[test]
fn gap_drag_ratios() {
    assert_eq!(ratio_at(500, 0, 1000), 500_000);
    assert_eq!(ratio_at(-5, 0, 1000), 0);
    assert_eq!(ratio_at(1250, 1000, 1000), 250_000);
}

#[test]
fn motion_during_each_drag() {
    let tree = LayoutTree::new();
    let id = tree.root;
    assert_eq!(on_motion(None, 5, 5), MotionAction::UpdateHover);
    let tab = DragState::Tab { window: 1, source_frame: id, source_index: 0 };
    assert_eq!(on_motion(Some(tab), 5, 5), MotionAction::Nothing);
    let resize = DragState::Resize { split_id: id, direction: SplitDirection::Vertical, split_start: 100, total_size: 400 };
    assert_eq!(on_motion(Some(resize), 0, 200), MotionAction::SetSplitRatio { split_id: id, ratio: 250_000 });
    let mv = DragState::FloatMove { window: 9, start_x: 10, start_y: 10, win_x: 100, win_y: 50 };
    assert_eq!(on_motion(Some(mv), 15, 0), MotionAction::MoveFloat { window: 9, x: 105, y: 40 });
    let rs = DragState::FloatResize {
        window: 9, edge: ResizeEdge::Right, start_x: 0, start_y: 0,
        original_x: 0, original_y: 0, original_w: 200, original_h: 200,
    };
    assert_eq!(on_motion(Some(rs), 30, 30), MotionAction::ResizeFloat { window: 9, x: 0, y: 0, width: 230, height: 200 });
}

#[test]
fn releasing_a_dragged_tab() {
    let mut tree = LayoutTree::new();
    let a = tree.root;
    let b = tree.split_focused(SplitDirection::Horizontal);
    let drag = DragState::Tab { window: 7, source_frame: a, source_index: 1 };
    assert_eq!(on_release(drag, Some(a), Some(0)), ReleaseAction::Reorder { frame: a, from: 1, to: 0, window: 7 });
    assert_eq!(on_release(drag, Some(a), Some(1)), ReleaseAction::Refocus { window: 7 });
    assert_eq!(on_release(drag, Some(a), None), ReleaseAction::Refocus { window: 7 });
    assert_eq!(on_release(drag, Some(b), Some(3)), ReleaseAction::MoveToFrame { window: 7, source: a, target: b });
    assert_eq!(on_release(drag, None, None), ReleaseAction::Cancelled);
    let mv = DragState::FloatMove { window: 9, start_x: 0, start_y: 0, win_x: 0, win_y: 0 };
    assert_eq!(on_release(mv, Some(a), None), ReleaseAction::Finished);
}

#[test]
fn tab_widths_are_clamped_and_laid_out_in_order() {
    let layout = tab_layout(&[10, 100, 500], false);
    assert_eq!(layout, vec![(0, 80), (80, 124), (204, 200)]);
    let layout = tab_layout(&[10, 100, 500], true);
    assert_eq!(layout, vec![(0, 80), (80, 148), (228, 200)]);
    assert!(tab_layout(&[], true).is_empty());
}

#[test]
fn tabs_under_a_point() {
    let layout = vec![(0, 80), (80, 124), (204, 200)];
    assert_eq!(tab_at(&layout, 0), Some(0));
    assert_eq!(tab_at(&layout, 79), Some(0));
    assert_eq!(tab_at(&layout, 80), Some(1));
    assert_eq!(tab_at(&layout, 403), Some(2));
    assert_eq!(tab_at(&layout, 404), None);
    assert_eq!(tab_at(&layout, -1), None);
    assert_eq!(vertical_tab_at(0, 28, 3), Some(0));
    assert_eq!(vertical_tab_at(83, 28, 3), Some(2));
    assert_eq!(vertical_tab_at(84, 28, 3), None);
}

#[test]
fn tab_colours_by_priority() {
    let c = LayoutConfig::default();
    assert_eq!(tab_background(&c, true, true, true, true), c.tab_tagged_bg);
    assert_eq!(tab_background(&c, false, true, true, true), c.tab_focused_bg);
    assert_eq!(tab_background(&c, false, true, false, true), c.tab_urgent_bg);
    assert_eq!(tab_background(&c, false, false, true, true), c.tab_urgent_bg);
    assert_eq!(tab_background(&c, false, true, false, false), c.tab_visible_unfocused_bg);
    assert_eq!(tab_background(&c, false, false, true, false), c.tab_unfocused_bg);
}

#[test]
fn drop_targets() {
    let mut tree = LayoutTree::new();
    let a = tree.root;
    let b = tree.split_focused(SplitDirection::Horizontal);
    let frames = tree.calculate_geometries(Rect::new(0, 0, 1000, 500), 0);
    let bars = vec![
        TabBarArea { frame: a, x: 0, y: 0, width: 500, height: 28, vertical: false, num_tabs: 2, layout: vec![(0, 80), (80, 100)] },
        TabBarArea { frame: b, x: 500, y: 0, width: 28, height: 500, vertical: true, num_tabs: 2, layout: vec![] },
    ];
    assert_eq!(drop_target(&bars, &frames, 90, 10, 28), (Some(a), Some(1)));
    assert_eq!(drop_target(&bars, &frames, 300, 10, 28), (Some(a), None));
    assert_eq!(drop_target(&bars, &frames, 510, 30, 28), (Some(b), Some(1)));
    assert_eq!(drop_target(&bars, &frames, 510, 100, 28), (Some(b), None));
    assert_eq!(drop_target(&bars, &frames, 700, 300, 28), (Some(b), None));
    assert_eq!(drop_target(&bars, &frames, 100, 300, 28), (Some(a), None));
    assert_eq!(drop_target(&bars, &frames, 2000, 300, 28), (None, None));
    assert_eq!(frame_at_point(&frames, 999, 499), Some(b));
}

#[test]
fn key_presses_find_their_binding() {
    let bindings = vec![
        (WmAction::Quit, ParsedBinding { keysym: 0x71, modifiers: 64 }),
        (WmAction::FocusNext, ParsedBinding { keysym: 0x6a, modifiers: 64 }),
        (WmAction::CloseWindow, ParsedBinding { keysym: 0x71, modifiers: 64 }),
    ];
    assert_eq!(find_binding(&bindings, 0x71, 64), Some(0));
    // Num Lock (16) and Caps Lock (2) are ignored
    assert_eq!(find_binding(&bindings, 0x6a, 64 | 16 | 2), Some(1));
    assert_eq!(find_binding(&bindings, 0x6a, 64 | 1), None);
    assert_eq!(find_binding(&bindings, 0x20, 64), None);
}

#[test]
fn dragging_a_split_of_no_length() {
    let mut tree = LayoutTree::new();
    tree.split_focused(SplitDirection::Horizontal);
    let id = tree.root;
    assert_eq!(ratio_at(5, 0, 0), u32::MAX);
    assert_eq!(ratio_at(-5, 0, 0), 0);
    let drag = DragState::Resize { split_id: id, direction: SplitDirection::Horizontal, split_start: 100, total_size: 0 };
    assert_eq!(on_motion(Some(drag), 100, 7), MotionAction::Nothing);
    assert_eq!(on_motion(Some(drag), 150, 7), MotionAction::SetSplitRatio { split_id: id, ratio: u32::MAX });
    assert_eq!(on_motion(Some(drag), 50, 7), MotionAction::SetSplitRatio { split_id: id, ratio: 0 });
    assert!(tree.set_split_ratio(id, u32::MAX));
}

#[test]
fn motion_range_check() {
    let moving = DragState::FloatMove { window: 1, start_x: 10, start_y: 10, win_x: 100, win_y: 100 };
    assert!(motion_fits_check(Some(moving), 20, 30));
    assert!(motion_fits_check(None, i32::MAX, i32::MIN));
    let far = DragState::FloatMove { window: 1, start_x: i32::MIN, start_y: 0, win_x: 0, win_y: 0 };
    assert!(!motion_fits_check(Some(far), i32::MAX, 0));
    let resizing = DragState::FloatResize {
        window: 1,
        edge: ResizeEdge::Right,
        start_x: 0,
        start_y: 0,
        original_x: 0,
        original_y: 0,
        original_w: 200,
        original_h: 200,
    };
    assert!(motion_fits_check(Some(resizing), 50, 50));
    let wide = DragState::FloatResize {
        window: 1,
        edge: ResizeEdge::Right,
        start_x: 0,
        start_y: 0,
        original_x: 0,
        original_y: 0,
        original_w: u32::MAX,
        original_h: 200,
    };
    assert!(!motion_fits_check(Some(wide), 50, 50));
}
