use ttwm::icon::{scale_icon, select_icon};
use ttwm::layout::{LayoutTree, NodeSnapshot, SplitDirection};
use ttwm::rules::{is_dock_window, is_window_urgent, read_struts, should_float, supports_delete_protocol};
use ttwm::types::{Rect, RectSnapshot, StrutPartial};

#[test]
fn icon_selection_prefers_close_sizes() {
    // 2x2 icon, then 4x4 icon; target 3: 4x4 is 1 away, 2x2 is 2 away
    let mut data = vec![2, 2, 1, 2, 3, 4];
    data.extend_from_slice(&[4, 4]);
    data.extend(std::iter::repeat(7).take(16));
    assert_eq!(select_icon(&data, 3), Some((4, 4, 8)));
    // target 2: exact match wins
    assert_eq!(select_icon(&data, 2), Some((2, 2, 2)));
    // an entry running past the end stops the scan
    assert_eq!(select_icon(&[5, 5, 1], 5), None);
    assert_eq!(select_icon(&[1, 1], 1), None);
    assert_eq!(select_icon(&[0, 1, 2, 1, 1, 9], 1), None);
}

#[test]
fn icon_scaling_nearest_neighbour_to_bgra() {
    let src = vec![0xFF102030, 0x80405060, 0x00708090, 0x11223344];
    let out = scale_icon(&src, 2, 2, 2);
    assert_eq!(out, vec![0x30, 0x20, 0x10, 0xFF, 0x60, 0x50, 0x40, 0x80, 0x90, 0x80, 0x70, 0x00, 0x44, 0x33, 0x22, 0x11]);
    let up = scale_icon(&src[..1], 1, 1, 2);
    assert_eq!(up, vec![0x30, 0x20, 0x10, 0xFF].repeat(4));
    // a source too short leaves transparent pixels
    let short = scale_icon(&[], 1, 1, 1);
    assert_eq!(short, vec![0, 0, 0, 0]);
}

#[test]
fn window_property_rules() {
    assert!(should_float(&[5, 9], &[1, 2, 9]));
    assert!(!should_float(&[5], &[1, 2, 9]));
    assert!(!should_float(&[], &[1]));
    assert!(is_dock_window(&[3, 4], 4));
    assert!(!is_dock_window(&[3], 4));
    assert!(is_window_urgent(&[7, 8], 8, &[]));
    assert!(is_window_urgent(&[], 8, &[256 | 1]));
    assert!(!is_window_urgent(&[7], 8, &[1]));
    assert!(supports_delete_protocol(&[10, 11], 11));
    assert!(!supports_delete_protocol(&[], 11));
}

#[test]
fn struts_from_properties() {
    let partial: Vec<u32> = (1..=12).collect();
    let s = read_struts(&partial, &[9, 9, 9, 9]);
    assert_eq!(s.left, 1);
    assert_eq!(s.bottom_end_x, 12);
    let s = read_struts(&[1, 2, 3], &[4, 5, 6, 7]);
    assert_eq!(s, StrutPartial { left: 4, right: 5, top: 6, bottom: 7, ..StrutPartial::default() });
    assert_eq!(read_struts(&[], &[1]), StrutPartial::default());
}

#[test]
fn placements_show_front_window_and_tab_bar() {
    let mut tree = LayoutTree::new();
    tree.add_window(1);
    tree.add_window(2);
    tree.focus_tab(0);
    let left = tree.root;
    tree.split_focused(SplitDirection::Horizontal);
    tree.add_window(3);
    let geoms = tree.calculate_geometries(Rect::new(0, 0, 1000, 500), 0);
    let p = tree.frame_placements(&geoms, 28, 2);
    assert_eq!(p.len(), 2);
    assert_eq!(p[0].frame_id, left);
    assert!(p[0].show_tab_bar);
    assert_eq!(p[0].front, Some((1, Rect::new(0, 28, 496, 468))));
    assert_eq!(p[0].hidden, vec![2]);
    assert!(!p[0].is_focused);
    assert!(!p[1].show_tab_bar);
    assert_eq!(p[1].front, Some((3, Rect::new(500, 0, 496, 496))));
    assert!(p[1].hidden.is_empty());
    assert!(p[1].is_focused);
    assert!(!p[1].is_empty);
}

#[test]
fn snapshot_reports_the_tree() {
    let mut tree = LayoutTree::new();
    tree.add_window(1);
    tree.split_focused(SplitDirection::Vertical);
    let geoms = tree.calculate_geometries(Rect::new(0, 0, 100, 100), 0);
    let snap = tree.snapshot(Some(&geoms));
    match snap.root {
        NodeSnapshot::Split { direction, ratio, first, second, .. } => {
            assert_eq!(direction, "vertical");
            assert_eq!(ratio, 500_000);
            match *first {
                NodeSnapshot::Frame { windows, focused_tab, geometry, .. } => {
                    assert_eq!(windows, vec![1]);
                    assert_eq!(focused_tab, 0);
                    assert_eq!(geometry, Some(RectSnapshot { x: 0, y: 0, width: 100, height: 50 }));
                }
                _ => panic!("Expected frame"),
            }
            match *second {
                NodeSnapshot::Frame { id, windows, .. } => {
                    assert!(windows.is_empty());
                    assert_eq!(id, tree.focused_frame_id());
                    assert_eq!(id, "NodeId(2v1)");
                }
                _ => panic!("Expected frame"),
            }
        }
        _ => panic!("Expected split"),
    }
    let plain = tree.snapshot(None);
    match plain.root {
        NodeSnapshot::Split { first, .. } => match *first {
            NodeSnapshot::Frame { geometry, .. } => assert_eq!(geometry, None),
            _ => panic!("Expected frame"),
        },
        _ => panic!("Expected split"),
    }
}
