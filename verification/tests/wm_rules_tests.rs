use ttwm::layout::{LayoutTree, SplitDirection};
use ttwm::rules::{float_position, fullscreen_after};
use ttwm::config::{grab_masks, keycode_for_keysym, keysym_for_keycode};
use ttwm::workspaces::{cycle_focus_target, WorkspaceManager};

#[test]
fn focus_cycles_through_tiled_then_floating() {
    let mut m = WorkspaceManager::new();
    m.current_mut().layout.add_window(1);
    m.current_mut().layout.add_window(2);
    m.current_mut().add_floating(9, 0, 0, 10, 10);
    let order = m.current().focus_order();
    assert_eq!(order, vec![1, 2, 9]);
    assert_eq!(cycle_focus_target(&order, Some(2), true), Some(9));
    assert_eq!(cycle_focus_target(&order, Some(9), true), Some(1));
    assert_eq!(cycle_focus_target(&order, Some(1), false), Some(9));
    assert_eq!(cycle_focus_target(&order, None, true), Some(2));
    assert_eq!(cycle_focus_target(&order, Some(77), false), Some(9));
    assert_eq!(cycle_focus_target(&vec![], Some(1), true), None);
}

#[test]
fn windows_are_found_on_their_workspace() {
    let mut m = WorkspaceManager::new();
    m.current_mut().layout.add_window(1);
    m.switch_to(3);
    m.current_mut().add_floating(5, 0, 0, 10, 10);
    m.current_mut().layout.add_window(6);
    assert_eq!(m.find_window_workspace(1), Some(0));
    assert_eq!(m.find_window_workspace(5), Some(3));
    assert_eq!(m.find_window_workspace(6), Some(3));
    assert_eq!(m.find_window_workspace(7), None);
    assert_eq!(m.client_list(), vec![1, 6, 5]);
}

#[test]
fn key_grabs_and_keycodes() {
    assert_eq!(grab_masks(64), [64, 66, 80, 82]);
    // two keysyms per keycode, keycodes from 8
    let map = [0, 0, 0x61, 0x41, 0x62, 0x42, 0x61, 0];
    assert_eq!(keycode_for_keysym(&map, 2, 8, 0x61), Some(9));
    assert_eq!(keycode_for_keysym(&map, 2, 8, 0x42), Some(10));
    assert_eq!(keycode_for_keysym(&map, 2, 8, 0x63), None);
    assert_eq!(keycode_for_keysym(&map, 2, 8, 0), None);
    assert_eq!(keysym_for_keycode(&map, 2, 8, 9), 0x61);
    assert_eq!(keysym_for_keycode(&map, 2, 8, 20), 0);
}

#[test]
fn fullscreen_requests() {
    assert!(!fullscreen_after(0, true));
    assert!(fullscreen_after(1, false));
    assert!(fullscreen_after(2, false));
    assert!(!fullscreen_after(2, true));
    assert!(fullscreen_after(7, true));
    assert!(!fullscreen_after(7, false));
}

#[test]
fn new_floating_windows_are_centred_when_at_origin() {
    assert_eq!(float_position(0, 0, 400, 300, 1920, 1080), (760, 390));
    assert_eq!(float_position(0, 0, 3000, 300, 1920, 1080), (0, 390));
    assert_eq!(float_position(10, 0, 400, 300, 1920, 1080), (10, 0));
    assert_eq!(float_position(-5, -7, 400, 300, 1920, 1080), (-5, -7));
}

#[test]
fn focusing_frames_and_window_frames() {
    let mut tree = LayoutTree::new();
    tree.add_window(1);
    let left = tree.root;
    let right = tree.split_focused(SplitDirection::Horizontal);
    assert_eq!(tree.focus_window_frame(1), Some(left));
    assert_eq!(tree.focused, left);
    assert_eq!(tree.focus_window_frame(2), None);
    assert_eq!(tree.focused, left);
    assert!(tree.focus_frame(right));
    assert_eq!(tree.focused, right);
    let root = tree.root;
    assert!(!tree.focus_frame(root));
    assert_eq!(tree.focused, right);
}

#[test]
fn floating_geometry_updates() {
    let mut m = WorkspaceManager::new();
    m.current_mut().add_floating(5, 0, 0, 10, 10);
    assert!(m.current_mut().set_floating_geometry(5, 1, 2, 30, 40));
    let f = m.current().find_floating(5).unwrap();
    assert_eq!((f.x, f.y, f.width, f.height), (1, 2, 30, 40));
    assert!(!m.current_mut().set_floating_geometry(6, 1, 2, 30, 40));
}
