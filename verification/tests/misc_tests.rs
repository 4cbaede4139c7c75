use ttwm::ipc::{parse_direction, parse_split_direction, parse_window_id, socket_path_for};
use ttwm::layout::{Direction, SplitDirection};
use ttwm::state::{FocusState, ViolationKind, WindowState};
use ttwm::urgent::UrgentManager;
use ttwm::validate::validate_state;
use ttwm::workspaces::{Workspace, WorkspaceManager, NUM_WORKSPACES};

#[test]
fn urgent_windows_are_fifo_without_duplicates() {
    let mut u = UrgentManager::new();
    assert!(u.is_empty());
    assert_eq!(u.first(), None);
    u.add(10);
    u.add(20);
    u.add(10);
    assert_eq!(u.windows(), &[10, 20]);
    assert_eq!(u.first(), Some(10));
    assert!(u.contains(20));
    u.remove(10);
    assert_eq!(u.windows(), &[20]);
    assert!(!u.contains(10));
    u.remove(99);
    assert_eq!(u.windows(), &[20]);
    assert_eq!(u.indicator(), None);
    u.set_indicator(7);
    assert_eq!(u.indicator(), Some(7));
}

#[test]
fn urgent_add_then_remove_restores() {
    let mut u = UrgentManager::new();
    u.add(1);
    u.add(2);
    u.add(3);
    u.remove(3);
    assert_eq!(u.windows(), &[1, 2]);
}

#[test]
fn workspace_cycling_round_trip() {
    let mut m = WorkspaceManager::new();
    assert_eq!(m.current_index(), 0);
    m.prev();
    assert_eq!(m.current_index(), NUM_WORKSPACES - 1);
    m.next();
    assert_eq!(m.current_index(), 0);
    for _ in 0..NUM_WORKSPACES {
        m.next();
    }
    assert_eq!(m.current_index(), 0);
    assert_eq!(m.switch_to(4), Some(0));
    assert_eq!(m.switch_to(4), None);
    assert_eq!(m.switch_to(NUM_WORKSPACES), None);
    assert_eq!(m.current().id, 5);
}

#[test]
fn socket_path_sanitizes_display() {
    assert_eq!(socket_path_for(":0"), "/tmp/ttwm_0.sock");
    assert_eq!(socket_path_for(":1.0"), "/tmp/ttwm_1_0.sock");
    assert_eq!(socket_path_for("host:10.2"), "/tmp/ttwmhost_10_2.sock");
}

#[test]
fn direction_names() {
    assert_eq!(parse_direction("LEFT"), Some(Direction::Left));
    assert_eq!(parse_direction("r"), Some(Direction::Right));
    assert_eq!(parse_direction("Up"), Some(Direction::Up));
    assert_eq!(parse_direction("d"), Some(Direction::Down));
    assert_eq!(parse_direction("diagonal"), None);
    assert_eq!(parse_split_direction("Horizontal"), Some(SplitDirection::Horizontal));
    assert_eq!(parse_split_direction("v"), Some(SplitDirection::Vertical));
    assert_eq!(parse_split_direction("diagonal"), None);
}

#[test]
fn state_values_compare() {
    assert_eq!(FocusState::Focused { window: 12345 }, FocusState::Focused { window: 12345 });
    assert_ne!(FocusState::NoFocus, FocusState::Focused { window: 1 });
    assert_ne!(WindowState::Visible, WindowState::Hidden);
    assert_ne!(ViolationKind::GhostWindow, ViolationKind::OrphanedWindow);
}

#[test]
fn window_ids_in_decimal_or_hex() {
    assert_eq!(parse_window_id("12345"), Some(12345));
    assert_eq!(parse_window_id("0x1f"), Some(31));
    assert_eq!(parse_window_id("0xFFFFFFFF"), Some(u32::MAX));
    assert_eq!(parse_window_id("+7"), Some(7));
    assert_eq!(parse_window_id("4294967296"), None);
    assert_eq!(parse_window_id("1f"), None);
    assert_eq!(parse_window_id("0x"), None);
    assert_eq!(parse_window_id(""), None);
}

#[test]
fn validate_state_reports_focus_and_hidden_windows() {
    let mut ws = Workspace::new(1);
    let none = validate_state(&ws, None, &[], &[]);
    assert!(none.is_empty());

    let found = validate_state(&ws, Some(5), &[7, 8], &[]);
    assert_eq!(found.len(), 3);
    assert_eq!(found[0].kind, ViolationKind::InvalidFocus);
    assert_eq!(found[0].window, Some(5));
    assert_eq!(found[1].kind, ViolationKind::HiddenWindowOrphaned);
    assert_eq!(found[1].window, Some(7));
    assert_eq!(found[2].window, Some(8));

    ws.layout.add_window(5);
    ws.layout.add_window(7);
    let found = validate_state(&ws, Some(5), &[7, 8], &[]);
    assert_eq!(found.len(), 1);
    assert_eq!(found[0].kind, ViolationKind::HiddenWindowOrphaned);
    assert_eq!(found[0].window, Some(8));
}

#[test]
fn validate_state_accepts_floating_focus_and_live_tab_bars() {
    let mut ws = Workspace::new(1);
    ws.add_floating(9, 0, 0, 100, 100);
    let frame = ws.layout.focused;
    let found = validate_state(&ws, Some(9), &[], &[frame]);
    assert!(found.is_empty());
}

#[test]
fn defaults_are_empty() {
    let tracer = ttwm::tracing::EventTracer::default();
    assert!(tracer.is_empty());
    assert_eq!(tracer.max_entries, ttwm::tracing::DEFAULT_MAX_ENTRIES);
    assert_eq!(ttwm::monitor::MonitorManager::default().count(), 0);
    let wm = WorkspaceManager::default();
    assert_eq!(wm.current_index(), 0);
    assert!(wm.client_list().is_empty());
    let urgent = UrgentManager::default();
    assert!(urgent.is_empty());
    assert_eq!(urgent.indicator(), None);
}
