use ttwm::layout::Direction;
use ttwm::monitor::{MonitorId, MonitorInfo, MonitorManager};
use ttwm::types::Rect;

#[test]
fn test_monitor_manager_new() {
    let manager = MonitorManager::new();
    assert_eq!(manager.count(), 0);
}



// Mock monitor tests

#[test]
fn test_add_mock_monitor_single() {
    let mut manager = MonitorManager::new();
    let id = manager.add_mock_monitor("DP-1", Rect::new(0, 0, 1920, 1080), true);

    assert_eq!(manager.count(), 1);
    assert_eq!(manager.focused_id(), id);

    let monitor = manager.get(id).unwrap();
    assert_eq!(monitor.name, "DP-1");
    assert!(monitor.primary);
    assert_eq!(monitor.geometry.width, 1920);
    assert_eq!(monitor.geometry.height, 1080);
}

#[test]
fn test_add_mock_monitor_multiple() {
    let mut manager = MonitorManager::new();
    let id1 = manager.add_mock_monitor("DP-1", Rect::new(0, 0, 1920, 1080), true);
    let id2 = manager.add_mock_monitor("HDMI-1", Rect::new(1920, 0, 1920, 1080), false);

    assert_eq!(manager.count(), 2);
    // Primary should be focused
    assert_eq!(manager.focused_id(), id1);

    let m1 = manager.get(id1).unwrap();
    let m2 = manager.get(id2).unwrap();
    assert_eq!(m1.name, "DP-1");
    assert_eq!(m2.name, "HDMI-1");
    assert!(m1.primary);
    assert!(!m2.primary);
}

#[test]
fn test_with_mock_monitors() {
    let manager = MonitorManager::with_mock_monitors(&[
        ("DP-1", Rect::new(0, 0, 1920, 1080), true),
        ("HDMI-1", Rect::new(1920, 0, 1920, 1080), false),
    ]);

    assert_eq!(manager.count(), 2);
    assert!(manager.primary().is_some());

    let primary = manager.get(manager.primary().unwrap()).unwrap();
    assert_eq!(primary.name, "DP-1");
}

#[test]
fn test_with_mock_monitors_no_primary() {
    let manager = MonitorManager::with_mock_monitors(&[
        ("DP-1", Rect::new(0, 0, 1920, 1080), false),
        ("HDMI-1", Rect::new(1920, 0, 1920, 1080), false),
    ]);

    assert_eq!(manager.count(), 2);
    // Should still have a focused monitor (first one)
    assert!(manager.contains(manager.focused_id()));
}

#[test]
fn test_monitor_navigation_left_right() {
    let mut manager = MonitorManager::with_mock_monitors(&[
        ("DP-1", Rect::new(0, 0, 1920, 1080), true),
        ("HDMI-1", Rect::new(1920, 0, 1920, 1080), false),
    ]);

    // Start focused on DP-1 (left monitor)
    let dp1 = manager.find_by_name("DP-1").unwrap();
    let hdmi1 = manager.find_by_name("HDMI-1").unwrap();
    manager.set_focused(dp1);

    // Navigate right -> should find HDMI-1
    let right = manager.monitor_in_direction(Direction::Right);
    assert_eq!(right, Some(hdmi1));

    // Navigate left from DP-1 -> should find nothing
    let left = manager.monitor_in_direction(Direction::Left);
    assert_eq!(left, None);

    // Focus HDMI-1 and navigate left -> should find DP-1
    manager.set_focused(hdmi1);
    let left = manager.monitor_in_direction(Direction::Left);
    assert_eq!(left, Some(dp1));

    // Navigate right from HDMI-1 -> should find nothing
    let right = manager.monitor_in_direction(Direction::Right);
    assert_eq!(right, None);
}

#[test]
fn test_monitor_navigation_up_down() {
    let mut manager = MonitorManager::with_mock_monitors(&[
        ("TOP", Rect::new(0, 0, 1920, 1080), true),
        ("BOTTOM", Rect::new(0, 1080, 1920, 1080), false),
    ]);

    let top = manager.find_by_name("TOP").unwrap();
    let bottom = manager.find_by_name("BOTTOM").unwrap();
    manager.set_focused(top);

    // Navigate down -> should find BOTTOM
    let down = manager.monitor_in_direction(Direction::Down);
    assert_eq!(down, Some(bottom));

    // Navigate up from TOP -> should find nothing
    let up = manager.monitor_in_direction(Direction::Up);
    assert_eq!(up, None);

    // Focus BOTTOM and navigate up -> should find TOP
    manager.set_focused(bottom);
    let up = manager.monitor_in_direction(Direction::Up);
    assert_eq!(up, Some(top));
}

#[test]
fn test_monitor_at_point() {
    let manager = MonitorManager::with_mock_monitors(&[
        ("DP-1", Rect::new(0, 0, 1920, 1080), true),
        ("HDMI-1", Rect::new(1920, 0, 1920, 1080), false),
    ]);

    let dp1 = manager.find_by_name("DP-1").unwrap();
    let hdmi1 = manager.find_by_name("HDMI-1").unwrap();

    // Point in DP-1
    assert_eq!(manager.monitor_at(100, 100), Some(dp1));
    assert_eq!(manager.monitor_at(1919, 1079), Some(dp1));

    // Point in HDMI-1
    assert_eq!(manager.monitor_at(1920, 0), Some(hdmi1));
    assert_eq!(manager.monitor_at(2500, 500), Some(hdmi1));

    // Point outside all monitors
    assert_eq!(manager.monitor_at(-100, 100), None);
    assert_eq!(manager.monitor_at(5000, 100), None);
}

#[test]
fn test_per_monitor_workspaces() {
    let manager = MonitorManager::with_mock_monitors(&[
        ("DP-1", Rect::new(0, 0, 1920, 1080), true),
        ("HDMI-1", Rect::new(1920, 0, 1920, 1080), false),
    ]);

    let dp1 = manager.find_by_name("DP-1").unwrap();
    let hdmi1 = manager.find_by_name("HDMI-1").unwrap();

    // Each monitor should have its own workspace manager
    let m1 = manager.get(dp1).unwrap();
    let m2 = manager.get(hdmi1).unwrap();

    // Both should start on workspace 0
    assert_eq!(m1.workspaces.current_index(), 0);
    assert_eq!(m2.workspaces.current_index(), 0);
}

#[test]
fn test_focus_switching() {
    let mut manager = MonitorManager::with_mock_monitors(&[
        ("DP-1", Rect::new(0, 0, 1920, 1080), true),
        ("HDMI-1", Rect::new(1920, 0, 1920, 1080), false),
    ]);

    let dp1 = manager.find_by_name("DP-1").unwrap();
    let hdmi1 = manager.find_by_name("HDMI-1").unwrap();

    // Should start focused on primary (DP-1)
    assert_eq!(manager.focused_id(), dp1);
    assert_eq!(manager.focused().name, "DP-1");

    // Switch to HDMI-1
    assert!(manager.set_focused(hdmi1));
    assert_eq!(manager.focused_id(), hdmi1);
    assert_eq!(manager.focused().name, "HDMI-1");

    // Switch back to DP-1
    assert!(manager.set_focused(dp1));
    assert_eq!(manager.focused_id(), dp1);

    // Try to focus non-existent monitor
    let fake_id = MonitorId::default();
    assert!(!manager.set_focused(fake_id));
    // Should still be on DP-1
    assert_eq!(manager.focused_id(), dp1);
}

#[test]
fn test_three_monitor_setup() {
    let manager = MonitorManager::with_mock_monitors(&[
        ("LEFT", Rect::new(0, 0, 1920, 1080), false),
        ("CENTER", Rect::new(1920, 0, 2560, 1440), true),
        ("RIGHT", Rect::new(4480, 0, 1920, 1080), false),
    ]);

    assert_eq!(manager.count(), 3);

    let left = manager.find_by_name("LEFT").unwrap();
    let center = manager.find_by_name("CENTER").unwrap();
    let right = manager.find_by_name("RIGHT").unwrap();

    // Primary (center) should be focused
    assert_eq!(manager.focused_id(), center);

    // Test navigation from center
    let mut manager = manager;
    manager.set_focused(center);

    let nav_left = manager.monitor_in_direction(Direction::Left);
    let nav_right = manager.monitor_in_direction(Direction::Right);

    assert_eq!(nav_left, Some(left));
    assert_eq!(nav_right, Some(right));
}

#[test]
fn test_workspace_independence() {
    let mut manager = MonitorManager::with_mock_monitors(&[
        ("DP-1", Rect::new(0, 0, 1920, 1080), true),
        ("HDMI-1", Rect::new(1920, 0, 1920, 1080), false),
    ]);

    let dp1 = manager.find_by_name("DP-1").unwrap();
    let hdmi1 = manager.find_by_name("HDMI-1").unwrap();

    // Switch DP-1 to workspace 3
    manager.get_mut(dp1).workspaces.switch_to(3);

    // Switch HDMI-1 to workspace 5
    manager.get_mut(hdmi1).workspaces.switch_to(5);

    // Verify they're independent
    assert_eq!(manager.get(dp1).unwrap().workspaces.current_index(), 3);
    assert_eq!(manager.get(hdmi1).unwrap().workspaces.current_index(), 5);
}

#[test]
fn populate_keeps_reported_monitors_and_focuses_primary() {
    let mut manager = MonitorManager::new();
    let infos = vec![
        MonitorInfo { name: "DP-1".to_string(), primary: false, geometry: Rect::new(0, 0, 1920, 1080), outputs: vec![65] },
        MonitorInfo { name: "HDMI-1".to_string(), primary: true, geometry: Rect::new(1920, 0, 1280, 1024), outputs: vec![66, 67] },
    ];
    let focused = manager.populate(infos, 3200, 1080);
    assert_eq!(manager.count(), 2);
    let hdmi = manager.find_by_name("HDMI-1").unwrap();
    assert_eq!(focused, hdmi);
    assert_eq!(manager.focused_id(), hdmi);
    assert_eq!(manager.get(hdmi).unwrap().outputs, vec![66, 67]);
}

#[test]
fn populate_without_monitors_makes_a_default_one() {
    let mut manager = MonitorManager::with_mock_monitors(&[("OLD", Rect::new(0, 0, 10, 10), true)]);
    let focused = manager.populate(vec![], 1024, 768);
    assert_eq!(manager.count(), 1);
    let m = manager.get(focused).unwrap();
    assert_eq!(m.name, "default");
    assert!(m.primary);
    assert_eq!(m.geometry, Rect::new(0, 0, 1024, 768));
    assert!(manager.find_by_name("OLD").is_none());
}

#[test]
fn populate_without_primary_focuses_first_in_order() {
    let mut manager = MonitorManager::new();
    let infos = vec![
        MonitorInfo { name: "A".to_string(), primary: false, geometry: Rect::new(0, 0, 100, 100), outputs: vec![] },
        MonitorInfo { name: "B".to_string(), primary: false, geometry: Rect::new(100, 0, 100, 100), outputs: vec![] },
    ];
    let focused = manager.populate(infos, 200, 100);
    assert_eq!(focused, manager.all_monitors()[0]);
}

#[test]
fn add_mock_monitor_non_primary_keeps_focus() {
    let mut manager = MonitorManager::new();
    let a = manager.add_mock_monitor("A", Rect::new(0, 0, 100, 100), false);
    assert_eq!(manager.focused_id(), a);
    let _b = manager.add_mock_monitor("B", Rect::new(100, 0, 100, 100), false);
    assert_eq!(manager.focused_id(), a);
    let c = manager.add_mock_monitor("C", Rect::new(200, 0, 100, 100), true);
    assert_eq!(manager.focused_id(), c);
    assert_eq!(manager.primary(), Some(c));
}

#[test]
fn monitor_navigation_prefers_aligned_monitors() {
    let mut manager = MonitorManager::with_mock_monitors(&[
        ("MAIN", Rect::new(0, 0, 1000, 1000), true),
        ("FAR", Rect::new(1000, 3000, 1000, 1000), false),
        ("NEAR", Rect::new(1000, 0, 1000, 1000), false),
    ]);
    let main = manager.find_by_name("MAIN").unwrap();
    let near = manager.find_by_name("NEAR").unwrap();
    manager.set_focused(main);
    assert_eq!(manager.monitor_in_direction(Direction::Right), Some(near));
}
