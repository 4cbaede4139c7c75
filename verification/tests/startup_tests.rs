use ttwm::layout::{LayoutTree, SplitDirection};
use ttwm::config::{FrameConfig, LayoutNodeConfig, SplitConfig, SplitDirectionConfig, StartupConfig, WorkspaceStartup};
use ttwm::startup::{startup_fits_check, PendingSpawn, StartupManager};
use ttwm::workspaces::{Workspace, NUM_WORKSPACES};

#[test]
fn test_startup_manager_new() {
    let manager = StartupManager::new();
    assert!(!manager.is_complete());
    assert!(manager.pending_spawns.is_empty());
}

#[test]
fn test_spawn_all_marks_complete() {
    let mut manager = StartupManager::new();
    assert!(!manager.is_complete());

    manager.spawn_all();

    assert!(manager.is_complete());
}

#[test]
fn spawn_all_hands_out_pending_in_order() {
    let tree = LayoutTree::new();
    let mut manager = StartupManager::default();
    for (i, cmd) in ["a", "b"].iter().enumerate() {
        manager.pending_spawns.push(PendingSpawn {
            command: cmd.to_string(),
            workspace_idx: i,
            frame_id: tree.root,
            frame_name: None,
        });
    }
    let spawns = manager.spawn_all();
    assert_eq!(spawns.len(), 2);
    assert_eq!(spawns[0].command, "a");
    assert_eq!(spawns[1].workspace_idx, 1);
    assert!(manager.pending_spawns.is_empty());
    assert!(manager.is_complete());
    assert!(manager.spawn_all().is_empty());
}

#[test]
fn mark_complete_ends_startup() {
    let mut manager = StartupManager::new();
    manager.mark_complete();
    assert!(manager.is_complete());
}

fn create_test_workspaces() -> [Workspace; NUM_WORKSPACES] {
    std::array::from_fn(|i| Workspace::new(i + 1))
}

fn frame(name: Option<&str>, apps: &[&str]) -> LayoutNodeConfig {
    LayoutNodeConfig::Frame(FrameConfig {
        name: name.map(|n| n.to_string()),
        apps: apps.iter().map(|a| a.to_string()).collect(),
        ..Default::default()
    })
}

fn startup(entries: Vec<(&str, LayoutNodeConfig)>) -> StartupConfig {
    let mut config = StartupConfig::default();
    for (key, layout) in entries {
        config.workspace.push((key.to_string(), WorkspaceStartup { layout }));
    }
    config
}

#[test]
fn test_apply_config_single_frame() {
    let mut manager = StartupManager::new();
    let mut workspaces = create_test_workspaces();
    let config = startup(vec![("1", frame(Some("main"), &["alacritty"]))]);

    let spawns = manager.apply_config(&config, &mut workspaces);

    assert_eq!(spawns.len(), 1);
    assert_eq!(spawns[0].command, "alacritty");
    assert_eq!(spawns[0].workspace_idx, 0);
    assert_eq!(spawns[0].frame_name, Some("main".to_string()));
}

#[test]
fn test_apply_config_multiple_workspaces() {
    let mut manager = StartupManager::new();
    let mut workspaces = create_test_workspaces();
    let config = startup(vec![("1", frame(None, &["app1"])), ("2", frame(None, &["app2"]))]);

    let spawns = manager.apply_config(&config, &mut workspaces);

    assert_eq!(spawns.len(), 2);
    let ws_indices: Vec<_> = spawns.iter().map(|s| s.workspace_idx).collect();
    assert!(ws_indices.contains(&0));
    assert!(ws_indices.contains(&1));
}

#[test]
fn test_apply_config_split_layout() {
    let mut manager = StartupManager::new();
    let mut workspaces = create_test_workspaces();
    let config = startup(vec![(
        "1",
        LayoutNodeConfig::Split(SplitConfig {
            direction: SplitDirectionConfig::Horizontal,
            ratio: 600_000,
            first: Box::new(frame(Some("left"), &["code"])),
            second: Box::new(frame(Some("right"), &["firefox"])),
        }),
    )]);

    let spawns = manager.apply_config(&config, &mut workspaces);

    assert_eq!(spawns.len(), 2);
    assert_eq!(workspaces[0].layout.all_frames().len(), 2);
}

#[test]
fn test_apply_config_invalid_workspace() {
    let mut manager = StartupManager::new();
    let mut workspaces = create_test_workspaces();
    let config = startup(vec![("10", LayoutNodeConfig::Frame(FrameConfig::default()))]);

    let spawns = manager.apply_config(&config, &mut workspaces);

    assert!(spawns.is_empty());
}

#[test]
fn test_apply_config_no_apps() {
    let mut manager = StartupManager::new();
    let mut workspaces = create_test_workspaces();
    let config = startup(vec![("1", frame(Some("empty"), &[]))]);

    let spawns = manager.apply_config(&config, &mut workspaces);

    assert!(spawns.is_empty());
    assert_eq!(workspaces[0].layout.all_frames().len(), 1);
}

#[test]
fn apply_config_places_apps_in_frame_order_and_keeps_them_pending() {
    let mut manager = StartupManager::new();
    let mut workspaces = create_test_workspaces();
    let nested = LayoutNodeConfig::Split(SplitConfig {
        direction: SplitDirectionConfig::Vertical,
        ratio: 2_000_000,
        first: Box::new(frame(Some("top"), &["a", "b"])),
        second: Box::new(LayoutNodeConfig::Split(SplitConfig {
            direction: SplitDirectionConfig::Horizontal,
            ratio: 500_000,
            first: Box::new(frame(None, &[])),
            second: Box::new(frame(Some("corner"), &["c"])),
        })),
    });
    let config = startup(vec![("+3", nested), ("0", frame(None, &["never"]))]);
    assert!(startup_fits_check(&config));

    let spawns = manager.apply_config(&config, &mut workspaces);

    let commands: Vec<&str> = spawns.iter().map(|s| s.command.as_str()).collect();
    assert_eq!(commands, vec!["a", "b", "c"]);
    assert!(spawns.iter().all(|s| s.workspace_idx == 2));
    let frames = workspaces[2].layout.all_frames();
    assert_eq!(frames.len(), 3);
    assert_eq!(spawns[0].frame_id, spawns[1].frame_id);
    assert_ne!(spawns[0].frame_id, spawns[2].frame_id);
    assert!(frames.contains(&spawns[0].frame_id));
    assert!(frames.contains(&spawns[2].frame_id));
    assert_eq!(spawns[2].frame_name, Some("corner".to_string()));
    assert_eq!(workspaces[0].layout.all_frames().len(), 1);
    let layout = &workspaces[2].layout;
    let top = layout.get(layout.root).and_then(|n| n.as_split()).expect("root is a split");
    assert_eq!(top.direction, SplitDirection::Vertical);
    assert_eq!(top.ratio, 900_000);
    let inner = layout.get(top.second).and_then(|n| n.as_split()).expect("second part is a split");
    assert_eq!(inner.direction, SplitDirection::Horizontal);
    assert_eq!(inner.ratio, 500_000);
    for f in &frames {
        assert!(layout.get(*f).and_then(|n| n.as_frame()).map(|fr| fr.windows.is_empty()).unwrap_or(false));
    }
    assert_eq!(layout.focused, frames[2]);
    assert_eq!(manager.pending_spawns.len(), 3);
    assert!(!manager.is_complete());
    assert_eq!(manager.spawn_all().len(), 3);
}

#[test]
fn apply_config_lays_out_a_workspace_again_for_a_later_entry() {
    let mut manager = StartupManager::new();
    let mut workspaces = create_test_workspaces();
    let split = LayoutNodeConfig::Split(SplitConfig {
        direction: SplitDirectionConfig::Horizontal,
        ratio: 500_000,
        first: Box::new(frame(None, &["x"])),
        second: Box::new(frame(None, &[])),
    });
    let config = startup(vec![("2", split), ("02", frame(Some("only"), &["y"]))]);

    let spawns = manager.apply_config(&config, &mut workspaces);

    assert_eq!(spawns.len(), 2);
    assert_eq!(spawns[1].frame_name, Some("only".to_string()));
    assert_eq!(workspaces[1].layout.all_frames(), vec![spawns[1].frame_id]);
}
