use ttwm::config::{
    key_to_keysym, keysym_for_name, modifier_mask, parse_color, parse_key_binding, str_eq, Config,
    ExecConfig, KeybindingConfig, LayoutConfig, ParsedBinding, WmAction,
};

#[test]
fn test_parse_key_binding() {
    let binding = parse_key_binding("Mod4+Return").unwrap();
    assert_eq!(binding.keysym, 0xff0d);
    assert_eq!(binding.modifiers, 64); // Mod4

    let binding = parse_key_binding("Mod4+Shift+q").unwrap();
    assert_eq!(binding.keysym, 0x71);
    assert_eq!(binding.modifiers, 64 | 1); // Mod4 + Shift

    let binding = parse_key_binding("Mod4+Control+h").unwrap();
    assert_eq!(binding.keysym, 0x68);
    assert_eq!(binding.modifiers, 64 | 4); // Mod4 + Control
}

#[test]
fn test_parse_color() {
    assert_eq!(parse_color("#5294e2"), Some(0x5294e2));
    assert_eq!(parse_color("5294e2"), Some(0x5294e2));
    assert_eq!(parse_color("#2e2e2e"), Some(0x2e2e2e));
    assert_eq!(parse_color("ffffff"), Some(0xffffff));
}

#[test]
fn test_default_keybindings() {
    let config = Config::default();
    let bindings = config.parse_keybindings();
    let has = |a: &WmAction| bindings.iter().any(|(b, _)| b == a);

    assert!(has(&WmAction::Spawn("alacritty".to_string())));
    assert!(has(&WmAction::Spawn("gmrun".to_string())));
    assert!(has(&WmAction::Quit));
    assert!(has(&WmAction::FocusTab(1)));
}

#[test]
fn test_key_to_keysym() {
    assert_eq!(key_to_keysym("return"), Some(0xff0d));
    assert_eq!(key_to_keysym("Return"), Some(0xff0d));
    assert_eq!(key_to_keysym("tab"), Some(0xff09));
    assert_eq!(key_to_keysym("h"), Some(0x68));
    assert_eq!(key_to_keysym("1"), Some(0x31));
}

#[test]
fn test_startup_config_empty() {
    let config = Config::default();
    assert!(config.startup.workspace.is_empty());
}

#[test]
fn key_names_cover_the_table() {
    assert_eq!(key_to_keysym("Enter"), Some(0xff0d));
    assert_eq!(key_to_keysym("ESC"), Some(0xff1b));
    assert_eq!(key_to_keysym("space"), Some(0x20));
    assert_eq!(key_to_keysym("BackSpace"), Some(0xff08));
    assert_eq!(key_to_keysym("Delete"), Some(0xffff));
    assert_eq!(key_to_keysym("Prior"), Some(0xff55));
    assert_eq!(key_to_keysym("PgDn"), Some(0xff56));
    assert_eq!(key_to_keysym("Left"), Some(0xff51));
    assert_eq!(key_to_keysym("Up"), Some(0xff52));
    assert_eq!(key_to_keysym("Right"), Some(0xff53));
    assert_eq!(key_to_keysym("Down"), Some(0xff54));
    assert_eq!(key_to_keysym("Home"), Some(0xff50));
    assert_eq!(key_to_keysym("End"), Some(0xff57));
    assert_eq!(key_to_keysym("F1"), Some(0xffbe));
    assert_eq!(key_to_keysym("F12"), Some(0xffc9));
    assert_eq!(key_to_keysym("["), Some(0x5b));
    assert_eq!(key_to_keysym("bracketright"), Some(0x5d));
    assert_eq!(key_to_keysym("/"), Some(0x2f));
    assert_eq!(key_to_keysym("slash"), Some(0x2f));
    assert_eq!(key_to_keysym("Z"), Some(0x7a));
    assert_eq!(key_to_keysym("0"), Some(0x30));
    assert_eq!(key_to_keysym("f13"), None);
    assert_eq!(key_to_keysym(""), None);
    assert_eq!(key_to_keysym("-"), None);
}

#[test]
fn keysym_for_name_takes_lowercase_names_only() {
    assert_eq!(keysym_for_name("return"), Some(0xff0d));
    assert_eq!(keysym_for_name("Return"), None);
    assert_eq!(keysym_for_name("a"), Some(0x61));
    assert_eq!(keysym_for_name("A"), None);
}

#[test]
fn modifiers_are_case_insensitive_and_unknown_ones_ignored() {
    let b = parse_key_binding("SUPER+ctrl+Alt+shift+x").unwrap();
    assert_eq!(b, ParsedBinding { keysym: 0x78, modifiers: 64 | 4 | 8 | 1 });
    let b = parse_key_binding("Hyper+Win+Mod1+k").unwrap();
    assert_eq!(b.modifiers, 64 | 8);
    let b = parse_key_binding("j").unwrap();
    assert_eq!(b, ParsedBinding { keysym: 0x6a, modifiers: 0 });
    assert_eq!(modifier_mask("mod4"), 64);
    assert_eq!(modifier_mask("Mod4"), 0);
}

#[test]
fn bindings_with_unknown_or_missing_keys_fail() {
    assert_eq!(parse_key_binding("Mod4+"), None);
    assert_eq!(parse_key_binding(""), None);
    assert_eq!(parse_key_binding("Mod4+Nope"), None);
    assert_eq!(parse_key_binding("Mod4+Shift"), None);
}

#[test]
fn colors_follow_integer_parsing() {
    assert_eq!(parse_color("##ff"), Some(0xff));
    assert_eq!(parse_color("+ff"), Some(0xff));
    assert_eq!(parse_color("#+10"), Some(0x10));
    assert_eq!(parse_color("ABCDEF"), Some(0xabcdef));
    assert_eq!(parse_color("ffffffff"), Some(0xffff_ffff));
    assert_eq!(parse_color("100000000"), None);
    assert_eq!(parse_color(""), None);
    assert_eq!(parse_color("#"), None);
    assert_eq!(parse_color("+"), None);
    assert_eq!(parse_color("-1"), None);
    assert_eq!(parse_color("12g4"), None);
    assert_eq!(parse_color(" 12"), None);
}

#[test]
fn color_hash_is_optional() {
    for s in ["5294e2", "0", "abc", "zz", ""] {
        assert_eq!(parse_color(&format!("#{}", s)), parse_color(s));
    }
}

#[test]
fn str_eq_compares_characters() {
    assert!(str_eq("abc", "abc"));
    assert!(!str_eq("abc", "abd"));
    assert!(!str_eq("abc", "ab"));
    assert!(str_eq("", ""));
}

#[test]
fn layout_config_from_default_file_config() {
    let config = Config::default();
    let lc = LayoutConfig::from_config(&config);
    assert_eq!(lc.gap, 8);
    assert_eq!(lc.outer_gap, 8);
    assert_eq!(lc.border_width, 2);
    assert_eq!(lc.tab_bar_height, 28);
    assert_eq!(lc.vertical_tab_width, 28);
    assert_eq!(lc.tab_bar_bg, 0x000000);
    assert_eq!(lc.tab_focused_bg, 0x5294e2);
    assert_eq!(lc.tab_text_color, 0xffffff);
    assert_eq!(lc.border_unfocused, 0x3a3a3a);
    assert!(lc.show_tab_icons);
}

#[test]
fn layout_config_falls_back_on_bad_colors() {
    let mut config = Config::default();
    config.colors.tab_bar_bg = "not a colour".to_string();
    config.colors.tab_urgent_bg = "#123456".to_string();
    let lc = LayoutConfig::from_config(&config);
    assert_eq!(lc.tab_bar_bg, 0x2e2e2e);
    assert_eq!(lc.tab_urgent_bg, 0x123456);
}

#[test]
fn layout_config_default_values() {
    let lc = LayoutConfig::default();
    assert_eq!(lc.tab_bar_bg, 0x000000);
    assert_eq!(lc.tab_visible_unfocused_bg, 0x4a6a9a);
    assert_eq!(lc.tab_tagged_bg, 0xe06c75);
    assert_eq!(lc.tab_separator, 0x4a4a4a);
}

#[test]
fn keybindings_in_order_with_failures_left_out() {
    let mut config = Config::default();
    config.keybindings = KeybindingConfig::default();
    config.keybindings.quit = Some("Mod4+Unknown".to_string());
    config.keybindings.focus_next = None;
    config.exec_bindings = ExecConfig {
        bindings: vec![
            ("Mod4+x".to_string(), "xterm".to_string()),
            ("bad+key+name".to_string(), "never".to_string()),
        ],
    };
    let bindings = config.parse_keybindings();
    assert_eq!(bindings[0].0, WmAction::CycleTabForward);
    assert_eq!(bindings[0].1, ParsedBinding { keysym: 0xff56, modifiers: 64 });
    assert!(!bindings.iter().any(|(a, _)| *a == WmAction::Quit));
    assert!(!bindings.iter().any(|(a, _)| *a == WmAction::FocusNext));
    // 36 action settings, two dropped, then one exec binding
    assert_eq!(bindings.len(), 35);
    let last = bindings.last().unwrap();
    assert_eq!(last.0, WmAction::Spawn("xterm".to_string()));
    assert_eq!(last.1, ParsedBinding { keysym: 0x78, modifiers: 64 });
}

#[test]
fn a_command_bound_twice_keeps_its_later_binding() {
    let mut config = Config::default();
    config.exec_bindings = ExecConfig {
        bindings: vec![
            ("Mod4+x".to_string(), "xterm".to_string()),
            ("Mod4+y".to_string(), "firefox".to_string()),
            ("Mod4+z".to_string(), "xterm".to_string()),
        ],
    };
    let bindings = config.parse_keybindings();
    let xterms: Vec<_> = bindings.iter().filter(|(a, _)| *a == WmAction::Spawn("xterm".to_string())).collect();
    assert_eq!(xterms.len(), 1);
    assert_eq!(xterms[0].1, ParsedBinding { keysym: 0x7a, modifiers: 64 });
    let last = bindings.last().unwrap();
    assert_eq!(last.0, WmAction::Spawn("xterm".to_string()));
    assert_eq!(bindings[bindings.len() - 2].0, WmAction::Spawn("firefox".to_string()));
}
