use hsr_frontend::cheat::{
    accepted_keybinds, active_binds, bind_code, bind_display, fkey, module_toggles, option_matches,
    select_index, static_bind_target, CheatModuleInfo,
};

fn modules() -> Vec<CheatModuleInfo> {
    vec![
        CheatModuleInfo {
            id: "hkrpg.speed".to_string(),
            name: "Speed".to_string(),
            fields: vec![("scale".to_string(), "Scale".to_string())],
            actions: vec![("reset".to_string(), "Reset".to_string())],
        },
        CheatModuleInfo {
            id: "hkrpg.hud".to_string(),
            name: "HUD".to_string(),
            fields: vec![],
            actions: vec![],
        },
    ]
}

fn bind(m: &str, k: &str, c: i32) -> (String, String, i32) {
    (m.to_string(), k.to_string(), c)
}

#[test]
fn setting_keys() {
    assert_eq!(fkey("hkrpg.speed", "scale"), "hkrpg.speed::scale");
    assert_eq!(fkey("", ""), "::");
}

#[test]
fn bind_targets_and_labels() {
    let ms = modules();
    assert_eq!(
        static_bind_target(&ms, "hkrpg.speed", "scale"),
        Some(("hkrpg.speed".to_string(), "scale".to_string()))
    );
    assert_eq!(
        static_bind_target(&ms, "hkrpg.hud", "toggle"),
        Some(("hkrpg.hud".to_string(), "toggle".to_string()))
    );
    assert_eq!(static_bind_target(&ms, "hkrpg.hud", "scale"), None);
    assert_eq!(static_bind_target(&ms, "nope", "toggle"), None);
    assert_eq!(bind_display(&ms, "hkrpg.speed", "toggle"), ("Speed".to_string(), "Toggle".to_string()));
    assert_eq!(bind_display(&ms, "hkrpg.speed", "scale"), ("Speed".to_string(), "Scale".to_string()));
    assert_eq!(bind_display(&ms, "hkrpg.speed", "reset"), ("Speed".to_string(), "Reset".to_string()));
    assert_eq!(bind_display(&ms, "hkrpg.speed", "other"), ("Speed".to_string(), "other".to_string()));
    assert_eq!(bind_display(&ms, "gone", "k"), ("gone".to_string(), "k".to_string()));
}

#[test]
fn toggles_follow_the_enabled_list() {
    let states = vec![
        ("a".to_string(), true),
        ("b".to_string(), false),
        ("c".to_string(), true),
    ];
    let enabled = vec!["b".to_string(), "c".to_string()];
    assert_eq!(module_toggles(&states, &enabled), vec![("a".to_string(), false), ("b".to_string(), true)]);
    assert!(module_toggles(&states, &vec!["a".to_string(), "c".to_string()]).is_empty());
}

#[test]
fn configuration_binds_accepted() {
    let ms = modules();
    let binds = vec![
        bind("hkrpg.speed", "toggle", 1),
        bind("hkrpg.speed", "scale", 2),
        bind("hkrpg.speed", "reset", 3),
        bind("hkrpg.speed", "missing", 4),
        bind("hkrpg.gone", "toggle", 5),
        bind("hkrpg.hud", "toggle", 6),
    ];
    assert_eq!(
        accepted_keybinds(&ms, binds),
        vec![
            bind("hkrpg.speed", "toggle", 1),
            bind("hkrpg.speed", "scale", 2),
            bind("hkrpg.speed", "reset", 3),
            bind("hkrpg.hud", "toggle", 6)
        ]
    );
}

#[test]
fn choices() {
    assert_eq!(select_index(&vec![10, 20, 20], 20), Some(1));
    assert_eq!(select_index(&vec![10], 5), None);
    assert!(option_matches("Fast Mode", 3, "MODE"));
    assert!(option_matches("Slow", -12, "-1"));
    assert!(!option_matches("Slow", 12, "fast"));
}

#[test]
fn listed_binds() {
    let binds = vec![bind("m", "b", 1), bind("a", "z", 0), bind("m", "a", 2), bind("a", "y", 3), bind("m", "a", 4)];
    assert_eq!(
        active_binds(binds),
        vec![bind("a", "y", 3), bind("m", "a", 2), bind("m", "a", 4), bind("m", "b", 1)]
    );
}

#[test]
fn shown_key_codes() {
    assert_eq!(bind_code(Some(65), Some(70)), 65);
    assert_eq!(bind_code(None, Some(70)), 70);
    assert_eq!(bind_code(None, Some(0x1_0000_0041)), 0x41);
    assert_eq!(bind_code(None, None), 0);
}
