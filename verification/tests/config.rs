use hsr_frontend::config::{
    auto_save_plan, config_file_name, order_by_created, parse_last_loaded, sort_dedup, sort_keybinds,
    validate_name, AppConfig, CheatValueEntry, ConfigStoreError, KeybindEntry, CONFIG_VERSION,
};

fn strings(v: &[&str]) -> Vec<String> {
    v.iter().map(|s| s.to_string()).collect()
}

fn kb(module: &str, key: &str, code: i32) -> KeybindEntry {
    KeybindEntry { module_id: module.to_string(), key: key.to_string(), key_code: code }
}

fn cv(module: &str, key: &str, value: &str) -> CheatValueEntry {
    CheatValueEntry { module_id: module.to_string(), key: key.to_string(), value: value.to_string() }
}

fn sample() -> AppConfig {
    AppConfig {
        version: 1,
        created_at: 77,
        filtered_message_names: strings(&["b", "a", "b"]),
        hooked_message_names: strings(&[]),
        enabled_cheats: strings(&["hkrpg.speed", "hkrpg.hud", "hkrpg.speed"]),
        keybinds: vec![kb("m2", "toggle", 1), kb("m1", "x", 2), kb("m1", "a", 3), kb("m1", "x", 4)],
        cheat_values: vec![cv("z", "k", "1"), cv("a", "k", "2.5")],
        dumper_enabled: true,
    }
}

#[test]
fn sort_dedup_names() {
    assert_eq!(sort_dedup(&strings(&["c", "a", "c", "b", "a"])), strings(&["a", "b", "c"]));
    assert!(sort_dedup(&vec![]).is_empty());
}

#[test]
fn keybinds_sort_is_stable() {
    let sorted = sort_keybinds(vec![kb("m", "k", 1), kb("a", "z", 2), kb("m", "k", 3)]);
    assert_eq!(sorted, vec![kb("a", "z", 2), kb("m", "k", 1), kb("m", "k", 3)]);
}

#[test]
fn new_config_is_normalized() {
    let cfg = AppConfig::new(
        strings(&["y", "x", "y"]),
        strings(&["h"]),
        strings(&["c2", "c1"]),
        vec![("m".to_string(), "b".to_string(), 5), ("m".to_string(), "a".to_string(), 6)],
        vec![cv("b", "k", "true"), cv("a", "k", "false")],
        false,
    );
    assert_eq!(cfg.version, CONFIG_VERSION);
    assert_eq!(cfg.filtered_message_names, strings(&["x", "y"]));
    assert_eq!(cfg.hooked_message_names, strings(&["h"]));
    assert_eq!(cfg.enabled_cheats, strings(&["c1", "c2"]));
    assert_eq!(cfg.keybinds, vec![kb("m", "a", 6), kb("m", "b", 5)]);
    assert_eq!(cfg.cheat_values, vec![cv("a", "k", "false"), cv("b", "k", "true")]);
    assert!(!cfg.dumper_enabled);
    assert!(cfg.created_at > 0);
}

#[test]
fn normalized_sorts_and_dedups() {
    let n = sample().normalized();
    assert_eq!(n.version, 1);
    assert_eq!(n.created_at, 77);
    assert_eq!(n.filtered_message_names, strings(&["a", "b"]));
    assert_eq!(n.enabled_cheats, strings(&["hkrpg.hud", "hkrpg.speed"]));
    assert_eq!(n.keybinds, vec![kb("m1", "a", 3), kb("m1", "x", 2), kb("m1", "x", 4), kb("m2", "toggle", 1)]);
    assert_eq!(n.cheat_values, vec![cv("a", "k", "2.5"), cv("z", "k", "1")]);
}

#[test]
fn normalizing_twice_changes_nothing() {
    let once = sample().normalized();
    let twice = once.clone().normalized();
    assert!(twice.equivalent(&once));
    assert_eq!(twice.keybinds, once.keybinds);
    assert_eq!(twice.cheat_values, once.cheat_values);
    assert_eq!(twice.filtered_message_names, once.filtered_message_names);
}

#[test]
fn equivalence_ignores_version_and_time() {
    let a = sample().normalized();
    let mut b = a.clone();
    b.version = 9;
    b.created_at = 1;
    assert!(a.equivalent(&b));
    assert!(b.equivalent(&a));
    assert!(a.equivalent(&a));
    b.dumper_enabled = !b.dumper_enabled;
    assert!(!a.equivalent(&b));
    let mut c = a.clone();
    c.keybinds[0].key_code = 99;
    assert!(!a.equivalent(&c));
    let mut d = a.clone();
    d.cheat_values[0].value = "3".to_string();
    assert!(!a.equivalent(&d));
    let mut e = a.clone();
    e.enabled_cheats.pop();
    assert!(!a.equivalent(&e));
    assert!(!sample().equivalent(&a));
}

#[test]
fn config_names() {
    assert!(validate_name("daily").is_ok());
    assert!(validate_name("  spaced name ").is_ok());
    for bad in ["", "   ", ".", " .. ", "a/b", "a\\b", "c:", "*", "what?", "\"q\"", "<x>", "a|b"] {
        assert!(matches!(validate_name(bad), Err(ConfigStoreError::InvalidName)), "{bad}");
    }
    assert_eq!(config_file_name("daily").unwrap(), "daily.json");
    assert_eq!(config_file_name(" a ").unwrap(), " a .json");
    assert!(matches!(config_file_name("a/b"), Err(ConfigStoreError::InvalidName)));
}

#[test]
fn last_loaded_marker() {
    assert_eq!(parse_last_loaded("  main\n"), Some("main".to_string()));
    assert_eq!(parse_last_loaded(" \n\t"), None);
    assert_eq!(parse_last_loaded(""), None);
}

#[test]
fn list_order_by_creation_time() {
    let names = order_by_created(vec![
        ("c".to_string(), 30),
        ("a".to_string(), 10),
        ("z".to_string(), 0),
        ("b".to_string(), 10),
    ]);
    assert_eq!(names, strings(&["z", "a", "b", "c"]));
}

#[test]
fn auto_save_only_when_selections_change() {
    let saved = sample().normalized();
    let name = Some("daily".to_string());
    assert!(auto_save_plan(&None, saved.clone(), &Some(saved.clone())).is_none());
    let mut same = saved.clone();
    same.created_at = 5;
    same.version = 9;
    assert!(auto_save_plan(&name, same, &Some(saved.clone())).is_none());
    let mut changed = saved.clone();
    changed.created_at = 5;
    changed.dumper_enabled = false;
    let (n, c) = auto_save_plan(&name, changed.clone(), &Some(saved.clone())).unwrap();
    assert_eq!(n, "daily");
    assert_eq!(c.created_at, 77);
    assert!(!c.dumper_enabled);
    let (n, c) = auto_save_plan(&name, changed.clone(), &None).unwrap();
    assert_eq!(n, "daily");
    assert_eq!(c.created_at, 5);
}
