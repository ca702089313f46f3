use blurman::mapping::{self, SavedStyle};
use blurman::rules::{
    load, load_settings, load_state, new_rule, PersistedWindow, Rule, Settings, Store,
};

#[test]
fn upsert_matches_names_case_insensitively() {
    let mut store = Store::default();
    store.upsert(new_rule("Chrome", 30, 40, false));
    store.upsert(new_rule("chrome.exe", 50, 60, true));
    assert_eq!(store.rules.len(), 1);
    assert_eq!(store.rules[0].transparency, 50);
    assert_eq!(store.rules[0].blur, 60);
    assert!(store.rules[0].solid_text);
    assert!(store.remove("CHROME.EXE"));
    assert!(store.rules.is_empty());
}

fn store_from(text: &str) -> Store {
    let value: serde_json::Value = serde_json::from_str(text).unwrap();
    let flag = |value: &serde_json::Value| value.as_bool().unwrap_or(false);
    Store {
        paused: flag(&value["paused"]),
        rules: value["rules"]
            .as_array()
            .unwrap()
            .iter()
            .map(|rule| Rule {
                process: rule["process"].as_str().unwrap().to_string(),
                transparency: rule["transparency"].as_u64().unwrap() as u8,
                blur: rule["blur"].as_u64().unwrap() as u8,
                enabled: flag(&rule["enabled"]),
                solid_text: flag(&rule["solid_text"]),
            })
            .collect(),
    }
}

#[test]
fn stored_values_are_clamped() {
    let mut store: Store = store_from(
        r#"{"rules":[{"process":"notepad","transparency":250,"blur":0,"enabled":true},
                     {"process":"  ","transparency":30,"blur":40,"enabled":true}]}"#,
    );
    store.normalize();
    assert_eq!(store.rules.len(), 1);
    assert_eq!(store.rules[0].process, "notepad.exe");
    assert_eq!(store.rules[0].transparency, mapping::TRANSPARENCY_MAX);
    assert_eq!(store.rules[0].blur, mapping::BLUR_MIN);
    assert!(!store.rules[0].solid_text);
    assert!(!store.paused);
}

fn rule(process: &str, transparency: u8, blur: u8) -> Rule {
    Rule {
        process: process.to_string(),
        transparency,
        blur,
        enabled: true,
        solid_text: false,
    }
}

#[test]
fn a_rule_is_found_under_any_spelling() {
    let mut store = Store::default();
    store.upsert(rule("C:\\Apps\\Code.exe", 5, 0));
    let found = store.rule("code").unwrap();
    assert_eq!(found, &rule("Code.exe", 10, 1));
    assert_eq!(store.rule("CODE.EXE"), Some(&rule("Code.exe", 10, 1)));
    assert!(store.rule("coder").is_none());
}

#[test]
fn saving_touches_one_app_only() {
    let mut store = Store::default();
    store.upsert(rule("a", 20, 20));
    store.upsert(rule("b", 30, 30));
    store.upsert(rule("A.exe", 40, 40));
    assert_eq!(store.rules, vec![rule("A.exe", 40, 40), rule("b.exe", 30, 30)]);
}

#[test]
fn a_rule_without_a_name_is_not_saved() {
    let mut store = Store::default();
    store.upsert(rule("  ", 20, 20));
    assert!(store.rules.is_empty());
    assert!(!store.remove("a"));
}

#[test]
fn removing_undoes_saving() {
    let mut store = Store::default();
    store.upsert(rule("a", 20, 20));
    let before = store.clone();
    store.upsert(rule("b", 30, 30));
    assert!(store.remove("C:/tools/B.EXE"));
    assert_eq!(store, before);
}

#[test]
fn removing_takes_every_rule_of_that_name() {
    let mut store = Store {
        paused: true,
        rules: vec![rule("a.exe", 20, 20), rule("b.exe", 20, 20), rule("A.EXE", 30, 30)],
    };
    assert!(store.remove("a"));
    assert_eq!(store.rules, vec![rule("b.exe", 20, 20)]);
    assert!(store.paused);
    store.clear();
    assert_eq!(store, Store::default());
}

#[test]
fn normalizing_twice_is_normalizing_once() {
    let mut store = Store {
        paused: true,
        rules: vec![rule(" x ", 0, 200), rule("", 20, 20), rule("d/y.exe", 33, 44)],
    };
    store.normalize();
    assert_eq!(store.rules, vec![rule("x.exe", 10, 100), rule("y.exe", 33, 44)]);
    let once = store.clone();
    store.normalize();
    assert_eq!(store, once);
}

#[test]
fn missing_files_give_defaults() {
    assert_eq!(load(None), Store::default());
    assert_eq!(
        load_settings(None),
        Settings { close_to_tray: false, solid_text_in_fullscreen: false }
    );
    assert_eq!(Settings::default(), load_settings(None));
    let kept = Settings { close_to_tray: true, solid_text_in_fullscreen: false };
    assert_eq!(load_settings(Some(kept)), kept);
    assert!(load_state(None).is_empty());
    let stored = load(Some(Store { paused: true, rules: vec![rule("x", 99, 1)] }));
    assert_eq!(stored, Store { paused: true, rules: vec![rule("x.exe", 70, 1)] });
}

#[test]
fn a_window_keeps_the_style_it_had() {
    let style = SavedStyle { exstyle: 0x100, was_layered: true, alpha: 12 };
    let window = PersistedWindow::new(5, 6, 7, "a.exe".to_string(), &style);
    assert_eq!(window.saved_style(), style);
    assert_eq!((window.hwnd, window.pid, window.process_start), (5, 6, 7));
    assert_eq!(window.process, "a.exe");
    assert_eq!(load_state(Some(vec![window.clone()])), vec![window]);
}
