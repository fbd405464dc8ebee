use senime::fcitx_state::{preset_from_file, PresetFileError};
use senime::dict::{DictKind, DictKindName, DictMeta};
use senime::fcitx_state::{
    keysym_to_char, keysym_to_states, preset_items, EngineConfig, KeyBinding, SenimeKeyEvent,
    SenimeState, KEY_ALT_L, KEY_BACKSPACE, KEY_C, KEY_CONTROL_R, KEY_ESCAPE, KEY_RETURN,
    KEY_SHIFT_L, MOD_ALT, MOD_CTRL, MOD_SHIFT,
};
use senime::input_analyzer::{Config, InputAnalyzer};

fn entries() -> String {
    "a\t啊\t1\nab\t啊波\t1\nb\t波\t1\nba\t波啊\t1\nc\t此\t1\n".to_string()
}

fn analyzer() -> InputAnalyzer {
    let dict = DictKind::from_str(&entries(), DictKindName::Prefix).unwrap();
    InputAnalyzer::new(Config::default(), vec![(DictMeta::default(), dict)])
}

fn key(sym: u32, states: u32) -> SenimeKeyEvent {
    SenimeKeyEvent { sym, states, is_release: false }
}

#[test]
fn keysym_characters() {
    assert_eq!(keysym_to_char(0x61), Some('a'));
    assert_eq!(keysym_to_char(0x20), Some(' '));
    assert_eq!(keysym_to_char(0x7e), Some('~'));
    assert_eq!(keysym_to_char(0x7f), None);
    assert_eq!(keysym_to_char(0xe9), Some('é'));
    assert_eq!(keysym_to_char(KEY_RETURN), None);
}

#[test]
fn keysym_modifier_states() {
    assert_eq!(keysym_to_states(KEY_SHIFT_L), MOD_SHIFT);
    assert_eq!(keysym_to_states(KEY_CONTROL_R), MOD_CTRL);
    assert_eq!(keysym_to_states(KEY_ALT_L), MOD_ALT);
    assert_eq!(keysym_to_states(0x61), 0);
}

#[test]
fn key_binding_modifier_only() {
    let b = KeyBinding::from_pair(KEY_SHIFT_L, MOD_SHIFT);
    assert!(b.modifier_only);
    let b = KeyBinding::from_pair(0x61, MOD_CTRL);
    assert!(!b.modifier_only);
}

#[test]
fn config_trigger_characters() {
    let c = EngineConfig::from_settings(KEY_SHIFT_L, MOD_SHIFT, 0x60, 0, false, false, true, false);
    assert_eq!(c.trigger_chars, Some(('`', '`')));
    let c = EngineConfig::from_settings(KEY_SHIFT_L, MOD_SHIFT, 0x5b, 0x5d, false, false, true, false);
    assert_eq!(c.trigger_chars, Some(('[', ']')));
    let c = EngineConfig::from_settings(KEY_SHIFT_L, MOD_SHIFT, 0, 0x5d, false, false, true, false);
    assert_eq!(c.trigger_chars, None);
}

#[test]
fn toggle_then_type_and_commit() {
    let engine = analyzer();
    let mut st = SenimeState::new(EngineConfig::default());
    assert!(!st.is_chinese_mode());
    // English mode lets keys through.
    let out = st.key_event(&engine, &key(0x61, 0));
    assert!(!out.accepted);
    // The switch key enters Chinese mode.
    let out = st.key_event(&engine, &key(KEY_SHIFT_L, MOD_SHIFT));
    assert!(out.accepted);
    assert!(st.is_chinese_mode());
    assert_eq!(st.panel().aux_up.as_deref(), Some("中"));
    assert!(st.panel().update_status_area);
    // A code stays in the preedit with its candidates.
    let out = st.key_event(&engine, &key(0x61, 0));
    assert!(out.accepted);
    assert_eq!(st.panel().preedit.as_deref(), Some("啊"));
    assert!(st.panel().commit.is_none());
    assert!(!st.panel().candidates.is_empty());
    // Space commits it.
    let out = st.key_event(&engine, &key(0x20, 0));
    assert!(out.accepted);
    assert_eq!(st.panel().commit.as_deref(), Some("啊"));
    // Leaving Chinese mode.
    let out = st.key_event(&engine, &key(KEY_SHIFT_L, MOD_SHIFT));
    assert!(out.accepted);
    assert!(!st.is_chinese_mode());
    assert_eq!(st.panel().aux_up.as_deref(), Some("En"));
}

#[test]
fn toggle_release_is_not_accepted() {
    let engine = analyzer();
    let mut st = SenimeState::new(EngineConfig::default());
    let out = st.key_event(&engine, &SenimeKeyEvent { sym: KEY_SHIFT_L, states: MOD_SHIFT, is_release: true });
    assert!(!out.accepted);
    assert!(st.is_chinese_mode());
}

#[test]
fn leaving_chinese_commits_typed_keys() {
    let engine = analyzer();
    let mut st = SenimeState::new(EngineConfig::default());
    st.key_event(&engine, &key(KEY_SHIFT_L, MOD_SHIFT));
    st.key_event(&engine, &key(0x61, 0));
    st.key_event(&engine, &key(0x62, 0));
    st.key_event(&engine, &key(KEY_SHIFT_L, MOD_SHIFT));
    assert_eq!(st.panel().commit.as_deref(), Some("ab"));
}

#[test]
fn return_commits_analysis() {
    let engine = analyzer();
    let mut st = SenimeState::new(EngineConfig::default());
    st.set_chinese_mode(true);
    st.key_event(&engine, &key(0x61, 0));
    let out = st.key_event(&engine, &key(KEY_RETURN, 0));
    assert!(!out.accepted);
    assert_eq!(st.panel().commit.as_deref(), Some("啊"));
}

#[test]
fn backspace_and_escape() {
    let engine = analyzer();
    let mut st = SenimeState::new(EngineConfig::default());
    st.set_chinese_mode(true);
    st.key_event(&engine, &key(0x61, 0));
    st.key_event(&engine, &key(0x62, 0));
    assert_eq!(st.panel().preedit.as_deref(), Some("啊波"));
    let out = st.key_event(&engine, &key(KEY_BACKSPACE, 0));
    assert!(out.accepted);
    assert_eq!(st.panel().preedit.as_deref(), Some("啊"));
    let out = st.key_event(&engine, &key(KEY_BACKSPACE, 0));
    assert!(out.accepted);
    let out = st.key_event(&engine, &key(KEY_BACKSPACE, 0));
    assert!(!out.accepted);
    st.key_event(&engine, &key(0x61, 0));
    let out = st.key_event(&engine, &key(KEY_ESCAPE, 0));
    assert!(!out.accepted);
    assert!(!st.is_chinese_mode());
    assert!(st.panel().update_status_area);
}

#[test]
fn control_key_commits_raw_input() {
    let engine = analyzer();
    let mut st = SenimeState::new(EngineConfig::default());
    st.set_chinese_mode(true);
    st.key_event(&engine, &key(0x61, 0));
    let out = st.key_event(&engine, &key(0x63, MOD_CTRL));
    assert!(!out.accepted);
    assert_eq!(st.panel().commit.as_deref(), Some("a"));
    // the committed keys are consumed: the next key neither shows nor commits them
    st.key_event(&engine, &key(0x76, MOD_CTRL));
    assert_eq!(st.panel().commit, None);
}

#[test]
fn preset_is_requested_and_typed() {
    let engine = analyzer();
    let mut st = SenimeState::new(EngineConfig::default());
    st.set_chinese_mode(true);
    let out = st.key_event(&engine, &key(KEY_C, MOD_ALT));
    assert!(out.accepted);
    assert!(out.load_preset);
    let items = preset_items(vec![
        ("你好".to_string(), "ab".to_string()),
        ("世界".to_string(), "c".to_string()),
    ]);
    st.apply_preset(items);
    assert_eq!(st.panel().aux_up.as_deref(), Some("[预设启用]"));
    st.key_event(&engine, &key(0x78, 0));
    st.key_event(&engine, &key(0x78, 0));
    assert_eq!(st.panel().preedit.as_deref(), Some("xx"));
    st.key_event(&engine, &key(0x78, 0));
    assert_eq!(st.panel().commit.as_deref(), Some("你好"));
}

#[test]
fn preset_items_reverse_and_count() {
    assert!(preset_items(vec![]).is_none());
    let items = preset_items(vec![
        ("你好".to_string(), "ab".to_string()),
        ("世界".to_string(), "cde".to_string()),
    ])
    .unwrap();
    assert_eq!(items, vec![("世界".to_string(), 3), ("你好".to_string(), 2)]);
}

#[test]
fn temporary_chinese_with_trigger() {
    let engine = analyzer();
    let config = EngineConfig::from_settings(KEY_SHIFT_L, MOD_SHIFT, 0x60, 0, false, false, true, false);
    let mut st = SenimeState::new(config);
    let out = st.key_event(&engine, &key(0x60, 0));
    assert!(out.accepted);
    assert_eq!(st.panel().aux_up.as_deref(), Some("中"));
    st.key_event(&engine, &key(0x61, 0));
    assert_eq!(st.panel().preedit.as_deref(), Some("啊"));
    st.key_event(&engine, &key(0x60, 0));
    assert_eq!(st.panel().commit.as_deref(), Some("啊"));
    assert!(!st.is_chinese_mode());
}

#[test]
fn preset_file_gives_complete_entries_last_first() {
    let content = r#"{"codes":[{"text":"中","code":"d"},{"text":"华"},{"text":"人民","code":"jrdm"},{"code":"x"}]}"#;
    let items = preset_from_file(content).unwrap();
    assert_eq!(items, vec![("人民".to_string(), 4), ("中".to_string(), 1)]);
    assert!(matches!(preset_from_file("{oops"), Err(PresetFileError::NotJson(_))));
    assert!(matches!(preset_from_file(r#"{"codes":3}"#), Err(PresetFileError::NoCodes)));
    assert!(matches!(preset_from_file(r#"[1]"#), Err(PresetFileError::NoCodes)));
    assert!(matches!(
        preset_from_file(r#"{"codes":[{"text":"a"},5]}"#),
        Err(PresetFileError::NoEntries)
    ));
}
