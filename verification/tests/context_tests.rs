use senime::context::{should_report, Context, TuiAction, TuiKey};
use senime::dict::{DictKind, DictKindName};
use senime::lookup_code::Looker;
use senime::input_analyzer::{AnalysisResult, Tag, PAGE_UP};
use senime::js_bridge::JSAction;

fn chars(s: &str) -> Vec<char> {
    s.chars().collect()
}

fn table() -> DictKind {
    DictKind::from_str("d\t中\t0\njv\t华\t0\ndgjv\t中华\t0\nj\t人\t0\ndm\t民\t0\njrdm\t人民\t0\nu\t的\t0\nuu\t的\t0\n", DictKindName::Prefix).unwrap()
}

fn context() -> Context {
    Context::new(Looker::new(table().as_prefix()))
}

fn text(c: &Context) -> String {
    c.get_sentence().into_iter().collect()
}

fn analysis(segs: &[(&str, &str)], pending: bool) -> AnalysisResult {
    AnalysisResult {
        segments: segs.iter().map(|(t, o)| (t.to_string(), chars(o), Tag::Unknown)).collect(),
        pending,
        candidates: None,
    }
}

#[test]
fn keys_pend_and_analyses_type() {
    let mut c = context();
    assert_eq!(c.tui_key(TuiKey::Char('n')), TuiAction::Redraw);
    assert_eq!(c.tui_key(TuiKey::Char('i')), TuiAction::Redraw);
    assert_eq!(c.get_input(), &['n', 'i'][..]);
    c.apply_analysis(&analysis(&[("你", "n"), ("i", "i")], true));
    assert_eq!(text(&c), "你i");
    assert_eq!(c.get_input(), &['i'][..]);
    c.apply_analysis(&analysis(&[("好", "hk")], false));
    assert_eq!(text(&c), "你好");
    assert!(c.get_input().is_empty());
    assert_eq!(c.sentence_len(), 2);
}

#[test]
fn enter_confirms_and_breaks_the_line() {
    let mut c = context();
    c.set_pending(chars("中"), chars("z"));
    assert_eq!(c.tui_key(TuiKey::Enter), TuiAction::Redraw);
    assert_eq!(text(&c), "中\n");
    assert!(c.get_input().is_empty());
}

#[test]
fn backspace_copy_paste_and_moves() {
    let mut c = context();
    c.push(chars("abc"));
    c.tui_key(TuiKey::Backspace);
    assert_eq!(text(&c), "ab");
    c.tui_key(TuiKey::CopyLast);
    c.tui_key(TuiKey::PasteLast);
    assert_eq!(text(&c), "abb");
    c.tui_key(TuiKey::Left);
    c.tui_key(TuiKey::Left);
    c.tui_key(TuiKey::PasteText(chars("XY")));
    assert_eq!(text(&c), "aXYbb");
    c.tui_key(TuiKey::Right);
    c.tui_key(TuiKey::Backspace);
    assert_eq!(text(&c), "aXYb");
    assert_eq!(c.tui_key(TuiKey::Clear), TuiAction::Redraw);
    assert_eq!(c.sentence_len(), 0);
    c.tui_key(TuiKey::Backspace);
    assert_eq!(c.sentence_len(), 0);
}

#[test]
fn other_keys() {
    let mut c = context();
    assert_eq!(c.tui_key(TuiKey::PageUp), TuiAction::Redraw);
    assert_eq!(c.get_input(), &[PAGE_UP][..]);
    assert_eq!(c.tui_key(TuiKey::Quit), TuiAction::Quit);
    assert_eq!(c.tui_key(TuiKey::Save), TuiAction::Save);
    assert_eq!(c.tui_key(TuiKey::Resize), TuiAction::Resize);
    assert_eq!(c.tui_key(TuiKey::Other), TuiAction::Ignore);
    c.set_preset(Some(chars("你好")));
    assert_eq!(c.preset_len(), 2);
}

#[test]
fn reports_only_complete_sessions() {
    assert!(should_report(5, 5, true, Some(JSAction::Daily)));
    assert!(should_report(5, 0, true, None));
    assert!(!should_report(4, 5, true, Some(JSAction::Daily)));
    assert!(!should_report(5, 5, false, Some(JSAction::Daily)));
    assert!(!should_report(5, 5, true, Some(JSAction::Unset)));
    assert!(!should_report(0, 0, true, None));
}

#[test]
fn hint_follows_the_text_to_type() {
    let mut c = context();
    assert_eq!(c.get_preset_segment_hint(), None);
    c.set_preset(Some(chars("中华人民，的")));
    // 中 then 华 takes fewer keys than 中华
    assert_eq!(c.get_preset_segment_hint(), Some("d"));
    c.push(chars("中华"));
    assert_eq!(c.get_preset_segment_hint(), Some("j"));
    c.push(chars("人民，"));
    assert_eq!(c.get_preset_segment_hint(), Some("u"));
    c.tui_key(TuiKey::Backspace);
    assert_eq!(c.get_preset_segment_hint(), Some("，"));
    c.tui_key(TuiKey::Clear);
    assert_eq!(c.get_preset_segment_hint(), Some("d"));
}
