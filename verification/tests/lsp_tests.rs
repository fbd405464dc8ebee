use senime::input_analyzer::{AnalysisResult, CandidateRich, CodeSelection, Tag};
use senime::lsp::{
    completion_entries, find_special_prefix, locate_code_boundary, locate_filter_start,
    match_comment_prefix, plan_completion, CompletionConfig, CompletionPlan,
};

fn chars(s: &str) -> Vec<char> {
    s.chars().collect()
}

#[test]
fn test_char_is_whitespace() {
    let char = ' ';
    assert!(!char.is_alphabetic());
    let char = '，';
    assert!(!char.is_alphabetic());
    let char = '你';
    assert!(char.is_alphabetic());
    let char = '好';
    assert!(char.is_alphabetic());
    let char = '\n';
    assert!(char.is_ascii_whitespace());
}

#[test]
fn test_prefix_match() {
    let prefix = "..";
    let line: Vec<char> = "..asdald".chars().collect();
    assert!(prefix.chars().zip(line.iter()).all(|(a, b)| a == *b));
}

#[test]
fn test_locate_code_boundary_plain() {
    let line = chars("abc");
    let b = locate_code_boundary(&line, 3, 0);
    assert_eq!(b.start, 0);
    assert!(!b.reduce_ws);
    assert!(!b.cjk_before);
}

#[test]
fn test_locate_code_boundary_after_cjk() {
    let line = chars("你好 abc");
    let b = locate_code_boundary(&line, 6, 0);
    assert_eq!(b.start, 2);
    assert!(b.reduce_ws);
    assert!(b.cjk_before);
}

#[test]
fn test_locate_code_boundary_double_space() {
    let line = chars("a  bc");
    let b = locate_code_boundary(&line, 5, 0);
    assert_eq!(b.start, 3);
}

#[test]
fn test_match_comment_prefix_hit() {
    let line = chars("// hello");
    assert_eq!(match_comment_prefix(&line, &["//".to_string()]), Some(3));
}

#[test]
fn test_match_comment_prefix_miss() {
    let line = chars("let x = 1;");
    assert_eq!(
        match_comment_prefix(&line, &["//".to_string(), "--".to_string()]),
        None
    );
}

#[test]
fn test_match_comment_prefix_empty_config() {
    let line = chars("anything");
    assert_eq!(match_comment_prefix(&line, &[]), None);
}

#[test]
fn test_find_special_prefix_basic() {
    let line = chars("@@abc");
    assert_eq!(find_special_prefix(&line, 5, "@@"), Some(0));
}

#[test]
fn test_find_special_prefix_none() {
    let line = chars("abc");
    assert_eq!(find_special_prefix(&line, 3, "@@"), None);
}

#[test]
fn test_find_special_prefix_double_space_in_seg() {
    let line = chars("@@a  b");
    assert_eq!(find_special_prefix(&line, 6, "@@"), None);
}

#[test]
fn test_find_special_prefix_after_cjk() {
    let line = chars("你@@abc");
    assert_eq!(find_special_prefix(&line, 6, "@@"), Some(1));
}

#[test]
fn locate_code_boundary_stops_at_comment_marker() {
    let line = chars("// abc\n");
    let b = locate_code_boundary(&line, 6, 3);
    assert_eq!(b.start, 2);
    assert!(!b.cjk_before);
}

#[test]
fn locate_filter_start_takes_letters() {
    let line = chars("一二abc");
    assert_eq!(locate_filter_start(&line, 5), 0);
    let line = chars("x,abc");
    assert_eq!(locate_filter_start(&line, 5), 2);
}

#[test]
fn plan_completion_after_cjk() {
    let config = CompletionConfig::default();
    let line = chars("你好 abc\n");
    let plan = plan_completion(&line, 6, &config);
    assert_eq!(plan, Some(CompletionPlan { edit_start: 2, analysis_start: 3 }));
}

#[test]
fn plan_completion_plain_ascii_in_coding_mode() {
    let config = CompletionConfig::default();
    let line = chars("let abc\n");
    assert_eq!(plan_completion(&line, 7, &config), None);
}

#[test]
fn plan_completion_outside_coding_mode() {
    let mut config = CompletionConfig::default();
    config.coding_mode = false;
    let line = chars("let abc\n");
    assert_eq!(
        plan_completion(&line, 7, &config),
        Some(CompletionPlan { edit_start: 0, analysis_start: 0 })
    );
}

#[test]
fn plan_completion_special_prefix() {
    let config = CompletionConfig::default();
    let line = chars("x @@abc\n");
    assert_eq!(
        plan_completion(&line, 7, &config),
        Some(CompletionPlan { edit_start: 2, analysis_start: 4 })
    );
}

#[test]
fn plan_completion_comment_line() {
    let mut config = CompletionConfig::default();
    config.comment_prefixes = vec!["//".to_string()];
    let line = chars("// abc\n");
    assert_eq!(
        plan_completion(&line, 6, &config),
        Some(CompletionPlan { edit_start: 2, analysis_start: 2 })
    );
}

#[test]
fn plan_completion_empty_code() {
    let config = CompletionConfig::default();
    let line = chars("你好\n");
    assert_eq!(plan_completion(&line, 2, &config), None);
}

fn rich(code: &str, text: &str, key: char, order: usize) -> CandidateRich {
    CandidateRich::new(code.to_string(), text.to_string(), 1, chars("ab"), order, key)
}

#[test]
fn completion_entries_sentence_then_candidates() {
    let sel = CodeSelection::default();
    let result = AnalysisResult {
        segments: vec![
            ("你".to_string(), chars("a"), Tag::Code(sel)),
            ("好".to_string(), chars("b"), Tag::Code(sel)),
        ],
        pending: true,
        candidates: Some(vec![rich("b", "好", ' ', 0), rich("bb", "号", 'U', 1)]),
    };
    let entries = completion_entries(&result).unwrap();
    assert_eq!(entries.len(), 3);
    assert_eq!(entries[0].label, "你好");
    assert_eq!(entries[0].sort_text, "0");
    assert_eq!(entries[0].new_text, "你好");
    assert!(entries[0].preselect);
    assert_eq!(entries[1].label, "[ ]: 好 b");
    assert_eq!(entries[1].sort_text, "1");
    assert_eq!(entries[2].label, "[U]: 号 bb");
    assert_eq!(entries[2].sort_text, "2");
    assert_eq!(entries[2].new_text, "号");
    assert!(!entries[2].preselect);
}

#[test]
fn completion_entries_whitespace_sentence() {
    let result = AnalysisResult {
        segments: vec![(" ".to_string(), chars(" "), Tag::Unknown)],
        pending: false,
        candidates: None,
    };
    assert!(completion_entries(&result).is_none());
}

#[test]
fn completion_entries_decimal_sort_text() {
    let sel = CodeSelection::default();
    let mut cands = Vec::new();
    for i in 0..12 {
        cands.push(rich("a", "啊", 'k', i));
    }
    let result = AnalysisResult {
        segments: vec![("啊".to_string(), chars("a"), Tag::Code(sel))],
        pending: true,
        candidates: Some(cands),
    };
    let entries = completion_entries(&result).unwrap();
    assert_eq!(entries.len(), 13);
    assert_eq!(entries[10].sort_text, "10");
    assert_eq!(entries[12].sort_text, "12");
}
