use senime::dict::{DictKind, DictKindName};
use senime::lookup_code::{CodePos, Looker};

fn create_dict() -> DictKind {
    let data = vec![
        ("d", "中", 0),
        ("jv", "华", 0),
        ("j", "人", 0),
        ("dm", "民", 0),
        ("lhb", "共", 0),
        ("xd", "和", 0),
        ("rn", "国", 0),
        ("dgjv", "中华", 0),
        ("jrdm", "人民", 0),
        ("lhxd", "共和", 0),
        ("lxrn", "共和国", 0),
        ("djjr", "中华人民共和国", 0),
        ("o", "是", 0),
        ("u", "的", 0),
        ("hkdm", "公民", 0),
        ("djv", "喻", 0),
        ("jdm", "人民网", 0),
        ("jdma", "人民网world", 0),
    ];
    let table: String = data
        .iter()
        .map(|d| format!("{}\t{}\t{}\n", d.0, d.1, d.2))
        .collect();
    DictKind::from_str(&table, DictKindName::Prefix).unwrap()
}

#[test]
fn test_analyze_segments() {
    let dict = create_dict();
    let looker = Looker::new(dict.as_prefix());
    let text = "中华人民是中华人民共和国的公民中华人民是中华人民共和国的公民，共和hello国人民网world。"
        .chars()
        .collect::<Vec<_>>();
    let segments = looker.analyze(text.as_slice());
    let ranges = segments
        .into_iter()
        .map(|seg| seg.text.iter().collect::<String>())
        .collect::<Vec<_>>();
    let expected = vec![
        "中华", "人民", "是", "中华人民共和国", "的", "公民", "中华", "人民", "是",
        "中华人民共和国", "的", "公民", "，", "共和", "h", "e", "l", "l", "o", "国",
        "人民网world", "。",
    ];
    assert_eq!(ranges, expected);
}

#[test]
fn segments_cover_text() {
    let dict = create_dict();
    let looker = Looker::new(dict.as_prefix());
    let text: Vec<char> = "中华人民，x共和国".chars().collect();
    let segments = looker.analyze(&text);
    let joined: Vec<char> = segments.iter().flat_map(|s| s.text.iter().copied()).collect();
    assert_eq!(joined, text);
    let mut at = 0;
    for s in &segments {
        assert_eq!(s.range.start, at);
        at = s.range.end;
    }
    assert_eq!(at, text.len());
}

#[test]
fn segment_codes_and_costs() {
    let dict = create_dict();
    let looker = Looker::new(dict.as_prefix());
    let text: Vec<char> = "中华，".chars().collect();
    let segments = looker.analyze(&text);
    assert_eq!(segments.len(), 2);
    assert_eq!(segments[0].code.iter().collect::<String>(), "dgjv");
    assert_eq!(segments[0].pos, 0);
    assert_eq!(segments[0].cost, 4);
    assert_eq!(segments[1].code, vec!['，']);
    assert_eq!(segments[1].cost, 0);
    let (range, pos, auto) = segments[0].simple();
    assert_eq!((range.start, range.end, pos, auto), (0, 2, 0, true));
}

#[test]
fn empty_text() {
    let dict = create_dict();
    let looker = Looker::new(dict.as_prefix());
    assert!(looker.analyze(&[]).is_empty());
}

#[test]
fn segments_tile_the_text() {
    let dict = create_dict();
    let looker = Looker::new(dict.as_prefix());
    let text: Vec<char> = "共和hello国，人民网world".chars().collect();
    let segments = looker.analyze(text.as_slice());
    assert_eq!(segments[0].range.start, 0);
    assert_eq!(segments.last().unwrap().range.end, text.len());
    for w in segments.windows(2) {
        assert_eq!(w[0].range.end, w[1].range.start);
    }
    for s in &segments {
        assert!(s.range.start < s.range.end);
        assert_eq!(s.text, text[s.range.clone()].to_vec());
    }
    assert!(looker.analyze(&[]).is_empty());
}

#[test]
fn punctuation_stands_alone_and_long_words_are_table_words() {
    let dict = create_dict();
    let looker = Looker::new(dict.as_prefix());
    let words = ["中华", "人民", "共和", "共和国", "中华人民共和国", "公民", "人民网", "人民网world"];
    let text: Vec<char> = "中华，人民网world。共和国！x公民".chars().collect();
    let segments = looker.analyze(text.as_slice());
    for (p, c) in text.iter().enumerate() {
        if !c.is_alphanumeric() {
            assert!(segments
                .iter()
                .any(|s| s.range.start == p && s.range.end == p + 1));
        }
    }
    for s in &segments {
        if s.text.len() > 1 {
            let t: String = s.text.iter().collect();
            assert!(words.contains(&t.as_str()));
            assert!(s.text.iter().all(|c| c.is_alphanumeric()));
        }
    }
    let texts: Vec<String> = segments.iter().map(|s| s.text.iter().collect()).collect();
    assert_eq!(
        texts,
        vec!["中华", "，", "人民网world", "。", "共和国", "！", "x", "公", "民"]
    );
}

#[test]
fn code_cost_picks_first_cheapest() {
    let dict = create_dict();
    let looker = Looker::new(dict.as_prefix());
    let code = |s: &str, pos: u16| CodePos(s.chars().collect(), pos);
    assert_eq!(looker.code_cost(&vec![code("dgjv", 0)], None), (4, true, 0));
    // a later candidate of its code takes two more keys
    assert_eq!(looker.code_cost(&vec![code("dgjv", 0), code("djv", 1)], None), (4, true, 0));
    // a code that the next key extends takes a space and does not commit itself
    assert_eq!(looker.code_cost(&vec![code("d", 0)], Some('g')), (2, false, 0));
    assert_eq!(looker.code_cost(&vec![code("d", 0)], Some('z')), (1, true, 0));
    // ties go to the shorter code, then to the first
    assert_eq!(looker.code_cost(&vec![code("jv", 1), code("dgjv", 0)], None), (4, false, 0));
    assert_eq!(looker.code_cost(&vec![code("dgjv", 0), code("jrdm", 0)], None), (4, true, 0));
}
