use senime::typing::{
    advance_to_word_boundary, diff_sequence, duration_to_min_and_sec, gen_article, parse_preset,
    process_preset, record_suffix, PickPreset,
};

const PRESET: &str = "你好世界，和平美好。\n携手共进，共享未来。\n美味萝卜干，一块钱两斤，管够。\n打字是一种浪费时间的爱好，收获甚微，我要戒掉\n";

fn pick(arg: &str) -> String {
    let (path, pick) = parse_preset(&format!("preset.txt:{arg}")).unwrap();
    assert_eq!(path, "preset.txt");
    process_preset(PRESET, true, Some(pick)).iter().collect()
}

#[test]
fn preset_ranges() {
    assert_eq!(pick("2-3"), "携手共进，共享未来。\n美味萝卜干，一块钱两斤，管够。");
    assert_eq!(pick("2.6-3.5"), "共享未来。\n美味萝卜干");
    assert_eq!(pick("-3.5"), "你好世界，和平美好。\n携手共进，共享未来。\n美味萝卜干");
    assert_eq!(
        pick("3-"),
        "美味萝卜干，一块钱两斤，管够。\n打字是一种浪费时间的爱好，收获甚微，我要戒掉\n"
    );
    assert_eq!(pick("3-3"), "美味萝卜干，一块钱两斤，管够。");
    assert_eq!(pick("3.2-3.5"), "味萝卜干");
    assert_eq!(
        pick("0-3.100"),
        "你好世界，和平美好。\n携手共进，共享未来。\n美味萝卜干，一块钱两斤，管够。"
    );
}

#[test]
fn preset_without_range() {
    let (path, p) = parse_preset("a.txt").unwrap();
    assert_eq!(path, "a.txt");
    assert_eq!(p, PickPreset::default());
    let (path, p) = parse_preset("c:/a.txt:").unwrap();
    assert_eq!(path, "c:/a.txt");
    assert_eq!(p, PickPreset::default());
}

#[test]
fn preset_bad_range() {
    let err = parse_preset("a.txt:x-2").unwrap_err();
    assert!(err.starts_with("invalid digit found in string; "));
    let err = PickPreset::parse("1.-2").unwrap_err();
    assert!(err.starts_with("cannot parse integer from empty string; "));
    let err = PickPreset::parse("99999999999999999999999-2").unwrap_err();
    assert!(err.starts_with("number too large to fit in target type; "));
}

#[test]
fn pick_parse_values() {
    let p: PickPreset = "2.3-4.5".parse().unwrap();
    assert_eq!(p, PickPreset { line_start: 1, char_start: 2, line_end: 3, char_end: 4 });
    let p = PickPreset::parse("+1-2-9").unwrap();
    assert_eq!(p, PickPreset { line_start: 0, char_start: 0, line_end: 1, char_end: usize::MAX - 1 });
}

#[test]
fn preset_filter_without_keep() {
    let chars: String = process_preset("a b\tc\n d", false, None).iter().collect();
    assert_eq!(chars, "abcd");
    let chars: String = process_preset("ab\r\ncd", true, None).iter().collect();
    assert_eq!(chars, "ab\ncd\n");
}

#[test]
fn word_boundary() {
    let s: Vec<char> = "ab cd,e".chars().collect();
    assert_eq!(advance_to_word_boundary(&s, 0), 2);
    assert_eq!(advance_to_word_boundary(&s, 2), 5);
    assert_eq!(advance_to_word_boundary(&s, 5), 7);
}

#[test]
fn diff_positions() {
    let a: Vec<char> = "abcd".chars().collect();
    let b: Vec<char> = "abxd".chars().collect();
    assert_eq!(diff_sequence(&a, Some(&b)), vec![true, true, false, true]);
    assert_eq!(diff_sequence(&a, Some(&b[..2])), vec![true, true]);
    assert!(diff_sequence(&a, None).is_empty());
}

#[test]
fn minutes_and_seconds() {
    assert_eq!(duration_to_min_and_sec(162), (2, 42));
    assert_eq!(duration_to_min_and_sec(59), (0, 59));
}

#[test]
fn article_repeats() {
    assert_eq!(gen_article(" 你好世\n", 7), "你好世你好世你");
    assert_eq!(gen_article("  ", 3), "");
    assert_eq!(gen_article("字", 0), "");
}

#[test]
fn record_suffix_takes_five_letters_or_digits() {
    let s: Vec<char> = "a-b c1d2e3".chars().collect();
    assert_eq!(record_suffix(&s), vec!['a', 'b', 'c', '1', 'd']);
    let s: Vec<char> = "你好，世界！".chars().collect();
    assert_eq!(record_suffix(&s), vec!['你', '好', '世', '界']);
    assert_eq!(record_suffix(&[]), Vec::<char>::new());
}

#[test]
fn whole_preset_without_keep_is_the_text_filtered() {
    for text in [PRESET, "a b\r\nc\td\n\n e", "", "\n\n"] {
        let expected: Vec<char> = text.chars().filter(|c| !c.is_whitespace() && !c.is_control()).collect();
        assert_eq!(process_preset(text, false, None), expected, "text: {text:?}");
    }
}

#[test]
fn picked_preset_is_a_stretch_of_the_filtered_text() {
    let text = "第一 行abc\r\n第二\t行 def\n\n第四行 ghi\n";
    let whole: String = process_preset(text, false, None).iter().collect();
    let picks = [
        PickPreset { line_start: 0, char_start: 2, line_end: 1, char_end: 3 },
        PickPreset { line_start: 1, char_start: 1, line_end: 1, char_end: 4 },
        PickPreset { line_start: 1, char_start: 0, line_end: 3, char_end: 1 },
        PickPreset { line_start: 2, char_start: 5, line_end: 9, char_end: 0 },
        PickPreset { line_start: 3, char_start: 9, line_end: 3, char_end: 2 },
    ];
    for pick in picks {
        let got: String = process_preset(text, false, Some(pick)).iter().collect();
        assert!(whole.contains(&got), "pick {pick:?}: {got:?}");
        assert!(got.chars().all(|c| !c.is_whitespace() && !c.is_control()));
    }
    let got: String = process_preset(text, false, Some(picks[0])).iter().collect();
    assert_eq!(got, "行abc第二行");
}
