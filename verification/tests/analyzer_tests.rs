use senime::dict::{DictKind, DictKindName, DictMeta};
use senime::input_analyzer::{CodeSelection, Config, InputAnalyzer, PuncMap, Tag};
use senime::lsp::CompletionConfig;
use senime::position::{completion_at, PositionEncoding};

fn gen_entries() -> String {
    r#"
a 啊 1
aa 啊 1
aaa 啊 1
ab 啊波 1
abc 啊波此 1
abcd 啊波此的 1
ac 啊此 1
ad 啊的 1
b 波 1
ba 波啊 1
bb 波 1
bc 波此 1
bd 波的 1
c 此 1
ca 此啊 1
cb 此波 1
cc 此 1
cd 此的 1
d 的 1
da 的啊 1
db 的波 1
dc 的此 1
dd 的 1
q 其0 1
q 其1 1
q 其2 1
q 其3 1
q 其4 1
q 其5 1
q 其6 1
q 其7 1
q 其8 1
q 其9 1
q 其10 1
q 其11 1
q 其12 1
q 其13 1
y 伊0 1
y 伊1 1
y 伊2 1
y 伊3 1
y 伊4 1
y 伊5 1
"#
    .replace(' ', "\t")
}

fn gen_fuzz_entries() -> String {
    r#"
你好	nihao,hello,oi
世界	shijie,world,sikei
心	heart,beat
苹果	apple,fruit,food
西瓜	watermelon,fruit,food
梨子	pear,fruit,food
芒果	mango,fruit,food
菠萝	pineapple,fruit,food
♡	White Heart Suit
➡️	Right Arrow
⬅️	Left Arrow
⬇️	Down Arrow
⬆️	Up Arrow
💘	Heart With Arrow
"#
    .to_string()
}

fn strings(items: &[&str]) -> Vec<String> {
    items.iter().map(|s| s.to_string()).collect()
}

fn gen_test_config() -> Config {
    let mut config = Config::default();
    config.selection_keys = vec!['U', 'I', 'O', 'P', '5', '6', '7', '8', '9'];
    let mut p = PuncMap::new();
    p.insert(',', strings(&["，", ",", "……"]));
    p.insert('.', strings(&["。", ".", "……"]));
    p.insert('!', strings(&["！", "!"]));
    p.insert('/', strings(&["？", "/"]));
    p.insert(';', strings(&["：", "；", ";"]));
    p.insert('[', strings(&["「", "“", "[", "【"]));
    p.insert(']', strings(&["」", "”", "]", "】"]));
    config.punctuations = p;
    config
}

fn gen_test_config_page_count(page_count: usize) -> Config {
    let mut config = Config::default();
    config.page_count = page_count;
    config
}

fn meta(trigger: char, hint: &str) -> DictMeta {
    let mut m = DictMeta::default();
    m.trigger = trigger;
    m.hint = hint.to_string();
    m
}

fn prefix_dict() -> DictKind {
    DictKind::from_str(&gen_entries(), DictKindName::Prefix).unwrap()
}

fn sel(dict_idx: usize, sel_idx: usize, page_no: usize, has_selection: bool, has_pagination: bool) -> CodeSelection {
    CodeSelection {
        page_no,
        sel_idx,
        dict_idx,
        has_selection,
        has_pagination,
    }
}

fn texts(analyzer: &InputAnalyzer, input: &str) -> Vec<String> {
    let result = analyzer.analyze(input.chars().collect::<Vec<_>>().as_slice());
    result.segments.into_iter().map(|seg| seg.0).collect()
}

fn segs(analyzer: &InputAnalyzer, input: &str) -> (Vec<String>, Vec<Tag>) {
    analyzer
        .segments(input.chars().collect::<Vec<_>>().as_slice())
        .into_iter()
        .map(|seg| (seg.0.iter().collect::<String>(), seg.1))
        .unzip()
}

#[test]
fn test_analyze() {
    let analyzer = InputAnalyzer::new(gen_test_config(), vec![(DictMeta::default(), prefix_dict())]);
    let inputs = vec![
        ("a cIzk", vec!["啊", "", "此啊", "zk"]),
        ("a` ` ``cIzk", vec!["啊", " ", " ", "`", "此啊", "zk"]),
        ("a, ", vec!["啊", "，", ""]),
        ("a cI@abc", vec!["啊", "", "此啊", "@", "啊波此"]),
        ("a  cIzk,,,[]I]]", vec!["啊", " ", "此啊", "zk", "……", "「", "”", "”"]),
        (
            "zk`zk`c,cua.hcP",
            vec!["zk", "zk", "此", "，", "此", "u", "啊", "。", "h", "此"],
        ),
    ];
    for (i, (input, expect)) in inputs.into_iter().enumerate() {
        assert_eq!(texts(&analyzer, input), expect, "> No.{} input: {}", i, input);
    }
}

#[test]
fn test_analyze_with_sec_dict() {
    let analyzer = InputAnalyzer::new(
        gen_test_config(),
        vec![(meta('\0', ""), prefix_dict()), (meta('@', "反"), prefix_dict())],
    );
    let inputs = vec![
        ("aaaaaa aaaaa", vec!["啊", "啊", "", "啊", "啊"]),
        ("aaa8 ", vec!["啊", " "]),
        ("a cI@abc", vec!["啊", "", "此啊", "反|啊波此"]),
        ("a cI@abcaaa", vec!["啊", "", "此啊", "啊波此", "啊"]),
        ("@aaac@cP@@@", vec!["啊", "此", "此", "@", "@", "反"]),
        ("@aaax@xxx", vec!["啊", "x", "@", "xxx"]),
        ("@aaax@cc@", vec!["啊", "x", "此", "反"]),
        ("@ ", vec!["@", ""]),
        ("@", vec!["反"]),
        ("@bI", vec!["波啊"]),
    ];
    for (i, (input, expect)) in inputs.into_iter().enumerate() {
        assert_eq!(texts(&analyzer, input), expect, "> No.{} input: {}", i, input);
    }
}

#[test]
fn test_segments_with_sec_dict() {
    let analyzer = InputAnalyzer::new(
        gen_test_config(),
        vec![(DictMeta::default(), prefix_dict()), (meta('@', ""), prefix_dict())],
    );
    let samples: Vec<(usize, &str, Vec<&str>, Vec<Tag>)> = vec![
        (
            1,
            "IIII@abc@ahI cu",
            vec!["IIII", "@abc", "@a", "hI ", "c", "u"],
            vec![
                Tag::Unknown,
                Tag::Code(sel(1, 0, 0, false, false)),
                Tag::Code(sel(1, 0, 0, false, false)),
                Tag::Unknown,
                Tag::Code(sel(0, 0, 0, false, false)),
                Tag::Unknown,
            ],
        ),
        (
            2,
            "a@a@xa @a",
            vec!["a", "@a", "@", "x", "a", " ", "@a"],
            vec![
                Tag::Code(sel(0, 0, 0, false, false)),
                Tag::Code(sel(1, 0, 0, false, false)),
                Tag::Code(sel(1, 0, 0, false, false)),
                Tag::Unknown,
                Tag::Code(sel(0, 0, 0, false, false)),
                Tag::Unknown,
                Tag::Code(sel(1, 0, 0, false, false)),
            ],
        ),
        (
            3,
            "aaxx@abca@xx@aPPP@P",
            vec!["aa", "xx", "@abc", "a", "@", "xx", "@aP", "PP", "@", "P"],
            vec![
                Tag::Code(sel(0, 0, 0, false, false)),
                Tag::Unknown,
                Tag::Code(sel(1, 0, 0, false, false)),
                Tag::Code(sel(0, 0, 0, false, false)),
                Tag::Code(sel(1, 0, 0, false, false)),
                Tag::Unknown,
                Tag::Code(sel(1, 3, 0, true, false)),
                Tag::Unknown,
                Tag::Code(sel(1, 0, 0, false, false)),
                Tag::Unknown,
            ],
        ),
    ];
    for (no, input, expected, expected_tags) in samples.into_iter() {
        let (segments, tags) = segs(&analyzer, input);
        assert_eq!(segments, expected, "> No.{} sample: {}", no, input);
        assert_eq!(tags, expected_tags, "> No.{} sample: {}", no, input);
    }
}

#[test]
fn input_analyzer_test_segments() {
    let analyzer = InputAnalyzer::new(gen_test_config(), vec![(DictMeta::default(), prefix_dict())]);
    let samples: Vec<(usize, &str, Vec<&str>, Vec<Tag>)> = vec![
        (
            0,
            "a zk,,cO",
            vec!["a", " zk", ",,", "cO"],
            vec![
                Tag::Code(sel(0, 0, 0, false, false)),
                Tag::Unknown,
                Tag::Punctuation((0, false)),
                Tag::Code(sel(0, 2, 0, true, false)),
            ],
        ),
        (
            1,
            "   A  zk,,;IaII",
            vec!["   A  zk", ",,", ";I", "aI", "I"],
            vec![
                Tag::Unknown,
                Tag::Punctuation((0, false)),
                Tag::Punctuation((1, true)),
                Tag::Code(sel(0, 1, 0, true, false)),
                Tag::Unknown,
            ],
        ),
        (
            2,
            "IOcaK  ",
            vec!["IO", "ca", "K  "],
            vec![Tag::Unknown, Tag::Code(sel(0, 0, 0, false, false)), Tag::Unknown],
        ),
        (
            3,
            "8  8ahcgccbPPP;8...8",
            vec!["8  8", "a", "h", "c", "g", "cc", "bP", "PP", ";8", "...8"],
            vec![
                Tag::Unknown,
                Tag::Code(sel(0, 0, 0, false, false)),
                Tag::Unknown,
                Tag::Code(sel(0, 0, 0, false, false)),
                Tag::Unknown,
                Tag::Code(sel(0, 0, 0, false, false)),
                Tag::Code(sel(0, 3, 0, true, false)),
                Tag::Unknown,
                Tag::Punctuation((7, true)),
                Tag::Punctuation((7, true)),
            ],
        ),
        (
            4,
            "aaxx  `hello`world`@a,cua.hcI",
            vec!["aa", "xx  ", "`hello`", "worl", "d", "`@a,cua.hcI"],
            vec![
                Tag::Code(sel(0, 0, 0, false, false)),
                Tag::Unknown,
                Tag::Escape(('`', '`')),
                Tag::Unknown,
                Tag::Code(sel(0, 0, 0, false, false)),
                Tag::Escape(('`', '`')),
            ],
        ),
        (
            5,
            "aaxx@abca@xx@aPPP@P",
            vec!["aa", "xx@", "abc", "a", "@xx@", "aP", "PP@P"],
            vec![
                Tag::Code(sel(0, 0, 0, false, false)),
                Tag::Unknown,
                Tag::Code(sel(0, 0, 0, false, false)),
                Tag::Code(sel(0, 0, 0, false, false)),
                Tag::Unknown,
                Tag::Code(sel(0, 3, 0, true, false)),
                Tag::Unknown,
            ],
        ),
    ];
    for (no, input, expected, expected_tags) in samples.into_iter() {
        let (segments, tags) = segs(&analyzer, input);
        assert_eq!(segments, expected, "> No.{} sample: {}", no, input);
        assert_eq!(tags, expected_tags, "> No.{} sample: {}", no, input);
    }
}

#[test]
fn test_analyze_pending() {
    let analyzer = InputAnalyzer::new(gen_test_config(), vec![(DictMeta::default(), prefix_dict())]);
    let samples = vec![
        ("a", true),
        ("abcd", true),
        ("abI", false),
        ("abI,", true),
        ("abI, ", false),
    ];
    for (i, (input, expected)) in samples.into_iter().enumerate() {
        let result = analyzer.analyze(input.chars().collect::<Vec<_>>().as_slice());
        assert_eq!(expected, result.pending, "> No.{} input: {}", i, input);
    }
    let analyzer = InputAnalyzer::new(
        gen_test_config(),
        vec![(DictMeta::default(), prefix_dict()), (meta('@', "反"), prefix_dict())],
    );
    let samples = vec![("@", true), ("@ ", false), ("@a", true), ("@x", false)];
    for (i, (input, expected)) in samples.into_iter().enumerate() {
        let result = analyzer.analyze(input.chars().collect::<Vec<_>>().as_slice());
        assert_eq!(expected, result.pending, "> No.{} input: {}", i, input);
    }
}

#[test]
fn test_segments_pagination() {
    let analyzer = InputAnalyzer::new(gen_test_config_page_count(2), vec![(DictMeta::default(), prefix_dict())]);
    let samples = vec![
        ("a", Tag::Code(sel(0, 0, 0, false, false))),
        ("a⇟⇟", Tag::Code(sel(0, 0, 2, false, true))),
        ("a⇟2", Tag::Code(sel(0, 1, 1, true, true))),
        ("a⇟⇟⇞⇞⇞⇞⇞⇞⇞⇞⇞⇞⇞⇟", Tag::Code(sel(0, 0, 1, false, true))),
    ];
    for (i, (input, expected)) in samples.into_iter().enumerate() {
        let mut segments = analyzer.segments(input.chars().collect::<Vec<_>>().as_slice());
        assert_eq!(Some(expected), segments.pop().map(|seg| seg.1), "> No.{} input: {}", i, input);
    }
}

#[test]
fn test_segments_fuzz() {
    let dict_fuzz = DictKind::from_str(&gen_fuzz_entries(), DictKindName::Fuzzy).unwrap();
    let analyzer = InputAnalyzer::new(
        gen_test_config_page_count(2),
        vec![(DictMeta::default(), prefix_dict()), (meta('E', "Emoji"), dict_fuzz)],
    );
    let samples = vec![
        ("Ehel", Tag::Code(sel(1, 0, 0, false, false))),
        ("Ehel⇟⇟", Tag::Code(sel(1, 0, 2, false, true))),
        ("Ea⇟2", Tag::Code(sel(1, 1, 1, true, true))),
    ];
    for (i, (input, expected)) in samples.into_iter().enumerate() {
        let mut segments = analyzer.segments(input.chars().collect::<Vec<_>>().as_slice());
        assert_eq!(Some(expected), segments.pop().map(|seg| seg.1), "> No.{} input: {}", i, input);
    }
}

#[test]
fn test_analyze_pagination() {
    let analyzer = InputAnalyzer::new(gen_test_config_page_count(2), vec![(DictMeta::default(), prefix_dict())]);
    let samples = vec![("a", "啊"), ("a⇟⇟", "啊波此"), ("a⇟2", "啊波")];
    for (i, (input, expected)) in samples.into_iter().enumerate() {
        let got = texts(&analyzer, input);
        assert_eq!(expected, got.last().cloned().unwrap(), "> No.{} input: {}", i, input);
    }
    let analyzer = InputAnalyzer::new(gen_test_config_page_count(3), vec![(DictMeta::default(), prefix_dict())]);
    let samples = vec![
        ("q", "其0"),
        ("q⇟⇟", "其6"),
        ("q⇟2", "其4"),
        ("q⇟⇟⇟⇟⇟⇟⇟⇟⇟", "其12"),
        ("qqqqq⇟⇟⇟⇟⇟⇟⇟⇟⇟", "其12"),
        ("y⇟", "伊3"),
        ("y⇟⇟", "伊3"),
    ];
    for (i, (input, expected)) in samples.into_iter().enumerate() {
        let got = texts(&analyzer, input);
        assert_eq!(expected, got.last().cloned().unwrap(), "> No.{} input: {}", i, input);
    }
}

fn escape_config(trim: bool) -> Config {
    let mut config = Config::default();
    config.escape_pair = Some(['E', 'D']);
    config.trim_escape_pair = trim;
    config
}

#[test]
fn test_analyze_trim_escape() {
    let analyzer_trim = InputAnalyzer::new(escape_config(true), vec![(DictMeta::default(), prefix_dict())]);
    let analyzer_no_trim = InputAnalyzer::new(escape_config(false), vec![(DictMeta::default(), prefix_dict())]);
    let samples = vec![
        ("xxx`aa`", "xxx`啊`", "xxx`啊`"),
        ("xxxEaa`", "xxxEaa`", "xxxEaa`"),
        ("xxxEaaD`", "xxxaa`", "xxxEaaD`"),
        ("xxxEDa", "xxxE啊", "xxxE啊"),
    ];
    for (i, (input, expected_trim, expected_no_trim)) in samples.into_iter().enumerate() {
        assert_eq!(expected_trim, texts(&analyzer_trim, input).concat(), "> Trim No.{} input: {}", i, input);
        assert_eq!(
            expected_no_trim,
            texts(&analyzer_no_trim, input).concat(),
            "> No Trim No.{} input: {}",
            i,
            input
        );
    }
}

#[test]
fn test_analyze_fuzz() {
    let dict_fuzz = DictKind::from_str(&gen_fuzz_entries(), DictKindName::Fuzzy).unwrap();
    let analyzer = InputAnalyzer::new(
        gen_test_config(),
        vec![(DictMeta::default(), prefix_dict()), (meta('E', "Emoji"), dict_fuzz)],
    );
    let inputs = vec![
        ("E", vec!["Emoji"]),
        ("Esi", vec!["Emoji|世界"]),
        ("Esi ", vec!["世界", ""]),
        ("Exxxxxx", vec!["Exxxxxx"]),
        ("Efruit,appI", vec!["菠萝"]),
        ("Ehearsu ", vec!["♡", ""]),
        ("Earrow,right ", vec!["➡️", ""]),
    ];
    for (i, (input, expect)) in inputs.into_iter().enumerate() {
        assert_eq!(texts(&analyzer, input), expect, "> No.{} input: {}", i, input);
    }
}

#[test]
fn completion_at_the_cursor() {
    let analyzer = InputAnalyzer::new(gen_test_config(), vec![(DictMeta::default(), prefix_dict())]);
    let rope = ropey::Rope::from("你ab\nx");
    let cfg = CompletionConfig::default();
    let items = completion_at(&analyzer, &rope, 0, 3, PositionEncoding::Utf32, &cfg).unwrap();
    assert_eq!(items[0].new_text, "啊波");
    assert_eq!(items[0].filter_text, "你ab");
    assert_eq!((items[0].line, items[0].start_col, items[0].end_col), (0, 1, 3));
    let items = completion_at(&analyzer, &rope, 0, 5, PositionEncoding::Utf8, &cfg).unwrap();
    assert_eq!((items[0].start_col, items[0].end_col), (3, 5));
    assert!(completion_at(&analyzer, &rope, 5, 0, PositionEncoding::Utf32, &cfg).is_none());
    // no character before the code: nothing to complete in coding mode
    assert!(completion_at(&analyzer, &rope, 1, 1, PositionEncoding::Utf32, &cfg).is_none());
}

#[test]
fn search_candidates_pages_and_picks() {
    let analyzer = InputAnalyzer::new(gen_test_config_page_count(2), vec![(DictMeta::default(), prefix_dict())]);
    let codes = |r: &Vec<senime::input_analyzer::CandidateRich>| -> Vec<String> {
        r.iter().map(|c| c.code.clone()).collect()
    };
    let (cands, chosen, page) = analyzer
        .search_candidates(&['a'], CodeSelection::default(), false)
        .unwrap();
    assert_eq!(codes(&cands), strings(&["a", "aa"]));
    assert_eq!((chosen, page), (false, 0));
    let (cands, _, page) = analyzer.search_candidates(&['a'], sel(0, 0, 1, false, false), false).unwrap();
    assert_eq!(codes(&cands), strings(&["aaa", "ab"]));
    assert_eq!(page, 1);
    // past the last page, the last page is shown
    let (cands, _, page) = analyzer.search_candidates(&['a'], sel(0, 0, 9, false, false), false).unwrap();
    assert_eq!(codes(&cands), strings(&["ac", "ad"]));
    assert_eq!(page, 3);
    // a selection picks one candidate of the page
    let (cands, chosen, _) = analyzer
        .search_candidates(&['a', 'U'], sel(0, 2, 0, true, false), false)
        .unwrap();
    assert_eq!(codes(&cands), strings(&["aa"]));
    assert!(chosen);
    assert!(analyzer.search_candidates(&['a', 'b', 'x'], CodeSelection::default(), false).is_none());
}

#[test]
fn prepared_config_has_defaults_and_untriggered_main_table() {
    let mut empty = Config::default();
    empty.dicts.clear();
    assert_eq!(empty.prepare().unwrap_err(), "配置文件中 dicts 为空，请指定至少一个码表");
    let mut config = Config::default();
    config.dicts = vec![meta('@', "主"), meta('@', "反")];
    let mut p = PuncMap::new();
    p.insert(',', strings(&["、"]));
    config.punctuations = p;
    config.prepare().unwrap();
    assert_eq!(config.dicts[0].trigger, '\0');
    assert_eq!(config.dicts[0].hint, "主");
    assert_eq!(config.dicts[1].trigger, '@');
    assert_eq!(config.punctuations.get(',').unwrap(), &strings(&["、"]));
    assert_eq!(config.punctuations.get('.').unwrap()[0], "。");
}
