use senime::dict::{parse_dict_txt, try_parse_columns, Column, DictKind, DictKindName};

fn gen_entries() -> String {
    r#"
a 嗯 1
aa 嗯嗯 1
ab 嗯毕 1
ac 嗯渗 1
ad 嗯弟 1
aaa 嗯嗯嗯 1
abc 嗯毕渗 1
abcd 嗯毕渗弟 1
b 毕 1
ba 毕嗯 1
bb 毕毕 1
bc 毕渗 1
bd 毕弟 1
c 渗 1
ca 渗嗯 1
cb 渗毕 1
cc 渗渗 1
cd 渗弟 1
d 弟 1
da 弟嗯 1
db 弟毕 1
dc 弟渗 1
dd 弟弟 1"#
        .replace(' ', "\t")
}

fn chars(s: &str) -> Vec<char> {
    s.chars().collect()
}

#[test]
fn test_prefix_dict() {
    let dict = DictKind::from_str(&gen_entries(), DictKindName::Prefix)
        .unwrap()
        .into_prefix();
    println!("dict loaded: {}", dict.count());
    let result = dict.search(chars("ah").as_slice());
    assert_eq!(0, result.map_or(0, |candidates| candidates.len()));
    let result = dict.search(chars("a").as_slice());
    assert_eq!(8, result.map_or(0, |candidates| candidates.len()));
    let result = dict.search(chars("abd").as_slice());
    assert_eq!(0, result.map_or(0, |candidates| candidates.len()));
    let result = dict.search(chars("da").as_slice());
    assert_eq!(1, result.map_or(0, |candidates| candidates.len()));
    let result = dict.search(chars("@").as_slice());
    assert_eq!(0, result.map_or(0, |candidates| candidates.len()));
}

#[test]
fn test_try_parse_column_head() {
    let line = "abcd 你好 10".replace(' ', "\t");
    let ret = try_parse_columns(&line).expect("解析失败");
    assert_eq!(vec![Column::Code, Column::Text, Column::Weight], ret);
    let line = "你好 10 abcd".replace(' ', "\t");
    let ret = try_parse_columns(&line).expect("解析失败");
    assert_eq!(vec![Column::Text, Column::Weight, Column::Code], ret);
    let line = "你好 10 abcd efgh".replace(' ', "\t");
    try_parse_columns(&line).expect_err("解析应该失败");
    let line = "你好hello 10 abcd".replace(' ', "\t");
    let ret = try_parse_columns(&line).expect("解析失败");
    assert_eq!(vec![Column::Text, Column::Weight, Column::Code], ret);
}

#[test]
fn from_str_holds_the_parsed_candidates() {
    let raw = "b\t波\t2\na\t啊\t1\nab\t啊波\t5\na\t阿\t3\n";
    let (arena, cands) = parse_dict_txt(raw).unwrap();
    let d = DictKind::from_str(raw, DictKindName::Prefix).unwrap();
    let p = d.as_prefix();
    let view = |a: &senime::dict::StringArena, c: &[senime::dict::Candidate]| -> Vec<(String, String, i32)> {
        c.iter()
            .map(|c| {
                (
                    a.get(c.code.0, c.code.1).into_iter().collect(),
                    a.get(c.text.0, c.text.1).into_iter().collect(),
                    c.weight,
                )
            })
            .collect()
    };
    assert_eq!(view(&arena, &cands), view(p.arena(), p.candidates()));
    assert_eq!(view(&arena, &cands)[0], ("a".to_string(), "阿".to_string(), 3));
}
