use senime::dict::{DictKind, DictKindName, DictMeta};
use senime::input_analyzer::{Config, InputAnalyzer};
use senime::lookup_code::Trie;

fn analyzer() -> InputAnalyzer {
    let table = "a\t啊\t1\nab\t啊波\t1\nb\t波\t1\nba\t波啊\t1\nc\t此\t1\n";
    let dict = DictKind::from_str(table, DictKindName::Prefix).unwrap();
    InputAnalyzer::new(Config::default(), vec![(DictMeta::default(), dict)])
}

#[test]
fn analyzer_segments_cover_input() {
    let a = analyzer();
    for input in ["abzk, ba`x`c", "a b c", "", ",,,", "zzz", "ab1c2"] {
        let chars: Vec<char> = input.chars().collect();
        let joined: Vec<char> = a.segments(&chars).into_iter().flat_map(|s| s.0).collect();
        assert_eq!(joined, chars, "input: {input}");
    }
}

#[test]
fn reachable_starts_of_reachable_codes() {
    let dict = DictKind::from_str("abcd\t字\t1\n", DictKindName::Prefix).unwrap();
    let d = dict.as_prefix();
    for q in ["a", "ab", "abc", "abcd"] {
        let q: Vec<char> = q.chars().collect();
        assert!(d.reachable(&q));
    }
    assert!(!d.reachable(&['b']));
    assert!(!d.reachable(&[]));
}

#[test]
fn trie_insert_makes_starts_reachable() {
    let mut t = Trie::new();
    t.insert(&['d', 'm', 'R', 'x']);
    assert!(t.reachable(&['d']));
    assert!(t.reachable(&['d', 'm']));
    assert!(!t.reachable(&['d', 'm', 'R']));
    assert!(!t.reachable(&[]));
}

#[test]
fn analysis_origins_partition_input() {
    let a = analyzer();
    for input in ["abzk, ba`x`c", "a b c", ",,,", "zzz", "ab1c2", "ab ", "a"] {
        let chars: Vec<char> = input.chars().collect();
        let r = a.analyze(&chars);
        assert!(r.segments.iter().all(|s| !s.1.is_empty()), "input: {input}");
        let joined: Vec<char> = r.segments.iter().flat_map(|s| s.1.iter().copied()).collect();
        assert_eq!(joined, chars, "input: {input}");
    }
}

#[test]
fn candidates_only_when_pending() {
    let a = analyzer();
    for input in ["a", "ab", "ab ", "", "zz", "a,"] {
        let chars: Vec<char> = input.chars().collect();
        let r = a.analyze(&chars);
        if let Some(c) = &r.candidates {
            assert!(!c.is_empty() && r.pending && !r.segments.is_empty(), "input: {input}");
        }
        if chars.is_empty() {
            assert!(r.segments.is_empty() && !r.pending && r.candidates.is_none());
        }
    }
}
