use senime::encode::{map_an_segment, AnSegment};
use senime::input_analyzer::compact_vec;
use senime::lookup_code::{Segment, Trie};
use senime::sentence::Sentence;

fn an_segment(text: &str, code: &str, pos: u16, auto_select: bool, page_num: usize, select_key: char) -> AnSegment {
    AnSegment {
        text: text.to_string(),
        code: code.to_string(),
        pos,
        auto_select,
        page_num,
        select_key,
    }
}

#[test]
fn test_map_an_segment() {
    let selection_keys = vec!['A', 'B', 'C', 'D', 'E', 'F', 'G', 'H', 'I'];
    let page_count = 4;
    let text: Vec<char> = "abc".chars().collect();
    let code: Vec<char> = "xy".chars().collect();
    let seg = Segment {
        text,
        code,
        pos: 9,
        auto_select: false,
        range: 0..0,
        cost: 0,
    };
    let an_seg = map_an_segment(&selection_keys, page_count, seg);
    assert_eq!(an_seg.page_num, 2);
    assert_eq!(an_seg.select_key, 'B');
}

#[test]
fn test_an_segment_write() {
    let segments = vec![
        (an_segment("abc", "abc", 0, true, 0, 'U'), "abc"),
        (an_segment("abc", "abc", 2, false, 0, 'O'), "abcO"),
        (an_segment("abc", "abc", 0, true, 3, 'U'), "abc⇟⇟⇟"),
        (an_segment("abc", "abc", 1, false, 3, 'I'), "abc⇟⇟⇟I"),
    ];
    segments.into_iter().for_each(|(seg, expected)| {
        let mut s = String::new();
        seg.write(&mut s, false, None, None, 0);
        assert_eq!(expected, s);
    });
}

#[test]
fn lookup_code_test_trie() {
    let mut trie = Trie::new();
    let word_1 = vec!['d', 'm', 'r', 'l'];
    let word_2 = vec!['d', 'm'];
    let word_3 = vec!['r', 'p', 'p'];
    let word_4 = vec!['t', 'c'];
    let word_5 = vec!['x', 'c', 'd', 'z'];
    let word_6 = vec!['t', 'c', 'x', 'c'];
    let word_7 = vec!['b', 'w'];
    let word_8 = vec!['m', 'l', 'w', 'g'];
    let word_9 = vec!['b', 'w', 'm', 'l'];
    trie.insert(&word_1);
    trie.insert(&word_2);
    trie.insert(&word_3);
    trie.insert(&word_4);
    trie.insert(&word_5);
    trie.insert(&word_6);
    trie.insert(&word_7);
    trie.insert(&word_8);
    trie.insert(&word_9);
    let search_1 = vec!['t', 'c', 'x'];
    let search_2 = vec!['b', 'w', 'm'];
    let search_3 = vec!['d', 'm', 't'];
    let search_4 = vec!['x', 'c', 'd', 'z'];
    assert!(trie.reachable(&search_1));
    assert!(trie.reachable(&search_2));
    assert!(!trie.reachable(&search_3));
    assert!(trie.reachable(&search_4));
}

#[test]
fn test_compact_vec() {
    let input = vec!['.', '.', '!', '!', ';', '!'];
    let expected = vec![('.', 2), ('!', 2), (';', 1), ('!', 1)];
    let result = compact_vec(&input);
    assert_eq!(result, expected);
}

#[test]
fn test_sentence() {
    let mut sentence = Sentence::default();
    sentence.extend(vec!['a', 'b', 'c', 'd', 'e']);
    sentence.set_append_at(3);
    sentence.extend(vec!['1', '2', '3', '4', '5']);
    let chars = sentence.get_chars();
    assert_eq!(chars, vec!['a', 'b', 'c', '1', '2', '3', '4', '5', 'd', 'e']);
    let chars = sentence.get_chars_by(2..6);
    assert_eq!(chars, vec!['c', '1', '2', '3']);

    let chars = sentence.get_chars_by(0..0);
    assert_eq!(chars, Vec::<char>::new());

    let chars = sentence.get_chars_by(3..8);
    assert_eq!(chars, vec!['1', '2', '3', '4', '5']);

    sentence.set_append_at(6);
    sentence.extend(vec!['A', 'B']);
    let chars = sentence.get_chars();
    assert_eq!(chars, vec!['a', 'b', 'c', '1', '2', '3', 'A', 'B', '4', '5', 'd', 'e']);
    sentence.set_pending(vec!['你', '好'], vec![]);
    let chars = sentence.get_chars();
    assert_eq!(
        chars,
        vec!['a', 'b', 'c', '1', '2', '3', 'A', 'B', '你', '好', '4', '5', 'd', 'e']
    );
    sentence.set_append_at(6);
    let chars = sentence.get_chars();
    assert_eq!(
        chars,
        vec!['a', 'b', 'c', '1', '2', '3', 'A', 'B', '你', '好', '4', '5', 'd', 'e']
    );
    let chars = sentence.get_chars_by(8..10);
    assert_eq!(chars, vec!['你', '好']);

    sentence.pop();
    sentence.pop();
    let chars = sentence.get_chars_by(8..10);
    assert_eq!(chars, vec!['4', '5']);

    let chars = sentence.get_chars();
    assert_eq!(chars, vec!['a', 'b', 'c', '1', 'A', 'B', '你', '好', '4', '5', 'd', 'e']);
    sentence.set_append_at(sentence.len());
    sentence.set_pending(vec!['悬', '决'], vec!['f', 'k', 'w', 'n']);
    let chars = sentence.get_chars();
    assert_eq!(
        chars,
        vec!['a', 'b', 'c', '1', 'A', 'B', '你', '好', '4', '5', 'd', 'e', '悬', '决']
    );
    sentence.pop();
    let chars = sentence.get_chars_by(10..sentence.len());
    assert_eq!(chars, vec!['d', 'e', '悬', '决']);
    sentence.pop();
    sentence.pop();
    sentence.pop();
    let chars = sentence.get_chars_by(10..sentence.len());
    assert_eq!(chars, vec!['d', 'e']);
    sentence.clear();
    sentence.extend(vec!['a', 'b', 'c', 'd']);
    let chars = sentence.get_chars_by(2..4);
    assert_eq!(chars, vec!['c', 'd']);
    sentence.clear();
    sentence.extend(vec!['a', 'b', 'c', 'd']);
    sentence.set_append_at(2);
    sentence.extend(vec!['1', '2']);
    let chars = sentence.get_chars_by(2..sentence.len());
    assert_eq!(chars, vec!['1', '2', 'c', 'd']);
    sentence.set_pending(vec!['你', '好'], vec![]);
    let chars = sentence.get_chars_by(2..sentence.len());
    assert_eq!(chars, vec!['1', '2', '你', '好', 'c', 'd']);
    let chars = sentence.get_chars_by(2..2);
    assert_eq!(chars, Vec::<char>::new());
    sentence.set_append_at(0);
    sentence.set_pending(vec!['你', '好'], vec![]);
    let chars = sentence.get_chars_by(1..2);
    assert_eq!(chars, vec!['好']);
    let chars = sentence.get_chars_by(2..2);
    assert_eq!(chars, Vec::<char>::new());
    let chars = sentence.get_chars_by(0..sentence.len());
    assert_eq!(chars, vec!['你', '好', 'a', 'b', '1', '2', '你', '好', 'c', 'd']);
    let chars = sentence.get_chars_by(10..sentence.len());
    assert_eq!(chars, Vec::<char>::new());
}
