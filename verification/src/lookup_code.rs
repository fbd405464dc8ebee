use vstd::prelude::*;

use std::ops::Range;

use ahash::AHashMap;
use vstd::slice::{slice_subrange, slice_to_vec};

use crate::dict::{arena_str, Candidate};
use crate::prefix_dict::{codes_of, PrefixDict};
use crate::text::{chars_of, is_alphanumeric, unicode_alphanumeric};

verus! {

// ---------------------------------------------------------------------------
// Trie of lowercase codes
// ---------------------------------------------------------------------------

/// Whether `c` is a lowercase ASCII letter, the only characters a code trie holds.
pub open spec fn is_az(c: char) -> bool {
    'a' <= c && c <= 'z'
}

/// The longest start of `s` made of lowercase ASCII letters.
pub open spec fn az_prefix_len(s: Seq<char>, i: int) -> int
    decreases s.len() - i,
{
    if i < 0 || i >= s.len() || !is_az(s[i]) {
        i
    } else {
        az_prefix_len(s, i + 1)
    }
}

/// The letter of child slot `k`.
pub open spec fn letter(k: int) -> char {
    (k + 'a' as int) as char
}

#[derive(Clone, Copy, Debug)]
struct TrieNode {
    children: [Option<usize>; 26],
}

impl TrieNode {
    fn new() -> (n: Self)
        ensures
            forall|k: int| 0 <= k < 26 ==> #[trigger] n.children[k] is None,
    {
        TrieNode { children: [None; 26] }
    }
}

/// A trie of the lowercase starts of codes: whether a key sequence leads somewhere.
pub struct Trie {
    nodes: Vec<TrieNode>,
    paths: Ghost<Seq<Seq<char>>>,
}

impl Trie {
    /// The sequences held: those that lead from the root to a node (the empty one
    /// among them).
    pub closed spec fn held(&self) -> Set<Seq<char>> {
        Set::new(|s: Seq<char>| exists|k: int| 0 <= k < self.paths@.len() && self.paths@[k] == s)
    }

    /// The trie is well formed: node `k` is reached by `paths[k]`.
    pub closed spec fn wf(&self) -> bool {
        let ps = self.paths@;
        &&& self.nodes@.len() == ps.len()
        &&& ps.len() >= 1
        &&& ps[0] == Seq::<char>::empty()
        &&& forall|k: int, c: int|
            0 <= k < ps.len() && 0 <= c < 26 ==> match #[trigger] self.nodes@[k].children[c] {
                Some(j) => j < ps.len() && ps[j as int] == ps[k].push(letter(c)),
                None => true,
            }
        &&& forall|j: int|
            0 < j < ps.len() ==> exists|k: int|
                0 <= k < ps.len() && ps[k] == (#[trigger] ps[j]).drop_last() && ps[j].len() > 0
                    && 'a' <= ps[j].last() <= 'z' && self.nodes@[k].children[ps[j].last() as int
                    - 'a' as int] == Some(j as usize)
        &&& forall|a: int, b: int| 0 <= a < b < ps.len() ==> #[trigger] ps[a] != #[trigger] ps[b]
        &&& forall|k: int| 0 <= k < ps.len() ==> (#[trigger] ps[k]).len() > 0 || k == 0
    }

    /// A trie holding the empty sequence only.
    pub fn new() -> (t: Self)
        ensures
            t.wf(),
            t.held() == Set::<Seq<char>>::empty().insert(Seq::empty()),
    {
        let mut nodes: Vec<TrieNode> = Vec::new();
        nodes.push(TrieNode::new());
        let ghost ps = seq![Seq::<char>::empty()];
        let t = Trie { nodes, paths: Ghost(ps) };
        assert(t.held() =~= Set::<Seq<char>>::empty().insert(Seq::empty())) by {
            assert(t.paths@[0] == Seq::<char>::empty());
        }
        t
    }

    /// No node but `current` is reached by `target`, when `current`'s child for its last
    /// character is missing.
    proof fn lemma_missing_child(&self, current: int, index: int, target: Seq<char>)
        requires
            self.wf(),
            0 <= current < self.paths@.len(),
            0 <= index < 26,
            self.nodes@[current].children[index] is None,
            target == self.paths@[current].push(letter(index)),
        ensures
            forall|k: int| 0 <= k < self.paths@.len() ==> self.paths@[k] != target,
    {
        let ps = self.paths@;
        assert forall|k: int| 0 <= k < ps.len() implies ps[k] != target by {
            if ps[k] == target {
                assert(k > 0) by {
                    if k == 0 {
                        assert(ps[0].len() == 0);
                    }
                }
                let p = choose|p: int|
                    0 <= p < ps.len() && ps[p] == (#[trigger] ps[k]).drop_last() && ps[k].len() > 0
                        && 'a' <= ps[k].last() <= 'z' && self.nodes@[p].children[ps[k].last() as int
                        - 'a' as int] == Some(k as usize);
                assert(ps[k].drop_last() =~= ps[current]);
                assert(ps[k].last() == letter(index));
                if p != current {
                    if p < current {
                        assert(ps[p] != ps[current]);
                    } else {
                        assert(ps[current] != ps[p]);
                    }
                }
            }
        }
    }

    /// Every start of a held sequence is held.
    proof fn lemma_held_prefix(&self, k: int, m: int)
        requires
            self.wf(),
            0 <= k < self.paths@.len(),
            0 <= m <= self.paths@[k].len(),
        ensures
            self.held().contains(self.paths@[k].subrange(0, m)),
        decreases self.paths@[k].len() - m,
    {
        let ps = self.paths@;
        if m == ps[k].len() {
            assert(ps[k].subrange(0, m) =~= ps[k]);
        } else {
            assert(k > 0) by {
                if k == 0 {
                    assert(ps[0].len() == 0);
                }
            }
            let p = choose|p: int|
                0 <= p < ps.len() && ps[p] == (#[trigger] ps[k]).drop_last() && ps[k].len() > 0
                    && 'a' <= ps[k].last() <= 'z' && self.nodes@[p].children[ps[k].last() as int
                    - 'a' as int] == Some(k as usize);
            self.lemma_held_prefix(p, m);
            assert(ps[p].subrange(0, m) =~= ps[k].subrange(0, m));
        }
    }

    /// A sequence whose start leads to a missing child is not held.
    proof fn lemma_not_held(&self, current: int, index: int, chars: Seq<char>, i: int)
        requires
            self.wf(),
            0 <= current < self.paths@.len(),
            0 <= index < 26,
            0 <= i < chars.len(),
            self.nodes@[current].children[index] is None,
            self.paths@[current] == chars.subrange(0, i),
            chars[i] == letter(index),
        ensures
            !self.held().contains(chars),
    {
        let target = chars.subrange(0, i + 1);
        assert(target =~= chars.subrange(0, i).push(letter(index)));
        self.lemma_missing_child(current, index, target);
        if self.held().contains(chars) {
            let k = choose|k: int| 0 <= k < self.paths@.len() && self.paths@[k] == chars;
            self.lemma_held_prefix(k, i + 1);
            assert(self.paths@[k].subrange(0, i + 1) == target);
        }
    }

    /// Adds the lowercase start of `chars` (up to the first other character) and all
    /// its starts.
    #[verifier::rlimit(80)]
    #[verifier::spinoff_prover]
    pub fn insert(&mut self, chars: &[char])
        requires
            old(self).wf(),
        ensures
            final(self).wf(),
            final(self).held() == old(self).held().union(
                Set::new(
                    |s: Seq<char>|
                        exists|m: int|
                            0 <= m <= az_prefix_len(chars@, 0) && s == chars@.subrange(0, m),
                ),
            ),
    {
        let ghost old_held = self.held();
        let mut current: usize = 0;
        let mut i: usize = 0;
        let n = chars.len();
        let mut stop = false;
        proof {
            assert(self.held().contains(self.paths@[0]));
            assert(chars@.subrange(0, 0) =~= Seq::<char>::empty());
            assert(self.held() =~= old_held.union(
                Set::new(|s: Seq<char>| exists|m: int| 0 <= m <= 0 && s == chars@.subrange(0, m)),
            ));
        }
        while i < n && !stop
            invariant
                self.wf(),
                n == chars@.len(),
                i <= n,
                current < self.paths@.len(),
                self.paths@[current as int] == chars@.subrange(0, i as int),
                !stop ==> az_prefix_len(chars@, 0) == az_prefix_len(chars@, i as int),
                stop ==> az_prefix_len(chars@, 0) == i,
                self.held() == old_held.union(
                    Set::new(|s: Seq<char>| exists|m: int| 0 <= m <= i && s == chars@.subrange(0, m)),
                ),
            decreases (n - i) * 2 + (if stop {
                0int
            } else {
                1int
            }),
        {
            let c = chars[i];
            if !('a' <= c && c <= 'z') {
                stop = true;
            } else {
                let index = (c as u32 - 'a' as u32) as usize;
                let next = self.nodes[current].children[index];
                let ghost target = chars@.subrange(0, i + 1);
                let ghost before = self.held();
                assert(target =~= chars@.subrange(0, i as int).push(c));
                assert(letter(index as int) == c);
                match next {
                    Some(j) => {
                        assert(self.paths@[j as int] == target);
                        current = j;
                        proof {
                            assert(before.contains(target));
                        }
                    },
                    None => {
                        let ghost ps = self.paths@;
                        let ghost old_nodes = self.nodes@;
                        proof {
                            self.lemma_missing_child(current as int, index as int, target);
                        }
                        let next_idx = self.nodes.len();
                        self.nodes.push(TrieNode::new());
                        let mut node = self.nodes[current];
                        node.children[index] = Some(next_idx);
                        self.nodes.set(current, node);
                        proof {
                            self.paths@ = ps.push(target);
                            let qs = self.paths@;
                            assert forall|k: int, cc: int| 0 <= k < qs.len() && 0 <= cc < 26 implies (
                            #[trigger] self.nodes@[k].children[cc]) == (if k == current && cc == index {
                                Some(next_idx)
                            } else if k < ps.len() {
                                old_nodes[k].children[cc]
                            } else {
                                None
                            }) by {}
                            assert forall|a: int, b: int| 0 <= a < b < qs.len() implies #[trigger] qs[a]
                                != #[trigger] qs[b] by {
                                if b == ps.len() {
                                    assert(ps[a] != target);
                                } else {
                                    assert(ps[a] != ps[b]);
                                }
                            }
                            assert forall|j: int| 0 < j < qs.len() implies exists|k: int|
                                0 <= k < qs.len() && qs[k] == (#[trigger] qs[j]).drop_last() && qs[j].len()
                                    > 0 && 'a' <= qs[j].last() <= 'z' && self.nodes@[k].children[qs[j].last() as int
                                    - 'a' as int] == Some(j as usize) by {
                                if j == ps.len() {
                                    assert(qs[current as int] =~= qs[j].drop_last());
                                    assert(qs[j].last() == c);
                                } else {
                                    let k = choose|k: int|
                                        0 <= k < ps.len() && ps[k] == (#[trigger] ps[j]).drop_last() && ps[j].len()
                                            > 0 && 'a' <= ps[j].last() <= 'z' && old_nodes[k].children[ps[j].last() as int
                                            - 'a' as int] == Some(j as usize);
                                    assert(qs[k] == qs[j].drop_last());
                                    if k == current && ps[j].last() as int - 'a' as int == index {
                                        assert(old_nodes[k].children[index as int] is None);
                                    }
                                }
                            }
                            assert forall|k: int| 0 <= k < qs.len() implies (#[trigger] qs[k]).len() > 0 || k == 0 by {
                                if k < ps.len() {
                                    assert(ps[k].len() > 0 || k == 0);
                                }
                            }
                            assert(self.held() =~= before.insert(target)) by {
                                assert forall|s: Seq<char>| self.held().contains(s) implies before.insert(target).contains(s) by {
                                    let k = choose|k: int| 0 <= k < qs.len() && qs[k] == s;
                                    if k < ps.len() {
                                        assert(before.contains(ps[k]));
                                    }
                                }
                                assert forall|s: Seq<char>| before.insert(target).contains(s) implies self.held().contains(s) by {
                                    if s == target {
                                        assert(qs[ps.len() as int] == target);
                                    } else {
                                        let k = choose|k: int| 0 <= k < ps.len() && ps[k] == s;
                                        assert(qs[k] == s);
                                    }
                                }
                            }
                        }
                        current = next_idx;
                    },
                }
                i += 1;
                proof {
                    assert(self.held() =~= old_held.union(
                        Set::new(|s: Seq<char>| exists|m: int| 0 <= m <= i && s == chars@.subrange(0, m)),
                    )) by {
                        let prev_set = Set::new(|s: Seq<char>| exists|m: int| 0 <= m <= i - 1 && s == chars@.subrange(0, m));
                        let next_set = Set::new(|s: Seq<char>| exists|m: int| 0 <= m <= i && s == chars@.subrange(0, m));
                        assert(next_set =~= prev_set.insert(target)) by {
                            assert forall|s: Seq<char>| next_set.contains(s) implies prev_set.insert(target).contains(s) by {
                                let m = choose|m: int| 0 <= m <= i && s == chars@.subrange(0, m);
                                if m < i {
                                    assert(prev_set.contains(s));
                                }
                            }
                            assert forall|s: Seq<char>| prev_set.insert(target).contains(s) implies next_set.contains(s) by {
                                if s == target {
                                    assert(s == chars@.subrange(0, i as int));
                                } else {
                                    let m = choose|m: int| 0 <= m <= i - 1 && s == chars@.subrange(0, m);
                                    assert(0 <= m <= i);
                                }
                            }
                        }
                    }
                }
            }
        }
        proof {
            if !stop {
                assert(az_prefix_len(chars@, i as int) == i);
            }
        }
    }

    /// Whether `chars` is nonempty, made of lowercase ASCII letters, and held.
    #[verifier::rlimit(40)]
    #[verifier::spinoff_prover]
    pub fn reachable(&self, chars: &[char]) -> (b: bool)
        requires
            self.wf(),
        ensures
            b == (chars@.len() > 0 && (forall|k: int| 0 <= k < chars@.len() ==> is_az(#[trigger] chars@[k]))
                && self.held().contains(chars@)),
    {
        let mut current: usize = 0;
        let mut i: usize = 0;
        let n = chars.len();
        while i < n
            invariant
                self.wf(),
                n == chars@.len(),
                i <= n,
                current < self.paths@.len(),
                self.paths@[current as int] == chars@.subrange(0, i as int),
                forall|k: int| 0 <= k < i ==> is_az(#[trigger] chars@[k]),
            decreases n - i,
        {
            let c = chars[i];
            if !('a' <= c && c <= 'z') {
                return false;
            }
            let index = (c as u32 - 'a' as u32) as usize;
            let ghost target = chars@.subrange(0, i + 1);
            assert(target =~= chars@.subrange(0, i as int).push(c));
            assert(letter(index as int) == c);
            match self.nodes[current].children[index] {
                Some(j) => {
                    current = j;
                },
                None => {
                    proof {
                        self.lemma_not_held(current as int, index as int, chars@, i as int);
                    }
                    return false;
                },
            }
            i += 1;
        }
        assert(chars@.subrange(0, i as int) =~= chars@);
        i > 0
    }
}


/// After a code is inserted, each nonempty lowercase start of it is reachable.
pub proof fn lemma_insert_reachable(before: Set<Seq<char>>, after: Set<Seq<char>>, code: Seq<char>, m: int)
    requires
        after == before.union(
            Set::new(
                |s: Seq<char>|
                    exists|k: int| 0 <= k <= az_prefix_len(code, 0) && s == code.subrange(0, k),
            ),
        ),
        0 < m <= az_prefix_len(code, 0),
    ensures
        after.contains(code.subrange(0, m)),
        forall|k: int| 0 <= k < m ==> is_az(#[trigger] code.subrange(0, m)[k]),
{
    lemma_az_prefix(code, 0);
    assert(Set::new(
        |s: Seq<char>| exists|k: int| 0 <= k <= az_prefix_len(code, 0) && s == code.subrange(0, k),
    ).contains(code.subrange(0, m)));
}

proof fn lemma_az_prefix(s: Seq<char>, i: int)
    requires
        0 <= i <= s.len(),
        forall|k: int| 0 <= k < i ==> is_az(#[trigger] s[k]),
    ensures
        i <= az_prefix_len(s, i) <= s.len(),
        forall|k: int| 0 <= k < az_prefix_len(s, i) ==> is_az(#[trigger] s[k]),
    decreases s.len() - i,
{
    if i < s.len() && is_az(s[i]) {
        lemma_az_prefix(s, i + 1);
    }
}

// ---------------------------------------------------------------------------
// Segments of a text
// ---------------------------------------------------------------------------

/// The cost of a position not reached yet.
pub const INFINITY: usize = 100000000;

/// A word of a text, as found in a table: where it stands, its text and code, its
/// position among the candidates of its code, whether it commits itself without a
/// space, and the cost of typing the text up to its end.
#[derive(Debug)]
pub struct Segment {
    pub range: Range<usize>,
    pub text: Vec<char>,
    pub code: Vec<char>,
    pub pos: u16,
    pub auto_select: bool,
    pub cost: usize,
}

impl Segment {
    pub fn new(
        range: Range<usize>,
        text: Vec<char>,
        code: Vec<char>,
        pos: u16,
        auto_select: bool,
        cost: usize,
    ) -> (s: Self)
        ensures
            s.range == range,
            s.text == text,
            s.code == code,
            s.pos == pos,
            s.auto_select == auto_select,
            s.cost == cost,
    {
        Segment { range, text, code, pos, auto_select, cost }
    }

    /// Where the word stands, its position among its code's candidates, and whether
    /// it commits itself.
    pub fn simple(&self) -> (r: (Range<usize>, u16, bool))
        ensures
            r.0.start == self.range.start,
            r.0.end == self.range.end,
            r.1 == self.pos,
            r.2 == self.auto_select,
    {
        (self.range.start..self.range.end, self.pos, self.auto_select)
    }
}

impl Default for Segment {
    fn default() -> (s: Self)
        ensures
            s.range.start == 0,
            s.range.end == 0,
            s.text@.len() == 0,
            s.code@.len() == 0,
            s.pos == 0,
            s.auto_select,
            s.cost == INFINITY,
    {
        Segment {
            range: 0..0,
            text: Vec::new(),
            code: Vec::new(),
            pos: 0,
            auto_select: true,
            cost: INFINITY,
        }
    }
}


// ---------------------------------------------------------------------------
// Finding the codes of a text
// ---------------------------------------------------------------------------

/// One code of a word and the word's position among the candidates of that code.
#[derive(Clone, Debug)]
pub struct CodePos(pub Vec<char>, pub u16);

pub open spec fn code_pos_views(v: Seq<CodePos>) -> Seq<(Seq<char>, u16)> {
    Seq::new(v.len(), |i: int| (v[i].0@, v[i].1))
}

/// What a map from words to their codes holds.
pub uninterp spec fn word_map_contents(m: AHashMap<Vec<char>, Vec<CodePos>>) -> Map<
    Seq<char>,
    Seq<(Seq<char>, u16)>,
>;

/// `AHashMap::new`: an empty map.
#[verifier::external_body]
fn word_map_new() -> (m: AHashMap<Vec<char>, Vec<CodePos>>)
    ensures
        word_map_contents(m).dom().is_empty(),
{
    AHashMap::new()
}

/// `AHashMap::get`: the codes of `word`, if the map has it.
#[verifier::external_body]
fn word_map_get<'a>(m: &'a AHashMap<Vec<char>, Vec<CodePos>>, word: &[char]) -> (r: Option<
    &'a Vec<CodePos>,
>)
    ensures
        r is Some <==> word_map_contents(*m).dom().contains(word@),
        r matches Some(v) ==> code_pos_views(v@) == word_map_contents(*m)[word@],
{
    m.get(word)
}

/// `AHashMap::remove`: takes the codes of `word` out of the map.
#[verifier::external_body]
fn word_map_remove(m: &mut AHashMap<Vec<char>, Vec<CodePos>>, word: &[char]) -> (r: Option<
    Vec<CodePos>,
>)
    ensures
        word_map_contents(*final(m)) == word_map_contents(*old(m)).remove(word@),
        r is Some <==> word_map_contents(*old(m)).dom().contains(word@),
        r matches Some(v) ==> code_pos_views(v@) == word_map_contents(*old(m))[word@],
{
    m.remove(word)
}

/// `AHashMap::insert`: `word` now maps to `codes`, the other words are unchanged.
#[verifier::external_body]
fn word_map_insert(m: &mut AHashMap<Vec<char>, Vec<CodePos>>, word: Vec<char>, codes: Vec<CodePos>)
    ensures
        word_map_contents(*final(m)) == word_map_contents(*old(m)).insert(word@, code_pos_views(codes@)),
{
    m.insert(word, codes);
}

/// The texts of the candidates, read in the arena.
pub open spec fn texts_of(arena: Seq<char>, cands: Seq<Candidate>) -> Seq<Seq<char>> {
    Seq::new(cands.len(), |i: int| arena_str(arena, cands[i].text))
}

/// The position of candidate `i` among the candidates of its code: counted from the
/// last candidate with another code, the first one counting after the empty code.
pub open spec fn run_pos(codes: Seq<Seq<char>>, i: int) -> int
    decreases i,
{
    if i <= 0 {
        if codes[0] == Seq::<char>::empty() {
            1
        } else {
            0
        }
    } else if codes[i] == codes[i - 1] {
        run_pos(codes, i - 1) + 1
    } else {
        0
    }
}

/// The words of the first `n` candidates, each with its codes and positions in order.
pub open spec fn word_map(codes: Seq<Seq<char>>, texts: Seq<Seq<char>>, n: int) -> Map<
    Seq<char>,
    Seq<(Seq<char>, u16)>,
>
    decreases n,
{
    if n <= 0 {
        Map::empty()
    } else {
        let m = word_map(codes, texts, n - 1);
        let t = texts[n - 1];
        let cp = (codes[n - 1], run_pos(codes, n - 1) as u16);
        if m.dom().contains(t) {
            m.insert(t, m[t].push(cp))
        } else {
            m.insert(t, seq![cp])
        }
    }
}

/// The starts of the lowercase starts of the first `n` codes (the empty sequence
/// among them).
pub open spec fn code_starts(codes: Seq<Seq<char>>, n: int) -> Set<Seq<char>> {
    Set::new(
        |s: Seq<char>|
            s == Seq::<char>::empty() || exists|i: int, m: int|
                0 <= i < n && 0 <= m <= az_prefix_len(codes[i], 0) && s == codes[i].subrange(0, m),
    )
}

/// The greatest length among the first `n` sequences (0 if none).
pub open spec fn max_len(ss: Seq<Seq<char>>, n: int) -> int
    decreases n,
{
    if n <= 0 {
        0
    } else if ss[n - 1].len() > max_len(ss, n - 1) {
        ss[n - 1].len() as int
    } else {
        max_len(ss, n - 1)
    }
}

/// Finds, for a text, the words of a table that type it with the fewest keys.
pub struct Looker {
    map: AHashMap<Vec<char>, Vec<CodePos>>,
    code_trie: Trie,
    max_text_len: usize,
    max_code_len: usize,
}

/// Whether every candidate's position among those of its code fits in a `u16`.
pub open spec fn positions_fit(codes: Seq<Seq<char>>) -> bool {
    forall|i: int| 0 <= i < codes.len() ==> #[trigger] run_pos(codes, i) <= u16::MAX
}

impl Looker {
    #[verifier::type_invariant]
    closed spec fn inv(self) -> bool {
        &&& self.code_trie.wf()
        &&& self.max_code_len <= u16::MAX
        &&& forall|t: Seq<char>|
            #[trigger] word_map_contents(self.map).dom().contains(t) ==> {
                let v = word_map_contents(self.map)[t];
                &&& v.len() > 0
                &&& forall|k: int| 0 <= k < v.len() ==> (#[trigger] v[k]).0.len() <= self.max_code_len
            }
    }

    /// The words of the table, each with its codes and positions.
    pub closed spec fn entries(&self) -> Map<Seq<char>, Seq<(Seq<char>, u16)>> {
        word_map_contents(self.map)
    }

    /// The starts of the codes of the table.
    pub closed spec fn starts(&self) -> Set<Seq<char>> {
        self.code_trie.held()
    }

    /// The length of the longest word.
    pub closed spec fn longest_text(&self) -> int {
        self.max_text_len as int
    }

    /// The length of the longest code.
    pub closed spec fn longest_code(&self) -> int {
        self.max_code_len as int
    }

    /// Builds the finder from a table: each word with its codes in order, the starts
    /// of the codes, and the longest word and code.
    pub fn new(dict: &PrefixDict) -> (l: Self)
        requires
            positions_fit(dict.codes()),
        ensures
            l.entries() == word_map(
                dict.codes(),
                texts_of(dict.arena_view(), dict.cands_view()),
                dict.cands_view().len() as int,
            ),
            l.starts() == code_starts(dict.codes(), dict.cands_view().len() as int),
            l.longest_text() == max_len(
                texts_of(dict.arena_view(), dict.cands_view()),
                dict.cands_view().len() as int,
            ),
            l.longest_code() == max_len(dict.codes(), dict.cands_view().len() as int),
            l.well_formed(),
    {
        let cands = dict.candidates();
        let ghost codes = dict.codes();
        let ghost texts = texts_of(dict.arena_view(), dict.cands_view());
        let mut map = word_map_new();
        let mut code_trie = Trie::new();
        let mut code: Vec<char> = Vec::new();
        let mut pos: u16 = 0;
        let mut max_text_len: usize = 0;
        let mut max_code_len: usize = 0;
        proof {
            assert(word_map_contents(map) =~= word_map(codes, texts, 0));
            assert(code_trie.held() =~= code_starts(codes, 0));
        }
        let mut i: usize = 0;
        while i < cands.len()
            invariant
                i <= cands@.len(),
                cands@ == dict.cands_view(),
                codes == dict.codes(),
                texts == texts_of(dict.arena_view(), dict.cands_view()),
                crate::prefix_dict::ranges_ok(dict.arena_view(), dict.cands_view()),
                positions_fit(codes),
                code_trie.wf(),
                word_map_contents(map) == word_map(codes, texts, i as int),
                code_trie.held() == code_starts(codes, i as int),
                max_text_len == max_len(texts, i as int),
                max_code_len == max_len(codes, i as int),
                max_code_len <= u16::MAX,
                i == 0 ==> code@ == Seq::<char>::empty() && pos == 0,
                i > 0 ==> code@ == codes[i - 1] && pos == run_pos(codes, i - 1),
                forall|t: Seq<char>|
                    #[trigger] word_map_contents(map).dom().contains(t) ==> {
                        let v = word_map_contents(map)[t];
                        &&& v.len() > 0
                        &&& forall|k: int| 0 <= k < v.len() ==> (#[trigger] v[k]).0.len() <= max_code_len
                    },
            decreases cands@.len() - i,
        {
            let cand = &cands[i];
            let codes_i = chars_of(dict.get_str(cand.code).as_str());
            let text_i = chars_of(dict.get_str(cand.text).as_str());
            assert(codes_i@ == codes[i as int]);
            assert(text_i@ == texts[i as int]);
            let same = slices_equal(code.as_slice(), codes_i.as_slice());
            if same {
                proof {
                    assert(run_pos(codes, i as int) <= u16::MAX);
                }
                pos = pos + 1;
            } else {
                code_trie.insert(codes_i.as_slice());
                code = codes_i.clone();
                pos = 0;
            }
            proof {
                assert(codes_i@.len() <= u16::MAX);
            }
            if text_i.len() > max_text_len {
                max_text_len = text_i.len();
            }
            if codes_i.len() > max_code_len {
                max_code_len = codes_i.len();
            }
            let ghost before = word_map_contents(map);
            let cp = CodePos(codes_i.clone(), pos);
            match word_map_remove(&mut map, text_i.as_slice()) {
                Some(mut v) => {
                    v.push(cp);
                    proof {
                        assert(code_pos_views(v@) =~= before[text_i@].push((codes_i@, pos)));
                    }
                    word_map_insert(&mut map, text_i, v);
                },
                None => {
                    let v = vec![cp];
                    proof {
                        assert(code_pos_views(v@) =~= seq![(codes_i@, pos)]);
                    }
                    word_map_insert(&mut map, text_i, v);
                },
            }
            proof {
                assert(word_map_contents(map) =~= word_map(codes, texts, i + 1));
                lemma_code_starts_step(codes, i as int);
                if same {
                    assert forall|s: Seq<char>|
                        (exists|m: int|
                            0 <= m <= az_prefix_len(codes[i as int], 0) && s == codes[i as int].subrange(
                                0,
                                m,
                            )) implies code_starts(codes, i as int).contains(s) by {
                        let m = choose|m: int|
                            0 <= m <= az_prefix_len(codes[i as int], 0) && s == codes[i as int].subrange(
                                0,
                                m,
                            );
                        if i > 0 {
                            assert(codes[i - 1] == codes[i as int]);
                            assert(0 <= i - 1 < i && 0 <= m <= az_prefix_len(codes[i - 1], 0) && s
                                == codes[i - 1].subrange(0, m));
                        } else {
                            assert(s =~= Seq::<char>::empty());
                        }
                    }
                }
                assert(code_trie.held() =~= code_starts(codes, i + 1));
            }
            i += 1;
        }
        let l = Looker { map, code_trie, max_text_len, max_code_len };
        proof {
            use_type_invariant(&l);
        }
        l
    }
}

/// A segment as plain values.
pub struct SegView {
    pub start: int,
    pub end: int,
    pub text: Seq<char>,
    pub code: Seq<char>,
    pub pos: u16,
    pub auto_select: bool,
    pub cost: int,
}

pub open spec fn seg_view(s: Segment) -> SegView {
    SegView {
        start: s.range.start as int,
        end: s.range.end as int,
        text: s.text@,
        code: s.code@,
        pos: s.pos,
        auto_select: s.auto_select,
        cost: s.cost as int,
    }
}

pub open spec fn seg_views(v: Seq<Segment>) -> Seq<SegView> {
    Seq::new(v.len(), |k: int| seg_view(v[k]))
}

/// A position not reached yet.
pub open spec fn blank_seg() -> SegView {
    SegView {
        start: 0,
        end: 0,
        text: Seq::empty(),
        code: Seq::empty(),
        pos: 0,
        auto_select: true,
        cost: INFINITY as int,
    }
}

/// Whether the trie of code starts leads along `s`.
pub open spec fn trie_reaches(starts: Set<Seq<char>>, s: Seq<char>) -> bool {
    s.len() > 0 && (forall|k: int| 0 <= k < s.len() ==> is_az(#[trigger] s[k])) && starts.contains(s)
}

/// The keys it takes to type code `cp` when `next` (the first key of the next word)
/// follows, and whether it commits itself: a candidate after the first takes two more
/// keys to select; a code that the next key would extend takes a space; else it
/// commits itself when the next key comes.
pub open spec fn choice_cost(starts: Set<Seq<char>>, cp: (Seq<char>, u16), next: Option<char>) -> (
    int,
    bool,
) {
    if cp.1 > 0 {
        (cp.0.len() + 2int, false)
    } else if next is Some && trie_reaches(starts, cp.0.push(next->0)) {
        (cp.0.len() + 1int, false)
    } else {
        (cp.0.len() as int, true)
    }
}

/// Index of the first cheapest of the first `n` codes, by keys then by code length.
pub open spec fn best_choice(
    starts: Set<Seq<char>>,
    cps: Seq<(Seq<char>, u16)>,
    next: Option<char>,
    n: int,
) -> int
    decreases n,
{
    if n <= 1 {
        0
    } else {
        let b = best_choice(starts, cps, next, n - 1);
        let cb = choice_cost(starts, cps[b], next).0;
        let cn = choice_cost(starts, cps[n - 1], next).0;
        if cn < cb || (cn == cb && cps[n - 1].0.len() < cps[b].0.len()) {
            n - 1
        } else {
            b
        }
    }
}

/// The segments along `path`, from the start of the text to position `i`.
pub open spec fn trace(dp: Seq<SegView>, path: Seq<Option<int>>, i: int) -> Seq<SegView>
    decreases i,
{
    if i <= 0 {
        Seq::empty()
    } else {
        match path[i] {
            Some(j) => if 0 <= j < i {
                trace(dp, path, j).push(dp[i])
            } else {
                Seq::empty()
            },
            None => Seq::empty(),
        }
    }
}

impl Looker {
    /// The first key of the code of the character at `i`, if it is a word.
    pub open spec fn next_key(&self, chars: Seq<char>, i: int) -> Option<char> {
        let w = chars.subrange(i, i + 1);
        if i < chars.len() && self.entries().dom().contains(w) {
            Some(self.entries()[w][0].0[0])
        } else {
            None
        }
    }

    /// Tries the word from `j` to `i` as the last word up to `i`.
    pub open spec fn relax(
        &self,
        chars: Seq<char>,
        i: int,
        j: int,
        dp: Seq<SegView>,
        path: Seq<Option<int>>,
    ) -> (Seq<SegView>, Seq<Option<int>>) {
        let word = chars.subrange(j, i);
        let inf = INFINITY as int;
        if self.entries().dom().contains(word) {
            let cps = self.entries()[word];
            let next = self.next_key(chars, i);
            let b = best_choice(self.starts(), cps, next, cps.len() as int);
            let cc = choice_cost(self.starts(), cps[b], next);
            if i - j == 1 && dp[j].cost == inf && dp[i].cost < inf {
                (dp, path)
            } else {
                let cur = (if i - j == 1 && dp[j].cost == inf {
                    0
                } else {
                    dp[j].cost
                }) + cc.0;
                if cur < dp[i].cost {
                    (
                        dp.update(
                            i,
                            SegView {
                                start: j,
                                end: i,
                                text: word,
                                code: cps[b].0,
                                pos: cps[b].1,
                                auto_select: cc.1,
                                cost: cur,
                            },
                        ),
                        path.update(i, Some(j)),
                    )
                } else {
                    (dp, path)
                }
            }
        } else if i - j == 1 && path[i] is None {
            (
                dp.update(
                    i,
                    SegView {
                        start: j,
                        end: i,
                        text: word,
                        code: word,
                        pos: 0,
                        auto_select: true,
                        cost: inf,
                    },
                ),
                path.update(i, Some(j)),
            )
        } else {
            (dp, path)
        }
    }

    /// Tries each word from `j` on that ends at `i`.
    pub open spec fn relax_from(
        &self,
        chars: Seq<char>,
        i: int,
        j: int,
        dp: Seq<SegView>,
        path: Seq<Option<int>>,
    ) -> (Seq<SegView>, Seq<Option<int>>)
        decreases i - j,
    {
        if j >= i {
            (dp, path)
        } else {
            let r = self.relax(chars, i, j, dp, path);
            self.relax_from(chars, i, j + 1, r.0, r.1)
        }
    }

    /// The best last words up to each position, the way back, and the first position
    /// a word may start at, after the first `i` characters.
    pub open spec fn dp_upto(&self, chars: Seq<char>, i: int) -> (Seq<SegView>, Seq<Option<int>>, int)
        decreases i,
    {
        let n = chars.len();
        if i <= 0 {
            (
                Seq::new(
                    (n + 1) as nat,
                    |k: int|
                        if k == 0 {
                            SegView { cost: 0, ..blank_seg() }
                        } else {
                            blank_seg()
                        },
                ),
                Seq::new((n + 1) as nat, |k: int| None),
                0,
            )
        } else {
            let prev = self.dp_upto(chars, i - 1);
            let c = chars[i - 1];
            if !unicode_alphanumeric(c) {
                (
                    prev.0.update(
                        i,
                        SegView {
                            start: i - 1,
                            end: i,
                            text: seq![c],
                            code: seq![c],
                            pos: 0,
                            auto_select: true,
                            cost: 0,
                        },
                    ),
                    prev.1.update(i, Some(i - 1)),
                    i,
                )
            } else {
                let jc = if i - prev.2 > self.longest_text() {
                    prev.2 + 1
                } else {
                    prev.2
                };
                let r = self.relax_from(chars, i, jc, prev.0, prev.1);
                (r.0, r.1, jc)
            }
        }
    }

    /// The words of the cheapest way found to type `chars`, in order.
    pub open spec fn segments_of(&self, chars: Seq<char>) -> Seq<SegView> {
        let r = self.dp_upto(chars, chars.len() as int);
        trace(r.0, r.1, chars.len() as int)
    }

    /// The inputs the search handles: a short enough text whose costs stay below
    /// `INFINITY`, a table with some word when the text has a letter or digit, and a
    /// nonempty first code for each character that is a word.
    pub open spec fn can_segment(&self, chars: Seq<char>) -> bool {
        &&& chars.len() * (self.longest_code() + 2) < INFINITY
        &&& self.longest_text() >= 1 || forall|k: int|
            0 <= k < chars.len() ==> !unicode_alphanumeric(#[trigger] chars[k])
        &&& forall|k: int|
            1 <= k < chars.len() && #[trigger] self.entries().dom().contains(chars.subrange(k, k + 1))
                ==> self.entries()[chars.subrange(k, k + 1)][0].0.len() > 0
    }
}

/// The way back as plain values.
pub open spec fn path_view(p: Seq<Option<usize>>) -> Seq<Option<int>> {
    Seq::new(
        p.len(),
        |k: int|
            match p[k] {
                Some(j) => Some(j as int),
                None => None,
            },
    )
}

/// What the search keeps true: every position reached has a way back to an earlier
/// position, and its cost is at most `lim` per character (`INFINITY` when unknown);
/// positions up to `upto` all have a way back.
pub open spec fn dp_ok(dp: Seq<SegView>, path: Seq<Option<int>>, n: int, lim: int, upto: int) -> bool {
    let inf = INFINITY as int;
    &&& dp.len() == n + 1
    &&& path.len() == n + 1
    &&& forall|k: int| 0 <= k <= n ==> 0 <= #[trigger] dp[k].cost <= inf
    &&& forall|k: int| 0 <= k <= n && #[trigger] path[k] is Some ==> 0 <= path[k]->0 < k
    &&& forall|k: int| 1 <= k <= n && #[trigger] dp[k].cost < inf ==> path[k] is Some
    &&& forall|k: int| 0 <= k <= n && #[trigger] dp[k].cost < inf ==> dp[k].cost <= k * lim
    &&& forall|k: int| 1 <= k <= upto ==> #[trigger] path[k] is Some
}

proof fn lemma_mul_step(j: int, i: int, lim: int, n: int)
    requires
        0 <= j < i <= n,
        0 <= lim,
    ensures
        j * lim + lim <= i * lim,
        i * lim <= n * lim,
{
    assert(j * lim + lim == (j + 1) * lim) by (nonlinear_arith);
    assert((j + 1) * lim <= i * lim) by (nonlinear_arith)
        requires
            j + 1 <= i,
            0 <= lim,
    ;
    assert(i * lim <= n * lim) by (nonlinear_arith)
        requires
            i <= n,
            0 <= lim,
    ;
}

impl Looker {
    /// Trying one word keeps the search's facts, and trying the last character alone
    /// always gives position `i` a way back.
    proof fn lemma_relax_ok(
        &self,
        chars: Seq<char>,
        i: int,
        j: int,
        dp: Seq<SegView>,
        path: Seq<Option<int>>,
    )
        requires
            self.inv(),
            1 <= i <= chars.len(),
            0 <= j < i,
            dp_ok(dp, path, chars.len() as int, self.longest_code() + 2, i - 1),
            chars.len() * (self.longest_code() + 2) < INFINITY,
        ensures
            ({
                let r = self.relax(chars, i, j, dp, path);
                &&& dp_ok(r.0, r.1, chars.len() as int, self.longest_code() + 2, i - 1)
                &&& path[i] is Some ==> r.1[i] is Some
                &&& j == i - 1 ==> r.1[i] is Some
            }),
    {
        let n = chars.len() as int;
        let lim = self.longest_code() + 2;
        let inf = INFINITY as int;
        let word = chars.subrange(j, i);
        lemma_mul_step(j, i, lim, n);
        if self.entries().dom().contains(word) {
            let cps = self.entries()[word];
            let next = self.next_key(chars, i);
            let b = best_choice(self.starts(), cps, next, cps.len() as int);
            lemma_best_choice_range(self.starts(), cps, next, cps.len() as int);
            let cc = choice_cost(self.starts(), cps[b], next);
            assert(cps[b].0.len() <= self.longest_code());
            assert(cc.0 <= lim);
            let r = self.relax(chars, i, j, dp, path);
            assert(dp[i].cost <= inf);
            if !(i - j == 1 && dp[j].cost == inf && dp[i].cost < inf) {
                let cur = (if i - j == 1 && dp[j].cost == inf {
                    0
                } else {
                    dp[j].cost
                }) + cc.0;
                if cur < dp[i].cost {
                    assert(dp[j].cost < inf ==> dp[j].cost <= j * lim);
                    assert(cur <= i * lim);
                    assert(cur < inf);
                    assert forall|k: int| 0 <= k <= n && #[trigger] r.0[k].cost < inf implies r.0[k].cost <= k
                        * lim by {
                        if k != i {
                            assert(r.0[k] == dp[k]);
                        }
                    }
                    assert forall|k: int| 1 <= k <= i - 1 implies #[trigger] r.1[k] is Some by {
                        assert(r.1[k] == path[k]);
                    }
                    assert forall|k: int| 0 <= k <= n && #[trigger] r.1[k] is Some implies 0 <= r.1[k]->0
                        < k by {
                        if k != i {
                            assert(r.1[k] == path[k]);
                        }
                    }
                    assert forall|k: int| 1 <= k <= n && #[trigger] r.0[k].cost < inf implies r.1[k] is Some by {
                        if k != i {
                            assert(r.1[k] == path[k]);
                            assert(r.0[k] == dp[k]);
                        }
                    }
                    assert forall|k: int| 0 <= k <= n implies 0 <= #[trigger] r.0[k].cost <= inf by {
                        if k != i {
                            assert(r.0[k] == dp[k]);
                        }
                    }
                } else {
                    if j == i - 1 {
                        assert(cur <= i * lim);
                        assert(dp[i].cost < inf);
                    }
                }
            }
        } else if i - j == 1 && path[i] is None {
            let r = self.relax(chars, i, j, dp, path);
            assert forall|k: int| 0 <= k <= n && #[trigger] r.0[k].cost < inf implies r.0[k].cost <= k * lim by {
                if k != i {
                    assert(r.0[k] == dp[k]);
                }
            }
            assert forall|k: int| 1 <= k <= i - 1 implies #[trigger] r.1[k] is Some by {
                assert(r.1[k] == path[k]);
            }
            assert forall|k: int| 0 <= k <= n && #[trigger] r.1[k] is Some implies 0 <= r.1[k]->0 < k by {
                if k != i {
                    assert(r.1[k] == path[k]);
                }
            }
            assert forall|k: int| 1 <= k <= n && #[trigger] r.0[k].cost < inf implies r.1[k] is Some by {
                if k != i {
                    assert(r.1[k] == path[k]);
                    assert(r.0[k] == dp[k]);
                }
            }
            assert forall|k: int| 0 <= k <= n implies 0 <= #[trigger] r.0[k].cost <= inf by {
                if k != i {
                    assert(r.0[k] == dp[k]);
                }
            }
        } else {
            if j == i - 1 {
                assert(path[i] is Some);
            }
        }
    }

    /// The keys and self-commit of code `cp` when `next` follows.
    fn choice(&self, cp: &CodePos, next: Option<char>) -> (r: (usize, bool))
        requires
            cp.0@.len() <= u16::MAX,
        ensures
            r.0 as int == choice_cost(self.starts(), (cp.0@, cp.1), next).0,
            r.1 == choice_cost(self.starts(), (cp.0@, cp.1), next).1,
    {
        proof {
            use_type_invariant(self);
        }
        let len = cp.0.len();
        if cp.1 > 0 {
            return (len + 2, false);
        }
        match next {
            Some(c) => {
                let mut v = slice_to_vec(cp.0.as_slice());
                v.push(c);
                assert(v@ == cp.0@.push(c));
                if self.code_trie.reachable(v.as_slice()) {
                    (len + 1, false)
                } else {
                    (len, true)
                }
            },
            None => (len, true),
        }
    }

    /// The first cheapest of the codes `cps`: its keys, whether it commits itself,
    /// and its index.
    pub fn code_cost(&self, cps: &Vec<CodePos>, next: Option<char>) -> (r: (usize, bool, usize))
        requires
            cps@.len() > 0,
            forall|k: int| 0 <= k < cps@.len() ==> (#[trigger] cps@[k]).0@.len() <= u16::MAX,
        ensures
            r.2 == best_choice(self.starts(), code_pos_views(cps@), next, cps@.len() as int),
            r.2 < cps@.len(),
            r.0 as int == choice_cost(self.starts(), code_pos_views(cps@)[r.2 as int], next).0,
            r.1 == choice_cost(self.starts(), code_pos_views(cps@)[r.2 as int], next).1,
    {
        let ghost v = code_pos_views(cps@);
        let first = self.choice(&cps[0], next);
        let mut best_cost = first.0;
        let mut best_auto = first.1;
        let mut b: usize = 0;
        let mut k: usize = 1;
        while k < cps.len()
            invariant
                1 <= k <= cps@.len(),
                v == code_pos_views(cps@),
                forall|t: int| 0 <= t < cps@.len() ==> (#[trigger] cps@[t]).0@.len() <= u16::MAX,
                b == best_choice(self.starts(), v, next, k as int),
                b < k,
                best_cost as int == choice_cost(self.starts(), v[b as int], next).0,
                best_auto == choice_cost(self.starts(), v[b as int], next).1,
            decreases cps@.len() - k,
        {
            let c = self.choice(&cps[k], next);
            assert(v[k as int] == (cps@[k as int].0@, cps@[k as int].1));
            if c.0 < best_cost || (c.0 == best_cost && cps[k].0.len() < cps[b].0.len()) {
                best_cost = c.0;
                best_auto = c.1;
                b = k;
            }
            k += 1;
        }
        (best_cost, best_auto, b)
    }

    /// The first key of the code of the character at `i`, if it is a word.
    fn next_key_exec(&self, chars: &[char], i: usize) -> (r: Option<char>)
        requires
            1 <= i <= chars@.len(),
            self.can_segment(chars@),
        ensures
            r == self.next_key(chars@, i as int),
    {
        proof {
            use_type_invariant(self);
        }
        if i < chars.len() {
            let w = slice_subrange(chars, i, i + 1);
            match word_map_get(&self.map, w) {
                Some(v) => {
                    assert(self.entries().dom().contains(chars@.subrange(i as int, i + 1)));
                    assert(code_pos_views(v@)[0].0 == v@[0].0@);
                    Some(v[0].0[0])
                },
                None => None,
            }
        } else {
            None
        }
    }

    /// Tries the word from `j` to `i` as the last word up to `i`.
    fn relax_step(
        &self,
        chars: &[char],
        i: usize,
        j: usize,
        dp: &mut Vec<Segment>,
        path: &mut Vec<Option<usize>>,
    )
        requires
            1 <= i <= chars@.len(),
            j < i,
            self.can_segment(chars@),
            old(dp)@.len() == chars@.len() + 1,
            old(path)@.len() == chars@.len() + 1,
            forall|k: int| 0 <= k < old(dp)@.len() ==> (#[trigger] old(dp)@[k]).cost <= INFINITY,
        ensures
            (seg_views(final(dp)@), path_view(final(path)@)) == self.relax(
                chars@,
                i as int,
                j as int,
                seg_views(old(dp)@),
                path_view(old(path)@),
            ),
    {
        proof {
            use_type_invariant(self);
        }
        let ghost dp0 = seg_views(dp@);
        let ghost p0 = path_view(path@);
        let word = slice_subrange(chars, j, i);
        match word_map_get(&self.map, word) {
            Some(cps) => {
                let next = self.next_key_exec(chars, i);
                proof {
                    assert forall|k: int| 0 <= k < cps@.len() implies (#[trigger] cps@[k]).0@.len() <= u16::MAX by {
                        assert(code_pos_views(cps@)[k].0 == cps@[k].0@);
                    }
                }
                let (code_cost, no_space, b) = self.code_cost(cps, next);
                assert(dp0[j as int].cost == dp@[j as int].cost);
                assert(dp0[i as int].cost == dp@[i as int].cost);
                if i - j == 1 && dp[j].cost == INFINITY && dp[i].cost < INFINITY {
                    return;
                }
                let j_cost = if i - j == 1 && dp[j].cost == INFINITY {
                    0
                } else {
                    dp[j].cost
                };
                let cur = j_cost + code_cost;
                if cur < dp[i].cost {
                    let seg = Segment::new(j..i, slice_to_vec(word), slice_to_vec(cps[b].0.as_slice()), cps[b].1, no_space, cur);
                    dp.set(i, seg);
                    path.set(i, Some(j));
                    proof {
                        assert(code_pos_views(cps@)[b as int] == (cps@[b as int].0@, cps@[b as int].1));
                        assert(seg_views(dp@) =~= dp0.update(
                            i as int,
                            SegView {
                                start: j as int,
                                end: i as int,
                                text: chars@.subrange(j as int, i as int),
                                code: cps@[b as int].0@,
                                pos: cps@[b as int].1,
                                auto_select: no_space,
                                cost: cur as int,
                            },
                        ));
                        assert(path_view(path@) =~= p0.update(i as int, Some(j as int)));
                    }
                }
            },
            None => {
                if i - j == 1 && path[i].is_none() {
                    let seg = Segment::new(j..i, slice_to_vec(word), slice_to_vec(word), 0, true, INFINITY);
                    dp.set(i, seg);
                    path.set(i, Some(j));
                    proof {
                        assert(seg_views(dp@) =~= dp0.update(
                            i as int,
                            SegView {
                                start: j as int,
                                end: i as int,
                                text: chars@.subrange(j as int, i as int),
                                code: chars@.subrange(j as int, i as int),
                                pos: 0,
                                auto_select: true,
                                cost: INFINITY as int,
                            },
                        ));
                        assert(path_view(path@) =~= p0.update(i as int, Some(j as int)));
                    }
                }
            },
        }
    }
}

impl Looker {
    /// Splits `chars` into the words that type it with the fewest keys, in order.
    /// A character that is not a letter or digit stands alone; a character of no word
    /// stands alone with itself as code.
    #[verifier::rlimit(60)]
    #[verifier::spinoff_prover]
    pub fn analyze(&self, chars: &[char]) -> (r: Vec<Segment>)
        requires
            self.can_segment(chars@),
        ensures
            seg_views(r@) == self.segments_of(chars@),
    {
        proof {
            use_type_invariant(self);
        }
        let n = chars.len();
        let ghost lim = self.longest_code() + 2;
        assert(n < INFINITY) by (nonlinear_arith)
            requires
                n * lim < INFINITY,
                lim >= 2,
        ;
        let mut dp: Vec<Segment> = Vec::new();
        let mut path: Vec<Option<usize>> = Vec::new();
        let ghost init = self.dp_upto(chars@, 0);
        let mut k: usize = 0;
        while k <= n
            invariant
                k <= n + 1,
                n == chars@.len(),
                init == self.dp_upto(chars@, 0),
                n < INFINITY,
                n * lim < INFINITY,
                lim >= 2,
                dp@.len() == k,
                path@.len() == k,
                forall|t: int| 0 <= t < k ==> #[trigger] seg_views(dp@)[t] == init.0[t],
                forall|t: int| 0 <= t < k ==> #[trigger] path_view(path@)[t] == init.1[t],
            decreases n + 1 - k,
        {
            let mut seg = Segment::default();
            if k == 0 {
                seg.cost = 0;
            }
            proof {
                assert(seg.text@ =~= Seq::<char>::empty());
                assert(seg.code@ =~= Seq::<char>::empty());
            }
            let ghost dp_before = dp@;
            let ghost path_before = path@;
            dp.push(seg);
            path.push(None);
            proof {
                assert forall|t: int| 0 <= t < k implies #[trigger] seg_views(dp@)[t] == init.0[t] by {
                    assert(dp@[t] == dp_before[t]);
                    assert(seg_views(dp_before)[t] == init.0[t]);
                }
                assert forall|t: int| 0 <= t < k implies #[trigger] path_view(path@)[t] == init.1[t] by {
                    assert(path@[t] == path_before[t]);
                    assert(path_view(path_before)[t] == init.1[t]);
                }
                assert(seg_views(dp@)[k as int] == seg_view(seg));
                assert(seg_views(dp@)[k as int] == init.0[k as int]);
                assert(path_view(path@)[k as int] == init.1[k as int]);
            }
            k += 1;
        }
        proof {
            assert(seg_views(dp@) =~= init.0);
            assert(path_view(path@) =~= init.1);
        }
        let mut j_cursor: usize = 0;
        let mut i: usize = 1;
        while i <= n
            invariant
                1 <= i <= n + 1,
                n == chars@.len(),
                self.inv(),
                self.can_segment(chars@),
                lim == self.longest_code() + 2,
                (seg_views(dp@), path_view(path@), j_cursor as int) == self.dp_upto(chars@, i - 1),
                dp_ok(seg_views(dp@), path_view(path@), n as int, lim, i - 1),
                j_cursor <= i - 1,
                n < INFINITY,
            decreases n + 1 - i,
        {
            let ghost prev = self.dp_upto(chars@, i - 1);
            let c = chars[i - 1];
            if !is_alphanumeric(c) {
                let seg = Segment::new((i - 1)..i, vec![c], vec![c], 0, true, 0);
                assert(seg.text@ =~= seq![c]);
                assert(seg.code@ =~= seq![c]);
                dp.set(i, seg);
                path.set(i, Some(i - 1));
                j_cursor = i;
                proof {
                    assert(seg_views(dp@) =~= prev.0.update(
                        i as int,
                        SegView {
                            start: i - 1,
                            end: i as int,
                            text: seq![c],
                            code: seq![c],
                            pos: 0,
                            auto_select: true,
                            cost: 0,
                        },
                    ));
                    assert(path_view(path@) =~= prev.1.update(i as int, Some(i - 1)));
                    let d = seg_views(dp@);
                    let p = path_view(path@);
                    assert forall|t: int| 0 <= t <= n && #[trigger] d[t].cost < INFINITY implies d[t].cost <= t * lim by {
                        if t != i {
                            assert(d[t] == prev.0[t]);
                        }
                    }
                    assert forall|t: int| 1 <= t <= i implies #[trigger] p[t] is Some by {
                        if t != i {
                            assert(p[t] == prev.1[t]);
                        }
                    }
                    assert forall|t: int| 0 <= t <= n && #[trigger] p[t] is Some implies 0 <= p[t]->0 < t by {
                        if t != i {
                            assert(p[t] == prev.1[t]);
                        }
                    }
                    assert forall|t: int| 1 <= t <= n && #[trigger] d[t].cost < INFINITY implies p[t] is Some by {
                        if t != i {
                            assert(p[t] == prev.1[t]);
                            assert(d[t] == prev.0[t]);
                        }
                    }
                    assert forall|t: int| 0 <= t <= n implies 0 <= #[trigger] d[t].cost <= INFINITY by {
                        if t != i {
                            assert(d[t] == prev.0[t]);
                        }
                    }
                }
                i += 1;
                continue;
            }
            if i - j_cursor > self.max_text_len {
                j_cursor += 1;
            }
            let ghost jc = j_cursor as int;
            assert(jc <= i - 1);
            let mut j = j_cursor;
            while j < i
                invariant
                    jc <= j <= i,
                    jc <= i - 1,
                    1 <= i <= n,
                    n == chars@.len(),
                    self.inv(),
                    self.can_segment(chars@),
                    lim == self.longest_code() + 2,
                    self.relax_from(chars@, i as int, jc, prev.0, prev.1) == self.relax_from(
                        chars@,
                        i as int,
                        j as int,
                        seg_views(dp@),
                        path_view(path@),
                    ),
                    dp_ok(seg_views(dp@), path_view(path@), n as int, lim, i - 1),
                    j == i ==> path_view(path@)[i as int] is Some,
                decreases i - j,
            {
                proof {
                    self.lemma_relax_ok(chars@, i as int, j as int, seg_views(dp@), path_view(path@));
                    assert forall|t: int| 0 <= t < dp@.len() implies (#[trigger] dp@[t]).cost <= INFINITY by {
                        assert(seg_views(dp@)[t].cost == dp@[t].cost);
                    }
                }
                self.relax_step(chars, i, j, &mut dp, &mut path);
                j += 1;
            }
            proof {
                assert forall|t: int| 1 <= t <= i implies #[trigger] path_view(path@)[t] is Some by {
                }
            }
            i += 1;
        }
        let ghost fin = self.dp_upto(chars@, n as int);
        let ghost want = trace(fin.0, fin.1, n as int);
        let mut back: Vec<Segment> = Vec::new();
        let mut k: usize = n;
        proof {
            assert(want == trace(fin.0, fin.1, k as int) + seg_views(back@).reverse());
        }
        while k > 0
            invariant
                k <= n,
                n == chars@.len(),
                fin == (seg_views(dp@), path_view(path@), fin.2),
                dp_ok(fin.0, fin.1, n as int, lim, n as int),
                want == trace(fin.0, fin.1, k as int) + seg_views(back@).reverse(),
            decreases k,
        {
            let j = match path[k] {
                Some(j) => j,
                None => {
                    proof {
                        assert(fin.1[k as int] is Some);
                    }
                    0
                },
            };
            assert(fin.1[k as int] == Some(j as int));
            let seg = copy_segment(&dp[k]);
            let ghost before = back@;
            back.push(seg);
            proof {
                assert(seg_view(seg) == fin.0[k as int]);
                assert(seg_views(back@).reverse() =~= seq![fin.0[k as int]] + seg_views(before).reverse());
                assert(trace(fin.0, fin.1, k as int) == trace(fin.0, fin.1, j as int).push(fin.0[k as int]));
                assert(trace(fin.0, fin.1, j as int).push(fin.0[k as int]) + seg_views(before).reverse()
                    =~= trace(fin.0, fin.1, j as int) + seg_views(back@).reverse());
            }
            k = j;
        }
        proof {
            assert(trace(fin.0, fin.1, 0) =~= Seq::<SegView>::empty());
            assert(want =~= seg_views(back@).reverse());
        }
        let mut out: Vec<Segment> = Vec::new();
        while back.len() > 0
            invariant
                want == seg_views(out@) + seg_views(back@).reverse(),
            decreases back@.len(),
        {
            let ghost before = back@;
            let seg = back.pop().unwrap();
            let ghost out_before = out@;
            out.push(seg);
            proof {
                assert(before =~= back@.push(seg));
                assert(seg_views(before).reverse() =~= seq![seg_view(seg)] + seg_views(back@).reverse());
                assert(seg_views(out@) =~= seg_views(out_before).push(seg_view(seg)));
                assert(seg_views(out_before) + seg_views(before).reverse() =~= seg_views(out@) + seg_views(back@).reverse());
            }
        }
        proof {
            assert(seg_views(back@).reverse() =~= Seq::<SegView>::empty());
            assert(want =~= seg_views(out@));
        }
        out
    }
}

/// A copy of a segment.
fn copy_segment(s: &Segment) -> (r: Segment)
    ensures
        seg_view(r) == seg_view(*s),
{
    Segment::new(
        s.range.start..s.range.end,
        slice_to_vec(s.text.as_slice()),
        slice_to_vec(s.code.as_slice()),
        s.pos,
        s.auto_select,
        s.cost,
    )
}

proof fn lemma_best_choice_range(
    starts: Set<Seq<char>>,
    cps: Seq<(Seq<char>, u16)>,
    next: Option<char>,
    n: int,
)
    requires
        1 <= n,
    ensures
        0 <= best_choice(starts, cps, next, n) < n,
    decreases n,
{
    if n > 1 {
        lemma_best_choice_range(starts, cps, next, n - 1);
    }
}

/// Whether two character slices are equal.
fn slices_equal(a: &[char], b: &[char]) -> (r: bool)
    ensures
        r == (a@ == b@),
{
    if a.len() != b.len() {
        return false;
    }
    let mut i: usize = 0;
    while i < a.len()
        invariant
            i <= a@.len(),
            a@.len() == b@.len(),
            forall|k: int| 0 <= k < i ==> a@[k] == b@[k],
        decreases a@.len() - i,
    {
        if a[i] != b[i] {
            return false;
        }
        i += 1;
    }
    assert(a@ =~= b@);
    true
}

proof fn lemma_code_starts_step(codes: Seq<Seq<char>>, i: int)
    requires
        0 <= i < codes.len(),
    ensures
        code_starts(codes, i + 1) == code_starts(codes, i).union(
            Set::new(
                |s: Seq<char>|
                    exists|m: int| 0 <= m <= az_prefix_len(codes[i], 0) && s == codes[i].subrange(0, m),
            ),
        ),
{
    assert(code_starts(codes, i + 1) =~= code_starts(codes, i).union(
        Set::new(
            |s: Seq<char>|
                exists|m: int| 0 <= m <= az_prefix_len(codes[i], 0) && s == codes[i].subrange(0, m),
        ),
    ));
}


// ---------------------------------------------------------------------------
// The segments cover the text
// ---------------------------------------------------------------------------

/// The texts of the segments, one after the other.
pub open spec fn seg_texts(segs: Seq<SegView>) -> Seq<char>
    decreases segs.len(),
{
    if segs.len() == 0 {
        Seq::empty()
    } else {
        seg_texts(segs.drop_last()) + segs.last().text
    }
}

/// Each position with a way back holds the word from there to it.
pub open spec fn dp_shape(chars: Seq<char>, dp: Seq<SegView>, path: Seq<Option<int>>) -> bool {
    &&& dp.len() == chars.len() + 1
    &&& path.len() == chars.len() + 1
    &&& forall|k: int|
        0 <= k <= chars.len() && #[trigger] path[k] is Some ==> {
            let j = path[k]->0;
            &&& 0 <= j < k
            &&& dp[k].start == j
            &&& dp[k].end == k
            &&& dp[k].text == chars.subrange(j, k)
        }
}

impl Looker {
    /// The search's facts hold for every table with its invariant.
    pub closed spec fn well_formed(&self) -> bool {
        self.inv()
    }

    proof fn lemma_relax_shape(
        &self,
        chars: Seq<char>,
        i: int,
        j: int,
        dp: Seq<SegView>,
        path: Seq<Option<int>>,
    )
        requires
            1 <= i <= chars.len(),
            0 <= j < i,
            dp_shape(chars, dp, path),
        ensures
            dp_shape(chars, self.relax(chars, i, j, dp, path).0, self.relax(chars, i, j, dp, path).1),
    {
        let r = self.relax(chars, i, j, dp, path);
        assert forall|k: int| 0 <= k <= chars.len() && #[trigger] r.1[k] is Some implies {
            let jj = r.1[k]->0;
            &&& 0 <= jj < k
            &&& r.0[k].start == jj
            &&& r.0[k].end == k
            &&& r.0[k].text == chars.subrange(jj, k)
        } by {
            if k != i {
                assert(r.1[k] == path[k]);
                assert(r.0[k] == dp[k]);
            } else if r.1[k] != path[k] || r.0[k] != dp[k] {
                assert(r.1[k] == Some(j));
            } else {
                assert(path[k] is Some);
            }
        }
    }

    proof fn lemma_relax_from_shape(
        &self,
        chars: Seq<char>,
        i: int,
        j: int,
        dp: Seq<SegView>,
        path: Seq<Option<int>>,
    )
        requires
            1 <= i <= chars.len(),
            0 <= j,
            dp_shape(chars, dp, path),
        ensures
            dp_shape(chars, self.relax_from(chars, i, j, dp, path).0, self.relax_from(chars, i, j, dp, path).1),
        decreases i - j,
    {
        if j < i {
            self.lemma_relax_shape(chars, i, j, dp, path);
            let r = self.relax(chars, i, j, dp, path);
            self.lemma_relax_from_shape(chars, i, j + 1, r.0, r.1);
        }
    }

    proof fn lemma_relax_from_ok(
        &self,
        chars: Seq<char>,
        i: int,
        j: int,
        dp: Seq<SegView>,
        path: Seq<Option<int>>,
    )
        requires
            self.inv(),
            1 <= i <= chars.len(),
            0 <= j,
            dp_ok(dp, path, chars.len() as int, self.longest_code() + 2, i - 1),
            chars.len() * (self.longest_code() + 2) < INFINITY,
            j <= i - 1 || path[i] is Some,
        ensures
            dp_ok(
                self.relax_from(chars, i, j, dp, path).0,
                self.relax_from(chars, i, j, dp, path).1,
                chars.len() as int,
                self.longest_code() + 2,
                i,
            ),
        decreases i - j,
    {
        if j < i {
            self.lemma_relax_ok(chars, i, j, dp, path);
            let r = self.relax(chars, i, j, dp, path);
            self.lemma_relax_from_ok(chars, i, j + 1, r.0, r.1);
        } else {
            assert forall|k: int| 1 <= k <= i implies #[trigger] path[k] is Some by {
            }
        }
    }

    proof fn lemma_dp_upto(&self, chars: Seq<char>, i: int)
        requires
            self.inv(),
            self.can_segment(chars),
            0 <= i <= chars.len(),
        ensures
            dp_shape(chars, self.dp_upto(chars, i).0, self.dp_upto(chars, i).1),
            dp_ok(
                self.dp_upto(chars, i).0,
                self.dp_upto(chars, i).1,
                chars.len() as int,
                self.longest_code() + 2,
                i,
            ),
            0 <= self.dp_upto(chars, i).2 <= i,
        decreases i,
    {
        let n = chars.len() as int;
        let lim = self.longest_code() + 2;
        if i <= 0 {
            let r = self.dp_upto(chars, 0);
            assert(dp_shape(chars, r.0, r.1));
        } else {
            self.lemma_dp_upto(chars, i - 1);
            let prev = self.dp_upto(chars, i - 1);
            let c = chars[i - 1];
            if !unicode_alphanumeric(c) {
                let r = self.dp_upto(chars, i);
                assert(seq![c] =~= chars.subrange(i - 1, i));
                assert forall|k: int| 0 <= k <= n && #[trigger] r.1[k] is Some implies {
                    let jj = r.1[k]->0;
                    &&& 0 <= jj < k
                    &&& r.0[k].start == jj
                    &&& r.0[k].end == k
                    &&& r.0[k].text == chars.subrange(jj, k)
                } by {
                    if k != i {
                        assert(r.1[k] == prev.1[k]);
                        assert(r.0[k] == prev.0[k]);
                    }
                }
                assert forall|t: int| 0 <= t <= n && #[trigger] r.0[t].cost < INFINITY implies r.0[t].cost
                    <= t * lim by {
                    if t != i {
                        assert(r.0[t] == prev.0[t]);
                    }
                }
                assert forall|t: int| 1 <= t <= i implies #[trigger] r.1[t] is Some by {
                    if t != i {
                        assert(r.1[t] == prev.1[t]);
                    }
                }
                assert forall|t: int| 0 <= t <= n && #[trigger] r.1[t] is Some implies 0 <= r.1[t]->0 < t by {
                    if t != i {
                        assert(r.1[t] == prev.1[t]);
                    }
                }
                assert forall|t: int| 1 <= t <= n && #[trigger] r.0[t].cost < INFINITY implies r.1[t] is Some by {
                    if t != i {
                        assert(r.1[t] == prev.1[t]);
                        assert(r.0[t] == prev.0[t]);
                    }
                }
                assert forall|t: int| 0 <= t <= n implies 0 <= #[trigger] r.0[t].cost <= INFINITY by {
                    if t != i {
                        assert(r.0[t] == prev.0[t]);
                    }
                }
            } else {
                let jc = if i - prev.2 > self.longest_text() {
                    prev.2 + 1
                } else {
                    prev.2
                };
                assert(self.longest_text() >= 1);
                assert(jc <= i - 1);
                self.lemma_relax_from_shape(chars, i, jc, prev.0, prev.1);
                self.lemma_relax_from_ok(chars, i, jc, prev.0, prev.1);
            }
        }
    }
}

proof fn lemma_trace_cover(chars: Seq<char>, dp: Seq<SegView>, path: Seq<Option<int>>, i: int)
    requires
        dp_shape(chars, dp, path),
        0 <= i <= chars.len(),
        forall|k: int| 1 <= k <= i ==> #[trigger] path[k] is Some,
    ensures
        seg_texts(trace(dp, path, i)) == chars.subrange(0, i),
    decreases i,
{
    if i > 0 {
        let j = path[i]->0;
        assert(path[i] is Some);
        lemma_trace_cover(chars, dp, path, j);
        let t = trace(dp, path, i);
        assert(t == trace(dp, path, j).push(dp[i]));
        assert(t.drop_last() =~= trace(dp, path, j));
        assert(chars.subrange(0, j) + chars.subrange(j, i) =~= chars.subrange(0, i));
    } else {
        assert(chars.subrange(0, 0) =~= Seq::<char>::empty());
    }
}

/// The segments tile `[0, n)`: the first starts at 0, each ends where the next starts,
/// the last ends at `n`, none is empty, and each holds the text of its range.
pub open spec fn tiles(chars: Seq<char>, segs: Seq<SegView>, n: int) -> bool {
    &&& (segs.len() == 0 <==> n == 0)
    &&& segs.len() > 0 ==> segs[0].start == 0 && segs.last().end == n
    &&& forall|k: int| 0 <= k < segs.len() - 1 ==> #[trigger] segs[k].end == segs[k + 1].start
    &&& forall|k: int|
        0 <= k < segs.len() ==> 0 <= #[trigger] segs[k].start < segs[k].end <= n && segs[k].text
            == chars.subrange(segs[k].start, segs[k].end)
}

proof fn lemma_trace_tiles(chars: Seq<char>, dp: Seq<SegView>, path: Seq<Option<int>>, i: int)
    requires
        dp_shape(chars, dp, path),
        0 <= i <= chars.len(),
        forall|k: int| 1 <= k <= i ==> #[trigger] path[k] is Some,
    ensures
        tiles(chars, trace(dp, path, i), i),
    decreases i,
{
    if i > 0 {
        let j = path[i]->0;
        assert(path[i] is Some);
        lemma_trace_tiles(chars, dp, path, j);
        let t = trace(dp, path, i);
        let p = trace(dp, path, j);
        assert(t == p.push(dp[i]));
        assert forall|k: int| 0 <= k < t.len() - 1 implies #[trigger] t[k].end == t[k + 1].start by {
            if k < p.len() - 1 {
                assert(t[k] == p[k] && t[k + 1] == p[k + 1]);
            } else {
                assert(t[k] == p.last());
            }
        }
        assert forall|k: int| 0 <= k < t.len() implies 0 <= #[trigger] t[k].start < t[k].end <= i
            && t[k].text == chars.subrange(t[k].start, t[k].end) by {
            if k < p.len() {
                assert(t[k] == p[k]);
            }
        }
        if p.len() > 0 {
            assert(t[0] == p[0]);
        }
    }
}

impl Looker {
    /// The words found split the whole text: their texts, one after the other, are
    /// the text.
    pub proof fn lemma_segments_cover(&self, chars: Seq<char>)
        requires
            self.well_formed(),
            self.can_segment(chars),
        ensures
            seg_texts(self.segments_of(chars)) == chars,
    {
        let n = chars.len() as int;
        self.lemma_dp_upto(chars, n);
        let r = self.dp_upto(chars, n);
        lemma_trace_cover(chars, r.0, r.1, n);
        assert(chars.subrange(0, n) =~= chars);
    }
}

impl Looker {
    /// The words found tile the text in order: the first starts at 0, each ends where
    /// the next starts, the last ends at the text's end, none is empty, and each holds
    /// the text of its range.
    pub proof fn lemma_segments_tile(&self, chars: Seq<char>)
        requires
            self.well_formed(),
            self.can_segment(chars),
        ensures
            tiles(chars, self.segments_of(chars), chars.len() as int),
    {
        let n = chars.len() as int;
        self.lemma_dp_upto(chars, n);
        let r = self.dp_upto(chars, n);
        lemma_trace_tiles(chars, r.0, r.1, n);
    }
}

impl Looker {
    /// A word found that stands for itself alone or is a word of the table made of
    /// letters and digits.
    pub open spec fn word_fits(&self, s: SegView) -> bool {
        ||| s.text.len() == 1
        ||| self.entries().dom().contains(s.text) && forall|t: int|
            0 <= t < s.text.len() ==> unicode_alphanumeric(#[trigger] s.text[t])
    }

    /// Each way back spans one character, or a word of the table made of letters and
    /// digits.
    spec fn path_words(&self, chars: Seq<char>, path: Seq<Option<int>>) -> bool {
        forall|k: int|
            0 <= k <= chars.len() && #[trigger] path[k] is Some ==> {
                let j = path[k]->0;
                ||| k - j == 1
                ||| self.entries().dom().contains(chars.subrange(j, k)) && forall|t: int|
                    j <= t < k ==> unicode_alphanumeric(#[trigger] chars[t])
            }
    }

    proof fn lemma_relax_from_words(
        &self,
        chars: Seq<char>,
        i: int,
        j: int,
        dp: Seq<SegView>,
        path: Seq<Option<int>>,
    )
        requires
            1 <= i <= chars.len(),
            0 <= j,
            dp.len() == chars.len() + 1,
            path.len() == chars.len() + 1,
            self.path_words(chars, path),
            forall|t: int| j <= t < i ==> unicode_alphanumeric(#[trigger] chars[t]),
        ensures
            self.relax_from(chars, i, j, dp, path).0.len() == chars.len() + 1,
            self.relax_from(chars, i, j, dp, path).1.len() == chars.len() + 1,
            self.path_words(chars, self.relax_from(chars, i, j, dp, path).1),
            forall|k: int|
                0 <= k <= chars.len() && k != i ==> #[trigger] self.relax_from(
                    chars,
                    i,
                    j,
                    dp,
                    path,
                ).1[k] == path[k],
        decreases i - j,
    {
        if j < i {
            let r = self.relax(chars, i, j, dp, path);
            assert forall|k: int| 0 <= k <= chars.len() && #[trigger] r.1[k] is Some implies {
                let jj = r.1[k]->0;
                ||| k - jj == 1
                ||| self.entries().dom().contains(chars.subrange(jj, k)) && forall|t: int|
                    jj <= t < k ==> unicode_alphanumeric(#[trigger] chars[t])
            } by {
                if k != i || r.1[k] == path[k] {
                    assert(r.1[k] == path[k]);
                } else {
                    assert(r.1[k] == Some(j));
                }
            }
            assert forall|k: int| 0 <= k <= chars.len() && k != i implies #[trigger] r.1[k]
                == path[k] by {}
            self.lemma_relax_from_words(chars, i, j + 1, r.0, r.1);
        }
    }

    proof fn lemma_dp_words(&self, chars: Seq<char>, i: int)
        requires
            0 <= i <= chars.len(),
        ensures
            self.dp_upto(chars, i).0.len() == chars.len() + 1,
            self.dp_upto(chars, i).1.len() == chars.len() + 1,
            self.path_words(chars, self.dp_upto(chars, i).1),
            forall|k: int| i < k <= chars.len() ==> #[trigger] self.dp_upto(chars, i).1[k] is None,
            0 <= self.dp_upto(chars, i).2 <= i,
            forall|t: int|
                self.dp_upto(chars, i).2 <= t < i ==> unicode_alphanumeric(#[trigger] chars[t]),
        decreases i,
    {
        let n = chars.len() as int;
        if i > 0 {
            self.lemma_dp_words(chars, i - 1);
            let prev = self.dp_upto(chars, i - 1);
            let r = self.dp_upto(chars, i);
            let c = chars[i - 1];
            if !unicode_alphanumeric(c) {
                assert forall|k: int| 0 <= k <= n && #[trigger] r.1[k] is Some implies {
                    let jj = r.1[k]->0;
                    ||| k - jj == 1
                    ||| self.entries().dom().contains(chars.subrange(jj, k)) && forall|t: int|
                        jj <= t < k ==> unicode_alphanumeric(#[trigger] chars[t])
                } by {
                    if k != i {
                        assert(r.1[k] == prev.1[k]);
                    }
                }
                assert forall|k: int| i < k <= n implies #[trigger] r.1[k] is None by {
                    assert(r.1[k] == prev.1[k]);
                }
            } else {
                let jc = if i - prev.2 > self.longest_text() {
                    prev.2 + 1
                } else {
                    prev.2
                };
                assert forall|t: int| jc <= t < i implies unicode_alphanumeric(#[trigger] chars[t]) by {
                    if t < i - 1 {
                        assert(prev.2 <= t < i - 1);
                    }
                }
                self.lemma_relax_from_words(chars, i, jc, prev.0, prev.1);
                assert forall|k: int| i < k <= n implies #[trigger] r.1[k] is None by {
                    assert(r.1[k] == prev.1[k]);
                }
            }
        }
    }
}

/// Some word of `segs` spans position `p`.
spec fn covered(segs: Seq<SegView>, p: int) -> bool {
    exists|m: int| 0 <= m < segs.len() && #[trigger] segs[m].start <= p < segs[m].end
}

proof fn lemma_trace_words(
    looker: &Looker,
    chars: Seq<char>,
    dp: Seq<SegView>,
    path: Seq<Option<int>>,
    i: int,
)
    requires
        dp_shape(chars, dp, path),
        looker.path_words(chars, path),
        0 <= i <= chars.len(),
        forall|k: int| 1 <= k <= i ==> #[trigger] path[k] is Some,
    ensures
        forall|m: int|
            0 <= m < trace(dp, path, i).len() ==> looker.word_fits(#[trigger] trace(dp, path, i)[m]),
        forall|p: int| 0 <= p < i ==> #[trigger] covered(trace(dp, path, i), p),
    decreases i,
{
    if i > 0 {
        let j = path[i]->0;
        assert(path[i] is Some);
        lemma_trace_words(looker, chars, dp, path, j);
        let t = trace(dp, path, i);
        let q = trace(dp, path, j);
        assert(t == q.push(dp[i]));
        assert(dp[i].text == chars.subrange(j, i));
        assert(looker.word_fits(dp[i])) by {
            if i - j != 1 {
                assert forall|u: int| 0 <= u < dp[i].text.len() implies unicode_alphanumeric(
                    #[trigger] dp[i].text[u],
                ) by {
                    assert(dp[i].text[u] == chars[j + u]);
                }
            }
        }
        assert forall|m: int| 0 <= m < t.len() implies looker.word_fits(#[trigger] t[m]) by {
            if m < q.len() {
                assert(t[m] == q[m]);
            }
        }
        assert forall|p: int| 0 <= p < i implies #[trigger] covered(t, p) by {
            if p < j {
                assert(covered(q, p));
                let m = choose|m: int| 0 <= m < q.len() && #[trigger] q[m].start <= p < q[m].end;
                assert(t[m] == q[m]);
            } else {
                assert(t[q.len() as int] == dp[i]);
            }
        }
    }
}

impl Looker {
    /// A character that is not a letter or digit is a word of its own, and a word
    /// found of more than one character is a word of the table made of letters and
    /// digits.
    pub proof fn lemma_segments_words(&self, chars: Seq<char>)
        requires
            self.well_formed(),
            self.can_segment(chars),
        ensures
            forall|k: int|
                0 <= k < self.segments_of(chars).len() ==> self.word_fits(
                    #[trigger] self.segments_of(chars)[k],
                ),
            forall|p: int|
                0 <= p < chars.len() && !unicode_alphanumeric(#[trigger] chars[p]) ==> exists|k: int|
                    0 <= k < self.segments_of(chars).len() && #[trigger] self.segments_of(
                        chars,
                    )[k].start == p && self.segments_of(chars)[k].end == p + 1,
    {
        let n = chars.len() as int;
        self.lemma_dp_upto(chars, n);
        self.lemma_dp_words(chars, n);
        let r = self.dp_upto(chars, n);
        let segs = self.segments_of(chars);
        lemma_trace_words(self, chars, r.0, r.1, n);
        lemma_trace_tiles(chars, r.0, r.1, n);
        assert forall|p: int| 0 <= p < n && !unicode_alphanumeric(#[trigger] chars[p]) implies exists|
            k: int,
        | 0 <= k < segs.len() && #[trigger] segs[k].start == p && segs[k].end == p + 1 by {
            assert(covered(segs, p));
            let m = choose|m: int| 0 <= m < segs.len() && #[trigger] segs[m].start <= p < segs[m].end;
            let s = segs[m];
            assert(s.text == chars.subrange(s.start, s.end));
            assert(s.text[p - s.start] == chars[p]);
            assert(self.word_fits(s));
        }
    }
}

impl Looker {
    /// Whether `chars` is an input the search handles (see `can_segment`).
    pub fn can_segment_exec(&self, chars: &[char]) -> (b: bool)
        ensures
            b == self.can_segment(chars@),
    {
        proof {
            use_type_invariant(self);
        }
        let n = chars.len();
        let lim = self.max_code_len + 2;
        if n >= INFINITY {
            proof {
                assert(n * lim >= INFINITY) by (nonlinear_arith)
                    requires
                        n >= INFINITY,
                        lim >= 2,
                ;
            }
            return false;
        }
        assert((n as u64) * (lim as u64) <= 100000000 * 65537) by (nonlinear_arith)
            requires
                n < 100000000,
                lim <= 65537,
        ;
        let total: u64 = (n as u64) * (lim as u64);
        if total >= INFINITY as u64 {
            return false;
        }
        let mut any_alnum = false;
        let mut k: usize = 0;
        while k < n
            invariant
                k <= n == chars@.len(),
                any_alnum == exists|t: int| 0 <= t < k && unicode_alphanumeric(#[trigger] chars@[t]),
            decreases n - k,
        {
            if is_alphanumeric(chars[k]) {
                any_alnum = true;
            }
            k += 1;
        }
        if any_alnum && self.max_text_len == 0 {
            return false;
        }
        let mut k: usize = 1;
        while k < n
            invariant
                1 <= k <= n || n == 0,
                n == chars@.len(),
                self.inv(),
                forall|t: int|
                    1 <= t < k && #[trigger] self.entries().dom().contains(chars@.subrange(t, t + 1))
                        ==> self.entries()[chars@.subrange(t, t + 1)][0].0.len() > 0,
            decreases n - k,
        {
            let w = slice_subrange(chars, k, k + 1);
            match word_map_get(&self.map, w) {
                Some(v) => {
                    assert(code_pos_views(v@)[0].0 == v@[0].0@);
                    if v[0].0.len() == 0 {
                        assert(self.entries().dom().contains(chars@.subrange(k as int, k + 1)));
                        assert(self.entries()[chars@.subrange(k as int, k + 1)][0].0.len() == 0);
                        return false;
                    }
                },
                None => {},
            }
            k += 1;
        }
        true
    }
}

/// Whether every candidate's position among those of its code fits in a `u16`.
pub fn positions_fit_exec(dict: &PrefixDict) -> (b: bool)
    ensures
        b == positions_fit(dict.codes()),
{
    let cands = dict.candidates();
    let ghost codes = dict.codes();
    let n = cands.len();
    if n == 0 {
        return true;
    }
    let mut prev = chars_of(dict.get_str(cands[0].code).as_str());
    let mut pos: u32 = if prev.len() == 0 {
        1
    } else {
        0
    };
    assert(prev@ == codes[0]);
    assert(prev@.len() == 0 <==> prev@ =~= Seq::<char>::empty());
    let mut i: usize = 1;
    while i < n
        invariant
            1 <= i <= n == cands@.len(),
            cands@ == dict.cands_view(),
            codes == dict.codes(),
            crate::prefix_dict::ranges_ok(dict.arena_view(), dict.cands_view()),
            prev@ == codes[i - 1],
            pos == run_pos(codes, i - 1),
            pos <= u16::MAX,
            forall|t: int| 0 <= t < i ==> #[trigger] run_pos(codes, t) <= u16::MAX,
        decreases n - i,
    {
        let cur = chars_of(dict.get_str(cands[i].code).as_str());
        assert(cur@ == codes[i as int]);
        if slices_equal(prev.as_slice(), cur.as_slice()) {
            if pos == 65535 {
                assert(run_pos(codes, i as int) > u16::MAX);
                return false;
            }
            pos = pos + 1;
        } else {
            pos = 0;
        }
        prev = cur;
        i += 1;
    }
    true
}
} // verus!
