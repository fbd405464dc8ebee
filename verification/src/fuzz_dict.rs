use vstd::prelude::*;

use nucleo_matcher::pattern::{Atom, AtomKind, CaseMatching, Normalization};
use nucleo_matcher::{Matcher, Utf32String};

use crate::dict::{arena_range_ok, arena_str, Candidate, StringArena};
use crate::prefix_dict::{codes_of, ranges_ok};
use crate::sort::{lemma_positions_distinct, positions, sort_positions, IndexOrder};
use crate::text::{chars_of, is_ascii_lowercase_char, split_chars, split_on, string_from_chars};

verus! {

broadcast use vstd::seq_lib::group_to_multiset_ensures;

/// The score that nucleo's fuzzy matching gives `haystack` for the pattern `needle`
/// (case ignored, no normalization), or `None` when it does not match.
pub uninterp spec fn fuzzy_atom_score(needle: Seq<char>, haystack: Seq<char>) -> Option<u16>;

/// `Atom::new(needle, CaseMatching::Ignore, Normalization::Never, AtomKind::Fuzzy, false)`
/// scored with `Atom::score` on `haystack` by a matcher of nucleo's default
/// configuration (`Config::DEFAULT`), made for the call: the result depends on the two
/// strings only. nucleo panics on haystacks over `u32::MAX` code points.
#[verifier::external_body]
fn atom_score(needle: &str, haystack: &str) -> (r: Option<u16>)
    requires
        haystack@.len() <= u32::MAX,
    ensures
        r == fuzzy_atom_score(needle@, haystack@),
{
    let atom = Atom::new(needle, CaseMatching::Ignore, Normalization::Never, AtomKind::Fuzzy, false);
    let hay = Utf32String::from(haystack);
    atom.score(hay.slice(..), &mut Matcher::new(nucleo_matcher::Config::DEFAULT))
}

/// The nonempty pieces of `ps`, in order.
pub open spec fn nonempty_pieces(ps: Seq<Seq<char>>) -> Seq<Seq<char>>
    decreases ps.len(),
{
    if ps.len() == 0 {
        ps
    } else {
        let r = nonempty_pieces(ps.drop_last());
        if ps.last().len() > 0 {
            r.push(ps.last())
        } else {
            r
        }
    }
}

/// The keywords of a fuzzy query: its nonempty pieces between commas.
pub open spec fn query_tokens(q: Seq<char>) -> Seq<Seq<char>> {
    nonempty_pieces(split_on(q, ','))
}

/// Sum of two scores, wrapping around as `u16` addition does.
pub open spec fn add_score(a: u16, b: u16) -> u16 {
    if a + b > u16::MAX {
        (a + b - 65536) as u16
    } else {
        (a + b) as u16
    }
}

/// Score of `hay` for all the keywords: `None` if one of them does not match, else the
/// sum of their scores.
pub open spec fn total_score(tokens: Seq<Seq<char>>, hay: Seq<char>) -> Option<u16>
    decreases tokens.len(),
{
    if tokens.len() == 0 {
        Some(0u16)
    } else {
        match total_score(tokens.drop_last(), hay) {
            None => None,
            Some(s) => match fuzzy_atom_score(tokens.last(), hay) {
                None => None,
                Some(x) => Some(add_score(s, x)),
            },
        }
    }
}

/// `r` lists `(i, s)` for exactly the positions `i` with `totals[i] == Some(s)`, by
/// score descending, then by position.
pub open spec fn ranked(totals: Seq<Option<u16>>, r: Seq<(usize, u16)>) -> bool {
    &&& forall|k: int|
        0 <= k < r.len() ==> (#[trigger] r[k]).0 < totals.len() && totals[r[k].0 as int] == Some(
            r[k].1,
        )
    &&& forall|i: int|
        0 <= i < totals.len() && (#[trigger] totals[i]) is Some ==> exists|k: int|
            0 <= k < r.len() && r[k].0 == i
    &&& forall|a: int, b: int|
        0 <= a < b < r.len() ==> (#[trigger] r[a]).1 > (#[trigger] r[b]).1 || (r[a].1 == r[b].1
            && r[a].0 < r[b].0)
}

/// The ranking of `totals` (see `ranked`; `lemma_ranked_unique` shows there is one).
pub open spec fn ranking(totals: Seq<Option<u16>>) -> Seq<(usize, u16)> {
    choose|r: Seq<(usize, u16)>| ranked(totals, r)
}

/// Two rankings of the same scores are the same sequence.
pub proof fn lemma_ranked_unique(totals: Seq<Option<u16>>, r1: Seq<(usize, u16)>, r2: Seq<(usize, u16)>)
    requires
        ranked(totals, r1),
        ranked(totals, r2),
    ensures
        r1 == r2,
    decreases r1.len(),
{
    if r1.len() == 0 {
        if r2.len() > 0 {
            assert(totals[r2[0].0 as int] is Some);
        }
        assert(r1 =~= r2);
    } else {
        assert(totals[r1[0].0 as int] is Some);
        let k2 = choose|k: int| 0 <= k < r2.len() && r2[k].0 == r1[0].0;
        let x = r1[0];
        let y = r2[0];
        assert(r2[k2] == x);
        assert(totals[y.0 as int] is Some);
        let k1 = choose|k: int| 0 <= k < r1.len() && r1[k].0 == y.0;
        assert(r1[k1] == y);
        if k2 > 0 {
            assert(y.1 > x.1 || (y.1 == x.1 && y.0 < x.0));
            if k1 > 0 {
                assert(x.1 > y.1 || (x.1 == y.1 && x.0 < y.0));
            }
        }
        assert(x == y);
        let t2 = totals.update(x.0 as int, None);
        let s1 = r1.drop_first();
        let s2 = r2.drop_first();
        assert forall|k: int| 0 <= k < s1.len() implies (#[trigger] s1[k]).0 < t2.len() && t2[s1[k].0 as int]
            == Some(s1[k].1) by {
            assert(s1[k] == r1[k + 1]);
            assert(r1[0].1 > r1[k + 1].1 || (r1[0].1 == r1[k + 1].1 && r1[0].0 < r1[k + 1].0));
        }
        assert forall|k: int| 0 <= k < s2.len() implies (#[trigger] s2[k]).0 < t2.len() && t2[s2[k].0 as int]
            == Some(s2[k].1) by {
            assert(s2[k] == r2[k + 1]);
            assert(r2[0].1 > r2[k + 1].1 || (r2[0].1 == r2[k + 1].1 && r2[0].0 < r2[k + 1].0));
        }
        assert forall|i: int| 0 <= i < t2.len() && (#[trigger] t2[i]) is Some implies exists|k: int|
            0 <= k < s1.len() && s1[k].0 == i by {
            assert(totals[i] is Some);
            let k = choose|k: int| 0 <= k < r1.len() && r1[k].0 == i;
            assert(k != 0);
            assert(s1[k - 1] == r1[k]);
        }
        assert forall|i: int| 0 <= i < t2.len() && (#[trigger] t2[i]) is Some implies exists|k: int|
            0 <= k < s2.len() && s2[k].0 == i by {
            assert(totals[i] is Some);
            let k = choose|k: int| 0 <= k < r2.len() && r2[k].0 == i;
            assert(k != 0);
            assert(s2[k - 1] == r2[k]);
        }
        assert forall|a: int, b: int| 0 <= a < b < s1.len() implies (#[trigger] s1[a]).1 > (#[trigger] s1[b]).1
            || (s1[a].1 == s1[b].1 && s1[a].0 < s1[b].0) by {
            assert(s1[a] == r1[a + 1] && s1[b] == r1[b + 1]);
        }
        assert forall|a: int, b: int| 0 <= a < b < s2.len() implies (#[trigger] s2[a]).1 > (#[trigger] s2[b]).1
            || (s2[a].1 == s2[b].1 && s2[a].0 < s2[b].0) by {
            assert(s2[a] == r2[a + 1] && s2[b] == r2[b + 1]);
        }
        lemma_ranked_unique(t2, s1, s2);
        assert(r1 =~= seq![x] + s1);
        assert(r2 =~= seq![y] + s2);
    }
}

/// Matches ordered by score descending, then by position.
pub struct ScoreOrder<'a> {
    pub items: &'a Vec<(usize, u16)>,
}

impl<'a> IndexOrder for ScoreOrder<'a> {
    open spec fn len_spec(&self) -> nat {
        self.items@.len()
    }

    open spec fn le(&self, i: int, j: int) -> bool {
        self.items@[i].1 > self.items@[j].1 || (self.items@[i].1 == self.items@[j].1 && i <= j)
    }

    fn len(&self) -> (n: usize) {
        self.items.len()
    }

    fn le_exec(&self, i: usize, j: usize) -> (b: bool) {
        let a = self.items[i].1;
        let c = self.items[j].1;
        a > c || (a == c && i <= j)
    }

    proof fn lemma_total(&self, i: int, j: int) {
    }

    proof fn lemma_trans(&self, i: int, j: int, k: int) {
    }
}

/// Ranks the positions that have a score: `(position, score)` by score descending,
/// equal scores kept in order of position.
pub fn rank_by_score(totals: &Vec<Option<u16>>) -> (r: Vec<(usize, u16)>)
    ensures
        ranked(totals@, r@),
{
    let mut hits: Vec<(usize, u16)> = Vec::new();
    let mut i: usize = 0;
    while i < totals.len()
        invariant
            i <= totals@.len(),
            forall|k: int|
                0 <= k < hits@.len() ==> (#[trigger] hits@[k]).0 < i && totals@[hits@[k].0 as int]
                    == Some(hits@[k].1),
            forall|a: int, b: int| 0 <= a < b < hits@.len() ==> (#[trigger] hits@[a]).0 < (#[trigger] hits@[b]).0,
            forall|j: int|
                0 <= j < i && (#[trigger] totals@[j]) is Some ==> exists|k: int|
                    0 <= k < hits@.len() && hits@[k].0 == j,
        decreases totals@.len() - i,
    {
        let ghost before = hits@;
        match totals[i] {
            Some(s) => {
                hits.push((i, s));
            },
            None => {},
        }
        proof {
            assert forall|j: int| 0 <= j < i + 1 && (#[trigger] totals@[j]) is Some implies exists|k: int|
                0 <= k < hits@.len() && hits@[k].0 == j by {
                if j < i {
                    let k = choose|k: int| 0 <= k < before.len() && before[k].0 == j;
                    assert(hits@[k] == before[k]);
                } else {
                    assert(hits@[hits@.len() - 1].0 == i);
                }
            }
        }
        i += 1;
    }
    let nh = hits.len();
    let ord = ScoreOrder { items: &hits };
    let ids = sort_positions(&ord);
    let mut r: Vec<(usize, u16)> = Vec::new();
    let mut k: usize = 0;
    while k < ids.len()
        invariant
            ids@.len() == hits@.len(),
            forall|a: int| 0 <= a < ids@.len() ==> #[trigger] ids@[a] < hits@.len(),
            forall|a: int, b: int| 0 <= a < b < ids@.len() ==> #[trigger] ord.le(ids@[a] as int, ids@[b] as int),
            ids@.to_multiset() == positions(hits@.len()).to_multiset(),
            k <= ids@.len(),
            r@.len() == k,
            forall|a: int| 0 <= a < k ==> #[trigger] r@[a] == hits@[ids@[a] as int],
        decreases ids@.len() - k,
    {
        r.push(hits[ids[k]]);
        k += 1;
    }
    proof {
        // distinct positions
        assert forall|a: int, b: int| 0 <= a < b < r@.len() implies (#[trigger] r@[a]).1 > (#[trigger] r@[b]).1
            || (r@[a].1 == r@[b].1 && r@[a].0 < r@[b].0) by {
            let x = ids@[a] as int;
            let y = ids@[b] as int;
            assert(ord.le(x, y));
            lemma_positions_distinct(ids@, hits@.len(), a, b);
            if hits@[x].1 == hits@[y].1 {
                assert(x < y);
            }
        }
        assert forall|j: int| 0 <= j < totals@.len() && (#[trigger] totals@[j]) is Some implies exists|k2: int|
            0 <= k2 < r@.len() && r@[k2].0 == j by {
            let h = choose|h: int| 0 <= h < hits@.len() && hits@[h].0 == j;
            assert(positions(hits@.len())[h] == h as usize);
            assert(positions(hits@.len()).to_multiset().count(h as usize) > 0);
            assert(ids@.contains(h as usize));
            let k2 = choose|k2: int| 0 <= k2 < ids@.len() && ids@[k2] == h as usize;
            assert(r@[k2] == hits@[h]);
        }
    }
    r
}


/// Whether `input` has the form of a fuzzy query: lowercase ASCII letters and the
/// separators `,` and `|` only, with at least one letter.
pub open spec fn fuzzy_reachable(input: Seq<char>) -> bool {
    &&& forall|i: int|
        0 <= i < input.len() ==> is_ascii_lowercase_char(#[trigger] input[i]) || input[i] == ','
            || input[i] == '|'
    &&& exists|i: int| 0 <= i < input.len() && is_ascii_lowercase_char(#[trigger] input[i])
}

proof fn lemma_total_none_stays(tokens: Seq<Seq<char>>, hay: Seq<char>, t: int)
    requires
        0 <= t <= tokens.len(),
        total_score(tokens.subrange(0, t), hay) is None,
    ensures
        total_score(tokens, hay) is None,
    decreases tokens.len() - t,
{
    if t < tokens.len() {
        assert(tokens.subrange(0, t + 1).drop_last() =~= tokens.subrange(0, t));
        lemma_total_none_stays(tokens, hay, t + 1);
    } else {
        assert(tokens.subrange(0, t) =~= tokens);
    }
}

/// A table looked up by fuzzy matching of its codes (keywords such as emoji names).
#[derive(Debug)]
pub struct FuzzDict {
    arena: StringArena,
    candidates: Vec<Candidate>,
}

impl FuzzDict {
    #[verifier::type_invariant]
    spec fn inv(self) -> bool {
        ranges_ok(self.arena@, self.candidates@)
    }

    /// The characters of the table's arena.
    pub closed spec fn arena_view(&self) -> Seq<char> {
        self.arena@
    }

    /// The candidates, in the order of the table.
    pub closed spec fn cands_view(&self) -> Seq<Candidate> {
        self.candidates@
    }

    /// The codes (keywords) of the candidates, in order.
    pub open spec fn codes(&self) -> Seq<Seq<char>> {
        codes_of(self.arena_view(), self.cands_view())
    }

    /// Builds the table from candidates that lie in `arena`.
    pub(crate) fn new(arena: StringArena, candidates: Vec<Candidate>) -> (d: Self)
        requires
            ranges_ok(arena@, candidates@),
        ensures
            d.arena_view() == arena@,
            d.cands_view() == candidates@,
    {
        FuzzDict { arena, candidates }
    }

    /// Builds the table from an arena and candidates; `None` unless every candidate lies
    /// in the arena.
    pub fn from_table(arena: StringArena, candidates: Vec<Candidate>) -> (r: Option<Self>)
        ensures
            r is Some <==> ranges_ok(arena@, candidates@),
            r matches Some(d) ==> d.arena_view() == arena@ && d.cands_view() == candidates@,
    {
        let n = candidates.len();
        let size = arena.len() as u64;
        let mut i: usize = 0;
        while i < n
            invariant
                n == candidates@.len(),
                size == arena@.len(),
                i <= n,
                forall|j: int|
                    0 <= j < i ==> arena_range_ok(arena@, (#[trigger] candidates@[j]).code)
                        && arena_range_ok(arena@, candidates@[j].text),
            decreases n - i,
        {
            let c = candidates[i];
            if c.code.0 as u64 + c.code.1 as u64 > size || c.text.0 as u64 + c.text.1 as u64
                > size {
                assert(!arena_range_ok(arena@, candidates@[i as int].code) || !arena_range_ok(
                    arena@,
                    candidates@[i as int].text,
                ));
                return None;
            }
            i += 1;
        }
        Some(FuzzDict { arena, candidates })
    }

    /// Number of candidates.
    pub fn count(&self) -> (n: usize)
        ensures
            n == self.cands_view().len(),
    {
        self.candidates.len()
    }

    /// All candidates, in the order of the table.
    pub fn candidates(&self) -> (r: &Vec<Candidate>)
        ensures
            r@ == self.cands_view(),
            ranges_ok(self.arena_view(), self.cands_view()),
    {
        proof {
            use_type_invariant(self);
        }
        &self.candidates
    }

    /// The code (keywords) of `cand`.
    pub fn get_code(&self, cand: &Candidate) -> (s: String)
        requires
            arena_range_ok(self.arena_view(), cand.code),
        ensures
            s@ == arena_str(self.arena_view(), cand.code),
    {
        self.get_str(cand.code)
    }

    /// The text of `cand`.
    pub fn get_text(&self, cand: &Candidate) -> (s: String)
        requires
            arena_range_ok(self.arena_view(), cand.text),
        ensures
            s@ == arena_str(self.arena_view(), cand.text),
    {
        self.get_str(cand.text)
    }

    /// The characters of the table's arena.
    pub fn arena(&self) -> (r: &StringArena)
        ensures
            r@ == self.arena_view(),
    {
        &self.arena
    }

    /// The string at `range` of the arena.
    pub fn get_str(&self, range: (u32, u16)) -> (s: String)
        requires
            arena_range_ok(self.arena_view(), range),
        ensures
            s@ == arena_str(self.arena_view(), range),
    {
        let chars = self.arena.get(range.0, range.1);
        string_from_chars(&chars)
    }

    /// Whether `input` has the form of a fuzzy query (see `fuzzy_reachable`).
    pub fn reachable(&self, input: &[char]) -> (b: bool)
        ensures
            b == fuzzy_reachable(input@),
    {
        let mut letter = false;
        let mut i: usize = 0;
        while i < input.len()
            invariant
                i <= input@.len(),
                forall|j: int|
                    0 <= j < i ==> is_ascii_lowercase_char(#[trigger] input@[j]) || input@[j] == ','
                        || input@[j] == '|',
                letter <==> exists|j: int| 0 <= j < i && is_ascii_lowercase_char(#[trigger] input@[j]),
            decreases input@.len() - i,
        {
            let c = input[i];
            if 'a' <= c && c <= 'z' {
                letter = true;
            } else if !(c == ',' || c == '|') {
                return false;
            }
            i += 1;
        }
        letter
    }

    /// The total score of each candidate for the keywords of `q`.
    pub open spec fn totals_for(&self, q: Seq<char>) -> Seq<Option<u16>> {
        Seq::new(self.cands_view().len(), |i: int| total_score(query_tokens(q), self.codes()[i]))
    }

    /// What a fuzzy search for `q` gives.
    pub open spec fn hits(&self, q: Seq<char>) -> Seq<(usize, u16)> {
        if query_tokens(q).len() == 0 {
            Seq::empty()
        } else {
            ranking(self.totals_for(q))
        }
    }

    /// Fuzzy search: the query's keywords (its nonempty pieces between commas) must all
    /// match a candidate's code; the result lists `(candidate, summed score)` by score
    /// descending, equal scores in the order of the table. No keyword, no result.
    pub fn search(&self, query: &str) -> (r: Vec<(usize, u16)>)
        ensures
            r@ == self.hits(query@),
            query_tokens(query@).len() == 0 ==> r@.len() == 0,
            query_tokens(query@).len() > 0 ==> ranked(
                Seq::new(
                    self.cands_view().len(),
                    |i: int| total_score(query_tokens(query@), self.codes()[i]),
                ),
                r@,
            ),
    {
        proof {
            use_type_invariant(self);
        }
        let qc = chars_of(query);
        let pieces = split_chars(&qc, ',');
        let ghost ps = split_on(qc@, ',');
        let mut tokens: Vec<String> = Vec::new();
        let mut p: usize = 0;
        while p < pieces.len()
            invariant
                pieces@.len() == ps.len(),
                forall|k: int| 0 <= k < pieces@.len() ==> (#[trigger] pieces@[k])@ == ps[k],
                p <= pieces@.len(),
                tokens@.len() == nonempty_pieces(ps.subrange(0, p as int)).len(),
                forall|k: int|
                    0 <= k < tokens@.len() ==> (#[trigger] tokens@[k])@ == nonempty_pieces(
                        ps.subrange(0, p as int),
                    )[k],
            decreases pieces@.len() - p,
        {
            assert(ps.subrange(0, p + 1).drop_last() =~= ps.subrange(0, p as int));
            if pieces[p].len() > 0 {
                tokens.push(string_from_chars(&pieces[p]));
            }
            p += 1;
        }
        assert(ps.subrange(0, p as int) =~= ps);
        let ghost toks = query_tokens(query@);
        assert(qc@ == query@);
        if tokens.len() == 0 {
            let empty: Vec<(usize, u16)> = Vec::new();
            assert(empty@ =~= Seq::<(usize, u16)>::empty());
            return empty;
        }
        let n = self.candidates.len();
        let mut totals: Vec<Option<u16>> = Vec::new();
        let mut i: usize = 0;
        while i < n
            invariant
                n == self.candidates@.len(),
                ranges_ok(self.arena@, self.candidates@),
                tokens@.len() == toks.len(),
                forall|k: int| 0 <= k < tokens@.len() ==> (#[trigger] tokens@[k])@ == toks[k],
                i <= n,
                totals@.len() == i,
                forall|j: int|
                    0 <= j < i ==> #[trigger] totals@[j] == total_score(toks, self.codes()[j]),
            decreases n - i,
        {
            let c = self.candidates[i];
            proof {
                assert(arena_range_ok(self.arena@, self.candidates@[i as int].code));
            }
            let hay = self.get_str(c.code);
            assert(hay@ == self.codes()[i as int]);
            let mut acc: Option<u16> = Some(0);
            let mut t: usize = 0;
            assert(toks.subrange(0, 0) =~= Seq::<Seq<char>>::empty());
            while t < tokens.len() && acc.is_some()
                invariant
                    tokens@.len() == toks.len(),
                    forall|k: int| 0 <= k < tokens@.len() ==> (#[trigger] tokens@[k])@ == toks[k],
                    t <= toks.len(),
                    hay@.len() <= u16::MAX,
                    acc == total_score(toks.subrange(0, t as int), hay@),
                decreases toks.len() - t,
            {
                let score = atom_score(tokens[t].as_str(), hay.as_str());
                assert(toks.subrange(0, t + 1).drop_last() =~= toks.subrange(0, t as int));
                assert(toks.subrange(0, t + 1).last() == toks[t as int]);
                match (acc, score) {
                    (Some(a), Some(x)) => {
                        acc = Some(a.wrapping_add(x));
                    },
                    _ => {
                        acc = None;
                    },
                }
                t += 1;
            }
            proof {
                if acc is None {
                    lemma_total_none_stays(toks, hay@, t as int);
                } else {
                    assert(toks.subrange(0, t as int) =~= toks);
                }
            }
            totals.push(acc);
            i += 1;
        }
        assert(totals@ =~= Seq::new(n as nat, |i: int| total_score(toks, self.codes()[i])));
        let r = rank_by_score(&totals);
        proof {
            assert(totals@ == self.totals_for(query@));
            lemma_ranked_unique(totals@, r@, ranking(totals@));
        }
        r
    }
}

} // verus!
