use vstd::prelude::*;

use ahash::AHashMap;
use vstd::std_specs::cmp::PartialEqSpecImpl;

use crate::dict::{arena_range_ok, arena_str, Candidate, DictKind, DictKindName, DictMeta};
use crate::fuzz_dict::FuzzDict;
use crate::prefix_dict::PrefixDict;
use crate::text::{chars_of, string_from_chars, string_push};

verus! {

/// The key that turns to the previous page of candidates (U+21DE).
pub const PAGE_UP: char = '\u{21DE}';

/// The key that turns to the next page of candidates (U+21DF).
pub const PAGE_DOWN: char = '\u{21DF}';

// ---------------------------------------------------------------------------
// Punctuation table
// ---------------------------------------------------------------------------

/// The strings of a list of `String`s.
pub open spec fn strings_view(v: Seq<String>) -> Seq<Seq<char>> {
    Seq::new(v.len(), |i: int| v[i]@)
}

/// What `c` maps to in a list of entries where a later entry replaces an earlier one.
pub open spec fn punc_lookup(es: Seq<(char, Seq<Seq<char>>)>, c: char) -> Option<Seq<Seq<char>>>
    decreases es.len(),
{
    if es.len() == 0 {
        None
    } else if es.last().0 == c {
        Some(es.last().1)
    } else {
        punc_lookup(es.drop_last(), c)
    }
}

proof fn lemma_punc_lookup_append(a: Seq<(char, Seq<Seq<char>>)>, b: Seq<(char, Seq<Seq<char>>)>, c: char)
    ensures
        punc_lookup(a + b, c) == (if punc_lookup(b, c) is Some {
            punc_lookup(b, c)
        } else {
            punc_lookup(a, c)
        }),
    decreases b.len(),
{
    if b.len() == 0 {
        assert(a + b =~= a);
    } else {
        assert((a + b).drop_last() =~= a + b.drop_last());
        assert((a + b).last() == b.last());
        lemma_punc_lookup_append(a, b.drop_last(), c);
    }
}

proof fn lemma_lookup_key(es: Seq<(char, Seq<Seq<char>>)>, k: int)
    requires
        0 <= k < es.len(),
    ensures
        punc_lookup(es, es[k].0) is Some,
    decreases es.len(),
{
    if es.last().0 != es[k].0 {
        assert(k < es.len() - 1);
        assert(es.drop_last()[k] == es[k]);
        lemma_lookup_key(es.drop_last(), k);
    }
}

proof fn lemma_lookup_has_entry(es: Seq<(char, Seq<Seq<char>>)>, c: char) -> (k: int)
    requires
        punc_lookup(es, c) is Some,
    ensures
        0 <= k < es.len(),
        es[k].0 == c,
    decreases es.len(),
{
    if es.last().0 == c {
        (es.len() - 1) as int
    } else {
        let k = lemma_lookup_has_entry(es.drop_last(), c);
        assert(es.drop_last()[k] == es[k]);
        k
    }
}

/// The punctuation table: for a key character, the strings it can give, the first
/// one being the default. Setting a key again replaces what it gave.
#[derive(Clone, Debug)]
pub struct PuncMap {
    entries: Vec<(char, Vec<String>)>,
}

impl PuncMap {
    /// The entries in the order they were set, each as a key and its strings.
    pub closed spec fn entries_view(&self) -> Seq<(char, Seq<Seq<char>>)> {
        Seq::new(self.entries@.len(), |i: int| (self.entries@[i].0, strings_view(self.entries@[i].1@)))
    }

    /// The strings that `c` gives, if it is a key.
    pub open spec fn lookup(&self, c: char) -> Option<Seq<Seq<char>>> {
        punc_lookup(self.entries_view(), c)
    }

    /// Every key gives at least one string.
    pub open spec fn lists_nonempty(&self) -> bool {
        forall|c: char| #[trigger] self.lookup(c) matches Some(ps) ==> ps.len() > 0
    }

    /// An empty table.
    pub fn new() -> (m: Self)
        ensures
            m.entries_view().len() == 0,
            forall|c: char| #[trigger] m.lookup(c) is None,
    {
        let m = PuncMap { entries: Vec::new() };
        assert(m.entries_view() =~= Seq::<(char, Seq<Seq<char>>)>::empty());
        m
    }

    /// Sets what `c` gives.
    pub fn insert(&mut self, c: char, strings: Vec<String>)
        ensures
            final(self).entries_view() == old(self).entries_view().push((c, strings_view(strings@))),
            final(self).lookup(c) == Some(strings_view(strings@)),
            forall|d: char| d != c ==> #[trigger] final(self).lookup(d) == old(self).lookup(d),
    {
        let ghost before = self.entries_view();
        self.entries.push((c, strings));
        assert(self.entries_view() =~= before.push((c, strings_view(strings@))));
        assert(self.entries_view().drop_last() =~= before);
    }

    /// The strings that `c` gives, if it is a key.
    pub fn get(&self, c: char) -> (r: Option<&Vec<String>>)
        ensures
            r is Some <==> self.lookup(c) is Some,
            r matches Some(v) ==> self.lookup(c) == Some(strings_view(v@)),
    {
        let mut k: usize = self.entries.len();
        let ghost es = self.entries_view();
        assert(es.subrange(0, k as int) =~= es);
        while k > 0
            invariant
                k <= self.entries@.len(),
                es == self.entries_view(),
                punc_lookup(es, c) == punc_lookup(es.subrange(0, k as int), c),
            decreases k,
        {
            let ghost sub = es.subrange(0, k as int);
            assert(sub.drop_last() =~= es.subrange(0, k - 1));
            assert(sub.last() == es[k - 1]);
            if self.entries[k - 1].0 == c {
                return Some(&self.entries[k - 1].1);
            }
            k -= 1;
        }
        None
    }

    /// Whether every key gives at least one string.
    pub fn lists_all_nonempty(&self) -> (b: bool)
        ensures
            b == self.lists_nonempty(),
    {
        let ghost es = self.entries_view();
        let mut i: usize = 0;
        while i < self.entries.len()
            invariant
                i <= self.entries@.len(),
                es == self.entries_view(),
                forall|k: int|
                    0 <= k < i ==> (#[trigger] self.lookup(es[k].0)) is Some && self.lookup(es[k].0)->0.len() > 0,
            decreases self.entries@.len() - i,
        {
            let c = self.entries[i].0;
            assert(c == es[i as int].0);
            proof {
                lemma_lookup_key(es, i as int);
            }
            match self.get(c) {
                Some(v) => {
                    if v.len() == 0 {
                        assert(!self.lists_nonempty());
                        return false;
                    }
                },
                None => {},
            }
            i += 1;
        }
        assert forall|c: char| #[trigger] self.lookup(c) is Some implies self.lookup(c)->0.len() > 0 by {
            let k = lemma_lookup_has_entry(es, c);
        }
        true
    }

    /// Whether `c` is a key.
    pub fn contains_key(&self, c: char) -> (b: bool)
        ensures
            b == self.lookup(c) is Some,
    {
        self.get(c).is_some()
    }

    /// The entries in the order they were set.
    pub fn entries(&self) -> (r: &Vec<(char, Vec<String>)>)
        ensures
            r@.len() == self.entries_view().len(),
            forall|i: int|
                0 <= i < r@.len() ==> (#[trigger] r@[i]).0 == self.entries_view()[i].0
                    && strings_view(r@[i].1@) == self.entries_view()[i].1,
    {
        &self.entries
    }

    /// This table with `patch` under it: a key of `self` keeps what it gives, a key of
    /// `patch` alone gives what it gives in `patch`.
    pub fn over(self, patch: PuncMap) -> (m: Self)
        ensures
            forall|c: char| #[trigger] m.lookup(c) == (if self.lookup(c) is Some {
                self.lookup(c)
            } else {
                patch.lookup(c)
            }),
    {
        let mut entries = patch.entries;
        let mut mine = self.entries;
        let ghost a = patch.entries_view();
        let ghost b = self.entries_view();
        entries.append(&mut mine);
        let m = PuncMap { entries };
        proof {
            assert(m.entries_view() =~= a + b);
            assert forall|c: char| #[trigger] m.lookup(c) == (if self.lookup(c) is Some {
                self.lookup(c)
            } else {
                patch.lookup(c)
            }) by {
                lemma_punc_lookup_append(a, b, c);
            }
        }
        m
    }
}

/// The given strings, each made into a `String`.
fn string_list(a: &str, b: &str, c: Option<&str>, d: Option<&str>) -> (v: Vec<String>)
    ensures
        strings_view(v@) == (match (c, d) {
            (Some(x), Some(y)) => seq![a@, b@, x@, y@],
            (Some(x), None) => seq![a@, b@, x@],
            _ => seq![a@, b@],
        }),
{
    let mut v: Vec<String> = Vec::new();
    v.push(a.to_string());
    v.push(b.to_string());
    if let Some(x) = c {
        v.push(x.to_string());
        if let Some(y) = d {
            v.push(y.to_string());
        }
    }
    assert(strings_view(v@) =~= (match (c, d) {
        (Some(x), Some(y)) => seq![a@, b@, x@, y@],
        (Some(x), None) => seq![a@, b@, x@],
        _ => seq![a@, b@],
    }));
    v
}

// ---------------------------------------------------------------------------
// Configuration
// ---------------------------------------------------------------------------

/// Configuration of the input method.
#[derive(Clone, Debug)]
pub struct Config {
    /// The tables: the first is the main one, the others are reached by their trigger.
    pub dicts: Vec<DictMeta>,
    /// The keys that select a candidate of the current page.
    pub selection_keys: Vec<char>,
    /// The punctuation table.
    pub punctuations: PuncMap,
    /// The characters that open and close an escaped stretch.
    pub escape_pair: Option<[char; 2]>,
    /// Whether an escaped stretch loses its opening and closing characters.
    pub trim_escape_pair: bool,
    /// Number of candidates per page.
    pub page_count: usize,
}

/// The message for a configuration that names no table.
pub open spec fn no_tables_error() -> Seq<char> {
    "配置文件中 dicts 为空，请指定至少一个码表"@
}

impl Config {
    /// Readies a configuration read from a file: it must name at least one table; the
    /// default punctuation fills in the keys it leaves out, and the first table is
    /// reached without a trigger key (`'\0'`).
    pub fn prepare(&mut self) -> (r: Result<(), String>)
        ensures
            r is Err <==> old(self).dicts@.len() == 0,
            r matches Err(m) ==> m@ == no_tables_error() && *final(self) == *old(self),
            r is Ok ==> {
                &&& final(self).dicts@ == old(self).dicts@.update(
                    0,
                    DictMeta { trigger: '\0', ..old(self).dicts@[0] },
                )
                &&& forall|c: char| #[trigger] final(self).punctuations.lookup(c) == (if old(
                    self,
                ).punctuations.lookup(c) is Some {
                    old(self).punctuations.lookup(c)
                } else {
                    punc_lookup(default_punc_entries(), c)
                })
                &&& final(self).selection_keys == old(self).selection_keys
                &&& final(self).escape_pair == old(self).escape_pair
                &&& final(self).trim_escape_pair == old(self).trim_escape_pair
                &&& final(self).page_count == old(self).page_count
            },
    {
        if self.dicts.len() == 0 {
            return Err("配置文件中 dicts 为空，请指定至少一个码表".to_owned());
        }
        let defaults = default_punctuations();
        self.patch_punctuations(defaults);
        let mut ds: Vec<DictMeta> = Vec::new();
        std::mem::swap(&mut ds, &mut self.dicts);
        let ghost before = ds@;
        let mut first = ds.remove(0);
        first.trigger = '\0';
        ds.insert(0, first);
        assert(ds@ =~= before.update(0, DictMeta { trigger: '\0', ..before[0] }));
        self.dicts = ds;
        Ok(())
    }
}

/// The default selection keys, `1` to `9`.
pub open spec fn default_selection_keys_spec() -> Seq<char> {
    seq!['1', '2', '3', '4', '5', '6', '7', '8', '9']
}

pub fn default_selection_keys() -> (v: Vec<char>)
    ensures
        v@ == default_selection_keys_spec(),
{
    let v = vec!['1', '2', '3', '4', '5', '6', '7', '8', '9'];
    assert(v@ =~= default_selection_keys_spec());
    v
}

/// The default escape pair: a backquote opens and closes.
pub fn default_escape_pair() -> (p: Option<[char; 2]>)
    ensures
        p matches Some(a) && a[0] == '`' && a[1] == '`',
{
    Some(['`', '`'])
}

impl Default for Config {
    fn default() -> (c: Self)
        ensures
            c.dicts@.len() == 0,
            c.selection_keys@ == default_selection_keys_spec(),
            c.escape_pair matches Some(a) && a[0] == '`' && a[1] == '`',
            c.trim_escape_pair,
            c.page_count == 9,
    {
        Config {
            dicts: Vec::new(),
            selection_keys: default_selection_keys(),
            punctuations: default_punctuations(),
            escape_pair: default_escape_pair(),
            trim_escape_pair: true,
            page_count: 9,
        }
    }
}

impl Config {
    /// Puts `patch` under the configured punctuation: configured keys keep what they
    /// give, the others come from `patch`.
    pub fn patch_punctuations(&mut self, patch: PuncMap)
        ensures
            forall|c: char| #[trigger] final(self).punctuations.lookup(c) == (if old(
                self,
            ).punctuations.lookup(c) is Some {
                old(self).punctuations.lookup(c)
            } else {
                patch.lookup(c)
            }),
            final(self).dicts == old(self).dicts,
            final(self).selection_keys == old(self).selection_keys,
            final(self).escape_pair == old(self).escape_pair,
            final(self).trim_escape_pair == old(self).trim_escape_pair,
            final(self).page_count == old(self).page_count,
    {
        let mut mine = PuncMap::new();
        std::mem::swap(&mut mine, &mut self.punctuations);
        self.punctuations = mine.over(patch);
    }
}

/// The default punctuation table, key by key.
pub open spec fn default_punc_entries() -> Seq<(char, Seq<Seq<char>>)> {
    seq![
        (',', seq!["，"@, ","@, "……"@]),
        ('.', seq!["。"@, "."@, "……"@]),
        ('!', seq!["！"@, "!"@]),
        ('/', seq!["？"@, "/"@]),
        (';', seq!["；"@, "："@, ";"@]),
        ('[', seq!["「"@, "“"@, "["@, "【"@]),
        (']', seq!["」"@, "”"@, "]"@, "】"@]),
        ('\\', seq!["、"@, "\\"@]),
        ('|', seq!["·"@, "|"@]),
        ('_', seq!["——"@, "_"@]),
        ('<', seq!["《"@, "<"@]),
        ('>', seq!["》"@, ">"@]),
        ('\'', seq!["‘"@, "’"@]),
        ('~', seq!["~"@, "～"@, "~~~"@]),
        ('(', seq!["（"@, "("@, "『"@]),
        (')', seq!["）"@, ")"@, "』"@]),
    ]
}

/// The default punctuation table.
pub fn default_punctuations() -> (m: PuncMap)
    ensures
        m.entries_view() == default_punc_entries(),
{
    let mut m = PuncMap::new();
    m.insert(',', string_list("，", ",", Some("……"), None));
    m.insert('.', string_list("。", ".", Some("……"), None));
    m.insert('!', string_list("！", "!", None, None));
    m.insert('/', string_list("？", "/", None, None));
    m.insert(';', string_list("；", "：", Some(";"), None));
    m.insert('[', string_list("「", "“", Some("["), Some("【")));
    m.insert(']', string_list("」", "”", Some("]"), Some("】")));
    m.insert('\\', string_list("、", "\\", None, None));
    m.insert('|', string_list("·", "|", None, None));
    m.insert('_', string_list("——", "_", None, None));
    m.insert('<', string_list("《", "<", None, None));
    m.insert('>', string_list("》", ">", None, None));
    m.insert('\'', string_list("‘", "’", None, None));
    m.insert('~', string_list("~", "～", Some("~~~"), None));
    m.insert('(', string_list("（", "(", Some("『"), None));
    m.insert(')', string_list("）", ")", Some("』"), None));
    assert(m.entries_view() =~= default_punc_entries());
    m
}


// ---------------------------------------------------------------------------
// Segments and their tags
// ---------------------------------------------------------------------------

/// How a code segment selects its candidate: page, selection key, table.
#[derive(PartialEq, Eq, Structural, Clone, Copy, Debug)]
pub struct CodeSelection {
    pub page_no: usize,
    pub sel_idx: usize,
    pub dict_idx: usize,
    pub has_selection: bool,
    pub has_pagination: bool,
}

impl Default for CodeSelection {
    fn default() -> (s: Self)
        ensures
            s == (CodeSelection {
                page_no: 0,
                sel_idx: 0,
                dict_idx: 0,
                has_selection: false,
                has_pagination: false,
            }),
    {
        CodeSelection {
            page_no: 0,
            sel_idx: 0,
            dict_idx: 0,
            has_selection: false,
            has_pagination: false,
        }
    }
}

/// What a segment of the input is.
#[derive(Eq, Clone, Copy, Debug)]
pub enum Tag {
    /// A code looked up in a table.
    Code(CodeSelection),
    /// Punctuation: the selection key's position and whether one ends the segment.
    Punctuation((usize, bool)),
    /// An escaped stretch, with its opening and closing characters.
    Escape((char, char)),
    /// Characters that are none of the above.
    Unknown,
}

impl PartialEq for Tag {
    fn eq(&self, other: &Self) -> (r: bool) {
        match (self, other) {
            (Tag::Code(a), Tag::Code(b)) => *a == *b,
            (Tag::Punctuation(a), Tag::Punctuation(b)) => a.0 == b.0 && a.1 == b.1,
            (Tag::Escape(a), Tag::Escape(b)) => a.0 == b.0 && a.1 == b.1,
            (Tag::Unknown, Tag::Unknown) => true,
            _ => false,
        }
    }
}

impl PartialEqSpecImpl for Tag {
    open spec fn obeys_eq_spec() -> bool {
        true
    }

    open spec fn eq_spec(&self, other: &Tag) -> bool {
        *self == *other
    }
}

impl Tag {
    /// Whether the segment ends with a selection key.
    pub fn has_selection(&self) -> (b: bool)
        ensures
            b == match *self {
                Tag::Code(sel) => sel.has_selection,
                Tag::Punctuation(p) => p.1,
                _ => false,
            },
    {
        match self {
            Tag::Code(sel) => sel.has_selection,
            Tag::Punctuation(sel) => sel.1,
            _ => false,
        }
    }

    /// The name of the tag's kind.
    pub fn tag_name(&self) -> (s: &'static str)
        ensures
            s@ == match *self {
                Tag::Code(_) => "code"@,
                Tag::Punctuation(_) => "punctuation"@,
                Tag::Escape(_) => "escape"@,
                Tag::Unknown => "unknown"@,
            },
    {
        match self {
            Tag::Code(_) => "code",
            Tag::Punctuation(_) => "punctuation",
            Tag::Escape(_) => "escape",
            Tag::Unknown => "unknown",
        }
    }
}

/// A candidate shown to the user: its code, text and weight, the whole input that led
/// to it, its position on the page and the key that selects it.
#[derive(Debug)]
pub struct CandidateRich {
    pub code: String,
    pub text: String,
    pub weight: i32,
    pub origin: Vec<char>,
    pub order: usize,
    pub select_key: char,
}

/// A candidate as plain values.
pub struct RichView {
    pub code: Seq<char>,
    pub text: Seq<char>,
    pub weight: i32,
    pub origin: Seq<char>,
    pub order: usize,
    pub select_key: char,
}

impl CandidateRich {
    pub open spec fn view_of(&self) -> RichView {
        RichView {
            code: self.code@,
            text: self.text@,
            weight: self.weight,
            origin: self.origin@,
            order: self.order,
            select_key: self.select_key,
        }
    }

    pub fn new(
        code: String,
        text: String,
        weight: i32,
        origin: Vec<char>,
        order: usize,
        select_key: char,
    ) -> (c: Self)
        ensures
            c.code == code,
            c.text == text,
            c.weight == weight,
            c.origin == origin,
            c.order == order,
            c.select_key == select_key,
    {
        CandidateRich { code, text, weight, origin, order, select_key }
    }
}

pub open spec fn rich_views(v: Seq<CandidateRich>) -> Seq<RichView> {
    Seq::new(v.len(), |i: int| v[i].view_of())
}

/// The result of an analysis: the segments as `(text, input, tag)`, whether the last
/// one is still pending, and the candidates of the last one.
#[derive(Debug)]
pub struct AnalysisResult {
    pub segments: Vec<(String, Vec<char>, Tag)>,
    pub pending: bool,
    pub candidates: Option<Vec<CandidateRich>>,
}

// ---------------------------------------------------------------------------
// Map from a character to its longest code in the main table
// ---------------------------------------------------------------------------

#[verifier::external_type_specification]
#[verifier::external_body]
#[verifier::reject_recursive_types(K)]
#[verifier::reject_recursive_types(V)]
#[verifier::reject_recursive_types(S)]
pub struct ExAHashMap<K, V, S>(AHashMap<K, V, S>);

#[verifier::external_type_specification]
#[verifier::external_body]
pub struct ExAHashRandomState(ahash::RandomState);

/// Where a code stands in a table's arena: offset and length.
pub type CodeRange = (u32, u16);

/// What an `AHashMap` from characters to code ranges holds.
pub uninterp spec fn code_map_contents(m: AHashMap<char, CodeRange>) -> Map<char, CodeRange>;

/// `AHashMap::new`: an empty map.
#[verifier::external_body]
fn code_map_new() -> (r: AHashMap<char, CodeRange>)
    ensures
        code_map_contents(r).dom().is_empty(),
{
    AHashMap::new()
}

/// `AHashMap::get`: the value of `c`, if the map has it.
#[verifier::external_body]
fn code_map_get(m: &AHashMap<char, CodeRange>, c: char) -> (r: Option<CodeRange>)
    ensures
        r is Some <==> code_map_contents(*m).dom().contains(c),
        r matches Some(v) ==> v == code_map_contents(*m)[c],
{
    m.get(&c).copied()
}

/// `AHashMap::insert`: `c` now maps to `v`, the other keys are unchanged.
#[verifier::external_body]
fn code_map_insert(m: &mut AHashMap<char, CodeRange>, c: char, v: CodeRange)
    ensures
        code_map_contents(*final(m)) == code_map_contents(*old(m)).insert(c, v),
{
    m.insert(c, v);
}

/// For each character that is the whole text of some candidates, the longest of
/// their codes (the first one among equally long ones).
pub open spec fn code_map_of(arena: Seq<char>, cands: Seq<Candidate>) -> Map<char, (u32, u16)>
    decreases cands.len(),
{
    if cands.len() == 0 {
        Map::empty()
    } else {
        let m = code_map_of(arena, cands.drop_last());
        let c = cands.last();
        let t = arena_str(arena, c.text);
        if t.len() == 1 {
            if m.dom().contains(t[0]) {
                if c.code.1 > m[t[0]].1 {
                    m.insert(t[0], c.code)
                } else {
                    m
                }
            } else {
                m.insert(t[0], c.code)
            }
        } else {
            m
        }
    }
}

proof fn lemma_code_map_ranges(arena: Seq<char>, cands: Seq<Candidate>)
    requires
        crate::prefix_dict::ranges_ok(arena, cands),
    ensures
        forall|c: char| #[trigger] code_map_of(arena, cands).dom().contains(c) ==> arena_range_ok(
            arena,
            code_map_of(arena, cands)[c],
        ),
    decreases cands.len(),
{
    if cands.len() > 0 {
        assert(crate::prefix_dict::ranges_ok(arena, cands.drop_last())) by {
            assert forall|i: int| 0 <= i < cands.drop_last().len() implies arena_range_ok(
                arena,
                (#[trigger] cands.drop_last()[i]).code,
            ) && arena_range_ok(arena, cands.drop_last()[i].text) by {
                assert(cands.drop_last()[i] == cands[i]);
            }
        }
        lemma_code_map_ranges(arena, cands.drop_last());
        assert(arena_range_ok(arena, cands[cands.len() - 1].code));
        let m = code_map_of(arena, cands.drop_last());
        let r = code_map_of(arena, cands);
        assert forall|c: char| #[trigger] r.dom().contains(c) implies arena_range_ok(arena, r[c]) by {
            if m.dom().contains(c) {
                assert(arena_range_ok(arena, m[c]));
            }
        }
    }
}

// ---------------------------------------------------------------------------
// The analyzer
// ---------------------------------------------------------------------------

/// Splits the input into segments and looks each up: codes in the tables,
/// punctuation in the punctuation table, escaped stretches as they are.
#[derive(Debug)]
pub struct InputAnalyzer {
    dicts: Vec<(DictMeta, DictKind)>,
    main_dict_code_map: AHashMap<char, (u32, u16)>,
    escape_pair: Option<[char; 2]>,
    trim_escape_pair: bool,
    selection_keys: Vec<char>,
    punctuations: PuncMap,
    page_count: usize,
}

/// The map from a character to its longest code that an analyzer over `dicts` keeps:
/// from the main table when it is a prefix table and there are other tables.
pub open spec fn expected_code_map(dicts: Seq<(DictMeta, DictKind)>) -> Map<char, (u32, u16)> {
    if dicts.len() > 1 {
        match dicts[0].1 {
            DictKind::Prefix(d) => code_map_of(d.arena_view(), d.cands_view()),
            DictKind::Fuzzy(_) => Map::empty(),
        }
    } else {
        Map::empty()
    }
}

impl InputAnalyzer {
    #[verifier::type_invariant]
    spec fn inv(self) -> bool {
        code_map_contents(self.main_dict_code_map) == expected_code_map(self.dicts@)
    }

    pub closed spec fn dicts_view(&self) -> Seq<(DictMeta, DictKind)> {
        self.dicts@
    }

    pub closed spec fn escape_view(&self) -> Option<[char; 2]> {
        self.escape_pair
    }

    pub closed spec fn trim_view(&self) -> bool {
        self.trim_escape_pair
    }

    pub closed spec fn keys_view(&self) -> Seq<char> {
        self.selection_keys@
    }

    pub closed spec fn puncs_view(&self) -> PuncMap {
        self.punctuations
    }

    pub closed spec fn page_count_view(&self) -> usize {
        self.page_count
    }

    /// What an analysis needs: a main table that is a prefix table, a page of at least
    /// one candidate, and punctuation keys that give at least one string each.
    pub open spec fn well_formed(&self) -> bool {
        &&& self.dicts_view().len() > 0
        &&& self.dicts_view()[0].1 is Prefix
        &&& self.page_count_view() > 0
        &&& self.puncs_view().lists_nonempty()
    }

    /// The analyzer for `config` over the tables `dicts` (the first is the main one).
    pub fn new(config: Config, dicts: Vec<(DictMeta, DictKind)>) -> (a: Self)
        ensures
            a.dicts_view() == dicts@,
            a.escape_view() == config.escape_pair,
            a.trim_view() == config.trim_escape_pair,
            a.keys_view() == config.selection_keys@,
            a.puncs_view() == config.punctuations,
            a.page_count_view() == config.page_count,
    {
        let Config {
            dicts: _,
            selection_keys,
            punctuations,
            escape_pair,
            trim_escape_pair,
            page_count,
        } = config;
        let mut code_map = code_map_new();
        assert(code_map_contents(code_map) =~= Map::<char, CodeRange>::empty());
        if dicts.len() > 1 {
            match &dicts[0].1 {
                DictKind::Prefix(main_dict) => {
                    let cands = main_dict.candidates();
                    let ghost arena = main_dict.arena_view();
                    let mut i: usize = 0;
                    while i < cands.len()
                        invariant
                            i <= cands@.len(),
                            cands@ == main_dict.cands_view(),
                            arena == main_dict.arena_view(),
                            crate::prefix_dict::ranges_ok(arena, cands@),
                            code_map_contents(code_map) == code_map_of(
                                arena,
                                cands@.subrange(0, i as int),
                            ),
                        decreases cands@.len() - i,
                    {
                        let cand = cands[i];
                        proof {
                            assert(arena_range_ok(arena, cands@[i as int].text));
                            assert(cands@.subrange(0, i + 1).drop_last() =~= cands@.subrange(0, i as int));
                            assert(cands@.subrange(0, i + 1).last() == cand);
                        }
                        let text = main_dict.get_str(cand.text);
                        let chars = crate::text::chars_of(text.as_str());
                        if chars.len() == 1 {
                            let ch = chars[0];
                            match code_map_get(&code_map, ch) {
                                Some(existing) => {
                                    if cand.code.1 > existing.1 {
                                        code_map_insert(&mut code_map, ch, cand.code);
                                    }
                                },
                                None => {
                                    code_map_insert(&mut code_map, ch, cand.code);
                                },
                            }
                        }
                        i += 1;
                    }
                    proof {
                        assert(cands@.subrange(0, i as int) =~= cands@);
                    }
                },
                DictKind::Fuzzy(_) => {},
            }
        }
        InputAnalyzer {
            dicts,
            selection_keys,
            main_dict_code_map: code_map,
            escape_pair,
            trim_escape_pair,
            punctuations,
            page_count,
        }
    }

    /// Whether the analyzer can analyze: a main prefix table, a page of at least one
    /// candidate, and punctuation keys that each give some string.
    pub fn is_well_formed(&self) -> (b: bool)
        ensures
            b == self.well_formed(),
    {
        if self.dicts.len() == 0 || self.page_count == 0 {
            return false;
        }
        let main_prefix = match &self.dicts[0].1 {
            DictKind::Prefix(_) => true,
            DictKind::Fuzzy(_) => false,
        };
        main_prefix && self.punctuations.lists_all_nonempty()
    }

    /// The main table; it must be a prefix table.
    pub fn main_dict(&self) -> (d: &PrefixDict)
        requires
            self.dicts_view().len() > 0,
            self.dicts_view()[0].1 is Prefix,
        ensures
            self.dicts_view()[0].1 == DictKind::Prefix(*d),
    {
        self.dicts[0].1.as_prefix()
    }

    /// The tables, with their descriptions.
    pub fn get_dicts(&self) -> (r: &Vec<(DictMeta, DictKind)>)
        ensures
            r@ == self.dicts_view(),
    {
        &self.dicts
    }

    /// The descriptions of the tables.
    pub fn dict_metas(&self) -> (r: Vec<&DictMeta>)
        ensures
            r@.len() == self.dicts_view().len(),
            forall|i: int| 0 <= i < r@.len() ==> *(#[trigger] r@[i]) == self.dicts_view()[i].0,
    {
        let mut r: Vec<&DictMeta> = Vec::new();
        let mut i: usize = 0;
        while i < self.dicts.len()
            invariant
                i <= self.dicts@.len(),
                r@.len() == i,
                forall|j: int| 0 <= j < i ==> *(#[trigger] r@[j]) == self.dicts@[j].0,
            decreases self.dicts@.len() - i,
        {
            r.push(&self.dicts[i].0);
            i += 1;
        }
        r
    }

    pub fn get_selection_keys(&self) -> (r: &Vec<char>)
        ensures
            r@ == self.keys_view(),
    {
        &self.selection_keys
    }

    pub fn get_page_count(&self) -> (n: usize)
        ensures
            n == self.page_count_view(),
    {
        self.page_count
    }
}

impl Default for InputAnalyzer {
    fn default() -> (a: Self)
        ensures
            a.dicts_view().len() == 1,
            a.dicts_view()[0].1 matches DictKind::Prefix(p) && p.cands_view().len() == 0,
            a.escape_view() is None,
            !a.trim_view(),
            a.keys_view().len() == 0,
            a.page_count_view() == 1,
            forall|c: char| #[trigger] a.puncs_view().lookup(c) is None,
    {
        let mut dicts: Vec<(DictMeta, DictKind)> = Vec::new();
        dicts.push((DictMeta::default(), DictKind::default()));
        let code_map = code_map_new();
        assert(code_map_contents(code_map) =~= Map::<char, CodeRange>::empty());
        InputAnalyzer {
            dicts,
            main_dict_code_map: code_map,
            escape_pair: None,
            trim_escape_pair: false,
            selection_keys: Vec::new(),
            punctuations: PuncMap::new(),
            page_count: 1,
        }
    }
}


// ---------------------------------------------------------------------------
// Splitting the input into segments
// ---------------------------------------------------------------------------

/// Position of the first `c` in `keys` at or after `i`.
pub open spec fn index_from(keys: Seq<char>, c: char, i: int) -> Option<usize>
    decreases keys.len() - i,
{
    if i < 0 || i >= keys.len() {
        None
    } else if keys[i] == c {
        Some(i as usize)
    } else {
        index_from(keys, c, i + 1)
    }
}

/// Position of the first `c` in `keys`.
pub open spec fn key_index(keys: Seq<char>, c: char) -> Option<usize> {
    index_from(keys, c, 0)
}

/// Position of the first `c` in `keys`.
fn position(keys: &Vec<char>, c: char) -> (r: Option<usize>)
    ensures
        r == key_index(keys@, c),
        r matches Some(i) ==> i < keys@.len() && keys@[i as int] == c,
{
    let mut i: usize = 0;
    while i < keys.len()
        invariant
            i <= keys@.len(),
            key_index(keys@, c) == index_from(keys@, c, i as int),
        decreases keys@.len() - i,
    {
        if keys[i] == c {
            return Some(i);
        }
        i += 1;
    }
    None
}

/// Position of the first table whose trigger is `c`, at or after `i`.
pub open spec fn trigger_from(dicts: Seq<(DictMeta, DictKind)>, c: char, i: int) -> Option<usize>
    decreases dicts.len() - i,
{
    if i < 0 || i >= dicts.len() {
        None
    } else if dicts[i].0.trigger == c {
        Some(i as usize)
    } else {
        trigger_from(dicts, c, i + 1)
    }
}

proof fn lemma_trigger_from_bound(dicts: Seq<(DictMeta, DictKind)>, c: char, i: int)
    requires
        0 <= i,
        dicts.len() <= usize::MAX,
    ensures
        trigger_from(dicts, c, i) matches Some(k) ==> i <= k < dicts.len() && dicts[k as int].0.trigger
            == c,
    decreases dicts.len() - i,
{
    if 0 <= i < dicts.len() && dicts[i].0.trigger != c {
        lemma_trigger_from_bound(dicts, c, i + 1);
    }
}

/// End of an escaped stretch whose content starts at `k`: just past the first
/// `close`, or the end of the input.
pub open spec fn escape_end(input: Seq<char>, close: char, k: int) -> int
    decreases input.len() - k,
{
    if k < 0 || k >= input.len() {
        input.len() as int
    } else if input[k] == close {
        k + 1
    } else {
        escape_end(input, close, k + 1)
    }
}

proof fn lemma_escape_end_bound(input: Seq<char>, close: char, k: int)
    requires
        0 <= k,
    ensures
        k <= escape_end(input, close, k) <= input.len() || (k > input.len() && escape_end(input, close, k) == input.len()),
    decreases input.len() - k,
{
    if k < input.len() && input[k] != close {
        lemma_escape_end_bound(input, close, k + 1);
    }
}

/// How far the code scan got: the code characters taken, where it stopped, the
/// page and selection found, and whether it gave up on the first character.
pub struct CodeScan {
    pub codes: Seq<char>,
    pub end: int,
    pub page_no: usize,
    pub sel_idx: usize,
    pub has_selection: bool,
    pub has_pagination: bool,
    pub bail: bool,
}

pub open spec fn scan_begin() -> CodeScan {
    CodeScan {
        codes: Seq::empty(),
        end: 0,
        page_no: 0,
        sel_idx: 0,
        has_selection: false,
        has_pagination: false,
        bail: false,
    }
}

/// A segment found at some position: its characters, its tag and where it ends.
pub type SegFound = (Seq<char>, Tag, int);

/// The unknown characters gathered so far, as a segment if there are any.
pub open spec fn flush_unknown(unk: Seq<char>) -> Seq<(Seq<char>, Tag)> {
    if unk.len() > 0 {
        seq![(unk, Tag::Unknown)]
    } else {
        Seq::empty()
    }
}

impl InputAnalyzer {
    /// An escaped stretch at `pos`: from the opening character to the closing one (or
    /// to the end of the input).
    pub open spec fn seg_escape(&self, input: Seq<char>, pos: int) -> Option<SegFound> {
        match self.escape_view() {
            Some(pair) => if 0 <= pos < input.len() && input[pos] == pair[0] {
                let e = escape_end(input, pair[1], pos + 1);
                Some((input.subrange(pos, e), Tag::Escape((pair[0], pair[1])), e))
            } else {
                None
            },
            None => None,
        }
    }

    /// After the first punctuation character `f`: repeats of `f` are taken, then a
    /// selection key ends the segment (and is taken); anything else ends it untaken.
    pub open spec fn punc_scan(&self, input: Seq<char>, f: char, k: int) -> (int, Option<usize>)
        decreases input.len() - k,
    {
        if k < 0 || k >= input.len() {
            (input.len() as int, None)
        } else if input[k] == f {
            self.punc_scan(input, f, k + 1)
        } else {
            match key_index(self.keys_view(), input[k]) {
                Some(i) => (k + 1, Some(i)),
                None => (k, None),
            }
        }
    }

    /// A punctuation segment at `pos`.
    pub open spec fn seg_punc(&self, input: Seq<char>, pos: int) -> Option<SegFound> {
        if 0 <= pos < input.len() && self.puncs_view().lookup(input[pos]) is Some {
            let (e, sel) = self.punc_scan(input, input[pos], pos + 1);
            Some(
                (
                    input.subrange(pos, e),
                    match sel {
                        Some(i) => Tag::Punctuation((i, true)),
                        None => Tag::Punctuation((0, false)),
                    },
                    e,
                ),
            )
        } else {
            None
        }
    }

    /// Takes code characters from `k` on while the table `d` has candidates for them;
    /// past the first one, page keys are taken and counted, a selection key ends the
    /// scan (taken), and any other character ends it untaken.
    pub open spec fn code_scan(&self, input: Seq<char>, d: DictKind, k: int, st: CodeScan) -> CodeScan
        decreases input.len() - k,
    {
        if k < 0 || k >= input.len() {
            CodeScan { end: k, ..st }
        } else {
            let ch = input[k];
            let codes = st.codes.push(ch);
            if d.can_reach(codes) {
                self.code_scan(input, d, k + 1, CodeScan { codes, ..st })
            } else if codes.len() > 1 {
                if ch == PAGE_DOWN {
                    self.code_scan(
                        input,
                        d,
                        k + 1,
                        CodeScan { codes, page_no: st.page_no.saturating_add(1), has_pagination: true, ..st },
                    )
                } else if ch == PAGE_UP {
                    self.code_scan(
                        input,
                        d,
                        k + 1,
                        CodeScan { codes, page_no: st.page_no.saturating_sub(1), has_pagination: true, ..st },
                    )
                } else {
                    match key_index(self.keys_view(), ch) {
                        Some(i) => CodeScan { codes, end: k + 1, sel_idx: i, has_selection: true, ..st },
                        None => CodeScan { end: k, ..st },
                    }
                }
            } else {
                CodeScan { codes, end: k, bail: true, ..st }
            }
        }
    }

    /// The table a code at `pos` is looked up in, and whether its first character is
    /// that table's trigger.
    pub open spec fn code_table(&self, input: Seq<char>, pos: int) -> (usize, bool) {
        match trigger_from(self.dicts_view(), input[pos], 0) {
            Some(i) => (i, true),
            None => (0usize, false),
        }
    }

    /// A code segment at `pos`.
    pub open spec fn seg_code(&self, input: Seq<char>, pos: int) -> Option<SegFound> {
        if pos < 0 || pos >= input.len() {
            None
        } else {
            let first = input[pos];
            let (di, hp) = self.code_table(input, pos);
            let d = self.dicts_view()[di as int].1;
            let start = if hp {
                pos + 1
            } else {
                pos
            };
            let sc = self.code_scan(input, d, start, scan_begin());
            if sc.bail {
                if hp {
                    Some(
                        (
                            seq![first],
                            Tag::Code(
                                CodeSelection {
                                    page_no: 0,
                                    sel_idx: 0,
                                    dict_idx: di,
                                    has_selection: false,
                                    has_pagination: false,
                                },
                            ),
                            pos + 1,
                        ),
                    )
                } else {
                    None
                }
            } else {
                let codes = if hp {
                    seq![first] + sc.codes
                } else {
                    sc.codes
                };
                if codes.len() == 0 {
                    None
                } else {
                    Some(
                        (
                            codes,
                            Tag::Code(
                                CodeSelection {
                                    page_no: sc.page_no,
                                    sel_idx: sc.sel_idx,
                                    dict_idx: di,
                                    has_selection: sc.has_selection,
                                    has_pagination: sc.has_pagination,
                                },
                            ),
                            sc.end,
                        ),
                    )
                }
            }
        }
    }

    /// The segment at `pos`: escaped, punctuation or code, tried in that order.
    pub open spec fn seg_at(&self, input: Seq<char>, pos: int) -> Option<SegFound> {
        match self.seg_escape(input, pos) {
            Some(f) => Some(f),
            None => match self.seg_punc(input, pos) {
                Some(f) => Some(f),
                None => self.seg_code(input, pos),
            },
        }
    }

    /// The segments of `input` from `pos`, with the unknown characters `unk` gathered
    /// just before: characters that start no segment gather into unknown segments.
    pub open spec fn segs_from(&self, input: Seq<char>, pos: int, unk: Seq<char>) -> Seq<(Seq<char>, Tag)>
        decreases input.len() - pos,
    {
        if pos < 0 || pos >= input.len() {
            flush_unknown(unk)
        } else {
            match self.seg_at(input, pos) {
                Some(f) => if f.2 <= pos || f.2 > input.len() {
                    Seq::empty()
                } else {
                    flush_unknown(unk) + seq![(f.0, f.1)] + self.segs_from(input, f.2, Seq::empty())
                },
                None => self.segs_from(input, pos + 1, unk.push(input[pos])),
            }
        }
    }

    /// The segments of `input`.
    pub open spec fn segs(&self, input: Seq<char>) -> Seq<(Seq<char>, Tag)> {
        self.segs_from(input, 0, Seq::empty())
    }
}

/// The characters of the segments, one after the other.
pub open spec fn seg_chars(segs: Seq<(Seq<char>, Tag)>) -> Seq<char>
    decreases segs.len(),
{
    if segs.len() == 0 {
        Seq::empty()
    } else {
        seg_chars(segs.drop_last()) + segs.last().0
    }
}

proof fn lemma_seg_chars_one(x: (Seq<char>, Tag))
    ensures
        seg_chars(seq![x]) == x.0,
{
    let s = seq![x];
    assert(s.drop_last() =~= Seq::<(Seq<char>, Tag)>::empty());
    assert(seg_chars(s.drop_last()) == Seq::<char>::empty());
    assert(seg_chars(s) == seg_chars(s.drop_last()) + s.last().0);
    assert(Seq::<char>::empty() + x.0 =~= x.0);
}

proof fn lemma_seg_chars_append(a: Seq<(Seq<char>, Tag)>, b: Seq<(Seq<char>, Tag)>)
    ensures
        seg_chars(a + b) == seg_chars(a) + seg_chars(b),
    decreases b.len(),
{
    if b.len() == 0 {
        assert(a + b =~= a);
        assert(seg_chars(a) + seg_chars(b) =~= seg_chars(a));
    } else {
        lemma_seg_chars_append(a, b.drop_last());
        assert((a + b).drop_last() =~= a + b.drop_last());
        assert(seg_chars(a) + seg_chars(b) =~= seg_chars(a) + seg_chars(b.drop_last()) + b.last().0);
    }
}

proof fn lemma_code_scan_cover(
    a: &InputAnalyzer,
    input: Seq<char>,
    d: DictKind,
    s0: int,
    k: int,
    st: CodeScan,
)
    requires
        0 <= s0 <= k <= input.len(),
        st.codes == input.subrange(s0, k),
    ensures
        !a.code_scan(input, d, k, st).bail ==> k <= a.code_scan(input, d, k, st).end <= input.len()
            && a.code_scan(input, d, k, st).codes == input.subrange(s0, a.code_scan(input, d, k, st).end),
    decreases input.len() - k,
{
    if k < input.len() {
        let ch = input[k];
        let codes = st.codes.push(ch);
        assert(codes =~= input.subrange(s0, k + 1));
        if d.can_reach(codes) {
            lemma_code_scan_cover(a, input, d, s0, k + 1, CodeScan { codes, ..st });
        } else if codes.len() > 1 {
            if ch == PAGE_DOWN {
                lemma_code_scan_cover(
                    a,
                    input,
                    d,
                    s0,
                    k + 1,
                    CodeScan { codes, page_no: st.page_no.saturating_add(1), has_pagination: true, ..st },
                );
            } else if ch == PAGE_UP {
                lemma_code_scan_cover(
                    a,
                    input,
                    d,
                    s0,
                    k + 1,
                    CodeScan { codes, page_no: st.page_no.saturating_sub(1), has_pagination: true, ..st },
                );
            }
        }
    }
}

impl InputAnalyzer {
    proof fn lemma_seg_at_cover(&self, input: Seq<char>, pos: int)
        requires
            0 <= pos < input.len(),
        ensures
            self.seg_at(input, pos) matches Some(f) ==> pos < f.2 <= input.len() && f.0 == input.subrange(
                pos,
                f.2,
            ),
    {
        if self.seg_escape(input, pos) is Some {
            let pair = self.escape_view()->0;
            lemma_escape_end_bound(input, pair[1], pos + 1);
        } else if self.seg_punc(input, pos) is Some {
            lemma_punc_scan_bound(self, input, input[pos], pos + 1);
        } else {
            let (di, hp) = self.code_table(input, pos);
            let d = self.dicts_view()[di as int].1;
            let start = if hp {
                pos + 1
            } else {
                pos
            };
            assert(scan_begin().codes =~= input.subrange(start, start));
            lemma_code_scan_cover(self, input, d, start, start, scan_begin());
            let sc = self.code_scan(input, d, start, scan_begin());
            if !sc.bail && hp {
                assert(seq![input[pos]] + sc.codes =~= input.subrange(pos, sc.end));
            }
            if sc.bail && hp {
                assert(seq![input[pos]] =~= input.subrange(pos, pos + 1));
            }
        }
    }

    proof fn lemma_segs_from_cover(&self, input: Seq<char>, pos: int, unk: Seq<char>)
        requires
            0 <= pos <= input.len(),
        ensures
            seg_chars(self.segs_from(input, pos, unk)) == unk + input.subrange(pos, input.len() as int),
        decreases input.len() - pos,
    {
        if pos >= input.len() {
            assert(unk + input.subrange(pos, input.len() as int) =~= unk);
            if unk.len() > 0 {
                lemma_seg_chars_one((unk, Tag::Unknown));
            } else {
                assert(seg_chars(flush_unknown(unk)) =~= unk);
            }
        } else {
            self.lemma_seg_at_cover(input, pos);
            match self.seg_at(input, pos) {
                Some(f) => {
                    self.lemma_segs_from_cover(input, f.2, Seq::empty());
                    let head = flush_unknown(unk) + seq![(f.0, f.1)];
                    let rest = self.segs_from(input, f.2, Seq::empty());
                    lemma_seg_chars_append(head, rest);
                    lemma_seg_chars_append(flush_unknown(unk), seq![(f.0, f.1)]);
                    lemma_seg_chars_one((f.0, f.1));
                    if unk.len() > 0 {
                        lemma_seg_chars_one((unk, Tag::Unknown));
                    } else {
                        assert(seg_chars(flush_unknown(unk)) =~= unk);
                    }
                    assert(unk + input.subrange(pos, input.len() as int) =~= unk + f.0 + (Seq::<char>::empty()
                        + input.subrange(f.2, input.len() as int)));
                },
                None => {
                    self.lemma_segs_from_cover(input, pos + 1, unk.push(input[pos]));
                    assert(unk.push(input[pos]) + input.subrange(pos + 1, input.len() as int) =~= unk
                        + input.subrange(pos, input.len() as int));
                },
            }
        }
    }

    /// The segments split the whole input: their characters, one after the other, are
    /// the input.
    pub proof fn lemma_segments_cover(&self, input: Seq<char>)
        ensures
            seg_chars(self.segs(input)) == input,
    {
        self.lemma_segs_from_cover(input, 0, Seq::empty());
        assert(Seq::<char>::empty() + input.subrange(0, input.len() as int) =~= input);
    }
}

/// Whether `s` holds no page key.
pub open spec fn no_page_keys(s: Seq<char>) -> bool {
    forall|j: int| 0 <= j < s.len() ==> #[trigger] s[j] != PAGE_UP && s[j] != PAGE_DOWN
}

/// No segment is empty, and no code segment turned pages.
pub open spec fn plain_segs(segs: Seq<(Seq<char>, Tag)>) -> bool {
    forall|i: int|
        0 <= i < segs.len() ==> (#[trigger] segs[i]).0.len() > 0 && (segs[i].1 matches Tag::Code(sel)
            ==> !sel.has_pagination)
}

impl InputAnalyzer {
    proof fn lemma_scan_no_paging(&self, input: Seq<char>, d: DictKind, k: int, st: CodeScan)
        requires
            !st.has_pagination,
            forall|j: int| k <= j < input.len() ==> #[trigger] input[j] != PAGE_UP && input[j] != PAGE_DOWN,
        ensures
            !self.code_scan(input, d, k, st).has_pagination,
        decreases input.len() - k,
    {
        if 0 <= k < input.len() {
            let codes = st.codes.push(input[k]);
            if d.can_reach(codes) {
                self.lemma_scan_no_paging(input, d, k + 1, CodeScan { codes, ..st });
            }
        }
    }

    proof fn lemma_seg_at_plain(&self, input: Seq<char>, pos: int)
        requires
            0 <= pos < input.len(),
            no_page_keys(input),
        ensures
            self.seg_at(input, pos) matches Some(f) ==> (f.1 matches Tag::Code(sel) ==> !sel.has_pagination),
    {
        if self.seg_escape(input, pos) is None && self.seg_punc(input, pos) is None {
            let (di, hp) = self.code_table(input, pos);
            let d = self.dicts_view()[di as int].1;
            let start = if hp {
                pos + 1
            } else {
                pos
            };
            self.lemma_scan_no_paging(input, d, start, scan_begin());
        }
    }

    proof fn lemma_segs_from_plain(&self, input: Seq<char>, pos: int, unk: Seq<char>)
        requires
            0 <= pos <= input.len(),
            no_page_keys(input),
        ensures
            plain_segs(self.segs_from(input, pos, unk)),
        decreases input.len() - pos,
    {
        if pos < input.len() {
            self.lemma_seg_at_cover(input, pos);
            self.lemma_seg_at_plain(input, pos);
            match self.seg_at(input, pos) {
                Some(f) => {
                    self.lemma_segs_from_plain(input, f.2, Seq::empty());
                    let head = flush_unknown(unk) + seq![(f.0, f.1)];
                    let rest = self.segs_from(input, f.2, Seq::empty());
                    let all = head + rest;
                    assert forall|i: int| 0 <= i < all.len() implies (#[trigger] all[i]).0.len() > 0
                        && (all[i].1 matches Tag::Code(sel) ==> !sel.has_pagination) by {
                        if i >= head.len() {
                            assert(all[i] == rest[i - head.len()]);
                        }
                    }
                },
                None => {
                    self.lemma_segs_from_plain(input, pos + 1, unk.push(input[pos]));
                },
            }
        }
    }

    proof fn lemma_outs_at(&self, segs: Seq<(Seq<char>, Tag)>, k: int, i: int)
        requires
            0 <= i < k,
        ensures
            self.outs(segs, k)[i] == self.seg_out(segs[i].0, segs[i].1, i == segs.len() - 1, if i > 0 {
                self.outs(segs, i).last().pending
            } else {
                false
            }),
        decreases k,
    {
        self.lemma_outs_len(segs, k - 1);
        if i < k - 1 {
            self.lemma_outs_at(segs, k - 1, i);
        }
    }

    /// Without page keys, the keys of the segments of an analysis, one after the other,
    /// are the input, and none is empty: every key typed belongs to exactly one segment.
    pub proof fn lemma_origins_partition(&self, input: Seq<char>)
        requires
            self.well_formed(),
            no_page_keys(input),
        ensures
            seg_chars(
                Seq::new(
                    self.analysis(input).segments.len(),
                    |i: int| (self.analysis(input).segments[i].1, self.analysis(input).segments[i].2),
                ),
            ) == input,
            forall|i: int|
                0 <= i < self.analysis(input).segments.len() ==> (#[trigger] self.analysis(
                    input,
                ).segments[i]).1.len() > 0,
    {
        let segs = self.segs(input);
        let n = segs.len() as int;
        let a = self.analysis(input);
        self.lemma_segs_from_plain(input, 0, Seq::empty());
        self.lemma_segments_cover(input);
        let v = Seq::new(a.segments.len(), |i: int| (a.segments[i].1, a.segments[i].2));
        assert forall|i: int| 0 <= i < n implies #[trigger] v[i] == segs[i] by {
            self.lemma_outs_at(segs, n, i);
            assert(segs[i].0.len() > 0);
        }
        assert(v =~= segs);
    }
}

/// The segments as plain values.
pub open spec fn segs_view(v: Seq<(Vec<char>, Tag)>) -> Seq<(Seq<char>, Tag)> {
    Seq::new(v.len(), |i: int| (v[i].0@, v[i].1))
}

/// The segment found, as plain values.
pub open spec fn found_view(r: Option<(Vec<char>, Tag, usize)>) -> Option<SegFound> {
    match r {
        Some(f) => Some((f.0@, f.1, f.2 as int)),
        None => None,
    }
}

/// The characters `input[a..b]`.
fn copy_range(input: &[char], a: usize, b: usize) -> (v: Vec<char>)
    requires
        a <= b <= input@.len(),
    ensures
        v@ == input@.subrange(a as int, b as int),
{
    let mut v: Vec<char> = Vec::new();
    let mut i = a;
    while i < b
        invariant
            a <= i <= b <= input@.len(),
            v@ == input@.subrange(a as int, i as int),
        decreases b - i,
    {
        v.push(input[i]);
        i += 1;
        assert(v@ =~= input@.subrange(a as int, i as int));
    }
    v
}

impl InputAnalyzer {
    fn match_seg_escape(&self, input: &[char], pos: usize) -> (r: Option<(Vec<char>, Tag, usize)>)
        requires
            pos < input@.len(),
        ensures
            found_view(r) == self.seg_escape(input@, pos as int),
            r matches Some(f) ==> pos < f.2 <= input@.len(),
    {
        match self.escape_pair {
            Some(pair) => {
                if input[pos] == pair[0] {
                    let mut k = pos + 1;
                    let n = input.len();
                    while k < n && input[k] != pair[1]
                        invariant
                            pos < k <= n,
                            n == input@.len(),
                            escape_end(input@, pair[1], pos + 1) == escape_end(input@, pair[1], k as int),
                        decreases n - k,
                    {
                        k += 1;
                    }
                    let e = if k < n {
                        k + 1
                    } else {
                        n
                    };
                    Some((copy_range(input, pos, e), Tag::Escape((pair[0], pair[1])), e))
                } else {
                    None
                }
            },
            None => None,
        }
    }

    fn match_seg_puncs(&self, input: &[char], pos: usize) -> (r: Option<(Vec<char>, Tag, usize)>)
        requires
            pos < input@.len(),
        ensures
            found_view(r) == self.seg_punc(input@, pos as int),
            r matches Some(f) ==> pos < f.2 <= input@.len(),
    {
        let first = input[pos];
        if !self.punctuations.contains_key(first) {
            return None;
        }
        let n = input.len();
        let mut k = pos + 1;
        while k < n && input[k] == first
            invariant
                pos < k <= n,
                n == input@.len(),
                self.punc_scan(input@, first, pos + 1) == self.punc_scan(input@, first, k as int),
            decreases n - k,
        {
            k += 1;
        }
        if k < n {
            match position(&self.selection_keys, input[k]) {
                Some(i) => {
                    return Some((copy_range(input, pos, k + 1), Tag::Punctuation((i, true)), k + 1));
                },
                None => {},
            }
        }
        Some((copy_range(input, pos, k), Tag::Punctuation((0, false)), k))
    }

    fn match_seg_code(&self, input: &[char], pos: usize) -> (r: Option<(Vec<char>, Tag, usize)>)
        requires
            pos < input@.len(),
            self.dicts_view().len() > 0,
        ensures
            found_view(r) == self.seg_code(input@, pos as int),
            r matches Some(f) ==> pos < f.2 <= input@.len(),
    {
        let first = input[pos];
        let mut dict_idx: usize = 0;
        let mut has_prefix = false;
        let mut i: usize = 0;
        proof {
            assert(self.dicts@.len() == self.dicts.len());
            lemma_trigger_from_bound(self.dicts@, first, 0);
        }
        while i < self.dicts.len() && !has_prefix
            invariant
                i <= self.dicts@.len(),
                self.dicts@.len() > 0,
                !has_prefix ==> dict_idx == 0 && trigger_from(self.dicts@, first, 0) == trigger_from(
                    self.dicts@,
                    first,
                    i as int,
                ),
                has_prefix ==> trigger_from(self.dicts@, first, 0) == Some(dict_idx),
                dict_idx < self.dicts@.len(),
            decreases self.dicts@.len() - i,
        {
            if self.dicts[i].0.trigger == first {
                dict_idx = i;
                has_prefix = true;
            }
            i += 1;
        }
        assert(self.code_table(input@, pos as int) == (dict_idx, has_prefix));
        let dict = &self.dicts[dict_idx].1;
        let n = input.len();
        let start: usize = if has_prefix {
            pos + 1
        } else {
            pos
        };
        let mut k: usize = start;
        let mut codes: Vec<char> = Vec::new();
        let mut page_no: usize = 0;
        let mut sel_idx: usize = 0;
        let mut has_selection = false;
        let mut has_pagination = false;
        let mut done = false;
        let ghost target = self.code_scan(input@, *dict, start as int, scan_begin());
        while k < n && !done
            invariant
                n == input@.len(),
                pos < n,
                first == input@[pos as int],
                dict_idx < self.dicts_view().len(),
                self.code_table(input@, pos as int) == (dict_idx, has_prefix),
                has_prefix ==> start == pos + 1,
                !has_prefix ==> start == pos,
                start <= k <= n,
                *dict == self.dicts_view()[dict_idx as int].1,
                target == self.code_scan(input@, *dict, start as int, scan_begin()),
                !done ==> target == self.code_scan(
                    input@,
                    *dict,
                    k as int,
                    CodeScan {
                        codes: codes@,
                        end: 0,
                        page_no,
                        sel_idx,
                        has_selection,
                        has_pagination,
                        bail: false,
                    },
                ),
                done ==> target == (CodeScan {
                    codes: codes@,
                    end: k as int,
                    page_no,
                    sel_idx,
                    has_selection,
                    has_pagination,
                    bail: false,
                }),
                k == start ==> codes@.len() == 0,
                k > start ==> codes@.len() > 0,
            decreases (n - k) * 2 + (if done {
                0int
            } else {
                1int
            }),
        {
            let ch = input[k];
            let ghost prev_codes = codes@;
            codes.push(ch);
            if dict.reachable(&codes) {
                k += 1;
            } else if codes.len() > 1 {
                if ch == PAGE_DOWN {
                    page_no = page_no.saturating_add(1);
                    has_pagination = true;
                    k += 1;
                } else if ch == PAGE_UP {
                    page_no = page_no.saturating_sub(1);
                    has_pagination = true;
                    k += 1;
                } else {
                    match position(&self.selection_keys, ch) {
                        Some(si) => {
                            sel_idx = si;
                            has_selection = true;
                            k += 1;
                            done = true;
                        },
                        None => {
                            codes.pop();
                            assert(codes@ =~= prev_codes);
                            done = true;
                        },
                    }
                }
            } else {
                assert(prev_codes.len() == 0);
                assert(k == start);
                if has_prefix {
                    let v = vec![first];
                    assert(v@ =~= seq![first]);
                    return Some(
                        (
                            v,
                            Tag::Code(
                                CodeSelection {
                                    page_no: 0,
                                    sel_idx: 0,
                                    dict_idx,
                                    has_selection: false,
                                    has_pagination: false,
                                },
                            ),
                            pos + 1,
                        ),
                    );
                } else {
                    return None;
                }
            }
        }
        if has_prefix {
            codes.insert(0, first);
        }
        if codes.len() == 0 {
            None
        } else {
            Some(
                (
                    codes,
                    Tag::Code(
                        CodeSelection { page_no, sel_idx, dict_idx, has_selection, has_pagination },
                    ),
                    k,
                ),
            )
        }
    }
}


impl InputAnalyzer {
    /// The segment at `pos`: escaped, punctuation or code, tried in that order.
    fn match_seg(&self, input: &[char], pos: usize) -> (r: Option<(Vec<char>, Tag, usize)>)
        requires
            pos < input@.len(),
            self.dicts_view().len() > 0,
        ensures
            found_view(r) == self.seg_at(input@, pos as int),
            r matches Some(f) ==> pos < f.2 <= input@.len(),
    {
        match self.match_seg_escape(input, pos) {
            Some(f) => Some(f),
            None => match self.match_seg_puncs(input, pos) {
                Some(f) => Some(f),
                None => self.match_seg_code(input, pos),
            },
        }
    }

    /// Splits `input` into segments (see `segs`); the analyzer must have a table.
    pub fn segments(&self, input: &[char]) -> (r: Vec<(Vec<char>, Tag)>)
        requires
            self.dicts_view().len() > 0,
        ensures
            segs_view(r@) == self.segs(input@),
    {
        let mut segments: Vec<(Vec<char>, Tag)> = Vec::new();
        let mut unknown: Vec<char> = Vec::new();
        let n = input.len();
        let mut pos: usize = 0;
        while pos < n
            invariant
                n == input@.len(),
                pos <= n,
                self.dicts_view().len() > 0,
                segs_view(segments@) + self.segs_from(input@, pos as int, unknown@) == self.segs(
                    input@,
                ),
            decreases n - pos,
        {
            let ghost before = segs_view(segments@);
            let ghost unk = unknown@;
            match self.match_seg(input, pos) {
                Some((seg, tag, e)) => {
                    let ghost sv = seg@;
                    if unknown.len() > 0 {
                        let u = unknown;
                        unknown = Vec::new();
                        segments.push((u, Tag::Unknown));
                    }
                    segments.push((seg, tag));
                    proof {
                        assert(segs_view(segments@) =~= before + flush_unknown(unk) + seq![(sv, tag)]);
                        assert(unknown@ =~= Seq::<char>::empty());
                    }
                    pos = e;
                },
                None => {
                    unknown.push(input[pos]);
                    pos += 1;
                },
            }
        }
        if unknown.len() > 0 {
            let ghost before = segs_view(segments@);
            let ghost unk = unknown@;
            segments.push((unknown, Tag::Unknown));
            assert(segs_view(segments@) =~= before + flush_unknown(unk));
        } else {
            assert(segs_view(segments@) + flush_unknown(unknown@) =~= segs_view(segments@));
        }
        segments
    }
}


// ---------------------------------------------------------------------------
// What the segments are sure to be
// ---------------------------------------------------------------------------

proof fn lemma_punc_scan_bound(a: &InputAnalyzer, input: Seq<char>, f: char, k: int)
    requires
        0 <= k <= input.len(),
    ensures
        k <= a.punc_scan(input, f, k).0 <= input.len(),
        a.punc_scan(input, f, k).1 is Some ==> a.punc_scan(input, f, k).0 >= k + 1,
    decreases input.len() - k,
{
    if k < input.len() && input[k] == f {
        lemma_punc_scan_bound(a, input, f, k + 1);
    }
}

proof fn lemma_code_scan_selection(a: &InputAnalyzer, input: Seq<char>, d: DictKind, k: int, st: CodeScan)
    requires
        !st.has_selection,
    ensures
        a.code_scan(input, d, k, st).has_selection ==> a.code_scan(input, d, k, st).codes.len() >= 2,
    decreases input.len() - k,
{
    if 0 <= k < input.len() {
        let ch = input[k];
        let codes = st.codes.push(ch);
        if d.can_reach(codes) {
            lemma_code_scan_selection(a, input, d, k + 1, CodeScan { codes, ..st });
        } else if codes.len() > 1 {
            if ch == PAGE_DOWN {
                lemma_code_scan_selection(
                    a,
                    input,
                    d,
                    k + 1,
                    CodeScan { codes, page_no: st.page_no.saturating_add(1), has_pagination: true, ..st },
                );
            } else if ch == PAGE_UP {
                lemma_code_scan_selection(
                    a,
                    input,
                    d,
                    k + 1,
                    CodeScan { codes, page_no: st.page_no.saturating_sub(1), has_pagination: true, ..st },
                );
            }
        }
    }
}

impl InputAnalyzer {
    /// What a segment of `segs` is sure to be: nonempty; a code segment names a table,
    /// starts with that table's trigger when it is not the main one, and holds its
    /// trigger and selection key besides the code; a punctuation segment starts with
    /// a punctuation key, and one that ends with a selection key has two characters.
    pub open spec fn seg_ok(&self, seg: Seq<char>, tag: Tag) -> bool {
        &&& seg.len() > 0
        &&& match tag {
            Tag::Code(sel) => {
                &&& sel.dict_idx < self.dicts_view().len()
                &&& (if sel.dict_idx > 0 {
                    1int
                } else {
                    0int
                }) + (if sel.has_selection {
                    1int
                } else {
                    0int
                }) <= seg.len()
                &&& sel.dict_idx > 0 ==> seg[0] == self.dicts_view()[sel.dict_idx as int].0.trigger
            },
            Tag::Punctuation(p) => self.puncs_view().lookup(seg[0]) is Some && (p.1 ==> seg.len()
                >= 2),
            _ => true,
        }
    }

    proof fn lemma_seg_at_ok(&self, input: Seq<char>, pos: int)
        requires
            0 <= pos < input.len(),
            self.dicts_view().len() > 0,
            self.dicts_view().len() <= usize::MAX,
        ensures
            self.seg_at(input, pos) matches Some(f) ==> (pos < f.2 <= input.len() ==> self.seg_ok(
                f.0,
                f.1,
            )),
    {
        if self.seg_escape(input, pos) is Some {
        } else if self.seg_punc(input, pos) is Some {
            lemma_punc_scan_bound(self, input, input[pos], pos + 1);
        } else {
            let (di, hp) = self.code_table(input, pos);
            lemma_trigger_from_bound(self.dicts_view(), input[pos], 0);
            let d = self.dicts_view()[di as int].1;
            let start = if hp {
                pos + 1
            } else {
                pos
            };
            lemma_code_scan_selection(self, input, d, start, scan_begin());
        }
    }

    proof fn lemma_segs_ok(&self, input: Seq<char>, pos: int, unk: Seq<char>)
        requires
            0 <= pos <= input.len(),
            self.dicts_view().len() > 0,
            self.dicts_view().len() <= usize::MAX,
        ensures
            forall|k: int|
                0 <= k < self.segs_from(input, pos, unk).len() ==> self.seg_ok(
                    (#[trigger] self.segs_from(input, pos, unk)[k]).0,
                    self.segs_from(input, pos, unk)[k].1,
                ),
        decreases input.len() - pos,
    {
        let r = self.segs_from(input, pos, unk);
        if pos < input.len() {
            match self.seg_at(input, pos) {
                Some(f) => {
                    if pos < f.2 <= input.len() {
                        self.lemma_seg_at_ok(input, pos);
                        self.lemma_segs_ok(input, f.2, Seq::empty());
                        let rest = self.segs_from(input, f.2, Seq::empty());
                        let head = flush_unknown(unk) + seq![(f.0, f.1)];
                        assert(r == head + rest);
                        assert forall|k: int| 0 <= k < r.len() implies self.seg_ok(
                            (#[trigger] r[k]).0,
                            r[k].1,
                        ) by {
                            if k >= head.len() {
                                assert(r[k] == rest[k - head.len()]);
                            }
                        }
                    }
                },
                None => {
                    self.lemma_segs_ok(input, pos + 1, unk.push(input[pos]));
                    assert(r == self.segs_from(input, pos + 1, unk.push(input[pos])));
                },
            }
        } else {
            assert(r == flush_unknown(unk));
        }
    }
}

// ---------------------------------------------------------------------------
// Looking the segments up
// ---------------------------------------------------------------------------

/// `s` without its page keys.
pub open spec fn drop_page_keys(s: Seq<char>) -> Seq<char>
    decreases s.len(),
{
    if s.len() == 0 {
        s
    } else {
        let r = drop_page_keys(s.drop_last());
        if s.last() == PAGE_UP || s.last() == PAGE_DOWN {
            r
        } else {
            r.push(s.last())
        }
    }
}

/// `s` without its page keys.
fn drop_page_keys_exec(s: &[char]) -> (r: Vec<char>)
    ensures
        r@ == drop_page_keys(s@),
{
    let mut r: Vec<char> = Vec::new();
    let mut i: usize = 0;
    while i < s.len()
        invariant
            i <= s@.len(),
            r@ == drop_page_keys(s@.subrange(0, i as int)),
        decreases s@.len() - i,
    {
        assert(s@.subrange(0, i + 1).drop_last() =~= s@.subrange(0, i as int));
        if s[i] != PAGE_UP && s[i] != PAGE_DOWN {
            r.push(s[i]);
        }
        i += 1;
    }
    assert(s@.subrange(0, i as int) =~= s@);
    r
}

/// The strings of `ss`, one after another.
pub open spec fn concat(ss: Seq<Seq<char>>) -> Seq<char>
    decreases ss.len(),
{
    if ss.len() == 0 {
        Seq::empty()
    } else {
        concat(ss.drop_last()) + ss.last()
    }
}

/// `n` page-down keys.
pub open spec fn page_downs(n: nat) -> Seq<char> {
    Seq::new(n, |i: int| PAGE_DOWN)
}

/// The `i`-th selection key, or `dflt` past the last one.
pub open spec fn select_key_at(keys: Seq<char>, i: int, dflt: char) -> char {
    if 0 <= i < keys.len() {
        keys[i]
    } else {
        dflt
    }
}

/// The part of `len` found items that a code segment shows, as `(first, end, page)`:
/// the page `page_no` (past the end, the last page), narrowed to the selected item
/// (the last one of the page when the selection goes past it) when there is a
/// selection or when only the first candidate matters.
pub open spec fn page_range(len: int, sel: CodeSelection, pc: int, no_cands: bool) -> (int, int, int) {
    let raw = sel.page_no * pc;
    let start = if raw >= len {
        let m = len % pc;
        if m == 0 {
            len - pc
        } else {
            len - m
        }
    } else {
        raw
    };
    let end = if start + pc < len {
        start + pc
    } else {
        len
    };
    let rel = start / pc;
    if sel.sel_idx > 0 || no_cands {
        let width = end - start;
        let idx = if sel.sel_idx >= width {
            width - 1
        } else {
            sel.sel_idx as int
        };
        (start + idx, start + idx + 1, rel)
    } else {
        (start, end, rel)
    }
}

/// The block of candidates of `p` whose code starts with `q`.
pub open spec fn prefix_hits(p: PrefixDict, q: Seq<char>) -> Seq<Candidate> {
    let ab = choose|ab: (int, int)|
        ab.0 < ab.1 && crate::prefix_dict::prefix_block(p.codes(), q, ab.0, ab.1);
    p.cands_view().subrange(ab.0, ab.1)
}

proof fn lemma_block_unique(codes: Seq<Seq<char>>, q: Seq<char>, a: int, b: int, c: int, d: int)
    requires
        a < b,
        c < d,
        crate::prefix_dict::prefix_block(codes, q, a, b),
        crate::prefix_dict::prefix_block(codes, q, c, d),
    ensures
        a == c && b == d,
{
    assert(q.is_prefix_of(codes[a]));
    assert(q.is_prefix_of(codes[c]));
    assert(q.is_prefix_of(codes[b - 1]));
    assert(q.is_prefix_of(codes[d - 1]));
}

/// The code shown for the text of a reverse lookup: for each character, its longest
/// code in the main table (`_` when it has none), separated by spaces.
pub open spec fn re_code(text: Seq<char>, map: Map<char, CodeRange>, arena: Seq<char>) -> Seq<char>
    decreases text.len(),
{
    if text.len() == 0 {
        Seq::empty()
    } else {
        let prev = re_code(text.drop_last(), map, arena);
        let sep = if text.len() > 1 {
            seq![' ']
        } else {
            Seq::empty()
        };
        let c = text.last();
        let part = if map.dom().contains(c) {
            arena_str(arena, map[c])
        } else {
            seq!['_']
        };
        prev + sep + part
    }
}

/// The main table's code of the character `c`, or `_` when it has none.
pub open spec fn main_code_of(c: char, map: Map<char, CodeRange>, arena: Seq<char>) -> Seq<char> {
    if map.dom().contains(c) {
        arena_str(arena, map[c])
    } else {
        seq!['_']
    }
}

/// The parts, one after the other, with one space between two neighbours.
pub open spec fn spaced(parts: Seq<Seq<char>>) -> Seq<char>
    decreases parts.len(),
{
    if parts.len() == 0 {
        Seq::empty()
    } else if parts.len() == 1 {
        parts[0]
    } else {
        spaced(parts.drop_last()) + seq![' '] + parts.last()
    }
}

/// The code shown for a text is the main table's code of each of its characters, in
/// the order of the characters, with a space between neighbours: the part at
/// position `k` is the code of the character at position `k`.
pub proof fn lemma_re_code_parts(text: Seq<char>, map: Map<char, CodeRange>, arena: Seq<char>)
    ensures
        re_code(text, map, arena) == spaced(
            Seq::new(text.len(), |k: int| main_code_of(text[k], map, arena)),
        ),
    decreases text.len(),
{
    let parts = Seq::new(text.len(), |k: int| main_code_of(text[k], map, arena));
    if text.len() > 0 {
        let pre = text.drop_last();
        lemma_re_code_parts(pre, map, arena);
        assert(parts.drop_last() =~= Seq::new(pre.len(), |k: int| main_code_of(pre[k], map, arena)));
        if text.len() == 1 {
            assert(re_code(pre, map, arena) == Seq::<char>::empty());
            assert(re_code(text, map, arena) =~= parts[0]);
        }
    }
}

/// Writing one more character adds a space and that character's own code: the
/// code of a single character is its own code.
pub proof fn lemma_re_code_extend(
    text: Seq<char>,
    c: char,
    map: Map<char, CodeRange>,
    arena: Seq<char>,
)
    ensures
        re_code(seq![c], map, arena) == main_code_of(c, map, arena),
        text.len() > 0 ==> re_code(text.push(c), map, arena) == re_code(text, map, arena) + seq![' ']
            + main_code_of(c, map, arena),
{
    let one = seq![c];
    assert(one.drop_last() =~= Seq::<char>::empty());
    assert(one.last() == c);
    assert(re_code(one.drop_last(), map, arena) == Seq::<char>::empty());
    assert(Seq::<char>::empty() + Seq::<char>::empty() + main_code_of(c, map, arena) =~= main_code_of(c, map, arena));
    assert(text.push(c).drop_last() =~= text);
}

impl InputAnalyzer {
    /// A candidate found in a triggered prefix table shows, as its code, the main
    /// table's code of each character of its text in turn, spaced.
    pub proof fn lemma_secondary_codes(&self, codes: Seq<char>, sel: CodeSelection, no_cands: bool)
        requires
            sel.dict_idx > 0,
            sel.dict_idx < self.dicts_view().len(),
            self.dicts_view()[sel.dict_idx as int].1 is Prefix,
        ensures
            self.search_spec(codes, sel, no_cands) matches Some(t) ==> forall|i: int|
                0 <= i < t.0.len() ==> (#[trigger] t.0[i]).code == spaced(
                    Seq::new(
                        t.0[i].text.len(),
                        |k: int|
                            main_code_of(
                                t.0[i].text[k],
                                expected_code_map(self.dicts_view()),
                                self.main_arena(),
                            ),
                    ),
                ),
    {
        if let Some(t) = self.search_spec(codes, sel, no_cands) {
            assert forall|i: int| 0 <= i < t.0.len() implies (#[trigger] t.0[i]).code == spaced(
                Seq::new(
                    t.0[i].text.len(),
                    |k: int|
                        main_code_of(t.0[i].text[k], expected_code_map(self.dicts_view()), self.main_arena()),
                ),
            ) by {
                lemma_re_code_parts(t.0[i].text, expected_code_map(self.dicts_view()), self.main_arena());
            }
        }
    }
}

/// The rounds of a punctuation key pressed `c` times with `n` strings: each round
/// takes the `c`-th string (the last one when `c` is more than `n`) and uses up `n`
/// presses.
pub open spec fn punc_rounds(n: int, c: int) -> Seq<int>
    decreases c,
{
    if c <= 0 || n <= 0 {
        Seq::empty()
    } else {
        let i = if c <= n {
            c - 1
        } else {
            n - 1
        };
        seq![i] + punc_rounds(
            n,
            c - (if n < c {
                n
            } else {
                c
            }),
        )
    }
}

/// What a segment gives: its text, its input as kept, whether it is pending, and the
/// candidates it offers when it is the last one.
pub struct SegOut {
    pub text: Seq<char>,
    pub origin: Seq<char>,
    pub pending: bool,
    pub cands: Option<Seq<RichView>>,
}

/// An analysis as plain values.
pub struct AnalysisView {
    pub segments: Seq<(Seq<char>, Seq<char>, Tag)>,
    pub pending: bool,
    pub candidates: Option<Seq<RichView>>,
}

pub open spec fn opt_rich_views(c: Option<Vec<CandidateRich>>) -> Option<Seq<RichView>> {
    match c {
        Some(v) => Some(rich_views(v@)),
        None => None,
    }
}

/// An analysis result as plain values.
pub open spec fn analysis_view(r: AnalysisResult) -> AnalysisView {
    AnalysisView {
        segments: Seq::new(
            r.segments@.len(),
            |i: int| (r.segments@[i].0@, r.segments@[i].1@, r.segments@[i].2),
        ),
        pending: r.pending,
        candidates: opt_rich_views(r.candidates),
    }
}

impl InputAnalyzer {
    /// The query of a code segment: without its trigger and its selection key.
    pub open spec fn strip_query(&self, codes: Seq<char>, sel: CodeSelection) -> Seq<char> {
        let a = if sel.dict_idx > 0 {
            codes.subrange(1, codes.len() as int)
        } else {
            codes
        };
        if sel.has_selection {
            a.subrange(0, a.len() - 1)
        } else {
            a
        }
    }

    /// The arena of the main table.
    pub open spec fn main_arena(&self) -> Seq<char> {
        match self.dicts_view()[0].1 {
            DictKind::Prefix(m) => m.arena_view(),
            DictKind::Fuzzy(f) => f.arena_view(),
        }
    }

    /// The candidates of a code segment, whether the segment chose one, and the page
    /// shown; `None` when the table has nothing for it.
    pub open spec fn search_spec(&self, codes: Seq<char>, sel: CodeSelection, no_cands: bool) -> Option<
        (Seq<RichView>, bool, usize),
    > {
        let q0 = self.strip_query(codes, sel);
        let pc = self.page_count_view() as int;
        let keys = self.keys_view();
        if q0.len() == 0 {
            None
        } else {
            match self.dicts_view()[sel.dict_idx as int].1 {
                DictKind::Prefix(p) => {
                    let q = if sel.has_pagination {
                        drop_page_keys(q0)
                    } else {
                        q0
                    };
                    if !crate::prefix_dict::reaches(p.codes(), q) {
                        None
                    } else {
                        let items = prefix_hits(p, q);
                        let range = page_range(items.len() as int, sel, pc, no_cands);
                        let picked = items.subrange(range.0, range.1);
                        let rich = Seq::new(
                            picked.len(),
                            |i: int|
                                RichView {
                                    code: if sel.dict_idx > 0 {
                                        re_code(
                                            arena_str(p.arena_view(), picked[i].text),
                                            expected_code_map(self.dicts_view()),
                                            self.main_arena(),
                                        )
                                    } else {
                                        arena_str(p.arena_view(), picked[i].code)
                                    },
                                    text: arena_str(p.arena_view(), picked[i].text),
                                    weight: picked[i].weight,
                                    origin: codes,
                                    order: i as usize,
                                    select_key: select_key_at(keys, i, ' '),
                                },
                        );
                        Some((rich, sel.has_selection, range.2 as usize))
                    }
                },
                DictKind::Fuzzy(f) => {
                    let hits = f.hits(drop_page_keys(q0));
                    if hits.len() == 0 {
                        None
                    } else {
                        let range = page_range(hits.len() as int, sel, pc, no_cands);
                        let picked = hits.subrange(range.0, range.1);
                        let rich = Seq::new(
                            picked.len(),
                            |i: int|
                                RichView {
                                    code: arena_str(
                                        f.arena_view(),
                                        f.cands_view()[picked[i].0 as int].code,
                                    ),
                                    text: arena_str(
                                        f.arena_view(),
                                        f.cands_view()[picked[i].0 as int].text,
                                    ),
                                    weight: f.cands_view()[picked[i].0 as int].weight,
                                    origin: codes,
                                    order: i as usize,
                                    select_key: select_key_at(keys, i, ' '),
                                },
                        );
                        Some((rich, sel.has_selection, range.2 as usize))
                    }
                },
            }
        }
    }

    /// The text of a punctuation segment and the candidates it offers: each round of
    /// presses of the key takes one of its strings (see `punc_rounds`); a selection
    /// key picks the last one among the strings from that round's on.
    pub open spec fn punc_spec(&self, chars: Seq<char>, sel_idx: usize, hs: bool) -> Option<
        (Seq<char>, Seq<RichView>),
    > {
        match self.puncs_view().lookup(chars[0]) {
            None => None,
            Some(ps) => {
                let n = ps.len() as int;
                let c = if hs {
                    chars.len() - 1
                } else {
                    chars.len() as int
                };
                let rounds = punc_rounds(n, c);
                let start = if rounds.len() > 0 {
                    rounds.last()
                } else {
                    0
                };
                let taken = Seq::new(rounds.len(), |k: int| ps[rounds[k]]);
                let shown = if hs && rounds.len() > 0 {
                    let j = if (sel_idx as int) < n - start - 1 {
                        sel_idx as int
                    } else {
                        n - start - 1
                    };
                    taken.update(rounds.len() - 1, ps[start + j])
                } else {
                    taken
                };
                let cands = if hs {
                    Seq::empty()
                } else {
                    Seq::new(
                        (n - start) as nat,
                        |j: int|
                            RichView {
                                code: Seq::empty(),
                                text: ps[start + j],
                                weight: 0,
                                origin: chars,
                                order: j as usize,
                                select_key: select_key_at(self.keys_view(), j, '_'),
                            },
                    )
                };
                Some((concat(shown), cands))
            },
        }
    }

    /// What the segment `(codes, tag)` gives, `at_last` telling whether it is the last
    /// one and `prev_pending` whether the one before is pending.
    pub open spec fn seg_out(&self, codes: Seq<char>, tag: Tag, at_last: bool, prev_pending: bool) -> SegOut {
        match tag {
            Tag::Code(sel) => match self.search_spec(codes, sel, !at_last) {
                Some((cands, unique, rel)) => {
                    let origin = if sel.has_pagination {
                        let f = drop_page_keys(codes);
                        if sel.page_no > 0 {
                            f + page_downs(rel as nat)
                        } else {
                            f
                        }
                    } else {
                        codes
                    };
                    let hint = self.dicts_view()[sel.dict_idx as int].0.hint@;
                    if at_last && !unique && sel.dict_idx > 0 {
                        SegOut {
                            text: hint + seq!['|'] + cands[0].text,
                            origin,
                            pending: true,
                            cands: Some(cands),
                        }
                    } else {
                        SegOut {
                            text: cands[0].text,
                            origin,
                            pending: !unique,
                            cands: if at_last && !unique {
                                Some(cands)
                            } else {
                                None
                            },
                        }
                    }
                },
                None => if sel.dict_idx > 0 && codes.len() == 1 {
                    SegOut {
                        text: if at_last {
                            self.dicts_view()[sel.dict_idx as int].0.hint@
                        } else {
                            codes
                        },
                        origin: codes,
                        pending: true,
                        cands: None,
                    }
                } else {
                    SegOut { text: codes, origin: codes, pending: false, cands: None }
                },
            },
            Tag::Punctuation(p) => match self.punc_spec(codes, p.0, p.1) {
                Some((t, cands)) => SegOut {
                    text: t,
                    origin: codes,
                    pending: cands.len() > 1,
                    cands: if at_last && cands.len() > 1 {
                        Some(cands)
                    } else {
                        None
                    },
                },
                None => SegOut { text: codes, origin: codes, pending: false, cands: None },
            },
            Tag::Escape(pair) => if codes.len() > 1 && codes.last() == pair.1 {
                SegOut {
                    text: if codes.len() == 2 {
                        seq![pair.0]
                    } else if self.trim_view() {
                        codes.subrange(1, codes.len() - 1)
                    } else {
                        codes
                    },
                    origin: codes,
                    pending: false,
                    cands: None,
                }
            } else {
                SegOut { text: codes, origin: codes, pending: true, cands: None }
            },
            Tag::Unknown => SegOut {
                text: if codes.len() > 0 && codes[0] == ' ' && prev_pending {
                    codes.subrange(1, codes.len() as int)
                } else {
                    codes
                },
                origin: codes,
                pending: false,
                cands: None,
            },
        }
    }

    /// What the first `k` segments of `segs` give.
    pub open spec fn outs(&self, segs: Seq<(Seq<char>, Tag)>, k: int) -> Seq<SegOut>
        decreases k,
    {
        if k <= 0 {
            Seq::empty()
        } else {
            let prev = self.outs(segs, k - 1);
            let pp = if k - 1 > 0 {
                prev.last().pending
            } else {
                false
            };
            prev.push(self.seg_out(segs[k - 1].0, segs[k - 1].1, k - 1 == segs.len() - 1, pp))
        }
    }

    proof fn lemma_outs_len(&self, segs: Seq<(Seq<char>, Tag)>, k: int)
        requires
            k >= 0,
        ensures
            self.outs(segs, k).len() == k,
        decreases k,
    {
        if k > 0 {
            self.lemma_outs_len(segs, k - 1);
        }
    }

    /// An analysis offers candidates only when it has segments and its last one is
    /// pending; an empty input gives no segment, nothing pending and no candidates.
    pub proof fn lemma_candidates_pending(&self, input: Seq<char>)
        requires
            self.well_formed(),
        ensures
            self.analysis(input).candidates is Some ==> self.analysis(input).pending
                && self.analysis(input).segments.len() > 0,
            input.len() == 0 ==> self.analysis(input).segments.len() == 0 && !self.analysis(
                input,
            ).pending && self.analysis(input).candidates is None,
    {
        let segs = self.segs(input);
        let n = segs.len() as int;
        if n > 0 {
            self.lemma_outs_len(segs, n - 1);
            let os = self.outs(segs, n);
            assert(os[n - 1] == self.seg_out(segs[n - 1].0, segs[n - 1].1, true, if n - 1 > 0 {
                self.outs(segs, n - 1).last().pending
            } else {
                false
            }));
        }
        if input.len() == 0 {
            assert(segs.len() == 0);
        }
    }

    /// The analysis of `input`: each segment with its text, its input and its tag;
    /// whether the last one is pending; the candidates it offers.
    pub open spec fn analysis(&self, input: Seq<char>) -> AnalysisView {
        let segs = self.segs(input);
        let n = segs.len() as int;
        let os = self.outs(segs, n);
        AnalysisView {
            segments: Seq::new(n as nat, |i: int| (os[i].text, os[i].origin, segs[i].1)),
            pending: if n > 0 {
                os[n - 1].pending
            } else {
                false
            },
            candidates: if n > 0 {
                os[n - 1].cands
            } else {
                None
            },
        }
    }
}


// ---------------------------------------------------------------------------
// Looking the segments up: the code
// ---------------------------------------------------------------------------

pub open spec fn search_view(r: Option<(Vec<CandidateRich>, bool, usize)>) -> Option<
    (Seq<RichView>, bool, usize),
> {
    match r {
        Some(t) => Some((rich_views(t.0@), t.1, t.2)),
        None => None,
    }
}

pub open spec fn punc_view(r: Option<(String, Vec<CandidateRich>)>) -> Option<(Seq<char>, Seq<RichView>)> {
    match r {
        Some(t) => Some((t.0@, rich_views(t.1@))),
        None => None,
    }
}

pub open spec fn out_view(r: (String, Vec<char>, bool, Option<Vec<CandidateRich>>)) -> SegOut {
    SegOut { text: r.0@, origin: r.1@, pending: r.2, cands: opt_rich_views(r.3) }
}

/// Appends the characters of `s`.
fn push_all(v: &mut Vec<char>, s: &[char])
    ensures
        final(v)@ == old(v)@ + s@,
{
    let ghost start = v@;
    let mut i: usize = 0;
    while i < s.len()
        invariant
            i <= s@.len(),
            v@ == start + s@.subrange(0, i as int),
        decreases s@.len() - i,
    {
        v.push(s[i]);
        i += 1;
        assert(v@ =~= start + s@.subrange(0, i as int));
    }
    assert(s@.subrange(0, i as int) =~= s@);
}

/// The part of `len` found items to show (see `page_range`).
fn page_range_exec(len: usize, sel: CodeSelection, pc: usize, no_cands: bool) -> (r: (usize, usize, usize))
    requires
        len > 0,
        pc > 0,
    ensures
        r.0 == page_range(len as int, sel, pc as int, no_cands).0,
        r.1 == page_range(len as int, sel, pc as int, no_cands).1,
        r.2 == page_range(len as int, sel, pc as int, no_cands).2,
        r.0 < r.1 <= len,
{
    let m = len % pc;
    assert(m <= len) by (nonlinear_arith)
        requires
            m == len % pc,
            pc > 0,
    ;
    assert(m == 0 ==> len >= pc) by (nonlinear_arith)
        requires
            m == len % pc,
            pc > 0,
            len > 0,
    ;
    let clamp: usize = if m == 0 {
        len - pc
    } else {
        len - m
    };
    let start: usize = match sel.page_no.checked_mul(pc) {
        Some(raw) => if raw < len {
            raw
        } else {
            clamp
        },
        None => clamp,
    };
    let end: usize = if pc < len - start {
        start + pc
    } else {
        len
    };
    let rel = start / pc;
    if sel.sel_idx > 0 || no_cands {
        let width = end - start;
        let idx = if sel.sel_idx >= width {
            width - 1
        } else {
            sel.sel_idx
        };
        (start + idx, start + idx + 1, rel)
    } else {
        (start, end, rel)
    }
}

impl InputAnalyzer {
    /// The code shown for the text of a reverse lookup (see `re_code`).
    fn re_code_exec(&self, text: &Vec<char>) -> (r: Vec<char>)
        requires
            self.well_formed(),
        ensures
            r@ == re_code(text@, expected_code_map(self.dicts_view()), self.main_arena()),
    {
        proof {
            use_type_invariant(self);
        }
        let main = self.main_dict();
        let main_cands = main.candidates();
        proof {
            lemma_code_map_ranges(main.arena_view(), main.cands_view());
        }
        let ghost map = expected_code_map(self.dicts_view());
        let mut out: Vec<char> = Vec::new();
        let mut j: usize = 0;
        while j < text.len()
            invariant
                j <= text@.len(),
                map == expected_code_map(self.dicts_view()),
                code_map_contents(self.main_dict_code_map) == map,
                self.dicts_view()[0].1 == DictKind::Prefix(*main),
                self.main_arena() == main.arena_view(),
                forall|c: char| #[trigger] map.dom().contains(c) ==> arena_range_ok(main.arena_view(), map[c]),
                out@ == re_code(text@.subrange(0, j as int), map, self.main_arena()),
            decreases text@.len() - j,
        {
            let ghost prefix = text@.subrange(0, j + 1);
            assert(prefix.drop_last() =~= text@.subrange(0, j as int));
            if j > 0 {
                out.push(' ');
            }
            let ch = text[j];
            match code_map_get(&self.main_dict_code_map, ch) {
                Some(range) => {
                    let part = main.get_str(range);
                    let part_chars = chars_of(part.as_str());
                    push_all(&mut out, &part_chars);
                },
                None => {
                    out.push('_');
                },
            }
            proof {
                if j > 0 {
                    assert(out@ =~= re_code(prefix.drop_last(), map, self.main_arena()) + seq![' '] + (
                    if map.dom().contains(ch) {
                        arena_str(self.main_arena(), map[ch])
                    } else {
                        seq!['_']
                    }));
                } else {
                    assert(out@ =~= re_code(prefix.drop_last(), map, self.main_arena()) + Seq::<char>::empty() + (
                    if map.dom().contains(ch) {
                        arena_str(self.main_arena(), map[ch])
                    } else {
                        seq!['_']
                    }));
                }
            }
            j += 1;
        }
        assert(text@.subrange(0, j as int) =~= text@);
        out
    }

    /// The candidates of a code segment (see `search_spec`).
    pub fn search_candidates(&self, codes: &[char], sel: CodeSelection, no_cands: bool) -> (r: Option<
        (Vec<CandidateRich>, bool, usize),
    >)
        requires
            self.well_formed(),
            sel.dict_idx < self.dicts_view().len(),
            (if sel.dict_idx > 0 {
                1int
            } else {
                0int
            }) + (if sel.has_selection {
                1int
            } else {
                0int
            }) <= codes@.len(),
        ensures
            search_view(r) == self.search_spec(codes@, sel, no_cands),
            r matches Some(t) ==> t.0@.len() > 0,
    {
        let a: usize = if sel.dict_idx > 0 {
            1
        } else {
            0
        };
        let b: usize = if sel.has_selection {
            codes.len() - 1
        } else {
            codes.len()
        };
        let q0 = copy_range(codes, a, b);
        proof {
            let c = codes@;
            let s1 = if sel.dict_idx > 0 {
                c.subrange(1, c.len() as int)
            } else {
                c
            };
            if sel.has_selection {
                assert(q0@ =~= s1.subrange(0, s1.len() - 1));
            } else {
                assert(q0@ =~= s1);
            }
        }
        assert(q0@ == self.strip_query(codes@, sel));
        if q0.len() == 0 {
            return None;
        }
        let pc = self.page_count;
        let keys = &self.selection_keys;
        match &self.dicts[sel.dict_idx].1 {
            DictKind::Prefix(dict) => {
                let q = if sel.has_pagination {
                    drop_page_keys_exec(&q0)
                } else {
                    q0
                };
                match dict.search(&q) {
                    None => None,
                    Some(slice) => {
                        let ghost items = prefix_hits(*dict, q@);
                        proof {
                            let (a1, b1) = choose|a1: int, b1: int|
                                a1 < b1 && crate::prefix_dict::prefix_block(dict.codes(), q@, a1, b1)
                                    && slice@ == dict.cands_view().subrange(a1, b1);
                            let w = (a1, b1);
                            assert(w.0 < w.1 && crate::prefix_dict::prefix_block(dict.codes(), q@, w.0, w.1));
                            let ab2 = choose|ab: (int, int)|
                                ab.0 < ab.1 && crate::prefix_dict::prefix_block(dict.codes(), q@, ab.0, ab.1);
                            lemma_block_unique(dict.codes(), q@, a1, b1, ab2.0, ab2.1);
                            assert(slice@ == items);
                        }
                        let range = page_range_exec(slice.len(), sel, pc, no_cands);
                        let (pa, pb, rel) = range;
                        let ghost picked = items.subrange(pa as int, pb as int);
                        let mut rich: Vec<CandidateRich> = Vec::new();
                        let mut k = pa;
                        while k < pb
                            invariant
                                pa <= k <= pb <= slice@.len(),
                                slice@ == items,
                                picked == items.subrange(pa as int, pb as int),
                                crate::prefix_dict::ranges_ok(dict.arena_view(), dict.cands_view()),
                                forall|t: int| 0 <= t < slice@.len() ==> exists|u: int| 0 <= u < dict.cands_view().len() && #[trigger] slice@[t] == dict.cands_view()[u],
                                self.well_formed(),
                                keys@ == self.keys_view(),
                                sel.dict_idx < self.dicts_view().len(),
                                self.dicts_view()[sel.dict_idx as int].1 == DictKind::Prefix(*dict),
                                rich@.len() == k - pa,
                                forall|t: int|
                                    0 <= t < k - pa ==> (#[trigger] rich@[t]).view_of() == (RichView {
                                        code: if sel.dict_idx > 0 {
                                            re_code(
                                                arena_str(dict.arena_view(), picked[t].text),
                                                expected_code_map(self.dicts_view()),
                                                self.main_arena(),
                                            )
                                        } else {
                                            arena_str(dict.arena_view(), picked[t].code)
                                        },
                                        text: arena_str(dict.arena_view(), picked[t].text),
                                        weight: picked[t].weight,
                                        origin: codes@,
                                        order: t as usize,
                                        select_key: select_key_at(keys@, t, ' '),
                                    }),
                            decreases pb - k,
                        {
                            let cand = slice[k];
                            let i = k - pa;
                            proof {
                                let u = choose|u: int| 0 <= u < dict.cands_view().len() && slice@[k as int] == dict.cands_view()[u];
                                assert(arena_range_ok(dict.arena_view(), dict.cands_view()[u].code));
                            }
                            let select_key = if i < keys.len() {
                                keys[i]
                            } else {
                                ' '
                            };
                            let text = dict.get_str(cand.text);
                            let code = if sel.dict_idx > 0 {
                                let text_chars = chars_of(text.as_str());
                                string_from_chars(&self.re_code_exec(&text_chars))
                            } else {
                                dict.get_str(cand.code)
                            };
                            let origin = copy_range(codes, 0, codes.len());
                            assert(origin@ =~= codes@);
                            rich.push(CandidateRich::new(code, text, cand.weight, origin, i, select_key));
                            k += 1;
                        }
                        assert(rich_views(rich@) =~= self.search_spec(codes@, sel, no_cands).unwrap().0);
                        Some((rich, sel.has_selection, rel))
                    },
                }
            },
            DictKind::Fuzzy(fz) => {
                let q = drop_page_keys_exec(&q0);
                let query = string_from_chars(&q);
                let hits = fz.search(query.as_str());
                if hits.len() == 0 {
                    return None;
                }
                let ghost totals = fz.totals_for(q@);
                assert(crate::fuzz_dict::ranked(totals, hits@));
                let range = page_range_exec(hits.len(), sel, pc, no_cands);
                let (pa, pb, rel) = range;
                let ghost picked = hits@.subrange(pa as int, pb as int);
                let cands = fz.candidates();
                let mut rich: Vec<CandidateRich> = Vec::new();
                let mut k = pa;
                while k < pb
                    invariant
                        pa <= k <= pb <= hits@.len(),
                        picked == hits@.subrange(pa as int, pb as int),
                        crate::fuzz_dict::ranked(totals, hits@),
                        totals.len() == fz.cands_view().len(),
                        cands@ == fz.cands_view(),
                        crate::prefix_dict::ranges_ok(fz.arena_view(), fz.cands_view()),
                        keys@ == self.keys_view(),
                        rich@.len() == k - pa,
                        forall|t: int|
                            0 <= t < k - pa ==> (#[trigger] rich@[t]).view_of() == (RichView {
                                code: arena_str(fz.arena_view(), fz.cands_view()[picked[t].0 as int].code),
                                text: arena_str(fz.arena_view(), fz.cands_view()[picked[t].0 as int].text),
                                weight: fz.cands_view()[picked[t].0 as int].weight,
                                origin: codes@,
                                order: t as usize,
                                select_key: select_key_at(keys@, t, ' '),
                            }),
                    decreases pb - k,
                {
                    let idx = hits[k].0;
                    assert(hits@[k as int].0 < totals.len());
                    let cand = cands[idx];
                    let i = k - pa;
                    proof {
                        assert(arena_range_ok(fz.arena_view(), fz.cands_view()[idx as int].code));
                    }
                    let select_key = if i < keys.len() {
                        keys[i]
                    } else {
                        ' '
                    };
                    let origin = copy_range(codes, 0, codes.len());
                    assert(origin@ =~= codes@);
                    rich.push(
                        CandidateRich::new(
                            fz.get_code(&cand),
                            fz.get_text(&cand),
                            cand.weight,
                            origin,
                            i,
                            select_key,
                        ),
                    );
                    k += 1;
                }
                assert(rich_views(rich@) =~= self.search_spec(codes@, sel, no_cands).unwrap().0);
                Some((rich, sel.has_selection, rel))
            },
        }
    }
}


proof fn lemma_punc_rounds_bound(n: int, c: int)
    requires
        n > 0,
    ensures
        forall|k: int| 0 <= k < punc_rounds(n, c).len() ==> 0 <= #[trigger] punc_rounds(n, c)[k] < n,
        c > 0 ==> punc_rounds(n, c).len() > 0,
    decreases c,
{
    if c > 0 {
        let next = c - (if n < c {
            n
        } else {
            c
        });
        lemma_punc_rounds_bound(n, next);
        let i = if c <= n {
            c - 1
        } else {
            n - 1
        };
        let r = punc_rounds(n, c);
        assert(r == seq![i] + punc_rounds(n, next));
        assert forall|k: int| 0 <= k < r.len() implies 0 <= #[trigger] r[k] < n by {
            if k > 0 {
                assert(r[k] == punc_rounds(n, next)[k - 1]);
            }
        }
    }
}

impl InputAnalyzer {
    /// The text and candidates of a punctuation segment (see `punc_spec`).
    fn get_punctuation(&self, chars: &[char], sel_idx: usize, hs: bool) -> (r: Option<(String, Vec<CandidateRich>)>)
        requires
            chars@.len() > 0,
            hs ==> chars@.len() >= 2,
            self.puncs_view().lists_nonempty(),
        ensures
            punc_view(r) == self.punc_spec(chars@, sel_idx, hs),
    {
        let ps = match self.punctuations.get(chars[0]) {
            None => {
                return None;
            },
            Some(ps) => ps,
        };
        let ghost pv = strings_view(ps@);
        assert(self.puncs_view().lookup(chars@[0]) == Some(pv));
        let n = ps.len();
        assert(pv.len() > 0);
        let c0: usize = if hs {
            chars.len() - 1
        } else {
            chars.len()
        };
        let mut c: usize = c0;
        let mut rounds: Vec<usize> = Vec::new();
        let mut start: usize = 0;
        proof {
            lemma_punc_rounds_bound(n as int, c0 as int);
        }
        while c > 0
            invariant
                n > 0,
                c <= c0,
                rounds@.len() + punc_rounds(n as int, c as int).len() == punc_rounds(n as int, c0 as int).len(),
                forall|k: int| 0 <= k < rounds@.len() ==> #[trigger] rounds@[k] as int == punc_rounds(n as int, c0 as int)[k],
                forall|k: int| 0 <= k < punc_rounds(n as int, c as int).len() ==> punc_rounds(n as int, c as int)[k]
                    == #[trigger] punc_rounds(n as int, c0 as int)[rounds@.len() + k],
                rounds@.len() > 0 ==> start == rounds@[rounds@.len() - 1],
                rounds@.len() == 0 ==> start == 0,
            decreases c,
        {
            let i = if c <= n {
                c - 1
            } else {
                n - 1
            };
            let used = if n < c {
                n
            } else {
                c
            };
            let ghost rest = punc_rounds(n as int, c as int);
            let ghost r0 = punc_rounds(n as int, c0 as int);
            let ghost old_len = rounds@.len() as int;
            proof {
                lemma_punc_rounds_bound(n as int, c as int);
            }
            assert(rest == seq![i as int] + punc_rounds(n as int, (c - used) as int));
            assert(rest[0] == i);
            assert(rest[0] == r0[old_len + 0]);
            rounds.push(i);
            start = i;
            proof {
                assert forall|k: int| 0 <= k < rounds@.len() implies #[trigger] rounds@[k] as int == r0[k] by {
                    if k == old_len {
                        assert(r0[old_len + 0] == r0[k]);
                    }
                }
                assert forall|k: int| 0 <= k < punc_rounds(n as int, (c - used) as int).len() implies punc_rounds(
                    n as int,
                    (c - used) as int,
                )[k] == #[trigger] r0[rounds@.len() + k] by {
                    assert(rest[k + 1] == punc_rounds(n as int, (c - used) as int)[k]);
                    assert(rest[k + 1] == r0[old_len + (k + 1)]);
                    assert(old_len + (k + 1) == rounds@.len() + k);
                }
            }
            c = c - used;
        }
        let ghost rr = punc_rounds(n as int, c0 as int);
        assert(rounds@.len() == rr.len());
        assert(rounds@.len() > 0);
        assert(start == rr.last());
        assert(start < n);
        let last = rounds.len() - 1;
        let ghost taken = Seq::new(rr.len(), |k: int| pv[rr[k]]);
        let ghost shown = if hs && rr.len() > 0 {
            let j = if (sel_idx as int) < n - start - 1 {
                sel_idx as int
            } else {
                n - start - 1
            };
            taken.update(rr.len() - 1, pv[start + j])
        } else {
            taken
        };
        let mut text: Vec<char> = Vec::new();
        let mut k: usize = 0;
        while k < rounds.len()
            invariant
                k <= rounds@.len(),
                rounds@.len() == rr.len(),
                last == rounds@.len() - 1,
                start < n,
                n == ps@.len(),
                pv == strings_view(ps@),
                forall|t: int| 0 <= t < rounds@.len() ==> (#[trigger] rounds@[t]) < n,
                forall|t: int| 0 <= t < rounds@.len() ==> #[trigger] rounds@[t] as int == rr[t],
                shown.len() == rr.len(),
                forall|t: int| 0 <= t < shown.len() ==> #[trigger] shown[t] == (if hs && t == last {
                    pv[start + (if (sel_idx as int) < n - start - 1 {
                        sel_idx as int
                    } else {
                        n - start - 1
                    })]
                } else {
                    pv[rounds@[t] as int]
                }),
                text@ == concat(shown.subrange(0, k as int)),
            decreases rounds@.len() - k,
        {
            let idx = if hs && k == last {
                let room = n - start - 1;
                start + (if sel_idx < room {
                    sel_idx
                } else {
                    room
                })
            } else {
                rounds[k]
            };
            let part = chars_of(ps[idx].as_str());
            let ghost before = text@;
            push_all(&mut text, &part);
            proof {
                assert(shown.subrange(0, k + 1).drop_last() =~= shown.subrange(0, k as int));
                assert(shown[k as int] == pv[idx as int]);
            }
            k += 1;
        }
        assert(shown.subrange(0, k as int) =~= shown);
        let mut cands: Vec<CandidateRich> = Vec::new();
        if !hs {
            let count = n - start;
            let mut j: usize = 0;
            while j < count
                invariant
                    j <= count,
                    count == n - start,
                    start < n,
                    n == ps@.len(),
                    pv == strings_view(ps@),
                    cands@.len() == j,
                    forall|t: int|
                        0 <= t < j ==> (#[trigger] cands@[t]).view_of() == (RichView {
                            code: Seq::empty(),
                            text: pv[start + t],
                            weight: 0,
                            origin: chars@,
                            order: t as usize,
                            select_key: select_key_at(self.keys_view(), t, '_'),
                        }),
                decreases count - j,
            {
                let select_key = if j < self.selection_keys.len() {
                    self.selection_keys[j]
                } else {
                    '_'
                };
                let origin = copy_range(chars, 0, chars.len());
                assert(origin@ =~= chars@);
                let text_j = ps[start + j].clone();
                cands.push(
                    CandidateRich::new(String::new(), text_j, 0, origin, j, select_key),
                );
                j += 1;
            }
        }
        let out = string_from_chars(&text);
        proof {
            let spec = self.punc_spec(chars@, sel_idx, hs).unwrap();
            assert(rich_views(cands@) =~= spec.1);
            assert(out@ == spec.0);
        }
        Some((out, cands))
    }

    /// What the segment `(codes, tag)` gives (see `seg_out`).
    fn seg_outcome(&self, codes: Vec<char>, tag: Tag, at_last: bool, prev_pending: bool) -> (r: (
        String,
        Vec<char>,
        bool,
        Option<Vec<CandidateRich>>,
    ))
        requires
            self.well_formed(),
            self.seg_ok(codes@, tag),
        ensures
            out_view(r) == self.seg_out(codes@, tag, at_last, prev_pending),
            r.3 matches Some(c) ==> c@.len() > 0,
    {
        let ghost spec = self.seg_out(codes@, tag, at_last, prev_pending);
        match tag {
            Tag::Code(sel) => match self.search_candidates(&codes, sel, !at_last) {
                Some((cands, unique, rel)) => {
                    let ghost cv = rich_views(cands@);
                    let origin = if sel.has_pagination {
                        let mut f = drop_page_keys_exec(&codes);
                        if sel.page_no > 0 {
                            let ghost base = f@;
                            let mut t: usize = 0;
                            while t < rel
                                invariant
                                    t <= rel,
                                    f@ == base + page_downs(t as nat),
                                decreases rel - t,
                            {
                                f.push(PAGE_DOWN);
                                t += 1;
                                assert(f@ =~= base + page_downs(t as nat));
                            }
                        }
                        f
                    } else {
                        codes
                    };
                    if at_last && !unique && sel.dict_idx > 0 {
                        let mut t: Vec<char> = chars_of(self.dicts[sel.dict_idx].0.hint.as_str());
                        t.push('|');
                        let first_text = chars_of(cands[0].text.as_str());
                        push_all(&mut t, &first_text);
                        assert(cv[0].text == cands@[0].text@);
                        assert(t@ =~= spec.text);
                        (string_from_chars(&t), origin, true, Some(cands))
                    } else {
                        let text = cands[0].text.clone();
                        assert(cv[0].text == cands@[0].text@);
                        let c = if at_last && !unique {
                            Some(cands)
                        } else {
                            None
                        };
                        (text, origin, !unique, c)
                    }
                },
                None => {
                    if sel.dict_idx > 0 && codes.len() == 1 {
                        let text = if at_last {
                            self.dicts[sel.dict_idx].0.hint.clone()
                        } else {
                            string_from_chars(&codes)
                        };
                        (text, codes, true, None)
                    } else {
                        (string_from_chars(&codes), codes, false, None)
                    }
                },
            },
            Tag::Punctuation(p) => match self.get_punctuation(&codes, p.0, p.1) {
                Some((t, cands)) => {
                    let many = cands.len() > 1;
                    let c = if at_last && many {
                        Some(cands)
                    } else {
                        None
                    };
                    (t, codes, many, c)
                },
                None => (string_from_chars(&codes), codes, false, None),
            },
            Tag::Escape(pair) => {
                let n = codes.len();
                if n > 1 && codes[n - 1] == pair.1 {
                    let text = if n == 2 {
                        let v = vec![pair.0];
                        assert(v@ =~= seq![pair.0]);
                        string_from_chars(&v)
                    } else if self.trim_escape_pair {
                        string_from_chars(&copy_range(&codes, 1, n - 1))
                    } else {
                        string_from_chars(&codes)
                    };
                    (text, codes, false, None)
                } else {
                    (string_from_chars(&codes), codes, true, None)
                }
            },
            Tag::Unknown => {
                let text = if codes.len() > 0 && codes[0] == ' ' && prev_pending {
                    string_from_chars(&copy_range(&codes, 1, codes.len()))
                } else {
                    string_from_chars(&codes)
                };
                (text, codes, false, None)
            },
        }
    }
}


impl InputAnalyzer {
    /// Analyzes `input`: splits it into segments (see `segs`) and looks each up (see
    /// `seg_out`); the result is `analysis(input)`.
    pub fn analyze(&self, input: &[char]) -> (r: AnalysisResult)
        requires
            self.well_formed(),
        ensures
            analysis_view(r) == self.analysis(input@),
            r.candidates matches Some(c) ==> c@.len() > 0 && r.pending && r.segments@.len() > 0,
            input@.len() == 0 ==> r.segments@.len() == 0 && !r.pending && r.candidates is None,
    {
        proof {
            self.lemma_candidates_pending(input@);
        }
        if input.len() == 0 {
            let r = AnalysisResult { segments: Vec::new(), pending: false, candidates: None };
            proof {
                assert(self.segs(input@) =~= Seq::<(Seq<char>, Tag)>::empty());
                assert(analysis_view(r).segments =~= self.analysis(input@).segments);
            }
            return r;
        }
        let raw = self.segments(input);
        let ghost segs = self.segs(input@);
        proof {
            assert(self.dicts_view().len() == self.dicts.len());
            self.lemma_segs_ok(input@, 0, Seq::empty());
        }
        let n = raw.len();
        let mut segments: Vec<(String, Vec<char>, Tag)> = Vec::new();
        let mut pending = false;
        let mut candidates: Option<Vec<CandidateRich>> = None;
        let mut i: usize = 0;
        while i < n
            invariant
                n == raw@.len(),
                segs == segs_view(raw@),
                segs == self.segs(input@),
                self.well_formed(),
                forall|k: int| 0 <= k < segs.len() ==> self.seg_ok((#[trigger] segs[k]).0, segs[k].1),
                i <= n,
                segments@.len() == i,
                forall|k: int|
                    0 <= k < i ==> (#[trigger] segments@[k]).0@ == self.outs(segs, i as int)[k].text
                        && segments@[k].1@ == self.outs(segs, i as int)[k].origin && segments@[k].2
                        == segs[k].1,
                i > 0 ==> pending == self.outs(segs, i as int)[i - 1].pending,
                i == 0 ==> !pending,
                i == 0 ==> candidates is None,
                candidates matches Some(c) ==> c@.len() > 0,
                i > 0 ==> opt_rich_views(candidates) == self.outs(segs, i as int)[i - 1].cands,
                self.outs(segs, i as int).len() == i,
            decreases n - i,
        {
            let codes = copy_range(&raw[i].0, 0, raw[i].0.len());
            let tag = raw[i].1;
            assert(codes@ == segs[i as int].0);
            let at_last = i == n - 1;
            let prev_pending = if i > 0 {
                pending
            } else {
                false
            };
            let ghost prev_outs = self.outs(segs, i as int);
            let out = self.seg_outcome(codes, tag, at_last, prev_pending);
            let (text, origin, p, c) = out;
            proof {
                assert(self.outs(segs, i + 1) == prev_outs.push(
                    self.seg_out(segs[i as int].0, segs[i as int].1, i == segs.len() - 1, prev_pending),
                ));
            }
            segments.push((text, origin, tag));
            pending = p;
            candidates = c;
            i += 1;
        }
        let r = AnalysisResult { segments, pending, candidates };
        proof {
            let a = self.analysis(input@);
            assert(segs.len() == n);
            assert(analysis_view(r).segments =~= a.segments);
            assert(analysis_view(r).pending == a.pending);
            assert(analysis_view(r).candidates == a.candidates);
        }
        r
    }
}


// ---------------------------------------------------------------------------
// Runs of repeated characters
// ---------------------------------------------------------------------------

/// The characters that the runs `rs` stand for, one run after another.
pub open spec fn expand_runs(rs: Seq<(char, usize)>) -> Seq<char>
    decreases rs.len(),
{
    if rs.len() == 0 {
        Seq::empty()
    } else {
        expand_runs(rs.drop_last()) + Seq::new(rs.last().1 as nat, |i: int| rs.last().0)
    }
}

/// `rs` are maximal runs: none empty, and no two neighbours of the same character.
pub open spec fn maximal_runs(rs: Seq<(char, usize)>) -> bool {
    &&& forall|k: int| 0 <= k < rs.len() ==> (#[trigger] rs[k]).1 > 0
    &&& forall|k: int| 0 < k < rs.len() ==> (#[trigger] rs[k]).0 != rs[k - 1].0
}

/// The runs of equal characters of `v`, in order: `['.', '.', '!']` gives
/// `[('.', 2), ('!', 1)]`.
pub fn compact_vec(v: &[char]) -> (r: Vec<(char, usize)>)
    requires
        v@.len() > 0,
    ensures
        expand_runs(r@) == v@,
        maximal_runs(r@),
{
    let mut result: Vec<(char, usize)> = Vec::new();
    let mut count: usize = 1;
    let mut last_char = v[0];
    let mut i: usize = 1;
    while i < v.len()
        invariant
            1 <= i <= v@.len(),
            1 <= count <= i,
            last_char == v@[i - 1],
            expand_runs(result@) + Seq::new(count as nat, |k: int| last_char) == v@.subrange(0, i as int),
            maximal_runs(result@),
            result@.len() > 0 ==> result@.last().0 != last_char,
        decreases v@.len() - i,
    {
        let c = v[i];
        let ghost before = result@;
        if c == last_char {
            count += 1;
            proof {
                assert(Seq::new(count as nat, |k: int| last_char) =~= Seq::new((count - 1) as nat, |k: int| last_char).push(c));
                assert(v@.subrange(0, i + 1) =~= v@.subrange(0, i as int).push(c));
            }
        } else {
            result.push((last_char, count));
            proof {
                assert(result@.drop_last() =~= before);
                assert forall|k: int| 0 < k < result@.len() implies (#[trigger] result@[k]).0 != result@[k - 1].0 by {
                    if k == result@.len() - 1 {
                        assert(result@[k - 1] == before.last());
                    } else {
                        assert(result@[k] == before[k] && result@[k - 1] == before[k - 1]);
                    }
                }
                assert(Seq::new(1nat, |k: int| c) =~= seq![c]);
                assert(v@.subrange(0, i + 1) =~= v@.subrange(0, i as int).push(c));
            }
            last_char = c;
            count = 1;
        }
        i += 1;
    }
    let ghost before = result@;
    result.push((last_char, count));
    assert(result@.drop_last() =~= before);
    assert(v@.subrange(0, i as int) =~= v@);
    assert(maximal_runs(result@)) by {
        assert forall|k: int| 0 < k < result@.len() implies (#[trigger] result@[k]).0 != result@[k - 1].0 by {
            if k == result@.len() - 1 {
                assert(result@[k - 1] == before.last());
            } else {
                assert(result@[k] == before[k] && result@[k - 1] == before[k - 1]);
            }
        }
    }
    result
}

} // verus!
