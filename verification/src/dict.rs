use vstd::prelude::*;

use crate::fuzz_dict::{fuzzy_reachable, FuzzDict};
use crate::prefix_dict::{codes_of, codes_sorted, ranges_ok, reaches, PrefixDict};
use crate::sort::{lemma_positions_distinct, positions, sort_positions, sorted_by, IndexOrder};
use crate::text::{
    compare_chars, seq_le, lemma_seq_lt_irrefl, lemma_seq_lt_trans, lemma_seq_lt_trichotomy, parse_i32,
    parse_i32_chars, seq_lt, Order, lines, lines_from, next_line,
    all_digits, chars_of, is_ascii, is_ascii_alphabetic, is_ascii_alphabetic_char, is_ascii_char,
    is_ascii_digit, is_ascii_digit_char, split_chars, split_on, string_from_chars, trim, trim_chars,
};

verus! {

/// Kind of a table: exact prefix lookup, or fuzzy lookup.
#[derive(PartialEq, Eq, Structural, Clone, Copy, Debug)]
pub enum DictKindName {
    /// Prefix lookup through the prefix index (the default).
    Prefix,
    /// Fuzzy lookup (for emoji and the like).
    Fuzzy,
}

impl Default for DictKindName {
    fn default() -> (r: Self)
        ensures
            r == DictKindName::Prefix,
    {
        DictKindName::Prefix
    }
}

/// What a table is: the character that switches to it, its hint, its path and kind.
#[derive(Clone, Debug)]
pub struct DictMeta {
    /// The character that triggers the table: `'\0'` for the main table, often `'@'`
    /// for a reverse-lookup table.
    pub trigger: char,
    /// Hint shown for the table, such as "反"; empty for the main table.
    pub hint: String,
    /// Path of the table file (relative to the configuration file).
    pub path: String,
    /// Kind of the table.
    pub kind: DictKindName,
}

impl Default for DictMeta {
    fn default() -> (r: Self)
        ensures
            r.trigger == '\0',
            r.hint@ == Seq::<char>::empty(),
            r.path@ == Seq::<char>::empty(),
            r.kind == DictKindName::Prefix,
    {
        DictMeta {
            trigger: '\0',
            hint: String::new(),
            path: String::new(),
            kind: DictKindName::Prefix,
        }
    }
}

/// All strings of a table stored one after another; a string is found again by
/// `(offset, len)`, counted in characters.
#[derive(Debug)]
pub struct StringArena {
    data: Vec<char>,
}

impl View for StringArena {
    type V = Seq<char>;

    closed spec fn view(&self) -> Seq<char> {
        self.data@
    }
}

/// The string that `(offset, len)` designates in `arena`.
pub open spec fn arena_str(arena: Seq<char>, r: (u32, u16)) -> Seq<char> {
    arena.subrange(r.0 as int, r.0 + r.1)
}

/// Whether `(offset, len)` lies inside `arena`.
pub open spec fn arena_range_ok(arena: Seq<char>, r: (u32, u16)) -> bool {
    r.0 + r.1 <= arena.len()
}

impl StringArena {
    pub fn new() -> (r: Self)
        ensures
            r@ == Seq::<char>::empty(),
    {
        StringArena { data: Vec::new() }
    }

    /// Builds an arena that holds `data`.
    pub fn from_chars(data: Vec<char>) -> (r: Self)
        ensures
            r@ == data@,
    {
        StringArena { data }
    }

    /// All characters of the arena.
    pub fn chars(&self) -> (r: &Vec<char>)
        ensures
            r@ == self@,
    {
        &self.data
    }

    pub fn len(&self) -> (n: usize)
        ensures
            n == self@.len(),
    {
        self.data.len()
    }

    /// Appends `s` and returns where it stands.
    pub fn push(&mut self, s: &[char]) -> (r: (u32, u16))
        requires
            old(self)@.len() + s@.len() <= u32::MAX,
            s@.len() <= u16::MAX,
        ensures
            final(self)@ == old(self)@ + s@,
            r.0 == old(self)@.len(),
            r.1 == s@.len(),
    {
        let offset = self.data.len() as u32;
        let len = s.len() as u16;
        let mut i: usize = 0;
        let ghost start = self.data@;
        while i < s.len()
            invariant
                i <= s@.len(),
                self.data@ == start + s@.subrange(0, i as int),
            decreases s@.len() - i,
        {
            self.data.push(s[i]);
            i += 1;
            assert(self.data@ =~= start + s@.subrange(0, i as int));
        }
        assert(s@.subrange(0, i as int) =~= s@);
        (offset, len)
    }

    /// The characters at `(offset, len)`.
    pub fn get(&self, offset: u32, len: u16) -> (r: Vec<char>)
        requires
            offset + len <= self@.len(),
        ensures
            r@ == arena_str(self@, (offset, len)),
    {
        let n = self.data.len();
        let start = offset as usize;
        let end = start + len as usize;
        let mut r: Vec<char> = Vec::new();
        let mut i = start;
        while i < end
            invariant
                start <= i <= end <= self.data@.len(),
                r@ == self.data@.subrange(start as int, i as int),
            decreases end - i,
        {
            r.push(self.data[i]);
            i += 1;
            assert(r@ =~= self.data@.subrange(start as int, i as int));
        }
        r
    }

    /// Whether the characters at `(offset, len)` are exactly `s`.
    pub fn equals(&self, offset: u32, len: u16, s: &[char]) -> (b: bool)
        requires
            offset + len <= self@.len(),
        ensures
            b == (arena_str(self@, (offset, len)) == s@),
    {
        if len as usize != s.len() {
            return false;
        }
        let n = self.data.len();
        let start = offset as usize;
        let mut i: usize = 0;
        while i < s.len()
            invariant
                start == offset,
                len == s@.len(),
                start + s@.len() <= self.data@.len(),
                n == self.data@.len(),
                i <= s@.len(),
                forall|k: int| 0 <= k < i ==> self.data@[start + k] == s@[k],
            decreases s@.len() - i,
        {
            if self.data[start + i] != s[i] {
                return false;
            }
            i += 1;
        }
        assert(arena_str(self@, (offset, len)) =~= s@);
        true
    }
}

/// An entry of a table: where its code and its text stand in the arena, and its weight.
#[derive(Clone, Copy, Debug)]
pub struct Candidate {
    pub code: (u32, u16),
    pub text: (u32, u16),
    pub weight: i32,
}

/// What a column of a table holds.
#[derive(PartialEq, Eq, Structural, Clone, Copy, Debug)]
pub enum Column {
    Code,
    Text,
    Weight,
    Other,
}

pub open spec fn all_ascii(s: Seq<char>) -> bool {
    forall|i: int| 0 <= i < s.len() ==> #[trigger] is_ascii_char(s[i])
}

pub open spec fn any_ascii_alphabetic(s: Seq<char>) -> bool {
    exists|i: int| 0 <= i < s.len() && #[trigger] is_ascii_alphabetic_char(s[i])
}

/// The kind of a (trimmed, non-empty) field of a header line: ASCII with a letter is
/// a code, all digits a weight, anything with a non-ASCII character a text.
pub open spec fn column_of(sp: Seq<char>) -> Column {
    if all_ascii(sp) && any_ascii_alphabetic(sp) && !all_digits(sp) {
        Column::Code
    } else if all_digits(sp) {
        Column::Weight
    } else if !all_ascii(sp) {
        Column::Text
    } else {
        Column::Other
    }
}

/// The columns read from the tab-separated pieces of a line, blank pieces skipped.
pub open spec fn header_columns(pieces: Seq<Seq<char>>) -> Seq<Column>
    decreases pieces.len(),
{
    if pieces.len() == 0 {
        Seq::empty()
    } else {
        let rest = header_columns(pieces.drop_last());
        let t = trim(pieces.last());
        if t.len() == 0 {
            rest
        } else {
            rest.push(column_of(t))
        }
    }
}

pub open spec fn count_column(cols: Seq<Column>, which: Column) -> nat
    decreases cols.len(),
{
    if cols.len() == 0 {
        0
    } else {
        count_column(cols.drop_last(), which) + if cols.last() == which {
            1nat
        } else {
            0nat
        }
    }
}

/// The column layout a line declares, if it is a valid header: at least two
/// non-blank fields, exactly one code and exactly one text.
pub open spec fn columns_of_line(line: Seq<char>) -> Option<Seq<Column>> {
    let cols = header_columns(split_on(line, '\t'));
    if cols.len() >= 2 && count_column(cols, Column::Code) == 1 && count_column(
        cols,
        Column::Text,
    ) == 1 {
        Some(cols)
    } else {
        None
    }
}

/// Kind of one trimmed, non-empty field.
pub fn classify_field(sp: &[char]) -> (c: Column)
    ensures
        c == column_of(sp@),
{
    let mut ascii = true;
    let mut alpha = false;
    let mut digits = true;
    let mut i: usize = 0;
    while i < sp.len()
        invariant
            i <= sp@.len(),
            ascii == all_ascii(sp@.subrange(0, i as int)),
            alpha == any_ascii_alphabetic(sp@.subrange(0, i as int)),
            digits == all_digits(sp@.subrange(0, i as int)),
        decreases sp@.len() - i,
    {
        let c = sp[i];
        let ghost prev = sp@.subrange(0, i as int);
        let ghost next = sp@.subrange(0, i + 1);
        assert(next =~= prev.push(c));
        if !is_ascii(c) {
            ascii = false;
        }
        if is_ascii_alphabetic(c) {
            alpha = true;
        }
        if !is_ascii_digit(c) {
            digits = false;
        }
        proof {
            assert(next[i as int] == c);
            if ascii {
                assert forall|k: int| 0 <= k < next.len() implies #[trigger] is_ascii_char(
                    next[k],
                ) by {
                    if k < i {
                        assert(prev[k] == next[k]);
                    }
                }
            }
            if digits {
                assert forall|k: int| 0 <= k < next.len() implies #[trigger] is_ascii_digit_char(
                    next[k],
                ) by {
                    if k < i {
                        assert(prev[k] == next[k]);
                    }
                }
            }
            if alpha && !is_ascii_alphabetic_char(c) {
                let w = choose|k: int| 0 <= k < prev.len() && is_ascii_alphabetic_char(prev[k]);
                assert(next[w] == prev[w]);
            }
            if !alpha {
                assert forall|k: int| 0 <= k < next.len() implies !is_ascii_alphabetic_char(
                    next[k],
                ) by {
                    if k < i {
                        assert(prev[k] == next[k]);
                    }
                }
            }
        }
        i += 1;
    }
    assert(sp@.subrange(0, i as int) =~= sp@);
    if ascii && alpha && !digits {
        Column::Code
    } else if digits {
        Column::Weight
    } else if !ascii {
        Column::Text
    } else {
        Column::Other
    }
}

/// Reads the column layout of a header line.
///
/// A valid line has at least two non-blank tab-separated fields, exactly one of
/// them a code (ASCII holding a letter) and exactly one a text (holding a non-ASCII
/// character); digits make a weight.
pub fn try_parse_columns(line: &str) -> (r: Result<Vec<Column>, String>)
    ensures
        r is Ok <==> columns_of_line(line@) is Some,
        r matches Ok(v) ==> Some(v@) == columns_of_line(line@),
        r matches Err(m) ==> m@ == (if header_columns(split_on(line@, '\t')).len() < 2 {
            "非有效行"@
        } else {
            "无法确认[列] 顺序"@
        }),
{
    let chars = chars_of(line);
    try_parse_columns_chars(&chars)
}

pub fn try_parse_columns_chars(line: &[char]) -> (r: Result<Vec<Column>, String>)
    ensures
        r is Ok <==> columns_of_line(line@) is Some,
        r matches Ok(v) ==> Some(v@) == columns_of_line(line@),
        r matches Err(m) ==> m@ == (if header_columns(split_on(line@, '\t')).len() < 2 {
            "非有效行"@
        } else {
            "无法确认[列] 顺序"@
        }),
{
    let pieces = split_chars(line, '\t');
    let ghost ps = split_on(line@, '\t');
    let mut cols: Vec<Column> = Vec::new();
    let mut code_count: usize = 0;
    let mut text_count: usize = 0;
    let mut i: usize = 0;
    while i < pieces.len()
        invariant
            pieces@.len() == ps.len(),
            forall|k: int| 0 <= k < pieces@.len() ==> (#[trigger] pieces@[k])@ == ps[k],
            i <= pieces@.len(),
            cols@ == header_columns(ps.subrange(0, i as int)),
            code_count == count_column(cols@, Column::Code),
            text_count == count_column(cols@, Column::Text),
            code_count <= i,
            text_count <= i,
        decreases pieces@.len() - i,
    {
        let t = trim_chars(&pieces[i]);
        proof {
            assert(ps.subrange(0, i + 1).drop_last() =~= ps.subrange(0, i as int));
            assert(ps.subrange(0, i + 1).last() == pieces@[i as int]@);
        }
        if t.len() > 0 {
            let col = classify_field(&t);
            let ghost before = cols@;
            cols.push(col);
            proof {
                assert(cols@.drop_last() =~= before);
            }
            if col == Column::Code {
                code_count += 1;
            }
            if col == Column::Text {
                text_count += 1;
            }
        }
        i += 1;
    }
    assert(ps.subrange(0, i as int) =~= ps);
    if cols.len() < 2 {
        return Err(string_from_chars(&chars_of("非有效行")));
    }
    if code_count == 1 && text_count == 1 {
        Ok(cols)
    } else {
        Err(string_from_chars(&chars_of("无法确认[列] 顺序")))
    }
}


/// Whether `c` lies in one of the CJK extension or compatibility blocks that tables
/// leave out when such a character stands alone.
pub open spec fn extended_cjk(c: char) -> bool {
    let c = c as u32;
    (0x3400 <= c <= 0x4DBF) || (0x20000 <= c <= 0x2A6DF) || (0x2A700 <= c <= 0x2B73F) || (
    0x2B740 <= c <= 0x2B81F) || (0x2B820 <= c <= 0x2CEAF) || (0x2CEB0 <= c <= 0x2EBEF) || (
    0x30000 <= c <= 0x3134F) || (0x31350 <= c <= 0x323AF) || (0x2EBF0 <= c <= 0x2EE5F) || (
    0x323B0 <= c <= 0x3347F) || (0x3300 <= c <= 0x33FF) || (0xFE30 <= c <= 0xFE4F) || (0xF900
        <= c <= 0xFAFF) || (0x2F800 <= c <= 0x2FA1F)
}

/// Whether `c` is a CJK extension or compatibility character.
pub fn is_extended_cjk(c: char) -> (b: bool)
    ensures
        b == extended_cjk(c),
{
    let c = c as u32;
    (0x3400 <= c && c <= 0x4DBF) || (0x20000 <= c && c <= 0x2A6DF) || (0x2A700 <= c && c
        <= 0x2B73F) || (0x2B740 <= c && c <= 0x2B81F) || (0x2B820 <= c && c <= 0x2CEAF) || (
    0x2CEB0 <= c && c <= 0x2EBEF) || (0x30000 <= c && c <= 0x3134F) || (0x31350 <= c && c
        <= 0x323AF) || (0x2EBF0 <= c && c <= 0x2EE5F) || (0x323B0 <= c && c <= 0x3347F) || (
    0x3300 <= c && c <= 0x33FF) || (0xFE30 <= c && c <= 0xFE4F) || (0xF900 <= c && c
        <= 0xFAFF) || (0x2F800 <= c && c <= 0x2FA1F)
}

/// A parsed table entry: code, text, weight.
pub type Entry = (Seq<char>, Seq<char>, i32);

/// An entry read from a line, before it is put in the arena.
#[derive(Clone, Debug)]
pub struct ParsedCandidate {
    pub code: Vec<char>,
    pub text: Vec<char>,
    pub weight: i32,
}

pub open spec fn entry_of(p: ParsedCandidate) -> Entry {
    (p.code@, p.text@, p.weight)
}

/// The last field (trimmed) among the first `n` columns that has kind `which`.
pub open spec fn pick_field(split: Seq<Seq<char>>, cols: Seq<Column>, which: Column, n: int) -> Seq<
    char,
>
    decreases n,
{
    if n <= 0 {
        Seq::empty()
    } else if n - 1 < split.len() && cols[n - 1] == which {
        trim(split[n - 1])
    } else {
        pick_field(split, cols, which, n - 1)
    }
}

/// The weight of the last weight column among the first `n` (0 when it does not parse).
pub open spec fn pick_weight(split: Seq<Seq<char>>, cols: Seq<Column>, n: int) -> i32
    decreases n,
{
    if n <= 0 {
        0
    } else if n - 1 < split.len() && cols[n - 1] == Column::Weight {
        match parse_i32(trim(split[n - 1])) {
            Some(v) => v,
            None => 0,
        }
    } else {
        pick_weight(split, cols, n - 1)
    }
}

/// The entry a line gives under the layout `cols`: none for a line with fewer than
/// two tab-separated fields, an empty code or text, or a lone extension character.
pub open spec fn candidate_of_line(line: Seq<char>, cols: Seq<Column>) -> Option<Entry> {
    let split = split_on(line, '\t');
    let code = pick_field(split, cols, Column::Code, cols.len() as int);
    let text = pick_field(split, cols, Column::Text, cols.len() as int);
    if split.len() < 2 {
        None
    } else if code.len() == 0 || text.len() == 0 {
        None
    } else if text.len() == 1 && extended_cjk(text[0]) {
        None
    } else {
        Some((code, text, pick_weight(split, cols, cols.len() as int)))
    }
}

/// The message of a refused line: `prefix` followed by the line.
pub open spec fn line_message(prefix: Seq<char>, line: Seq<char>) -> Seq<char> {
    prefix + line
}

fn message_with(prefix: &str, raw: &[char]) -> (s: String)
    ensures
        s@ == prefix@ + raw@,
{
    let mut v = chars_of(prefix);
    let mut i: usize = 0;
    let ghost p = v@;
    while i < raw.len()
        invariant
            i <= raw@.len(),
            v@ == p + raw@.subrange(0, i as int),
        decreases raw@.len() - i,
    {
        v.push(raw[i]);
        i += 1;
        assert(v@ =~= p + raw@.subrange(0, i as int));
    }
    assert(raw@.subrange(0, i as int) =~= raw@);
    string_from_chars(&v)
}

/// Reads one line of a table under the column layout `columns`.
pub fn parse_candidate(raw: &[char], columns: &[Column]) -> (r: Result<ParsedCandidate, String>)
    ensures
        r is Ok <==> candidate_of_line(raw@, columns@) is Some,
        r matches Ok(p) ==> Some(entry_of(p)) == candidate_of_line(raw@, columns@),
        r matches Err(m) ==> m@ == (if split_on(raw@, '\t').len() < 2 {
            "无效行: "@ + raw@
        } else if candidate_of_line(raw@, columns@) is None && pick_field(
            split_on(raw@, '\t'),
            columns@,
            Column::Code,
            columns@.len() as int,
        ).len() > 0 && pick_field(
            split_on(raw@, '\t'),
            columns@,
            Column::Text,
            columns@.len() as int,
        ).len() > 0 {
            "拓展字符: "@ + raw@
        } else {
            "code为空: "@ + raw@
        }),
{
    let split = split_chars(raw, '\t');
    let ghost sp = split_on(raw@, '\t');
    if split.len() < 2 {
        return Err(message_with("无效行: ", raw));
    }
    let mut code: Vec<char> = Vec::new();
    let mut text: Vec<char> = Vec::new();
    let mut weight: i32 = 0;
    let mut i: usize = 0;
    while i < columns.len()
        invariant
            split@.len() == sp.len(),
            forall|k: int| 0 <= k < split@.len() ==> (#[trigger] split@[k])@ == sp[k],
            i <= columns@.len(),
            code@ == pick_field(sp, columns@, Column::Code, i as int),
            text@ == pick_field(sp, columns@, Column::Text, i as int),
            weight == pick_weight(sp, columns@, i as int),
        decreases columns@.len() - i,
    {
        if i < split.len() {
            let col = columns[i];
            if col == Column::Code {
                code = trim_chars(&split[i]);
            } else if col == Column::Text {
                text = trim_chars(&split[i]);
            } else if col == Column::Weight {
                let t = trim_chars(&split[i]);
                weight = match parse_i32_chars(&t) {
                    Some(v) => v,
                    None => 0,
                };
            }
        }
        i += 1;
    }
    if code.len() == 0 || text.len() == 0 {
        return Err(message_with("code为空: ", raw));
    }
    if text.len() == 1 && is_extended_cjk(text[0]) {
        return Err(message_with("拓展字符: ", raw));
    }
    Ok(ParsedCandidate { code, text, weight })
}

/// Where the reading of a table stands after some lines: the column layout once a
/// header was found, how many lines failed to be one before, the entries read, and
/// whether the table was refused (more than 100 lines before a header).
pub struct TableScan {
    pub columns: Option<Seq<Column>>,
    pub failures: nat,
    pub entries: Seq<Entry>,
    pub refused: bool,
}

pub open spec fn scan_add(st: TableScan, line: Seq<char>, cols: Seq<Column>) -> TableScan {
    match candidate_of_line(line, cols) {
        Some(e) => TableScan { entries: st.entries.push(e), ..st },
        None => st,
    }
}

/// One line of a table read: a line before the header either is the header (and is
/// then also read as an entry) or counts as a failure; after the header every line
/// that gives an entry adds it.
pub open spec fn scan_step(st: TableScan, line: Seq<char>) -> TableScan {
    if st.refused {
        st
    } else {
        match st.columns {
            Some(cols) => scan_add(st, line, cols),
            None => match columns_of_line(line) {
                Some(cols) => scan_add(TableScan { columns: Some(cols), ..st }, line, cols),
                None => TableScan {
                    failures: st.failures + 1,
                    refused: st.failures + 1 > 100,
                    ..st
                },
            },
        }
    }
}

pub open spec fn scan_start() -> TableScan {
    TableScan { columns: None, failures: 0, entries: Seq::empty(), refused: false }
}

/// The reading of the lines `ls`, in order.
pub open spec fn scan(ls: Seq<Seq<char>>) -> TableScan
    decreases ls.len(),
{
    if ls.len() == 0 {
        scan_start()
    } else {
        scan_step(scan(ls.drop_last()), ls.last())
    }
}

proof fn lemma_refused_stays(ls: Seq<Seq<char>>, more: Seq<Seq<char>>)
    requires
        scan(ls).refused,
    ensures
        scan(ls + more).refused,
        scan(ls + more) == scan(ls),
    decreases more.len(),
{
    if more.len() == 0 {
        assert(ls + more =~= ls);
    } else {
        lemma_refused_stays(ls, more.drop_last());
        assert((ls + more).drop_last() =~= ls + more.drop_last());
    }
}

/// Strict order of entries: by code, then by weight descending.
pub open spec fn entry_key_lt(a: Entry, b: Entry) -> bool {
    seq_lt(a.0, b.0) || (a.0 == b.0 && a.2 > b.2)
}

/// The order in which a table keeps its entries: by code, then by weight descending,
/// then by line.
pub open spec fn entry_order(es: Seq<Entry>, i: int, j: int) -> bool {
    entry_key_lt(es[i], es[j]) || (!entry_key_lt(es[j], es[i]) && i <= j)
}

proof fn lemma_entry_key(a: Entry, b: Entry, c: Entry)
    ensures
        !entry_key_lt(a, a),
        !(entry_key_lt(a, b) && entry_key_lt(b, a)),
        entry_key_lt(a, b) && entry_key_lt(b, c) ==> entry_key_lt(a, c),
        !entry_key_lt(a, b) && !entry_key_lt(b, a) ==> a.0 == b.0 && a.2 == b.2,
{
    lemma_seq_lt_irrefl(a.0);
    lemma_seq_lt_trichotomy(a.0, b.0);
    lemma_seq_lt_trichotomy(b.0, c.0);
    lemma_seq_lt_trichotomy(a.0, c.0);
    if seq_lt(a.0, b.0) && seq_lt(b.0, c.0) {
        lemma_seq_lt_trans(a.0, b.0, c.0);
    }
}

/// The entries of a table with the order they are kept in.
pub struct EntryOrder<'a> {
    pub items: &'a Vec<ParsedCandidate>,
}

impl<'a> EntryOrder<'a> {
    pub open spec fn entries(&self) -> Seq<Entry> {
        self.items@.map_values(|p: ParsedCandidate| entry_of(p))
    }
}

impl<'a> IndexOrder for EntryOrder<'a> {
    open spec fn len_spec(&self) -> nat {
        self.items@.len()
    }

    open spec fn le(&self, i: int, j: int) -> bool {
        entry_order(self.entries(), i, j)
    }

    fn len(&self) -> (n: usize) {
        self.items.len()
    }

    fn le_exec(&self, i: usize, j: usize) -> (b: bool) {
        let a = &self.items[i];
        let c = &self.items[j];
        proof {
            lemma_entry_key(self.entries()[i as int], self.entries()[j as int], self.entries()[j as int]);
        }
        match compare_chars(&a.code, &c.code) {
            Order::Less => true,
            Order::Greater => false,
            Order::Equal => {
                if a.weight > c.weight {
                    true
                } else if a.weight < c.weight {
                    false
                } else {
                    i <= j
                }
            },
        }
    }

    proof fn lemma_total(&self, i: int, j: int) {
        lemma_entry_key(self.entries()[i], self.entries()[j], self.entries()[j]);
    }

    proof fn lemma_trans(&self, i: int, j: int, k: int) {
        let es = self.entries();
        lemma_entry_key(es[i], es[j], es[k]);
        lemma_entry_key(es[j], es[k], es[i]);
        lemma_entry_key(es[k], es[i], es[j]);
        lemma_entry_key(es[i], es[k], es[j]);
        if seq_lt(es[i].0, es[j].0) && es[j].0 == es[k].0 {
        }
        if seq_lt(es[j].0, es[k].0) && es[i].0 == es[j].0 {
        }
    }
}

/// `ids` lists the positions of `es` once each, in the order the table keeps.
pub open spec fn is_stable_order(es: Seq<Entry>, ids: Seq<usize>) -> bool {
    &&& ids.len() == es.len()
    &&& ids.to_multiset() == positions(es.len()).to_multiset()
    &&& forall|a: int| 0 <= a < ids.len() ==> #[trigger] ids[a] < es.len()
    &&& forall|a: int, b: int|
        0 <= a < b < ids.len() ==> entry_order(es, #[trigger] ids[a] as int, #[trigger] ids[b] as int)
}

/// `cands`, read in `arena`, are the entries of `es` in the order `ids`.
pub open spec fn table_matches(
    arena: Seq<char>,
    cands: Seq<Candidate>,
    es: Seq<Entry>,
    ids: Seq<usize>,
) -> bool {
    &&& cands.len() == ids.len()
    &&& forall|k: int|
        0 <= k < cands.len() ==> {
            &&& arena_range_ok(arena, #[trigger] cands[k].code)
            &&& arena_range_ok(arena, cands[k].text)
            &&& arena_str(arena, cands[k].code) == es[ids[k] as int].0
            &&& arena_str(arena, cands[k].text) == es[ids[k] as int].1
            &&& cands[k].weight == es[ids[k] as int].2
        }
}

/// Number of characters the entries take in an arena.
pub open spec fn total_chars(es: Seq<Entry>) -> int
    decreases es.len(),
{
    if es.len() == 0 {
        0
    } else {
        total_chars(es.drop_last()) + es.last().0.len() + es.last().1.len()
    }
}

/// Whether the entries fit an arena: no string over `u16::MAX` characters, and all
/// of them together not over `u32::MAX`.
pub open spec fn fits_arena(es: Seq<Entry>) -> bool {
    &&& total_chars(es) <= u32::MAX
    &&& forall|i: int|
        0 <= i < es.len() ==> (#[trigger] es[i]).0.len() <= u16::MAX && es[i].1.len() <= u16::MAX
}


/// Number of characters the entries of `es` at the positions `ids` take.
pub open spec fn total_at(es: Seq<Entry>, ids: Seq<usize>) -> int
    decreases ids.len(),
{
    if ids.len() == 0 {
        0
    } else {
        total_at(es, ids.drop_last()) + es[ids.last() as int].0.len() + es[
            ids.last() as int
        ].1.len()
    }
}

proof fn lemma_total_at_remove(es: Seq<Entry>, ids: Seq<usize>, p: int)
    requires
        0 <= p < ids.len(),
    ensures
        total_at(es, ids) == total_at(es, ids.remove(p)) + es[ids[p] as int].0.len() + es[
            ids[p] as int
        ].1.len(),
    decreases ids.len(),
{
    if p < ids.len() - 1 {
        lemma_total_at_remove(es, ids.drop_last(), p);
        assert(ids.remove(p).drop_last() =~= ids.drop_last().remove(p));
        assert(ids.remove(p).last() == ids.last());
    } else {
        assert(ids.remove(p) =~= ids.drop_last());
    }
}

proof fn lemma_total_at_prefix(es: Seq<Entry>, ids: Seq<usize>)
    requires
        forall|a: int| 0 <= a < ids.len() ==> #[trigger] ids[a] < es.len() - 1,
        es.len() > 0,
    ensures
        total_at(es, ids) == total_at(es.drop_last(), ids),
    decreases ids.len(),
{
    if ids.len() > 0 {
        lemma_total_at_prefix(es, ids.drop_last());
    }
}

proof fn lemma_total_at_positions(es: Seq<Entry>, ids: Seq<usize>)
    requires
        ids.to_multiset() == positions(es.len()).to_multiset(),
        es.len() <= usize::MAX,
    ensures
        total_at(es, ids) == total_chars(es),
    decreases es.len(),
{
    broadcast use vstd::seq_lib::group_to_multiset_ensures;

    let n = es.len();
    if n == 0 {
        assert(ids.to_multiset().len() == 0);
        assert(ids.len() == 0);
    } else {
        let last = (n - 1) as usize;
        assert(positions(n) =~= positions((n - 1) as nat).push(last));
        assert(positions(n)[n - 1] == last);
        assert(positions(n).to_multiset().count(last) > 0);
        assert(ids.contains(last));
        let p = choose|p: int| 0 <= p < ids.len() && ids[p] == last;
        let rest = ids.remove(p);
        assert(rest.to_multiset() =~= positions((n - 1) as nat).to_multiset()) by {
            assert(ids.remove(p).to_multiset() =~= ids.to_multiset().remove(ids[p]));
            assert(positions(n).to_multiset() =~= positions((n - 1) as nat).to_multiset().insert(
                last,
            ));
        }
        assert forall|a: int| 0 <= a < rest.len() implies #[trigger] rest[a] < es.len() - 1 by {
            let x = rest[a];
            assert(rest.contains(x));
            assert(rest.to_multiset().count(x) > 0);
            assert(positions((n - 1) as nat).to_multiset().count(x) > 0);
            assert(positions((n - 1) as nat).contains(x));
        }
        lemma_total_at_remove(es, ids, p);
        lemma_total_at_prefix(es, rest);
        lemma_total_at_positions(es.drop_last(), rest);
        assert(es[ids[p] as int] == es.last());
        assert(total_at(es, ids) == total_at(es, rest) + es.last().0.len() + es.last().1.len());
        assert(total_chars(es) == total_chars(es.drop_last()) + es.last().0.len()
            + es.last().1.len());
    }
}

proof fn lemma_total_at_grows(es: Seq<Entry>, ids: Seq<usize>, k: int)
    requires
        0 <= k <= ids.len(),
    ensures
        total_at(es, ids.subrange(0, k)) <= total_at(es, ids),
    decreases ids.len() - k,
{
    if k < ids.len() {
        lemma_total_at_grows(es, ids, k + 1);
        assert(ids.subrange(0, k + 1).drop_last() =~= ids.subrange(0, k));
    } else {
        assert(ids.subrange(0, k) =~= ids);
    }
}

proof fn lemma_total_chars_grows(es: Seq<Entry>, k: int)
    requires
        0 <= k <= es.len(),
    ensures
        total_chars(es.subrange(0, k)) <= total_chars(es),
    decreases es.len() - k,
{
    if k < es.len() {
        lemma_total_chars_grows(es, k + 1);
        assert(es.subrange(0, k + 1).drop_last() =~= es.subrange(0, k));
    } else {
        assert(es.subrange(0, k) =~= es);
    }
}

/// The message of a table refused for want of a header line.
pub open spec fn no_header_message() -> Seq<char> {
    "码表中的第一个有效项(非第一行)未满足码表格式:必须要有英文和汉字，以制表符隔开，顺序随意，数字(权重)可选，以供程序自动且正确解析码表排列顺序。"@
}

/// The message of a table too large for an arena.
pub open spec fn too_large_message() -> Seq<char> {
    "码表过大"@
}

pub open spec fn entries_of(v: Seq<ParsedCandidate>) -> Seq<Entry> {
    v.map_values(|p: ParsedCandidate| entry_of(p))
}

/// Reads the entries of a table text, line by line.
fn scan_table(s: &Vec<char>) -> (r: Result<Vec<ParsedCandidate>, String>)
    ensures
        scan(lines(s@)).refused ==> (r matches Err(m) && m@ == no_header_message()),
        !scan(lines(s@)).refused ==> (r matches Ok(v) && entries_of(v@) == scan(lines(s@)).entries),
{
    let n = s.len();
    let mut pos: usize = 0;
    let mut columns: Option<Vec<Column>> = None;
    let mut failures: usize = 0;
    let mut parsed: Vec<ParsedCandidate> = Vec::new();
    let ghost mut seen: Seq<Seq<char>> = Seq::empty();
    assert(seen + lines_from(s@, 0) =~= lines(s@));
    while pos < n
        invariant
            n == s@.len(),
            pos <= n,
            seen + lines_from(s@, pos as int) == lines(s@),
            !scan(seen).refused,
            scan(seen).failures == failures,
            failures <= 100,
            columns matches Some(c) ==> scan(seen).columns == Some(c@),
            columns is None ==> scan(seen).columns is None,
            entries_of(parsed@) == scan(seen).entries,
        decreases n - pos,
    {
        let (line, k) = next_line(s, pos);
        let ghost st = scan(seen);
        let ghost next_seen = seen.push(line@);
        proof {
            assert(next_seen + lines_from(s@, k + 1) =~= seen + lines_from(s@, pos as int));
            assert(next_seen.drop_last() =~= seen);
            assert(scan(next_seen) == scan_step(st, line@));
        }
        let mut header_failed = false;
        if columns.is_none() {
            match try_parse_columns_chars(&line) {
                Ok(cols) => {
                    columns = Some(cols);
                },
                Err(_) => {
                    header_failed = true;
                },
            }
        }
        if header_failed {
            failures += 1;
            if failures > 100 {
                proof {
                    lemma_refused_stays(next_seen, lines_from(s@, k + 1));
                }
                return Err(string_from_chars(
                    &chars_of(
                        "码表中的第一个有效项(非第一行)未满足码表格式:必须要有英文和汉字，以制表符隔开，顺序随意，数字(权重)可选，以供程序自动且正确解析码表排列顺序。",
                    ),
                ));
            }
        } else {
            match &columns {
                Some(cols) => {
                    let ghost before = parsed@;
                    match parse_candidate(&line, cols) {
                        Ok(p) => {
                            parsed.push(p);
                            assert(entries_of(parsed@) =~= entries_of(before).push(entry_of(p)));
                        },
                        Err(_) => {},
                    }
                },
                None => {},
            }
        }
        proof {
            seen = next_seen;
        }
        if k >= n {
            proof {
                assert(lines_from(s@, k + 1) =~= Seq::<Seq<char>>::empty());
                assert(lines_from(s@, n as int) =~= Seq::<Seq<char>>::empty());
            }
            pos = n;
        } else {
            pos = k + 1;
        }
    }
    proof {
        assert(lines_from(s@, pos as int) =~= Seq::<Seq<char>>::empty());
        assert(seen =~= lines(s@));
    }
    Ok(parsed)
}

/// Reads a table text into an arena and its entries, ordered by code, then by
/// weight descending, then by line.
///
/// Lines before the first header line (see `try_parse_columns`) are skipped; the
/// table is refused when more than 100 of them come first. Lines that give no
/// entry (see `parse_candidate`) are skipped.
pub fn parse_dict_txt(raw: &str) -> (r: Result<(StringArena, Vec<Candidate>), String>)
    ensures
        scan(lines(raw@)).refused ==> (r matches Err(m) && m@ == no_header_message()),
        !scan(lines(raw@)).refused && !fits_arena(scan(lines(raw@)).entries) ==> (r matches Err(
            m,
        ) && m@ == too_large_message()),
        !scan(lines(raw@)).refused && fits_arena(scan(lines(raw@)).entries) ==> (r matches Ok(
            (arena, cands),
        ) && exists|ids: Seq<usize>|
            is_stable_order(scan(lines(raw@)).entries, ids) && table_matches(
                arena@,
                cands@,
                scan(lines(raw@)).entries,
                ids,
            )),
{
    let s = chars_of(raw);
    let parsed = match scan_table(&s) {
        Ok(p) => p,
        Err(m) => {
            return Err(m);
        },
    };
    let ghost es = entries_of(parsed@);
    // size limits of the arena
    let mut total: u64 = 0;
    let mut i: usize = 0;
    while i < parsed.len()
        invariant
            es == entries_of(parsed@),
            !scan(lines(raw@)).refused,
            es == scan(lines(raw@)).entries,
            i <= parsed@.len(),
            total == total_chars(es.subrange(0, i as int)),
            total <= u32::MAX,
            forall|j: int|
                0 <= j < i ==> (#[trigger] es[j]).0.len() <= u16::MAX && es[j].1.len() <= u16::MAX,
        decreases parsed@.len() - i,
    {
        let cl = parsed[i].code.len();
        let tl = parsed[i].text.len();
        if cl > 65535 || tl > 65535 {
            assert(es[i as int].0.len() == cl && es[i as int].1.len() == tl);
            return Err(string_from_chars(&chars_of("码表过大")));
        }
        proof {
            assert(es.subrange(0, i + 1).drop_last() =~= es.subrange(0, i as int));
        }
        total = total + cl as u64 + tl as u64;
        if total > 4294967295 {
            proof {
                lemma_total_chars_grows(es, i + 1);
            }
            return Err(string_from_chars(&chars_of("码表过大")));
        }
        i += 1;
    }
    proof {
        assert(es.subrange(0, i as int) =~= es);
    }
    let ord = EntryOrder { items: &parsed };
    let ids = sort_positions(&ord);
    proof {
        assert(ord.entries() == es);
        lemma_total_at_positions(es, ids@);
    }
    let mut arena = StringArena::new();
    let mut cands: Vec<Candidate> = Vec::new();
    let mut k: usize = 0;
    proof {
        assert forall|a: int, b: int| 0 <= a < b < ids@.len() implies entry_order(
            es,
            #[trigger] ids@[a] as int,
            #[trigger] ids@[b] as int,
        ) by {
            assert(ord.le(ids@[a] as int, ids@[b] as int));
        }
        assert forall|a: int| 0 <= a < ids@.len() implies #[trigger] ids@[a] < es.len() by {
            assert(ids@[a] < ord.len_spec());
        }
    }
    assert(is_stable_order(es, ids@));
    while k < ids.len()
        invariant
            es == entries_of(parsed@),
            is_stable_order(es, ids@),
            !scan(lines(raw@)).refused,
            es == scan(lines(raw@)).entries,
            fits_arena(es),
            ids@.len() == es.len(),
            forall|a: int| 0 <= a < ids@.len() ==> #[trigger] ids@[a] < es.len(),
            total_at(es, ids@) == total_chars(es),
            k <= ids@.len(),
            arena@.len() == total_at(es, ids@.subrange(0, k as int)),
            cands@.len() == k,
            forall|a: int|
                0 <= a < k ==> {
                    &&& arena_range_ok(arena@, #[trigger] cands@[a].code)
                    &&& arena_range_ok(arena@, cands@[a].text)
                    &&& arena_str(arena@, cands@[a].code) == es[ids@[a] as int].0
                    &&& arena_str(arena@, cands@[a].text) == es[ids@[a] as int].1
                    &&& cands@[a].weight == es[ids@[a] as int].2
                },
        decreases ids@.len() - k,
    {
        let idx = ids[k];
        let p = &parsed[idx];
        let ghost e = es[idx as int];
        proof {
            assert(ids@.subrange(0, k + 1).drop_last() =~= ids@.subrange(0, k as int));
            lemma_total_at_grows(es, ids@, k + 1);
            assert(e.0.len() <= u16::MAX && e.1.len() <= u16::MAX);
        }
        let ghost a0 = arena@;
        let code = arena.push(&p.code);
        let ghost a1 = arena@;
        let text = arena.push(&p.text);
        proof {
            assert(arena_str(arena@, code) =~= e.0);
            assert(arena_str(arena@, text) =~= e.1);
            assert forall|a: int| 0 <= a < k implies arena_str(arena@, #[trigger] cands@[a].code)
                == arena_str(a0, cands@[a].code) && arena_str(arena@, cands@[a].text) == arena_str(
                a0,
                cands@[a].text,
            ) by {
                assert(arena_str(arena@, cands@[a].code) =~= arena_str(a0, cands@[a].code));
                assert(arena_str(arena@, cands@[a].text) =~= arena_str(a0, cands@[a].text));
            }
        }
        cands.push(Candidate { code, text, weight: p.weight });
        k += 1;
    }
    proof {
        assert(is_stable_order(es, ids@));
        assert(table_matches(arena@, cands@, es, ids@));
    }
    Ok((arena, cands))
}


/// `arena` and `cands` hold the entries `es`, in the order a table keeps them.
pub open spec fn holds_entries(arena: Seq<char>, cands: Seq<Candidate>, es: Seq<Entry>) -> bool {
    exists|ids: Seq<usize>| is_stable_order(es, ids) && table_matches(arena, cands, es, ids)
}

/// Two orderings of the same distinct positions, both in entry order, are the same.
proof fn lemma_order_unique(es: Seq<Entry>, s1: Seq<usize>, s2: Seq<usize>)
    requires
        s1.to_multiset() == s2.to_multiset(),
        forall|a: int, b: int| 0 <= a < b < s1.len() ==> s1[a] != s1[b],
        forall|a: int, b: int| 0 <= a < b < s2.len() ==> s2[a] != s2[b],
        forall|a: int| 0 <= a < s1.len() ==> (#[trigger] s1[a]) < es.len(),
        forall|a: int| 0 <= a < s2.len() ==> (#[trigger] s2[a]) < es.len(),
        forall|a: int, b: int|
            0 <= a < b < s1.len() ==> entry_order(es, #[trigger] s1[a] as int, #[trigger] s1[b] as int),
        forall|a: int, b: int|
            0 <= a < b < s2.len() ==> entry_order(es, #[trigger] s2[a] as int, #[trigger] s2[b] as int),
    ensures
        s1 == s2,
    decreases s1.len(),
{
    s1.to_multiset_ensures();
    s2.to_multiset_ensures();
    if s1.len() == 0 {
        assert(s2.len() == 0);
        assert(s1 =~= s2);
    } else {
        let x = s1[0];
        let y = s2[0];
        assert(s1.to_multiset().count(x) > 0) by {
            assert(s1.contains(x));
        }
        assert(s2.contains(x));
        assert(s2.to_multiset().count(y) > 0) by {
            assert(s2.contains(y));
        }
        assert(s1.contains(y));
        if x != y {
            let j = choose|j: int| 0 <= j < s2.len() && s2[j] == x;
            let i = choose|i: int| 0 <= i < s1.len() && s1[i] == y;
            assert(j > 0 && i > 0);
            assert(entry_order(es, y as int, x as int));
            assert(entry_order(es, x as int, y as int));
            lemma_entry_key(es[x as int], es[y as int], es[x as int]);
            assert(false);
        }
        let t1 = s1.remove(0);
        let t2 = s2.remove(0);
        assert(t1 == s1.drop_first());
        assert(t2 == s2.drop_first());
        assert(t1.to_multiset() == t2.to_multiset());
        lemma_order_unique(es, t1, t2);
        assert(s1 =~= seq![x] + t1);
        assert(s2 =~= seq![y] + t2);
    }
}

/// The order in which a table read from text holds its entries is the one stable
/// order by code and weight: two tables that both hold `es` hold the same
/// candidates, code, text and weight, in the same order.
pub proof fn lemma_entries_determined(
    a1: Seq<char>,
    c1: Seq<Candidate>,
    a2: Seq<char>,
    c2: Seq<Candidate>,
    es: Seq<Entry>,
)
    requires
        holds_entries(a1, c1, es),
        holds_entries(a2, c2, es),
        es.len() <= usize::MAX,
    ensures
        c1.len() == c2.len(),
        forall|k: int|
            0 <= k < c1.len() ==> arena_str(a1, #[trigger] c1[k].code) == arena_str(a2, c2[k].code)
                && arena_str(a1, c1[k].text) == arena_str(a2, c2[k].text) && c1[k].weight
                == c2[k].weight,
{
    let i1 = choose|ids: Seq<usize>| is_stable_order(es, ids) && table_matches(a1, c1, es, ids);
    let i2 = choose|ids: Seq<usize>| is_stable_order(es, ids) && table_matches(a2, c2, es, ids);
    assert forall|a: int, b: int| 0 <= a < b < i1.len() implies i1[a] != i1[b] by {
        lemma_positions_distinct(i1, es.len(), a, b);
    }
    assert forall|a: int, b: int| 0 <= a < b < i2.len() implies i2[a] != i2[b] by {
        lemma_positions_distinct(i2, es.len(), a, b);
    }
    lemma_order_unique(es, i1, i2);
}

/// A table read from text lies inside its arena and comes in order of code.
pub proof fn lemma_table_sorted(arena: Seq<char>, cands: Seq<Candidate>, es: Seq<Entry>)
    requires
        holds_entries(arena, cands, es),
    ensures
        ranges_ok(arena, cands),
        codes_sorted(codes_of(arena, cands)),
{
    let ids = choose|ids: Seq<usize>| is_stable_order(es, ids) && table_matches(arena, cands, es, ids);
    let codes = codes_of(arena, cands);
    assert forall|i: int| 0 <= i < cands.len() implies arena_range_ok(arena, (#[trigger] cands[i]).code)
        && arena_range_ok(arena, cands[i].text) by {
        assert(arena_range_ok(arena, cands[i].code));
    }
    assert forall|a: int, b: int| 0 <= a < b < codes.len() implies seq_le(
        #[trigger] codes[a],
        #[trigger] codes[b],
    ) by {
        let x = ids[a] as int;
        let y = ids[b] as int;
        assert(arena_range_ok(arena, cands[a].code));
        assert(arena_range_ok(arena, cands[b].code));
        assert(codes[a] == es[x].0);
        assert(codes[b] == es[y].0);
        assert(entry_order(es, x, y));
        lemma_seq_lt_trichotomy(es[x].0, es[y].0);
    }
}

/// A table, looked up by code prefix or by fuzzy matching.
#[derive(Debug)]
pub enum DictKind {
    /// Looked up by code prefix (the usual tables).
    Prefix(PrefixDict),
    /// Looked up by fuzzy matching (emoji and the like).
    Fuzzy(FuzzDict),
}

impl Default for DictKind {
    fn default() -> (d: Self)
        ensures
            d matches DictKind::Prefix(p) && p.cands_view().len() == 0,
    {
        DictKind::Prefix(PrefixDict::default())
    }
}

impl DictKind {
    /// Whether `codes` can go on being typed as a code of the table: for a prefix table,
    /// some code starts with them (so it has candidates); for a fuzzy table, they have
    /// the form of a query, whether or not anything matches it (so that a query with no
    /// match still stays one code segment).
    pub open spec fn can_reach(&self, codes: Seq<char>) -> bool {
        match self {
            DictKind::Prefix(d) => reaches(d.codes(), codes),
            DictKind::Fuzzy(_) => fuzzy_reachable(codes),
        }
    }

    /// Whether `codes` can go on being typed as a code of the table (see `can_reach`).
    pub fn reachable(&self, codes: &[char]) -> (b: bool)
        ensures
            b == self.can_reach(codes@),
    {
        match self {
            DictKind::Prefix(dict) => dict.reachable(codes),
            DictKind::Fuzzy(fuzz) => fuzz.reachable(codes),
        }
    }

    /// Number of entries of a prefix table; a fuzzy table counts none.
    pub fn count(&self) -> (n: usize)
        ensures
            match self {
                DictKind::Prefix(d) => n == d.cands_view().len(),
                DictKind::Fuzzy(_) => n == 0,
            },
    {
        match self {
            DictKind::Prefix(dict) => dict.count(),
            DictKind::Fuzzy(_) => 0,
        }
    }

    /// Reads a table from its text (see `parse_dict_txt`) as a table of the given kind.
    pub fn from_str(raw: &str, kind: DictKindName) -> (r: Result<Self, String>)
        ensures
            scan(lines(raw@)).refused ==> (r matches Err(m) && m@ == no_header_message()),
            !scan(lines(raw@)).refused && !fits_arena(scan(lines(raw@)).entries) ==> (r matches Err(
                m,
            ) && m@ == too_large_message()),
            !scan(lines(raw@)).refused && fits_arena(scan(lines(raw@)).entries) ==> (r matches Ok(
                d,
            ) && match d {
                DictKind::Prefix(p) => kind == DictKindName::Prefix && holds_entries(
                    p.arena_view(),
                    p.cands_view(),
                    scan(lines(raw@)).entries,
                ),
                DictKind::Fuzzy(f) => kind == DictKindName::Fuzzy && holds_entries(
                    f.arena_view(),
                    f.cands_view(),
                    scan(lines(raw@)).entries,
                ),
            }),
    {
        let (arena, candidates) = match parse_dict_txt(raw) {
            Ok(t) => t,
            Err(m) => {
                return Err(m);
            },
        };
        let ghost es = scan(lines(raw@)).entries;
        proof {
            lemma_table_sorted(arena@, candidates@, es);
        }
        match kind {
            DictKindName::Prefix => Ok(DictKind::Prefix(PrefixDict::new(arena, candidates))),
            DictKindName::Fuzzy => Ok(DictKind::Fuzzy(FuzzDict::new(arena, candidates))),
        }
    }

    /// The prefix table; the table must be one.
    pub fn as_prefix(&self) -> (d: &PrefixDict)
        requires
            self is Prefix,
        ensures
            *self == DictKind::Prefix(*d),
    {
        match self {
            DictKind::Prefix(dict) => dict,
            DictKind::Fuzzy(_) => {
                proof {
                    assert(false);
                }
                unreached()
            },
        }
    }

    /// The fuzzy table; the table must be one.
    pub fn as_fuzzy(&self) -> (d: &FuzzDict)
        requires
            self is Fuzzy,
        ensures
            *self == DictKind::Fuzzy(*d),
    {
        match self {
            DictKind::Fuzzy(dict) => dict,
            DictKind::Prefix(_) => {
                proof {
                    assert(false);
                }
                unreached()
            },
        }
    }

    /// The prefix table; the table must be one.
    pub fn into_prefix(self) -> (d: PrefixDict)
        requires
            self is Prefix,
        ensures
            self == DictKind::Prefix(d),
    {
        match self {
            DictKind::Prefix(dict) => dict,
            DictKind::Fuzzy(_) => {
                proof {
                    assert(false);
                }
                unreached()
            },
        }
    }

    /// The fuzzy table; the table must be one.
    pub fn into_fuzzy(self) -> (d: FuzzDict)
        requires
            self is Fuzzy,
        ensures
            self == DictKind::Fuzzy(d),
    {
        match self {
            DictKind::Fuzzy(dict) => dict,
            DictKind::Prefix(_) => {
                proof {
                    assert(false);
                }
                unreached()
            },
        }
    }
}

} // verus!
