//! Positions in a document held as a rope: the editor's `(line, column)` in the
//! negotiated encoding, and the rope's character index.

use vstd::prelude::*;
use ropey::Rope;

use crate::input_analyzer::InputAnalyzer;
use crate::lsp::{
    boundary_ok, completion_entries, entry_view, completion_in_line, entries_spec, locate_filter_start,
    plan_completion, plan_spec, start_bound, CompletionConfig, EntryView,
};
use crate::text::{str_equal, string_from_chars, unicode_alphabetic};

verus! {

/// How the editor counts the columns of a line.
#[derive(Debug, Clone, Copy, PartialEq, Eq, Structural)]
pub enum PositionEncoding {
    /// Bytes of UTF-8.
    Utf8,
    /// Code units of UTF-16.
    Utf16,
    /// Unicode scalar values, the rope's own characters.
    Utf32,
}

impl PositionEncoding {
    /// The encoding named `name` in the protocol.
    pub fn from_lsp(name: &str) -> (r: Option<Self>)
        ensures
            r == (if name@ == "utf-8"@ {
                Some(PositionEncoding::Utf8)
            } else if name@ == "utf-16"@ {
                Some(PositionEncoding::Utf16)
            } else if name@ == "utf-32"@ {
                Some(PositionEncoding::Utf32)
            } else {
                None
            }),
    {
        if str_equal(name, "utf-8") {
            Some(PositionEncoding::Utf8)
        } else if str_equal(name, "utf-16") {
            Some(PositionEncoding::Utf16)
        } else if str_equal(name, "utf-32") {
            Some(PositionEncoding::Utf32)
        } else {
            None
        }
    }

    /// The protocol's name of the encoding.
    pub fn to_lsp(self) -> (r: &'static str)
        ensures
            r@ == (match self {
                PositionEncoding::Utf8 => "utf-8"@,
                PositionEncoding::Utf16 => "utf-16"@,
                PositionEncoding::Utf32 => "utf-32"@,
            }),
    {
        match self {
            PositionEncoding::Utf8 => "utf-8",
            PositionEncoding::Utf16 => "utf-16",
            PositionEncoding::Utf32 => "utf-32",
        }
    }
}

/// Why a position does not lie in the document: the index tried and the length it
/// exceeds, counted in the unit that the variant names.
#[derive(Debug, Clone, Copy, PartialEq, Eq, Structural)]
pub enum PositionError {
    CharIndexOutOfBounds(usize, usize),
    ByteIndexOutOfBounds(usize, usize),
    Utf16IndexOutOfBounds(usize, usize),
}

#[verifier::external_type_specification]
#[verifier::external_body]
pub struct ExRope(Rope);

/// The characters that a rope holds.
pub uninterp spec fn rope_chars(rope: Rope) -> Seq<char>;

/// The characters that end a line: LF, VT, FF, CR, NEL, LS and PS.
pub open spec fn is_line_break(c: char) -> bool {
    c == '\n' || c == '\u{0B}' || c == '\u{0C}' || c == '\r' || c == '\u{85}' || c == '\u{2028}'
        || c == '\u{2029}'
}

/// Whether the character at `i` ends a line: a line break that is not the CR of a
/// CR LF pair.
pub open spec fn ends_line(s: Seq<char>, i: int) -> bool {
    is_line_break(s[i]) && !(s[i] == '\r' && i + 1 < s.len() && s[i + 1] == '\n')
}

/// How many lines end at or after `i`.
pub open spec fn breaks_from(s: Seq<char>, i: int) -> nat
    decreases s.len() - i,
{
    if i < 0 || i >= s.len() {
        0
    } else {
        (if ends_line(s, i) { 1nat } else { 0nat }) + breaks_from(s, i + 1)
    }
}

/// How many lines the text has: one more than its line breaks.
pub open spec fn line_count(s: Seq<char>) -> nat {
    breaks_from(s, 0) + 1
}

/// Where the `k`-th line counted from `i` starts; the text's end once the lines run out.
pub open spec fn line_start_from(s: Seq<char>, i: int, k: nat) -> int
    decreases s.len() - i,
{
    if k == 0 {
        i
    } else if i < 0 || i >= s.len() {
        s.len() as int
    } else if ends_line(s, i) {
        line_start_from(s, i + 1, (k - 1) as nat)
    } else {
        line_start_from(s, i + 1, k)
    }
}

/// The character index where line `k` starts.
pub open spec fn line_start(s: Seq<char>, k: nat) -> int {
    line_start_from(s, 0, k)
}

/// Line `k` with the line break that ends it.
pub open spec fn line_text(s: Seq<char>, k: nat) -> Seq<char> {
    s.subrange(line_start(s, k), line_start(s, k + 1))
}

/// How many units of `enc` the character `c` takes.
pub open spec fn unit_width(c: char, enc: PositionEncoding) -> nat {
    match enc {
        PositionEncoding::Utf8 => if (c as u32) < 0x80 {
            1
        } else if (c as u32) < 0x800 {
            2
        } else if (c as u32) < 0x10000 {
            3
        } else {
            4
        },
        PositionEncoding::Utf16 => if (c as u32) < 0x10000 {
            1
        } else {
            2
        },
        PositionEncoding::Utf32 => 1,
    }
}

/// How many units of `enc` the text takes.
pub open spec fn units_len(s: Seq<char>, enc: PositionEncoding) -> nat
    decreases s.len(),
{
    if s.len() == 0 {
        0
    } else {
        unit_width(s[0], enc) + units_len(s.drop_first(), enc)
    }
}

/// The index of the character that unit `n` of the text belongs to; the text's length
/// for the unit just past its end.
pub open spec fn units_to_chars(s: Seq<char>, n: int, enc: PositionEncoding) -> nat
    decreases s.len(),
{
    if s.len() == 0 {
        0
    } else if unit_width(s[0], enc) <= n {
        1 + units_to_chars(s.drop_first(), n - unit_width(s[0], enc), enc)
    } else {
        0
    }
}

/// The character index of the editor's position `(line, col)` in the text `s`.
pub open spec fn char_index_spec(s: Seq<char>, line: usize, col: usize, enc: PositionEncoding) -> Result<
    usize,
    PositionError,
> {
    let n = line_count(s);
    if line == n && col == 0 {
        Ok(s.len() as usize)
    } else if line > n || (line == n && col > 0) {
        Err(PositionError::CharIndexOutOfBounds(col, 0))
    } else {
        let start = line_start(s, line as nat);
        let text = line_text(s, line as nat);
        match enc {
            PositionEncoding::Utf32 => Ok((start + col) as usize),
            PositionEncoding::Utf8 => if col <= units_len(text, enc) {
                Ok((start + units_to_chars(text, col as int, enc)) as usize)
            } else {
                Err(PositionError::ByteIndexOutOfBounds(col, units_len(text, enc) as usize))
            },
            PositionEncoding::Utf16 => if col <= units_len(text, enc) {
                Ok((start + units_to_chars(text, col as int, enc)) as usize)
            } else {
                Err(PositionError::Utf16IndexOutOfBounds(col, units_len(text, enc) as usize))
            },
        }
    }
}

/// `Rope::len_chars`: how many characters the rope holds.
#[verifier::external_body]
fn rope_len_chars(rope: &Rope) -> (n: usize)
    ensures
        n == rope_chars(*rope).len(),
{
    rope.len_chars()
}

/// `Rope::len_lines`: one more than the line breaks of the rope, where LF, VT, FF, CR,
/// NEL, LS and PS each end a line and a CR LF pair ends one.
#[verifier::external_body]
fn rope_len_lines(rope: &Rope) -> (n: usize)
    ensures
        n == line_count(rope_chars(*rope)),
{
    rope.len_lines()
}

/// `Rope::try_line_to_char`: the character index where line `line` starts (the rope's
/// length for the line just past the last), or `None` past that.
#[verifier::external_body]
fn rope_line_to_char(rope: &Rope, line: usize) -> (r: Option<usize>)
    ensures
        r is Some <==> line <= line_count(rope_chars(*rope)),
        r matches Some(v) ==> v == line_start(rope_chars(*rope), line as nat),
{
    rope.try_line_to_char(line).ok()
}

/// `RopeSlice::len_bytes` of `Rope::line`: the UTF-8 length of line `line`, its line
/// break included.
#[verifier::external_body]
fn line_len_bytes(rope: &Rope, line: usize) -> (n: usize)
    requires
        line < line_count(rope_chars(*rope)),
    ensures
        n == units_len(line_text(rope_chars(*rope), line as nat), PositionEncoding::Utf8),
{
    rope.line(line).len_bytes()
}

/// `RopeSlice::len_utf16_cu` of `Rope::line`: the UTF-16 length of line `line`, its
/// line break included.
#[verifier::external_body]
fn line_len_utf16(rope: &Rope, line: usize) -> (n: usize)
    requires
        line < line_count(rope_chars(*rope)),
    ensures
        n == units_len(line_text(rope_chars(*rope), line as nat), PositionEncoding::Utf16),
{
    rope.line(line).len_utf16_cu()
}

/// `RopeSlice::try_byte_to_char` of `Rope::line`: the index in line `line` of the
/// character that byte `byte` belongs to (the line's length for the byte just past its
/// end), or `None` past that.
#[verifier::external_body]
fn line_byte_to_char(rope: &Rope, line: usize, byte: usize) -> (r: Option<usize>)
    requires
        line < line_count(rope_chars(*rope)),
    ensures
        r is Some <==> byte <= units_len(
            line_text(rope_chars(*rope), line as nat),
            PositionEncoding::Utf8,
        ),
        r matches Some(v) ==> v == units_to_chars(
            line_text(rope_chars(*rope), line as nat),
            byte as int,
            PositionEncoding::Utf8,
        ),
{
    rope.line(line).try_byte_to_char(byte).ok()
}

/// `RopeSlice::try_utf16_cu_to_char` of `Rope::line`: the index in line `line` of the
/// character that UTF-16 code unit `unit` belongs to (the line's length for the unit
/// just past its end), or `None` past that.
#[verifier::external_body]
fn line_utf16_to_char(rope: &Rope, line: usize, unit: usize) -> (r: Option<usize>)
    requires
        line < line_count(rope_chars(*rope)),
    ensures
        r is Some <==> unit <= units_len(
            line_text(rope_chars(*rope), line as nat),
            PositionEncoding::Utf16,
        ),
        r matches Some(v) ==> v == units_to_chars(
            line_text(rope_chars(*rope), line as nat),
            unit as int,
            PositionEncoding::Utf16,
        ),
{
    rope.line(line).try_utf16_cu_to_char(unit).ok()
}

/// `RopeSlice::char_to_byte` of `Rope::line`: the UTF-8 length of the first `idx`
/// characters of line `line`.
#[verifier::external_body]
fn line_char_to_byte(rope: &Rope, line: usize, idx: usize) -> (n: usize)
    requires
        line < line_count(rope_chars(*rope)),
        idx <= line_text(rope_chars(*rope), line as nat).len(),
    ensures
        n == units_len(
            line_text(rope_chars(*rope), line as nat).take(idx as int),
            PositionEncoding::Utf8,
        ),
{
    rope.line(line).char_to_byte(idx)
}

/// `RopeSlice::char_to_utf16_cu` of `Rope::line`: the UTF-16 length of the first `idx`
/// characters of line `line`.
#[verifier::external_body]
fn line_char_to_utf16(rope: &Rope, line: usize, idx: usize) -> (n: usize)
    requires
        line < line_count(rope_chars(*rope)),
        idx <= line_text(rope_chars(*rope), line as nat).len(),
    ensures
        n == units_len(
            line_text(rope_chars(*rope), line as nat).take(idx as int),
            PositionEncoding::Utf16,
        ),
{
    rope.line(line).char_to_utf16_cu(idx)
}

/// Counting lines from `i` never goes back before `i` nor past the text's end.
proof fn lemma_line_start_bounds(s: Seq<char>, i: int, k: nat)
    requires
        0 <= i <= s.len(),
    ensures
        i <= line_start_from(s, i, k) <= s.len(),
    decreases s.len() - i,
{
    if k > 0 && i < s.len() {
        if ends_line(s, i) {
            lemma_line_start_bounds(s, i + 1, (k - 1) as nat);
        } else {
            lemma_line_start_bounds(s, i + 1, k);
        }
    }
}

/// A later line starts no earlier.
proof fn lemma_line_start_next(s: Seq<char>, i: int, k: nat)
    requires
        0 <= i <= s.len(),
    ensures
        line_start_from(s, i, k) <= line_start_from(s, i, k + 1),
    decreases s.len() - i,
{
    if k == 0 {
        lemma_line_start_bounds(s, i, 1);
    } else if i < s.len() {
        if ends_line(s, i) {
            lemma_line_start_next(s, i + 1, (k - 1) as nat);
        } else {
            lemma_line_start_next(s, i + 1, k);
        }
    }
}

/// A unit of a text belongs to one of its characters, or lies just past them.
proof fn lemma_units_to_chars_le(s: Seq<char>, n: int, enc: PositionEncoding)
    ensures
        units_to_chars(s, n, enc) <= s.len(),
    decreases s.len(),
{
    if s.len() > 0 && unit_width(s[0], enc) <= n {
        lemma_units_to_chars_le(s.drop_first(), n - unit_width(s[0], enc), enc);
    }
}

/// Line `k` lies inside the text, and its length is the distance to the next line.
proof fn lemma_line_text(s: Seq<char>, k: nat)
    ensures
        0 <= line_start(s, k) <= line_start(s, k + 1) <= s.len(),
        line_text(s, k).len() == line_start(s, k + 1) - line_start(s, k),
{
    lemma_line_start_bounds(s, 0, k);
    lemma_line_start_bounds(s, 0, k + 1);
    lemma_line_start_next(s, 0, k);
}

/// How many characters `rope` holds (what `char_index` bounds a UTF-32 column by).
pub fn char_count(rope: &Rope) -> (n: usize)
    ensures
        n == rope_chars(*rope).len(),
{
    rope_len_chars(rope)
}

/// The character index in `rope` of the editor's position `(line, col)`, with `col`
/// counted in `encoding`: the rope's length for the start of the line just past the
/// last, an error past that; a column of UTF-8 or UTF-16 units maps to the character
/// it falls in, and past the line's end to an error.
pub fn char_index(rope: &Rope, line: usize, col: usize, encoding: PositionEncoding) -> (r: Result<
    usize,
    PositionError,
>)
    requires
        encoding == PositionEncoding::Utf32 ==> rope_chars(*rope).len() + col <= usize::MAX,
    ensures
        r == char_index_spec(rope_chars(*rope), line, col, encoding),
{
    let ghost s = rope_chars(*rope);
    let len_chars = rope_len_chars(rope);
    let len_lines = rope_len_lines(rope);
    if line == len_lines && col == 0 {
        return Ok(len_chars);
    }
    if line > len_lines || (line == len_lines && col > 0) {
        return Err(PositionError::CharIndexOutOfBounds(col, 0));
    }
    proof {
        lemma_line_text(s, line as nat);
    }
    let line_start = rope_line_to_char(rope, line).unwrap();
    let col_in_chars = match encoding {
        PositionEncoding::Utf32 => col,
        PositionEncoding::Utf8 => match line_byte_to_char(rope, line, col) {
            Some(v) => v,
            None => {
                return Err(PositionError::ByteIndexOutOfBounds(col, line_len_bytes(rope, line)));
            },
        },
        PositionEncoding::Utf16 => match line_utf16_to_char(rope, line, col) {
            Some(v) => v,
            None => {
                return Err(PositionError::Utf16IndexOutOfBounds(col, line_len_utf16(rope, line)));
            },
        },
    };
    proof {
        lemma_units_to_chars_le(line_text(s, line as nat), col as int, encoding);
    }
    Ok(line_start + col_in_chars)
}

/// The editor's column, in `encoding`, of the first `char_idx` characters of line
/// `line` (cut to 32 bits).
pub fn char_to_lsp_col(rope: &Rope, line: usize, char_idx: usize, encoding: PositionEncoding) -> (r:
    u32)
    requires
        encoding != PositionEncoding::Utf32 ==> line < line_count(rope_chars(*rope)),
        encoding != PositionEncoding::Utf32 ==> char_idx <= line_text(
            rope_chars(*rope),
            line as nat,
        ).len(),
    ensures
        r == (match encoding {
            PositionEncoding::Utf32 => char_idx as u32,
            _ => units_len(
                line_text(rope_chars(*rope), line as nat).take(char_idx as int),
                encoding,
            ) as u32,
        }),
{
    match encoding {
        PositionEncoding::Utf32 => char_idx as u32,
        PositionEncoding::Utf8 => line_char_to_byte(rope, line, char_idx) as u32,
        PositionEncoding::Utf16 => line_char_to_utf16(rope, line, char_idx) as u32,
    }
}

/// The cursor's character index in a line of `line_len` characters, from the editor's
/// column `col` in `encoding`: a UTF-8 or UTF-16 column past the line's end gives the
/// line's length, and no index goes past `line_len`.
pub fn cursor_char(rope: &Rope, line: usize, col: usize, encoding: PositionEncoding, line_len: usize) -> (r:
    usize)
    requires
        line < line_count(rope_chars(*rope)),
    ensures
        r == cursor_spec(line_text(rope_chars(*rope), line as nat), col, encoding, line_len),
{
    let at = match encoding {
        PositionEncoding::Utf32 => col,
        PositionEncoding::Utf8 => match line_byte_to_char(rope, line, col) {
            Some(v) => v,
            None => line_len,
        },
        PositionEncoding::Utf16 => match line_utf16_to_char(rope, line, col) {
            Some(v) => v,
            None => line_len,
        },
    };
    if at < line_len {
        at
    } else {
        line_len
    }
}

/// The cursor's character index in a line `text` of `line_len` characters, from the
/// editor's column `col` (see `cursor_char`).
pub open spec fn cursor_spec(text: Seq<char>, col: usize, encoding: PositionEncoding, line_len: usize) -> int {
    let at = match encoding {
        PositionEncoding::Utf32 => col as int,
        _ => if col <= units_len(text, encoding) {
            units_to_chars(text, col as int, encoding) as int
        } else {
            line_len as int
        },
    };
    if at < line_len {
        at
    } else {
        line_len as int
    }
}

/// `Rope::line` and `RopeSlice::chars`: the characters of line `line`, its line break
/// included.
#[verifier::external_body]
fn rope_line_chars(rope: &Rope, line: usize) -> (v: Vec<char>)
    requires
        line < line_count(rope_chars(*rope)),
    ensures
        v@ == line_text(rope_chars(*rope), line as nat),
{
    rope.line(line).chars().collect()
}

/// Where the run of letters that ends at `k` starts.
pub open spec fn filter_start(text: Seq<char>, k: int) -> int
    decreases k,
{
    if k <= 0 || k > text.len() || !unicode_alphabetic(text[k - 1]) {
        k
    } else {
        filter_start(text, k - 1)
    }
}

proof fn lemma_filter_start(text: Seq<char>, r: int, k: int)
    requires
        0 <= r <= k <= text.len(),
        forall|j: int| r <= j < k ==> unicode_alphabetic(#[trigger] text[j]),
        r == 0 || !unicode_alphabetic(text[r - 1]),
    ensures
        filter_start(text, k) == r,
    decreases k,
{
    if k > r {
        lemma_filter_start(text, r, k - 1);
    }
}

/// The editor's column of character `idx` of a line `text`, in `encoding`.
pub open spec fn col_spec(text: Seq<char>, idx: int, encoding: PositionEncoding) -> u32 {
    match encoding {
        PositionEncoding::Utf32 => idx as u32,
        _ => units_len(text.take(idx), encoding) as u32,
    }
}

/// A completion as it is sent to the editor: what it shows, how it sorts, the text
/// that replaces the columns `start_col..end_col` of line `line`, the text the editor
/// filters by, and whether it is selected first.
#[derive(Debug)]
pub struct CompletionItem {
    pub label: String,
    pub sort_text: String,
    pub new_text: String,
    pub filter_text: String,
    pub preselect: bool,
    pub line: u32,
    pub start_col: u32,
    pub end_col: u32,
}

/// A completion as plain values.
pub struct ItemView {
    pub label: Seq<char>,
    pub sort_text: Seq<char>,
    pub new_text: Seq<char>,
    pub filter_text: Seq<char>,
    pub preselect: bool,
    pub line: u32,
    pub start_col: u32,
    pub end_col: u32,
}

pub open spec fn item_view(c: CompletionItem) -> ItemView {
    ItemView {
        label: c.label@,
        sort_text: c.sort_text@,
        new_text: c.new_text@,
        filter_text: c.filter_text@,
        preselect: c.preselect,
        line: c.line,
        start_col: c.start_col,
        end_col: c.end_col,
    }
}

pub open spec fn item_views(v: Seq<CompletionItem>) -> Seq<ItemView> {
    Seq::new(v.len(), |i: int| item_view(v[i]))
}

/// An entry placed on a line: the filter text and the columns it replaces.
pub open spec fn placed(e: EntryView, filter: Seq<char>, line: u32, start_col: u32, end_col: u32) -> ItemView {
    ItemView {
        label: e.label,
        sort_text: e.sort_text,
        new_text: e.new_text,
        filter_text: filter,
        preselect: e.preselect,
        line: line,
        start_col: start_col,
        end_col: end_col,
    }
}

/// The completions at the editor's position `(line, col)` of the text `s`: none past
/// the last line, nor where the cursor does not end a code to complete; else the
/// entries of the analysis of the code before the cursor (see `plan_spec`), each
/// replacing the code from its edit start to the cursor and filtered by the letters
/// before the edit start up to the cursor.
pub open spec fn completion_spec(
    eng: InputAnalyzer,
    s: Seq<char>,
    line: u32,
    col: u32,
    encoding: PositionEncoding,
    cfg: CompletionConfig,
) -> Option<Seq<ItemView>> {
    if line >= line_count(s) {
        None
    } else {
        let lt = line_text(s, line as nat);
        if lt.len() >= usize::MAX {
            None
        } else {
            let end = cursor_spec(lt, col as usize, encoding, lt.len() as usize);
            if !boundary_ok(lt, end, start_bound(lt, cfg.comment_prefixes@)) {
                None
            } else {
                match plan_spec(
                    lt,
                    end,
                    cfg.comment_prefixes@,
                    cfg.coding_mode,
                    cfg.special_prefix@,
                ) {
                    None => None,
                    Some(p) => {
                        let a = eng.analysis(lt.subrange(p.analysis_start as int, end));
                        if a.candidates matches Some(c) && c.len() >= usize::MAX {
                            None
                        } else {
                            match entries_spec(a) {
                                None => None,
                                Some(es) => {
                                    let filter = lt.subrange(filter_start(lt, p.edit_start as int), end);
                                    let sc = col_spec(lt, p.edit_start as int, encoding);
                                    let ec = col_spec(lt, end, encoding);
                                    Some(Seq::new(es.len(), |i: int| placed(es[i], filter, line, sc, ec)))
                                },
                            }
                        }
                    },
                }
            }
        }
    }
}

/// The completions at the editor's position `(line, col)` of `rope` (see
/// `completion_spec`).
pub fn completion_at(
    engine: &InputAnalyzer,
    rope: &Rope,
    line: u32,
    col: u32,
    encoding: PositionEncoding,
    config: &CompletionConfig,
) -> (r: Option<Vec<CompletionItem>>)
    requires
        engine.well_formed(),
    ensures
        match r {
            None => completion_spec(*engine, rope_chars(*rope), line, col, encoding, *config) is None,
            Some(v) => completion_spec(*engine, rope_chars(*rope), line, col, encoding, *config)
                == Some(item_views(v@)),
        },
{
    let ghost s = rope_chars(*rope);
    let line_idx = line as usize;
    if line_idx >= rope_len_lines(rope) {
        return None;
    }
    let ghost lt = line_text(s, line as nat);
    let lc = rope_line_chars(rope, line_idx);
    if lc.len() == usize::MAX {
        return None;
    }
    let end = cursor_char(rope, line_idx, col as usize, encoding, lc.len());
    if !completion_in_line(lc.as_slice(), end, config) {
        return None;
    }
    let plan = match plan_completion(lc.as_slice(), end, config) {
        Some(p) => p,
        None => {
            return None;
        },
    };
    let input = vstd::slice::slice_subrange(lc.as_slice(), plan.analysis_start, end);
    let result = engine.analyze(input);
    match &result.candidates {
        Some(c) => {
            if c.len() == usize::MAX {
                return None;
            }
        },
        None => {},
    }
    let entries = match completion_entries(&result) {
        Some(e) => e,
        None => {
            return None;
        },
    };
    let fs = locate_filter_start(lc.as_slice(), plan.edit_start);
    proof {
        lemma_filter_start(lt, fs as int, plan.edit_start as int);
        lemma_line_text(s, line as nat);
    }
    let filter = string_from_chars(vstd::slice::slice_subrange(lc.as_slice(), fs, end));
    let start_col = char_to_lsp_col(rope, line_idx, plan.edit_start, encoding);
    let end_col = char_to_lsp_col(rope, line_idx, end, encoding);
    let ghost es = Seq::new(entries@.len(), |i: int| entry_view(entries@[i]));
    let mut items: Vec<CompletionItem> = Vec::new();
    let mut i: usize = 0;
    while i < entries.len()
        invariant
            i <= entries@.len(),
            items@.len() == i,
            es == Seq::new(entries@.len(), |k: int| entry_view(entries@[k])),
            item_views(items@) == Seq::new(
                i as nat,
                |k: int| placed(es[k], filter@, line, start_col, end_col),
            ),
        decreases entries@.len() - i,
    {
        let e = &entries[i];
        let ghost before = items@;
        items.push(
            CompletionItem {
                label: e.label.clone(),
                sort_text: e.sort_text.clone(),
                new_text: e.new_text.clone(),
                filter_text: filter.clone(),
                preselect: e.preselect,
                line: line,
                start_col: start_col,
                end_col: end_col,
            },
        );
        i += 1;
        proof {
            assert forall|k: int| 0 <= k < i - 1 implies #[trigger] items@[k] == before[k] by {}
            assert forall|k: int| 0 <= k < i - 1 implies item_view(#[trigger] items@[k]) == placed(
                es[k],
                filter@,
                line,
                start_col,
                end_col,
            ) by {
                assert(item_views(before)[k] == item_view(before[k]));
            }
            assert(item_view(items@[i - 1]) == placed(es[i - 1], filter@, line, start_col, end_col));
            assert(item_views(items@) =~= Seq::new(
                i as nat,
                |k: int| placed(es[k], filter@, line, start_col, end_col),
            ));
        }
    }
    proof {
        assert(item_views(items@) =~= Seq::new(
            es.len(),
            |k: int| placed(es[k], filter@, line, start_col, end_col),
        ));
    }
    Some(items)
}

} // verus!
