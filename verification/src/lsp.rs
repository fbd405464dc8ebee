use vstd::prelude::*;

use crate::input_analyzer::{AnalysisResult, AnalysisView, RichView, Tag, analysis_view};
use crate::text::{
    chars_of, string_append, string_push, is_alphabetic, is_alphanumeric, is_ascii_alphabetic_char, is_ascii_char,
    is_ascii_digit_char, is_ascii_whitespace_char, is_whitespace, unicode_alphabetic,
    unicode_alphanumeric, unicode_whitespace,
};

verus! {

/// A character that can be part of a code typed in an editor: printable ASCII.
pub open spec fn code_char(c: char) -> bool {
    is_ascii_char(c) && 0x20 <= (c as u32) && (c as u32) != 0x7F
}

fn is_code_char(c: char) -> (b: bool)
    ensures
        b == code_char(c),
{
    (c as u32) < 128 && 0x20 <= (c as u32) && (c as u32) != 0x7F
}

/// Where the code before the cursor starts: its first position, whether the space
/// there is to be dropped, and whether a non-ASCII character comes just before it.
#[derive(PartialEq, Eq, Structural, Clone, Copy, Debug)]
pub struct Boundary {
    pub start: usize,
    pub reduce_ws: bool,
    pub cjk_before: bool,
}

/// The backward scan for the code before position `i`, the code so far starting at
/// `start`: code characters are taken until two spaces in a row, another character,
/// or the position `start_at`.
pub open spec fn boundary_from(line: Seq<char>, i: int, start: usize, start_at: usize) -> Boundary
    decreases i,
{
    if i <= 0 {
        Boundary { start, reduce_ws: false, cjk_before: false }
    } else {
        let c = line[i - 1];
        if start >= start_at && code_char(c) {
            if i - 1 > 0 && is_ascii_whitespace_char(c) && is_ascii_whitespace_char(line[i - 2]) {
                Boundary { start, reduce_ws: false, cjk_before: false }
            } else {
                boundary_from(line, i - 1, (i - 1) as usize, start_at)
            }
        } else {
            Boundary {
                start,
                reduce_ws: unicode_whitespace(line[start as int]) && !(is_ascii_alphabetic_char(c)
                    || is_ascii_digit_char(c)) && unicode_alphanumeric(c),
                cjk_before: !is_ascii_char(c),
            }
        }
    }
}

/// The scan does not look past the end of the line: the cursor is inside the line, or
/// at its end right after a code character it may take.
pub open spec fn boundary_ok(line: Seq<char>, end: int, start_at: int) -> bool {
    &&& 0 <= end <= line.len()
    &&& end < line.len() || end == 0 || (end >= start_at && code_char(line[end - 1]))
}

proof fn lemma_boundary_start(line: Seq<char>, i: int, start: usize, start_at: usize)
    requires
        0 <= i <= start,
        start <= line.len(),
    ensures
        boundary_from(line, i, start, start_at).start <= start,
    decreases i,
{
    if i > 0 {
        let c = line[i - 1];
        if start >= start_at && code_char(c) && !(i - 1 > 0 && is_ascii_whitespace_char(c)
            && is_ascii_whitespace_char(line[i - 2])) {
            lemma_boundary_start(line, i - 1, (i - 1) as usize, start_at);
        }
    }
}

/// Locates the code before the cursor at `end`: printable ASCII characters going back
/// from `end`, stopping at two spaces in a row, at another character, or at
/// `start_at` (the end of a comment marker).
pub fn locate_code_boundary(line_chars: &[char], end: usize, start_at: usize) -> (b: Boundary)
    requires
        boundary_ok(line_chars@, end as int, start_at as int),
    ensures
        b == boundary_from(line_chars@, end as int, end, start_at),
        b.start <= end,
{
    let mut start = end;
    let mut i = end;
    let ghost target = boundary_from(line_chars@, end as int, end, start_at);
    proof {
        lemma_boundary_start(line_chars@, end as int, end, start_at);
    }
    while i > 0
        invariant
            boundary_ok(line_chars@, end as int, start_at as int),
            i <= start <= end <= line_chars@.len(),
            target == boundary_from(line_chars@, end as int, end, start_at),
            start == end || start == i,
            target == boundary_from(line_chars@, i as int, start, start_at),
            start < line_chars@.len() || (start == end && i == end),
        decreases i,
    {
        let c = line_chars[i - 1];
        if start >= start_at && is_code_char(c) {
            if i - 1 > 0 && is_ascii_whitespace_char_exec(c) && is_ascii_whitespace_char_exec(line_chars[i - 2]) {
                return Boundary { start, reduce_ws: false, cjk_before: false };
            }
            start = i - 1;
            i -= 1;
        } else {
            let cjk_before = !((c as u32) < 128);
            let reduce_ws = is_whitespace(line_chars[start]) && !(('a' <= c && c <= 'z') || ('A' <= c
                && c <= 'Z') || ('0' <= c && c <= '9')) && is_alphanumeric(c);
            return Boundary { start, reduce_ws, cjk_before };
        }
    }
    Boundary { start, reduce_ws: false, cjk_before: false }
}

fn is_ascii_whitespace_char_exec(c: char) -> (b: bool)
    ensures
        b == is_ascii_whitespace_char(c),
{
    c == ' ' || c == '\t' || c == '\n' || c == '\u{0C}' || c == '\r'
}

/// Position of the first character of `line` that is not ASCII whitespace (0 if
/// there is none).
pub open spec fn first_non_space(line: Seq<char>, i: int) -> int
    decreases line.len() - i,
{
    if i < 0 || i >= line.len() {
        0
    } else if !is_ascii_whitespace_char(line[i]) {
        i
    } else {
        first_non_space(line, i + 1)
    }
}

/// `line` has `p` at position `at`.
pub open spec fn has_at(line: Seq<char>, at: int, p: Seq<char>) -> bool {
    at + p.len() <= line.len() && line.subrange(at, at + p.len()) == p
}

/// The first of `prefixes` that the line starts with (after its leading whitespace),
/// as the position just past it and one more character.
pub open spec fn comment_from(line: Seq<char>, ps: Seq<Seq<char>>, k: int, at: int) -> Option<int>
    decreases ps.len() - k,
{
    if k < 0 || k >= ps.len() {
        None
    } else if has_at(line, at, ps[k]) {
        Some(at + ps[k].len() + 1)
    } else {
        comment_from(line, ps, k + 1, at)
    }
}

pub open spec fn strings_of(v: Seq<String>) -> Seq<Seq<char>> {
    Seq::new(v.len(), |i: int| v[i]@)
}

/// Whether `line` has `p` at position `at`.
fn matches_at(line: &[char], at: usize, p: &[char]) -> (b: bool)
    requires
        at <= line@.len(),
    ensures
        b == has_at(line@, at as int, p@),
{
    let n = line.len();
    if p.len() > n - at {
        return false;
    }
    let mut k: usize = 0;
    while k < p.len()
        invariant
            k <= p@.len(),
            n == line@.len(),
            at + p@.len() <= n,
            forall|t: int| 0 <= t < k ==> line@[at + t] == p@[t],
        decreases p@.len() - k,
    {
        if line[at + k] != p[k] {
            assert(line@.subrange(at as int, at + p@.len())[k as int] != p@[k as int]);
            return false;
        }
        k += 1;
    }
    assert(line@.subrange(at as int, at + p@.len()) =~= p@);
    true
}

/// Matches a comment marker at the start of the line (after its whitespace): the
/// position where the code may start, one character past the marker.
pub fn match_comment_prefix(line_chars: &[char], comment_prefixes: &[String]) -> (r: Option<usize>)
    requires
        line_chars@.len() < usize::MAX,
    ensures
        r matches Some(v) ==> Some(v as int) == comment_from(
            line_chars@,
            strings_of(comment_prefixes@),
            0,
            first_non_space(line_chars@, 0),
        ),
        r is None ==> comment_from(
            line_chars@,
            strings_of(comment_prefixes@),
            0,
            first_non_space(line_chars@, 0),
        ) is None,
{
    if comment_prefixes.len() == 0 {
        return None;
    }
    let n = line_chars.len();
    let mut i: usize = 0;
    while i < n && is_ascii_whitespace_char_exec(line_chars[i])
        invariant
            i <= n,
            n == line_chars@.len(),
            first_non_space(line_chars@, 0) == first_non_space(line_chars@, i as int),
        decreases n - i,
    {
        i += 1;
    }
    let prefix_start: usize = if i < n {
        i
    } else {
        0
    };
    assert(first_non_space(line_chars@, 0) == prefix_start);
    let ghost ps = strings_of(comment_prefixes@);
    let mut k: usize = 0;
    while k < comment_prefixes.len()
        invariant
            k <= comment_prefixes@.len(),
            ps == strings_of(comment_prefixes@),
            prefix_start <= n,
            prefix_start == first_non_space(line_chars@, 0),
            n == line_chars@.len(),
            n < usize::MAX,
            comment_from(line_chars@, ps, 0, prefix_start as int) == comment_from(
                line_chars@,
                ps,
                k as int,
                prefix_start as int,
            ),
        decreases comment_prefixes@.len() - k,
    {
        let pre = chars_of(comment_prefixes[k].as_str());
        if matches_at(line_chars, prefix_start, &pre) {
            assert(prefix_start + pre@.len() <= n);
            return Some(prefix_start + pre.len() + 1);
        }
        k += 1;
    }
    None
}

/// The characters after a special prefix can be a code: nonempty printable ASCII
/// without two spaces in a row.
pub open spec fn valid_code_seg(seg: Seq<char>) -> bool {
    &&& seg.len() > 0
    &&& forall|k: int| 0 <= k < seg.len() ==> code_char(#[trigger] seg[k])
    &&& !exists|k: int|
        0 <= k < seg.len() - 1 && is_ascii_whitespace_char(#[trigger] seg[k]) && is_ascii_whitespace_char(
            seg[k + 1],
        )
}

/// The special prefix `pre` stands at `idx`, followed by a code up to `end`.
pub open spec fn special_at(line: Seq<char>, end: int, pre: Seq<char>, idx: int) -> bool {
    &&& 0 <= idx
    &&& idx + pre.len() <= end
    &&& line.subrange(idx, idx + pre.len()) == pre
    &&& valid_code_seg(line.subrange(idx + pre.len(), end))
}

/// Whether `seg` can be the code after a special prefix.
fn is_valid_code_seg(line: &[char], a: usize, b: usize) -> (r: bool)
    requires
        a <= b <= line@.len(),
    ensures
        r == valid_code_seg(line@.subrange(a as int, b as int)),
{
    let ghost seg = line@.subrange(a as int, b as int);
    if a == b {
        return false;
    }
    let mut k = a;
    while k < b
        invariant
            a <= k <= b <= line@.len(),
            seg == line@.subrange(a as int, b as int),
            forall|t: int| 0 <= t < k - a ==> code_char(#[trigger] seg[t]),
            forall|t: int|
                0 <= t < k - a - 1 ==> !(is_ascii_whitespace_char(#[trigger] seg[t]) && is_ascii_whitespace_char(
                    seg[t + 1],
                )),
        decreases b - k,
    {
        let c = line[k];
        if !is_code_char(c) {
            assert(!code_char(seg[k - a]));
            return false;
        }
        if k > a && is_ascii_whitespace_char_exec(c) && is_ascii_whitespace_char_exec(line[k - 1]) {
            assert(is_ascii_whitespace_char(seg[k - a - 1]) && is_ascii_whitespace_char(seg[k - a]));
            return false;
        }
        k += 1;
    }
    true
}

/// The nearest position at or before `idx` where the special prefix `pre` stands,
/// followed by a code up to `end`.
pub open spec fn special_from(line: Seq<char>, end: int, pre: Seq<char>, idx: int) -> Option<int>
    decreases idx + 1,
{
    if idx < 0 {
        None
    } else if special_at(line, end, pre, idx) {
        Some(idx)
    } else {
        special_from(line, end, pre, idx - 1)
    }
}

/// Where the special prefix nearest to the cursor stands, if any.
pub open spec fn special_search(line: Seq<char>, end: int, pre: Seq<char>) -> Option<int> {
    if pre.len() == 0 || end < pre.len() {
        None
    } else {
        special_from(line, end, pre, end - pre.len())
    }
}

proof fn lemma_special_from(line: Seq<char>, end: int, pre: Seq<char>, idx: int)
    ensures
        match special_from(line, end, pre, idx) {
            Some(j) => j <= idx && special_at(line, end, pre, j) && forall|t: int|
                j < t <= idx ==> !special_at(line, end, pre, t),
            None => forall|t: int| 0 <= t <= idx ==> !special_at(line, end, pre, t),
        },
    decreases idx + 1,
{
    if idx >= 0 && !special_at(line, end, pre, idx) {
        lemma_special_from(line, end, pre, idx - 1);
    }
}

/// Finds, nearest to the cursor first, a special prefix followed by a code up to
/// `end`: its position.
pub fn find_special_prefix(line_chars: &[char], end: usize, prefix: &str) -> (r: Option<usize>)
    requires
        end <= line_chars@.len(),
    ensures
        match r {
            Some(idx) => special_search(line_chars@, end as int, prefix@) == Some(idx as int),
            None => special_search(line_chars@, end as int, prefix@) is None,
        },
        prefix@.len() == 0 ==> r is None,
        prefix@.len() > 0 ==> match r {
            Some(idx) => special_at(line_chars@, end as int, prefix@, idx as int) && forall|j: int|
                idx < j <= end - prefix@.len() ==> !special_at(line_chars@, end as int, prefix@, j),
            None => forall|j: int| 0 <= j <= end - prefix@.len() ==> !special_at(line_chars@, end as int, prefix@, j),
        },
{
    let pre = chars_of(prefix);
    let plen = pre.len();
    if plen == 0 {
        return None;
    }
    if end < plen {
        return None;
    }
    proof {
        lemma_special_from(line_chars@, end as int, prefix@, end - plen);
    }
    let mut idx = end - plen + 1;
    while idx > 0
        invariant
            idx <= end - plen + 1,
            plen == pre@.len(),
            pre@ == prefix@,
            plen > 0,
            plen <= end <= line_chars@.len(),
            forall|j: int| idx <= j <= end - plen ==> !special_at(line_chars@, end as int, prefix@, j),
            special_from(line_chars@, end as int, prefix@, end - plen) == special_from(
                line_chars@,
                end as int,
                prefix@,
                idx - 1,
            ),
        decreases idx,
    {
        let cand = idx - 1;
        if matches_at(line_chars, cand, &pre) && is_valid_code_seg(line_chars, cand + plen, end) {
            assert(special_at(line_chars@, end as int, prefix@, cand as int));
            return Some(cand);
        }
        assert(!special_at(line_chars@, end as int, prefix@, cand as int));
        idx -= 1;
    }
    None
}

/// Position from which the letters just before `start` begin.
pub fn locate_filter_start(line_chars: &[char], start: usize) -> (r: usize)
    requires
        start <= line_chars@.len(),
    ensures
        r <= start,
        forall|k: int| r <= k < start ==> unicode_alphabetic(#[trigger] line_chars@[k]),
        r == 0 || !unicode_alphabetic(line_chars@[r - 1]),
{
    let mut r = start;
    while r > 0 && is_alphabetic(line_chars[r - 1])
        invariant
            r <= start <= line_chars@.len(),
            forall|k: int| r <= k < start ==> unicode_alphabetic(#[trigger] line_chars@[k]),
        decreases r,
    {
        r -= 1;
    }
    r
}


/// Settings of the completion server.
#[derive(Clone, Debug)]
pub struct CompletionConfig {
    /// Characters on which the editor asks for completions.
    pub trigger_characters: String,
    /// Markers that open a comment line, such as `//` or `#`.
    pub comment_prefixes: Vec<String>,
    /// When set, a completion is offered only after a non-ASCII character, after the
    /// special prefix, or on a comment line.
    pub coding_mode: bool,
    /// A marker after which the code that follows is always completed.
    pub special_prefix: String,
}

impl Default for CompletionConfig {
    fn default() -> (c: Self)
        ensures
            c.trigger_characters@ == "abcdefghijklmnopqrstuvwxyzABCDEFGHIJKLMNOPQRSTUVWXYZ ,."@,
            c.comment_prefixes@.len() == 0,
            c.coding_mode,
            c.special_prefix@ == "@@"@,
    {
        CompletionConfig {
            trigger_characters: "abcdefghijklmnopqrstuvwxyzABCDEFGHIJKLMNOPQRSTUVWXYZ ,.".to_owned(),
            comment_prefixes: Vec::new(),
            coding_mode: true,
            special_prefix: "@@".to_owned(),
        }
    }
}

/// Where a completion edits and what it analyses: the edit replaces the line from
/// `edit_start` to the cursor, the analysis reads from `analysis_start` to the cursor.
#[derive(PartialEq, Eq, Structural, Clone, Copy, Debug)]
pub struct CompletionPlan {
    pub edit_start: usize,
    pub analysis_start: usize,
}

/// The position just past a comment marker that opens the line, if any.
pub open spec fn comment_start(line: Seq<char>, prefixes: Seq<String>) -> Option<int> {
    comment_from(line, strings_of(prefixes), 0, first_non_space(line, 0))
}

/// The lowest position the code may start at.
pub open spec fn start_bound(line: Seq<char>, prefixes: Seq<String>) -> int {
    match comment_start(line, prefixes) {
        Some(v) => v,
        None => 0,
    }
}

/// Whether a completion is offered at `end`, and where it edits and reads.
pub open spec fn plan_spec(
    line: Seq<char>,
    end: int,
    prefixes: Seq<String>,
    coding_mode: bool,
    special: Seq<char>,
) -> Option<CompletionPlan> {
    let b = boundary_from(line, end, end as usize, start_bound(line, prefixes) as usize);
    let analysis = if b.reduce_ws {
        (b.start + 1) as usize
    } else {
        b.start
    };
    if b.start >= end {
        None
    } else if !coding_mode {
        Some(CompletionPlan { edit_start: b.start, analysis_start: analysis })
    } else {
        match special_search(line, end, special) {
            Some(idx) => Some(
                CompletionPlan { edit_start: idx as usize, analysis_start: (idx + special.len()) as usize },
            ),
            None => if b.cjk_before || comment_start(line, prefixes) is Some {
                Some(CompletionPlan { edit_start: b.start, analysis_start: analysis })
            } else {
                None
            },
        }
    }
}

/// Decides whether the code before the cursor at `end` is completed: `None` when it
/// is not, else where the edit starts and where the analysed code starts.
pub fn plan_completion(line_chars: &[char], end: usize, config: &CompletionConfig) -> (r: Option<
    CompletionPlan,
>)
    requires
        line_chars@.len() < usize::MAX,
        boundary_ok(line_chars@, end as int, start_bound(line_chars@, config.comment_prefixes@)),
    ensures
        r == plan_spec(
            line_chars@,
            end as int,
            config.comment_prefixes@,
            config.coding_mode,
            config.special_prefix@,
        ),
        r matches Some(p) ==> p.edit_start <= p.analysis_start <= end && p.edit_start < end,
{
    let comment_boundary = match_comment_prefix(line_chars, config.comment_prefixes.as_slice());
    let start_at = match comment_boundary {
        Some(v) => v,
        None => 0,
    };
    let b = locate_code_boundary(line_chars, end, start_at);
    if b.start >= end {
        return None;
    }
    proof {
        lemma_boundary_start(line_chars@, end as int, end, start_at);
    }
    let mut edit_start = b.start;
    let mut analysis_start = if b.reduce_ws {
        b.start + 1
    } else {
        b.start
    };
    if config.coding_mode {
        match find_special_prefix(line_chars, end, config.special_prefix.as_str()) {
            Some(idx) => {
                let plen = chars_of(config.special_prefix.as_str()).len();
                edit_start = idx;
                analysis_start = idx + plen;
            },
            None => {
                if !(b.cjk_before || comment_boundary.is_some()) {
                    return None;
                }
            },
        }
    }
    Some(CompletionPlan { edit_start, analysis_start })
}

/// Whether the backward scan for a completion at `end` stays inside the line (see
/// `boundary_ok`).
pub fn completion_in_line(line_chars: &[char], end: usize, config: &CompletionConfig) -> (b: bool)
    requires
        line_chars@.len() < usize::MAX,
    ensures
        b == boundary_ok(line_chars@, end as int, start_bound(line_chars@, config.comment_prefixes@)),
{
    let start_at = match match_comment_prefix(line_chars, config.comment_prefixes.as_slice()) {
        Some(v) => v,
        None => 0,
    };
    if end > line_chars.len() {
        return false;
    }
    end < line_chars.len() || end == 0 || (end >= start_at && is_code_char(line_chars[end - 1]))
}

/// One completion offered to the editor: what it shows, how it sorts, what it puts
/// in place of the code, and whether it is selected first.
#[derive(Clone, Debug)]
pub struct CompletionEntry {
    pub label: String,
    pub sort_text: String,
    pub new_text: String,
    pub preselect: bool,
}

/// A completion entry as plain values.
pub struct EntryView {
    pub label: Seq<char>,
    pub sort_text: Seq<char>,
    pub new_text: Seq<char>,
    pub preselect: bool,
}

pub open spec fn entry_view(e: CompletionEntry) -> EntryView {
    EntryView { label: e.label@, sort_text: e.sort_text@, new_text: e.new_text@, preselect: e.preselect }
}

/// The texts of the segments, one after the other.
pub open spec fn joined_texts(segs: Seq<(Seq<char>, Seq<char>, Tag)>) -> Seq<char>
    decreases segs.len(),
{
    if segs.len() == 0 {
        Seq::empty()
    } else {
        joined_texts(segs.drop_last()) + segs.last().0
    }
}

/// The decimal digit `d`.
pub open spec fn digit_char(d: int) -> char {
    seq!['0', '1', '2', '3', '4', '5', '6', '7', '8', '9'][d]
}

/// `n` written in decimal.
pub open spec fn decimal(n: nat) -> Seq<char>
    decreases n,
{
    if n < 10 {
        seq![digit_char(n as int)]
    } else {
        decimal(n / 10).push(digit_char((n % 10) as int))
    }
}

/// Whether `c` is one of the digits `0` to `9`.
pub open spec fn is_digit(c: char) -> bool {
    '0' <= c && c <= '9'
}

/// The number that the digits `s` write in decimal.
pub open spec fn digits_value(s: Seq<char>) -> int
    decreases s.len(),
{
    if s.len() == 0 {
        0
    } else {
        digits_value(s.drop_last()) * 10 + (s.last() as int - '0' as int)
    }
}

proof fn lemma_digit_char(d: int)
    requires
        0 <= d < 10,
    ensures
        digit_char(d) as int == '0' as int + d,
{
    let ds = seq!['0', '1', '2', '3', '4', '5', '6', '7', '8', '9'];
    if d == 0 {
        assert(ds[0] == '0');
    } else if d == 1 {
        assert(ds[1] == '1');
    } else if d == 2 {
        assert(ds[2] == '2');
    } else if d == 3 {
        assert(ds[3] == '3');
    } else if d == 4 {
        assert(ds[4] == '4');
    } else if d == 5 {
        assert(ds[5] == '5');
    } else if d == 6 {
        assert(ds[6] == '6');
    } else if d == 7 {
        assert(ds[7] == '7');
    } else if d == 8 {
        assert(ds[8] == '8');
    } else {
        assert(ds[9] == '9');
    }
}

/// `n` written in decimal is a nonempty run of digits that reads back as `n`, with
/// no leading zero unless `n` is 0.
pub proof fn lemma_decimal_digits(n: nat)
    ensures
        decimal(n).len() > 0,
        forall|k: int| 0 <= k < decimal(n).len() ==> is_digit(#[trigger] decimal(n)[k]),
        digits_value(decimal(n)) == n,
        n > 0 ==> decimal(n)[0] != '0',
    decreases n,
{
    if n < 10 {
        lemma_digit_char(n as int);
        let d = decimal(n);
        assert(d == seq![digit_char(n as int)]);
        assert(d.drop_last() =~= Seq::<char>::empty());
        assert(d.last() == digit_char(n as int));
        assert(digits_value(d.drop_last()) == 0);
        assert(digits_value(d) == 0 * 10 + (n as int));
    } else {
        lemma_decimal_digits(n / 10);
        lemma_digit_char((n % 10) as int);
        let p = decimal(n / 10);
        let d = decimal(n);
        assert(d == p.push(digit_char((n % 10) as int)));
        assert(d.drop_last() =~= p);
        assert forall|k: int| 0 <= k < d.len() implies is_digit(#[trigger] d[k]) by {
            if k < p.len() {
                assert(d[k] == p[k]);
            }
        }
        assert(d[0] == p[0]);
        assert(d.last() == digit_char((n % 10) as int));
        assert(digits_value(d) == digits_value(p) * 10 + (n % 10) as int);
        assert(n == (n / 10) * 10 + n % 10);
    }
}

/// The label of a candidate: `[key]: text code`.
pub open spec fn candidate_label(c: RichView) -> Seq<char> {
    seq!['[', c.select_key, ']', ':', ' '] + c.text + seq![' '] + c.code
}

/// The completions of an analysis: the whole sentence first, then each candidate;
/// none when the sentence is only whitespace.
pub open spec fn entries_spec(a: AnalysisView) -> Option<Seq<EntryView>> {
    let sentence = joined_texts(a.segments);
    if forall|k: int| 0 <= k < sentence.len() ==> unicode_whitespace(#[trigger] sentence[k]) {
        None
    } else {
        let first = EntryView { label: sentence, sort_text: seq!['0'], new_text: sentence, preselect: true };
        let cands = match a.candidates {
            Some(c) => c,
            None => Seq::empty(),
        };
        Some(
            seq![first] + Seq::new(
                cands.len(),
                |i: int|
                    EntryView {
                        label: candidate_label(cands[i]),
                        sort_text: decimal((i + 1) as nat),
                        new_text: cands[i].text,
                        preselect: false,
                    },
            ),
        )
    }
}

/// Appends `n` in decimal to `s`.
pub(crate) fn push_decimal(s: &mut String, n: usize)
    ensures
        final(s)@ == old(s)@ + decimal(n as nat),
    decreases n,
{
    let digits = ['0', '1', '2', '3', '4', '5', '6', '7', '8', '9'];
    if n >= 10 {
        push_decimal(s, n / 10);
    }
    let d = n % 10;
    string_push(s, digits[d]);
    proof {
        assert(digits@ =~= seq!['0', '1', '2', '3', '4', '5', '6', '7', '8', '9']);
        if n < 10 {
            assert(decimal(n as nat) =~= seq![digit_char(n as int)]);
        } else {
            assert(decimal(n as nat) =~= decimal((n / 10) as nat).push(digit_char((n % 10) as int)));
        }
    }
}

/// Builds the completions offered for an analysis: the sentence, preselected and
/// sorted first, then each candidate labelled with its key, text and code; `None`
/// when the sentence is only whitespace.
pub fn completion_entries(result: &AnalysisResult) -> (r: Option<Vec<CompletionEntry>>)
    requires
        result.candidates matches Some(c) ==> c@.len() < usize::MAX,
    ensures
        match r {
            Some(v) => entries_spec(analysis_view(*result)) == Some(
                Seq::new(v@.len(), |i: int| entry_view(v@[i])),
            ),
            None => entries_spec(analysis_view(*result)) is None,
        },
{
    let ghost a = analysis_view(*result);
    let mut sentence = String::new();
    let mut i: usize = 0;
    while i < result.segments.len()
        invariant
            i <= result.segments@.len(),
            a == analysis_view(*result),
            sentence@ == joined_texts(a.segments.subrange(0, i as int)),
        decreases result.segments@.len() - i,
    {
        string_append(&mut sentence, result.segments[i].0.as_str());
        proof {
            assert(a.segments.subrange(0, i + 1).drop_last() =~= a.segments.subrange(0, i as int));
        }
        i += 1;
    }
    assert(a.segments.subrange(0, i as int) =~= a.segments);
    let chars = chars_of(sentence.as_str());
    let mut all_ws = true;
    let mut k: usize = 0;
    while k < chars.len()
        invariant
            k <= chars@.len(),
            chars@ == sentence@,
            all_ws == forall|t: int| 0 <= t < k ==> unicode_whitespace(#[trigger] chars@[t]),
        decreases chars@.len() - k,
    {
        if !is_whitespace(chars[k]) {
            all_ws = false;
        }
        k += 1;
    }
    if all_ws {
        return None;
    }
    let mut entries: Vec<CompletionEntry> = Vec::new();
    let ghost first = EntryView { label: sentence@, sort_text: seq!['0'], new_text: sentence@, preselect: true };
    let mut zero = String::new();
    string_push(&mut zero, '0');
    entries.push(CompletionEntry { label: sentence.clone(), sort_text: zero, new_text: sentence, preselect: true });
    let ghost cands = match a.candidates {
        Some(c) => c,
        None => Seq::<RichView>::empty(),
    };
    let ghost want = Seq::new(
        cands.len(),
        |i: int|
            EntryView {
                label: candidate_label(cands[i]),
                sort_text: decimal((i + 1) as nat),
                new_text: cands[i].text,
                preselect: false,
            },
    );
    assert(Seq::new(entries@.len(), |i: int| entry_view(entries@[i])) =~= seq![first] + want.subrange(0, 0));
    match &result.candidates {
        Some(cs) => {
            let mut j: usize = 0;
            while j < cs.len()
                invariant
                    j <= cs@.len(),
                    cs@.len() < usize::MAX,
                    result.candidates == Some(*cs),
                    a == analysis_view(*result),
                    cands == crate::input_analyzer::rich_views(cs@),
                    want.len() == cands.len(),
                    forall|t: int| 0 <= t < cands.len() ==> #[trigger] want[t] == (EntryView {
                        label: candidate_label(cands[t]),
                        sort_text: decimal((t + 1) as nat),
                        new_text: cands[t].text,
                        preselect: false,
                    }),
                    Seq::new(entries@.len(), |i: int| entry_view(entries@[i])) =~= seq![first] + want.subrange(0, j as int),
                decreases cs@.len() - j,
            {
                let c = &cs[j];
                let mut label = String::new();
                string_push(&mut label, '[');
                string_push(&mut label, c.select_key);
                string_push(&mut label, ']');
                string_push(&mut label, ':');
                string_push(&mut label, ' ');
                string_append(&mut label, c.text.as_str());
                string_push(&mut label, ' ');
                string_append(&mut label, c.code.as_str());
                let mut sort_text = String::new();
                push_decimal(&mut sort_text, j + 1);
                let e = CompletionEntry { label, sort_text, new_text: c.text.clone(), preselect: false };
                proof {
                    assert(cands[j as int] == c.view_of());
                    assert(e.label@ =~= candidate_label(cands[j as int]));
                    assert(entry_view(e) == want[j as int]);
                }
                let ghost before = entries@;
                entries.push(e);
                proof {
                    assert(want.subrange(0, j + 1) =~= want.subrange(0, j as int).push(want[j as int]));
                    assert(Seq::new(entries@.len(), |i: int| entry_view(entries@[i])) =~= Seq::new(
                        before.len(),
                        |i: int| entry_view(before[i]),
                    ).push(entry_view(e)));
                }
                j += 1;
            }
            assert(want.subrange(0, j as int) =~= want);
        },
        None => {
            assert(want.subrange(0, 0) =~= want);
        },
    }
    Some(entries)
}

} // verus!
