use vstd::prelude::*;

use crate::text::{
    is_ascii_char, lemma_next_sep_bounds, next_sep,
    chars_of, is_alphabetic, is_alphanumeric, is_control, is_whitespace, lemma_split_nonempty, lines, lines_from,
    next_line, parse_int_message, parse_usize, parse_usize_chars, split_chars, split_on,
    string_append, string_from_chars, trim, trim_chars, unicode_alphabetic, unicode_alphanumeric,
    unicode_control,
    unicode_whitespace, ParseIntKind,
};

verus! {

// ---------------------------------------------------------------------------
// Comparing what was typed with the text
// ---------------------------------------------------------------------------

/// The position of the first character after `at_least` that is not a letter, or the
/// end of `slice`.
pub fn advance_to_word_boundary(slice: &[char], at_least: usize) -> (r: usize)
    ensures
        r <= slice@.len(),
        r == slice@.len() || (r > at_least && !unicode_alphabetic(slice@[r as int])),
        forall|i: int| at_least < i < r ==> unicode_alphabetic(#[trigger] slice@[i]),
{
    let mut i: usize = 0;
    while i < slice.len()
        invariant
            i <= slice@.len(),
            forall|k: int| at_least < k < i ==> unicode_alphabetic(#[trigger] slice@[k]),
        decreases slice@.len() - i,
    {
        if i > at_least && !is_alphabetic(slice[i]) {
            return i;
        }
        i += 1;
    }
    slice.len()
}

/// Compares two character sequences position by position, over the shorter length:
/// `true` where they agree; nothing when there is no other sequence.
pub fn diff_sequence(chars: &[char], other: Option<&[char]>) -> (r: Vec<bool>)
    ensures
        other is None ==> r@.len() == 0,
        other matches Some(o) ==> r@.len() == (if chars@.len() <= o@.len() {
            chars@.len()
        } else {
            o@.len()
        }) && forall|i: int| 0 <= i < r@.len() ==> #[trigger] r@[i] == (chars@[i] == o@[i]),
{
    match other {
        None => Vec::new(),
        Some(o) => {
            let n = if chars.len() <= o.len() {
                chars.len()
            } else {
                o.len()
            };
            let mut r: Vec<bool> = Vec::new();
            let mut i: usize = 0;
            while i < n
                invariant
                    i <= n,
                    n <= chars@.len(),
                    n <= o@.len(),
                    r@.len() == i,
                    forall|k: int| 0 <= k < i ==> #[trigger] r@[k] == (chars@[k] == o@[k]),
                decreases n - i,
            {
                r.push(chars[i] == o[i]);
                i += 1;
            }
            r
        },
    }
}

/// The first `k` letters and digits of `s`, or all of them when it has fewer.
pub open spec fn alnum_prefix(s: Seq<char>, k: nat) -> Seq<char>
    decreases s.len(),
{
    if s.len() == 0 || k == 0 {
        Seq::empty()
    } else if unicode_alphanumeric(s[0]) {
        seq![s[0]] + alnum_prefix(s.drop_first(), (k - 1) as nat)
    } else {
        alnum_prefix(s.drop_first(), k)
    }
}

/// `alnum_prefix` of `s[i..]` extends the letters and digits of `s[..i]`, while fewer
/// than `k` have been taken.
proof fn lemma_alnum_prefix_step(s: Seq<char>, i: int, k: nat)
    requires
        0 <= i < s.len(),
        k > 0,
    ensures
        alnum_prefix(s.subrange(i, s.len() as int), k) == if unicode_alphanumeric(s[i]) {
            seq![s[i]] + alnum_prefix(s.subrange(i + 1, s.len() as int), (k - 1) as nat)
        } else {
            alnum_prefix(s.subrange(i + 1, s.len() as int), k)
        },
{
    let t = s.subrange(i, s.len() as int);
    assert(t.drop_first() =~= s.subrange(i + 1, s.len() as int));
    assert(t[0] == s[i]);
}

/// The name that a record of typed text is filed under: the first five letters and
/// digits of the text.
pub fn record_suffix(sentence: &[char]) -> (r: Vec<char>)
    ensures
        r@ == alnum_prefix(sentence@, 5),
{
    let mut r: Vec<char> = Vec::new();
    let mut i: usize = 0;
    assert(sentence@.subrange(0, sentence@.len() as int) =~= sentence@);
    while i < sentence.len() && r.len() < 5
        invariant
            i <= sentence@.len(),
            r@.len() <= 5,
            r@ + alnum_prefix(sentence@.subrange(i as int, sentence@.len() as int), (5 - r@.len()) as nat)
                == alnum_prefix(sentence@, 5),
        decreases sentence@.len() - i,
    {
        proof {
            lemma_alnum_prefix_step(sentence@, i as int, (5 - r@.len()) as nat);
        }
        if is_alphanumeric(sentence[i]) {
            r.push(sentence[i]);
        }
        i += 1;
    }
    proof {
        let rest = sentence@.subrange(i as int, sentence@.len() as int);
        if i == sentence@.len() {
            assert(rest.len() == 0);
        }
        assert(alnum_prefix(rest, (5 - r@.len()) as nat) == Seq::<char>::empty());
        assert(r@ + Seq::<char>::empty() =~= r@);
    }
    r
}

/// Minutes and seconds of a duration given in whole seconds.
pub fn duration_to_min_and_sec(secs: u64) -> (r: (u64, u64))
    ensures
        r.0 == secs / 60,
        r.1 == secs % 60,
{
    (secs / 60, secs % 60)
}

proof fn lemma_mod_step(i: int, m: int)
    requires
        m > 0,
        i >= 0,
    ensures
        (i + 1) % m == (if i % m + 1 < m {
            i % m + 1
        } else {
            0
        }),
{
    vstd::arithmetic::div_mod::lemma_fundamental_div_mod(i, m);
    let q = i / m;
    let r = i % m;
    assert(i == q * m + r) by (nonlinear_arith)
        requires
            i == m * q + r,
    ;
    if r + 1 < m {
        vstd::arithmetic::div_mod::lemma_fundamental_div_mod_converse_mod(i + 1, m, q, r + 1);
    } else {
        assert(i + 1 == (q + 1) * m + 0) by (nonlinear_arith)
            requires
                i == q * m + r,
                r + 1 == m,
        ;
        vstd::arithmetic::div_mod::lemma_fundamental_div_mod_converse_mod(i + 1, m, q + 1, 0);
    }
}

/// The article of `char_count` characters made by repeating `hanzi`, trimmed.
pub open spec fn article(hanzi: Seq<char>, char_count: nat) -> Seq<char> {
    let t = trim(hanzi);
    if t.len() == 0 {
        Seq::empty()
    } else {
        Seq::new(char_count, |i: int| t[i % (t.len() as int)])
    }
}

/// A text of `char_count` characters that repeats the characters of `hanzi` (without
/// its surrounding whitespace).
pub fn gen_article(hanzi: &str, char_count: usize) -> (r: String)
    ensures
        r@ == article(hanzi@, char_count as nat),
{
    let all = chars_of(hanzi);
    let t = trim_chars(all.as_slice());
    if t.len() == 0 {
        return String::new();
    }
    let mut out: Vec<char> = Vec::new();
    let mut j: usize = 0;
    let mut i: usize = 0;
    while i < char_count
        invariant
            i <= char_count,
            t@ == trim(hanzi@),
            t@.len() > 0,
            j < t@.len(),
            j == (i as int) % (t@.len() as int),
            out@.len() == i,
            forall|k: int| 0 <= k < i ==> #[trigger] out@[k] == t@[k % (t@.len() as int)],
        decreases char_count - i,
    {
        out.push(t[j]);
        proof {
            lemma_mod_step(i as int, t@.len() as int);
        }
        j = if j < t.len() - 1 {
            j + 1
        } else {
            0
        };
        i += 1;
    }
    let r = string_from_chars(out.as_slice());
    assert(r@ =~= article(hanzi@, char_count as nat));
    r
}


// ---------------------------------------------------------------------------
// Choosing the part of a preset text to type
// ---------------------------------------------------------------------------

/// A range of a text: from a line and character to a line and character, both
/// included, counted from 0.
#[derive(PartialEq, Eq, Structural, Clone, Copy, Debug)]
pub struct PickPreset {
    pub line_start: usize,
    pub char_start: usize,
    pub line_end: usize,
    pub char_end: usize,
}

impl Default for PickPreset {
    fn default() -> (p: Self)
        ensures
            p == (PickPreset { line_start: 0, char_start: 0, line_end: usize::MAX, char_end: usize::MAX }),
    {
        PickPreset { line_start: 0, char_start: 0, line_end: usize::MAX, char_end: usize::MAX }
    }
}

/// What the range syntax is, told after a parse error.
pub open spec fn range_format_message() -> Seq<char> {
    "预设文本选择范围格式应为: 1-10(行一到行十)，或1.3-10.6(行一的第三字到行十的第六字)"@
}

/// One end of a range, `line` or `line.char` counted from 1; an empty end is the
/// start (or, for the closing end, the end) of the text.
pub open spec fn pick_end(s: Seq<char>, end: bool) -> Result<(usize, usize), ParseIntKind> {
    let defv: usize = if end {
        usize::MAX
    } else {
        0
    };
    if s.len() == 0 {
        Ok((defv, defv))
    } else {
        let sp = split_on(s, '.');
        match parse_usize(sp[0]) {
            Err(e) => Err(e),
            Ok(line) => if sp.len() > 1 {
                match parse_usize(sp[1]) {
                    Err(e) => Err(e),
                    Ok(pos) => Ok((line, pos)),
                }
            } else {
                Ok((line, defv))
            },
        }
    }
}

/// `n - 1`, or 0.
pub open spec fn dec(n: usize) -> usize {
    if n == 0 {
        0
    } else {
        (n - 1) as usize
    }
}

/// The range that `s` (`start-end`) designates, counted from 0.
pub open spec fn pick_spec(s: Seq<char>) -> Result<PickPreset, ParseIntKind> {
    let pieces = split_on(s, '-');
    match pick_end(pieces[0], false) {
        Err(e) => Err(e),
        Ok(a) => {
            let b = if pieces.len() > 1 {
                pick_end(pieces[1], true)
            } else {
                Ok((usize::MAX, usize::MAX))
            };
            match b {
                Err(e) => Err(e),
                Ok(b) => Ok(
                    PickPreset {
                        line_start: dec(a.0),
                        char_start: dec(a.1),
                        line_end: dec(b.0),
                        char_end: dec(b.1),
                    },
                ),
            }
        },
    }
}

/// The message of a range that does not parse.
pub open spec fn pick_error(e: ParseIntKind) -> Seq<char> {
    parse_int_message(e) + "; "@ + range_format_message()
}

fn parse_int_error(e: ParseIntKind) -> (r: String)
    ensures
        r@ == pick_error(e),
{
    let mut out = match e {
        ParseIntKind::Empty => "cannot parse integer from empty string".to_owned(),
        ParseIntKind::InvalidDigit => "invalid digit found in string".to_owned(),
        ParseIntKind::PosOverflow => "number too large to fit in target type".to_owned(),
    };
    string_append(&mut out, "; ");
    string_append(
        &mut out,
        "预设文本选择范围格式应为: 1-10(行一到行十)，或1.3-10.6(行一的第三字到行十的第六字)",
    );
    out
}

fn parse_pick_end(s: &[char], end: bool) -> (r: Result<(usize, usize), ParseIntKind>)
    ensures
        r == pick_end(s@, end),
{
    let defv: usize = if end {
        usize::MAX
    } else {
        0
    };
    if s.len() == 0 {
        return Ok((defv, defv));
    }
    let sp = split_chars(s, '.');
    proof {
        lemma_split_nonempty(s@, '.');
    }
    let line = match parse_usize_chars(sp[0].as_slice()) {
        Ok(v) => v,
        Err(e) => {
            return Err(e);
        },
    };
    if sp.len() > 1 {
        match parse_usize_chars(sp[1].as_slice()) {
            Ok(pos) => Ok((line, pos)),
            Err(e) => Err(e),
        }
    } else {
        Ok((line, defv))
    }
}

impl PickPreset {
    /// Parses a range `start-end`, each end `line` or `line.char` counted from 1 and
    /// possibly empty; the result counts from 0. An end that does not parse is an
    /// error, with the parse message and the expected syntax.
    pub fn parse(s: &str) -> (r: Result<PickPreset, String>)
        ensures
            match r {
                Ok(p) => pick_spec(s@) == Ok::<PickPreset, ParseIntKind>(p),
                Err(m) => pick_spec(s@) is Err && m@ == pick_error(pick_spec(s@)->Err_0),
            },
    {
        let cs = chars_of(s);
        let pieces = split_chars(cs.as_slice(), '-');
        proof {
            lemma_split_nonempty(s@, '-');
        }
        let a = match parse_pick_end(pieces[0].as_slice(), false) {
            Ok(a) => a,
            Err(e) => {
                return Err(parse_int_error(e));
            },
        };
        let b = if pieces.len() > 1 {
            match parse_pick_end(pieces[1].as_slice(), true) {
                Ok(b) => b,
                Err(e) => {
                    return Err(parse_int_error(e));
                },
            }
        } else {
            (usize::MAX, usize::MAX)
        };
        Ok(
            PickPreset {
                line_start: a.0.saturating_sub(1),
                char_start: a.1.saturating_sub(1),
                line_end: b.0.saturating_sub(1),
                char_end: b.1.saturating_sub(1),
            },
        )
    }
}

impl std::str::FromStr for PickPreset {
    type Err = String;

    fn from_str(s: &str) -> (r: Result<Self, Self::Err>)
        ensures
            match r {
                Ok(p) => pick_spec(s@) == Ok::<PickPreset, ParseIntKind>(p),
                Err(m) => pick_spec(s@) is Err && m@ == pick_error(pick_spec(s@)->Err_0),
            },
    {
        PickPreset::parse(s)
    }
}

/// The file and the range of a preset argument `file` or `file:range`, split at the
/// last colon: no range, or an empty one, is the whole file; a range that does not
/// parse is an error.
pub fn parse_preset(s: &str) -> (r: Result<(String, PickPreset), String>)
    ensures
        ({
            let cs = s@;
            let colon = exists|k: int| 0 <= k < cs.len() && cs[k] == ':';
            let k = choose|k: int|
                0 <= k < cs.len() && cs[k] == ':' && forall|t: int| k < t < cs.len() ==> cs[t] != ':';
            if !colon {
                r == Ok::<(String, PickPreset), String>((r->Ok_0.0, PickPreset::default_spec()))
                    && r->Ok_0.0@ == cs
            } else {
                let path = cs.subrange(0, k);
                let range = cs.subrange(k + 1, cs.len() as int);
                if range.len() == 0 {
                    r is Ok && r->Ok_0.0@ == path && r->Ok_0.1 == PickPreset::default_spec()
                } else {
                    match pick_spec(range) {
                        Ok(p) => r is Ok && r->Ok_0.0@ == path && r->Ok_0.1 == p,
                        Err(e) => r is Err && r->Err_0@ == pick_error(e),
                    }
                }
            }
        }),
{
    let cs = chars_of(s);
    let n = cs.len();
    let mut k = n;
    while k > 0 && cs[k - 1] != ':'
        invariant
            k <= n == cs@.len(),
            cs@ == s@,
            forall|t: int| k <= t < n ==> cs@[t] != ':',
        decreases k,
    {
        k -= 1;
    }
    if k == 0 {
        let r = Ok((string_from_chars(cs.as_slice()), PickPreset::default()));
        assert(!exists|j: int| 0 <= j < s@.len() && s@[j] == ':');
        return r;
    }
    let ghost kk = choose|j: int|
        0 <= j < s@.len() && s@[j] == ':' && forall|t: int| j < t < s@.len() ==> s@[t] != ':';
    assert(0 <= k - 1 < s@.len() && s@[k - 1] == ':' && forall|t: int| k - 1 < t < s@.len() ==> s@[t] != ':');
    assert(kk == k - 1) by {
        if kk < k - 1 {
            assert(s@[k - 1] != ':');
        } else if kk > k - 1 {
            assert(s@[kk] != ':');
        }
    }
    let path = string_from_chars(vstd::slice::slice_subrange(cs.as_slice(), 0, k - 1));
    let range = string_from_chars(vstd::slice::slice_subrange(cs.as_slice(), k, n));
    if range.as_str().is_empty() {
        return Ok((path, PickPreset::default()));
    }
    match PickPreset::parse(range.as_str()) {
        Ok(p) => Ok((path, p)),
        Err(m) => Err(m),
    }
}

impl PickPreset {
    pub open spec fn default_spec() -> PickPreset {
        PickPreset { line_start: 0, char_start: 0, line_end: usize::MAX, char_end: usize::MAX }
    }
}


/// Whether a character of the preset is kept: all are when `keep`, else all but
/// whitespace and control characters.
pub open spec fn kept(c: char, keep: bool) -> bool {
    keep || (!unicode_whitespace(c) && !unicode_control(c))
}

/// The characters of `s` that are kept.
pub open spec fn keep_filter(s: Seq<char>, keep: bool) -> Seq<char>
    decreases s.len(),
{
    if s.len() == 0 {
        Seq::empty()
    } else {
        keep_filter(s.drop_last(), keep) + if kept(s.last(), keep) {
            seq![s.last()]
        } else {
            Seq::empty()
        }
    }
}

/// The part of line `i` inside the range.
pub open spec fn line_part(line: Seq<char>, i: int, p: PickPreset, keep: bool) -> Seq<char> {
    let n = line.len() as int;
    let cs = if p.char_start >= n {
        n
    } else {
        p.char_start as int
    };
    if i == p.line_start && i == p.line_end {
        if p.char_end >= p.char_start {
            let m = p.char_end - p.char_start + 1;
            let e = if m >= n - cs {
                n
            } else {
                cs + m
            };
            keep_filter(line.subrange(cs, e), keep)
        } else {
            Seq::empty()
        }
    } else if i == p.line_start {
        keep_filter(line.subrange(cs, n), keep)
    } else if i == p.line_end {
        let e = if p.char_end + 1 >= n {
            n
        } else {
            p.char_end + 1
        };
        keep_filter(line.subrange(0, e), keep)
    } else {
        keep_filter(line, keep)
    }
}

/// The kept characters of the lines from `i` on inside the range, with a line feed
/// after each line before the last when `keep`.
pub open spec fn preset_from(ls: Seq<Seq<char>>, p: PickPreset, keep: bool, i: int) -> Seq<char>
    decreases ls.len() - i,
{
    if i < 0 || i >= ls.len() || i > p.line_end {
        Seq::empty()
    } else if i < p.line_start {
        preset_from(ls, p, keep, i + 1)
    } else {
        line_part(ls[i], i, p, keep) + (if keep && i < p.line_end {
            seq!['\n']
        } else {
            Seq::empty()
        }) + preset_from(ls, p, keep, i + 1)
    }
}

/// Appends the kept characters of `s[a..b]` to `out`.
fn push_kept(out: &mut Vec<char>, s: &[char], a: usize, b: usize, keep: bool)
    requires
        a <= b <= s@.len(),
    ensures
        final(out)@ == old(out)@ + keep_filter(s@.subrange(a as int, b as int), keep),
{
    let mut k = a;
    while k < b
        invariant
            a <= k <= b <= s@.len(),
            out@ == old(out)@ + keep_filter(s@.subrange(a as int, k as int), keep),
        decreases b - k,
    {
        let c = s[k];
        assert(s@.subrange(a as int, k + 1).drop_last() =~= s@.subrange(a as int, k as int));
        if keep || (!is_whitespace(c) && !is_control(c)) {
            out.push(c);
        }
        assert(out@ =~= old(out)@ + keep_filter(s@.subrange(a as int, k + 1), keep));
        k += 1;
    }
}

/// The kept characters of the lines, one line after the other.
pub open spec fn flat_kept(ls: Seq<Seq<char>>, keep: bool) -> Seq<char>
    decreases ls.len(),
{
    if ls.len() == 0 {
        Seq::empty()
    } else {
        keep_filter(ls[0], keep) + flat_kept(ls.drop_first(), keep)
    }
}

proof fn lemma_keep_filter_append(a: Seq<char>, b: Seq<char>, keep: bool)
    ensures
        keep_filter(a + b, keep) == keep_filter(a, keep) + keep_filter(b, keep),
    decreases b.len(),
{
    if b.len() == 0 {
        assert(a + b =~= a);
        assert(keep_filter(a, keep) + keep_filter(b, keep) =~= keep_filter(a, keep));
    } else {
        lemma_keep_filter_append(a, b.drop_last(), keep);
        assert((a + b).drop_last() =~= a + b.drop_last());
        assert((a + b).last() == b.last());
        let t = if kept(b.last(), keep) {
            seq![b.last()]
        } else {
            Seq::<char>::empty()
        };
        assert(keep_filter(a, keep) + keep_filter(b.drop_last(), keep) + t =~= keep_filter(a, keep) + (
        keep_filter(b.drop_last(), keep) + t));
    }
}

proof fn lemma_keep_filter_one(c: char, keep: bool)
    ensures
        keep_filter(seq![c], keep) == if kept(c, keep) {
            seq![c]
        } else {
            Seq::<char>::empty()
        },
{
    let s = seq![c];
    assert(s.drop_last() =~= Seq::<char>::empty());
    assert(keep_filter(Seq::<char>::empty(), keep) == Seq::<char>::empty());
    if kept(c, keep) {
        assert(Seq::<char>::empty() + seq![c] =~= seq![c]);
    } else {
        assert(Seq::<char>::empty() + Seq::<char>::empty() =~= Seq::<char>::empty());
    }
}

/// With the whole text, every line is taken whole.
proof fn lemma_preset_whole(ls: Seq<Seq<char>>, i: int)
    requires
        0 <= i <= ls.len(),
        ls.len() <= usize::MAX,
    ensures
        preset_from(ls, PickPreset::default_spec(), false, i) == flat_kept(ls.subrange(i, ls.len() as int), false),
    decreases ls.len() - i,
{
    let p = PickPreset::default_spec();
    if i < ls.len() {
        lemma_preset_whole(ls, i + 1);
        let line = ls[i];
        assert(line.subrange(0, line.len() as int) =~= line);
        if i == 0 {
            assert(i == p.line_start && i != p.line_end);
        } else if i == p.line_end {
            assert(i != p.line_start);
        } else {
            assert(i != p.line_start && i != p.line_end);
        }
        assert(line_part(line, i, p, false) == keep_filter(line, false));
        let rest = ls.subrange(i, ls.len() as int);
        assert(rest.drop_first() =~= ls.subrange(i + 1, ls.len() as int));
        assert(rest[0] == line);
        assert(line_part(line, i, p, false) + Seq::<char>::empty() =~= line_part(line, i, p, false));
    } else {
        assert(ls.subrange(i, ls.len() as int) =~= Seq::<Seq<char>>::empty());
    }
}

/// Each line takes at least one character.
proof fn lemma_lines_count(s: Seq<char>, start: int)
    requires
        0 <= start <= s.len(),
    ensures
        lines_from(s, start).len() <= s.len() - start,
    decreases s.len() - start,
{
    if start < s.len() {
        let e = next_sep(s, '\n', start);
        lemma_next_sep_bounds(s, '\n', start);
        if e < s.len() {
            lemma_lines_count(s, e + 1);
        }
    }
}

/// Without line feeds and carriage returns among the kept characters, the kept
/// characters of the lines are those of the text.
proof fn lemma_lines_kept(s: Seq<char>, start: int)
    requires
        0 <= start <= s.len(),
        !kept('\n', false),
        !kept('\r', false),
    ensures
        flat_kept(lines_from(s, start), false) == keep_filter(s.subrange(start, s.len() as int), false),
    decreases s.len() - start,
{
    let rest = s.subrange(start, s.len() as int);
    if start >= s.len() {
        assert(rest =~= Seq::<char>::empty());
    } else {
        let e = next_sep(s, '\n', start);
        lemma_next_sep_bounds(s, '\n', start);
        let raw = s.subrange(start, e);
        if e == s.len() {
            let ls = lines_from(s, start);
            assert(ls == seq![raw]);
            assert(ls.drop_first() =~= Seq::<Seq<char>>::empty());
            assert(raw =~= rest);
            assert(keep_filter(raw, false) + Seq::<char>::empty() =~= keep_filter(raw, false));
            assert(flat_kept(ls, false) == keep_filter(raw, false) + flat_kept(ls.drop_first(), false));
        } else {
            lemma_lines_kept(s, e + 1);
            let tail = s.subrange(e + 1, s.len() as int);
            let line = if raw.len() > 0 && raw.last() == '\r' {
                raw.drop_last()
            } else {
                raw
            };
            let ls = lines_from(s, start);
            assert(ls == seq![line] + lines_from(s, e + 1));
            assert(ls.drop_first() =~= lines_from(s, e + 1));
            assert(ls[0] == line);
            assert(rest =~= raw + seq!['\n'] + tail);
            lemma_keep_filter_append(raw + seq!['\n'], tail, false);
            lemma_keep_filter_append(raw, seq!['\n'], false);
            lemma_keep_filter_one('\n', false);
            if raw.len() > 0 && raw.last() == '\r' {
                assert(raw =~= line + seq!['\r']);
                lemma_keep_filter_append(line, seq!['\r'], false);
                lemma_keep_filter_one('\r', false);
                assert(keep_filter(line, false) + Seq::<char>::empty() =~= keep_filter(line, false));
            }
            assert(keep_filter(raw, false) == keep_filter(line, false));
            assert(keep_filter(raw, false) + Seq::<char>::empty() =~= keep_filter(raw, false));
            assert(keep_filter(rest, false) == keep_filter(raw, false) + keep_filter(tail, false));
            assert(flat_kept(ls, false) == keep_filter(line, false) + flat_kept(lines_from(s, e + 1), false));
        }
    }
}

/// `x` is a stretch of `y`: its characters from some `a` to some `b`.
pub open spec fn is_stretch_of(x: Seq<char>, y: Seq<char>) -> bool {
    exists|a: int, b: int| 0 <= a <= b <= y.len() && x == y.subrange(a, b)
}

proof fn lemma_keep_filter_kept(s: Seq<char>)
    ensures
        forall|k: int| 0 <= k < keep_filter(s, false).len() ==> kept(#[trigger] keep_filter(s, false)[k], false),
    decreases s.len(),
{
    if s.len() > 0 {
        lemma_keep_filter_kept(s.drop_last());
        let f = keep_filter(s.drop_last(), false);
        let t = if kept(s.last(), false) {
            seq![s.last()]
        } else {
            Seq::<char>::empty()
        };
        let g = keep_filter(s, false);
        assert(g == f + t);
        assert forall|k: int| 0 <= k < g.len() implies kept(#[trigger] g[k], false) by {
            if k < f.len() {
                assert(g[k] == f[k]);
            } else {
                assert(g[k] == t[k - f.len()]);
            }
        }
    }
}

/// The kept characters of a line, split at `a` and `b`.
proof fn lemma_keep_filter_split(line: Seq<char>, a: int, b: int)
    requires
        0 <= a <= b <= line.len(),
    ensures
        keep_filter(line, false) == keep_filter(line.subrange(0, a), false) + keep_filter(
            line.subrange(a, b),
            false,
        ) + keep_filter(line.subrange(b, line.len() as int), false),
{
    let x = line.subrange(0, a);
    let y = line.subrange(a, b);
    let z = line.subrange(b, line.len() as int);
    assert(line =~= x + y + z);
    lemma_keep_filter_append(x + y, z, false);
    lemma_keep_filter_append(x, y, false);
}

/// The kept lines from `i` on, one after the other.
proof fn lemma_flat_kept_step(ls: Seq<Seq<char>>, i: int)
    requires
        0 <= i < ls.len(),
    ensures
        flat_kept(ls.subrange(i, ls.len() as int), false) == keep_filter(ls[i], false) + flat_kept(
            ls.subrange(i + 1, ls.len() as int),
            false,
        ),
{
    let rest = ls.subrange(i, ls.len() as int);
    assert(rest.drop_first() =~= ls.subrange(i + 1, ls.len() as int));
    assert(rest[0] == ls[i]);
}

/// Past the first line of the range, what is taken starts the kept rest of the text.
proof fn lemma_preset_prefix(ls: Seq<Seq<char>>, p: PickPreset, i: int)
    requires
        p.line_start < i <= ls.len(),
    ensures
        preset_from(ls, p, false, i).is_prefix_of(flat_kept(ls.subrange(i, ls.len() as int), false)),
    decreases ls.len() - i,
{
    let w = flat_kept(ls.subrange(i, ls.len() as int), false);
    let r = preset_from(ls, p, false, i);
    if i >= ls.len() || i > p.line_end {
        assert(r.len() == 0);
    } else {
        let line = ls[i];
        let n = line.len() as int;
        lemma_flat_kept_step(ls, i);
        let w1 = flat_kept(ls.subrange(i + 1, ls.len() as int), false);
        if i == p.line_end {
            let e = if p.char_end + 1 >= n {
                n
            } else {
                p.char_end + 1
            };
            lemma_keep_filter_split(line, e, e);
            assert(line.subrange(e, e) =~= Seq::<char>::empty());
            assert(preset_from(ls, p, false, i + 1) == Seq::<char>::empty());
            let part = keep_filter(line.subrange(0, e), false);
            assert(keep_filter(Seq::<char>::empty(), false) == Seq::<char>::empty());
            assert(r =~= part);
            assert(w =~= part + (keep_filter(line.subrange(e, n), false) + w1));
        } else {
            lemma_preset_prefix(ls, p, i + 1);
            let r1 = preset_from(ls, p, false, i + 1);
            assert(r == keep_filter(line, false) + r1);
            assert(r1 =~= w1.subrange(0, r1.len() as int));
            assert(r =~= w.subrange(0, r.len() as int));
        }
    }
}

/// What the range takes from line `i` on is a stretch of the kept rest of the text.
proof fn lemma_preset_stretch(ls: Seq<Seq<char>>, p: PickPreset, i: int)
    requires
        0 <= i <= ls.len(),
    ensures
        is_stretch_of(preset_from(ls, p, false, i), flat_kept(ls.subrange(i, ls.len() as int), false)),
    decreases ls.len() - i,
{
    let w = flat_kept(ls.subrange(i, ls.len() as int), false);
    let r = preset_from(ls, p, false, i);
    if i >= ls.len() || i > p.line_end {
        assert(r =~= w.subrange(0, 0));
    } else if i > p.line_start {
        lemma_preset_prefix(ls, p, i);
        assert(r =~= w.subrange(0, r.len() as int));
    } else {
        let line = ls[i];
        let n = line.len() as int;
        let kl = keep_filter(line, false);
        lemma_flat_kept_step(ls, i);
        let w1 = flat_kept(ls.subrange(i + 1, ls.len() as int), false);
        assert(w == kl + w1);
        if i < p.line_start {
            lemma_preset_stretch(ls, p, i + 1);
            let r1 = preset_from(ls, p, false, i + 1);
            let (a, b) = choose|a: int, b: int| 0 <= a <= b <= w1.len() && r1 == w1.subrange(a, b);
            assert(r == r1);
            assert(r =~= w.subrange(a + kl.len(), b + kl.len()));
        } else {
            let cs = if p.char_start >= n {
                n
            } else {
                p.char_start as int
            };
            if i == p.line_end {
                assert(preset_from(ls, p, false, i + 1) == Seq::<char>::empty());
                if p.char_end >= p.char_start {
                    let m = p.char_end - p.char_start + 1;
                    let e = if m >= n - cs {
                        n
                    } else {
                        cs + m
                    };
                    lemma_keep_filter_split(line, cs, e);
                    let x = keep_filter(line.subrange(0, cs), false);
                    let y = keep_filter(line.subrange(cs, e), false);
                    assert(r =~= y);
                    assert(r =~= w.subrange(x.len() as int, (x.len() + y.len()) as int));
                } else {
                    assert(r =~= w.subrange(0, 0));
                }
            } else {
                lemma_keep_filter_split(line, cs, n);
                assert(line.subrange(n, n) =~= Seq::<char>::empty());
                assert(keep_filter(Seq::<char>::empty(), false) == Seq::<char>::empty());
                let x = keep_filter(line.subrange(0, cs), false);
                let y = keep_filter(line.subrange(cs, n), false);
                assert(kl =~= x + y);
                lemma_preset_prefix(ls, p, i + 1);
                let r1 = preset_from(ls, p, false, i + 1);
                assert(r == y + r1);
                assert(r1 =~= w1.subrange(0, r1.len() as int));
                assert(r =~= w.subrange(x.len() as int, (x.len() + y.len() + r1.len()) as int));
            }
        }
    }
}

/// The characters of the preset `text` inside the range `pick` (the whole text when
/// none): with `keep` all of them and a line feed after each line but the last one
/// of the range; without, only those that are neither whitespace nor control.
pub fn process_preset(text: &str, keep: bool, pick: Option<PickPreset>) -> (r: Vec<char>)
    ensures
        r@ == preset_from(
            lines(text@),
            match pick {
                Some(p) => p,
                None => PickPreset::default_spec(),
            },
            keep,
            0,
        ),
        !keep && pick is None ==> r@ == keep_filter(text@, false),
        !keep ==> is_stretch_of(r@, keep_filter(text@, false)),
        !keep ==> forall|k: int| 0 <= k < r@.len() ==> kept(#[trigger] r@[k], false),
{
    let nl_space = is_whitespace('\n');
    let cr_space = is_whitespace('\r');
    let p = match pick {
        Some(p) => p,
        None => PickPreset::default(),
    };
    let s = chars_of(text);
    proof {
        assert(is_ascii_char('\n') && is_ascii_char('\r'));
        if !keep && pick is None {
            lemma_lines_count(text@, 0);
            lemma_lines_kept(text@, 0);
            lemma_preset_whole(lines(text@), 0);
            assert(lines(text@).subrange(0, lines(text@).len() as int) =~= lines(text@));
            assert(text@.subrange(0, text@.len() as int) =~= text@);
        }
        if !keep {
            let ls = lines(text@);
            lemma_lines_kept(text@, 0);
            assert(text@.subrange(0, text@.len() as int) =~= text@);
            assert(ls.subrange(0, ls.len() as int) =~= ls);
            lemma_preset_stretch(ls, p, 0);
            lemma_keep_filter_kept(text@);
        }
    }
    let n = s.len();
    let ghost ls = lines(text@);
    let mut ret: Vec<char> = Vec::new();
    let mut start: usize = 0;
    let mut i: usize = 0;
    let mut done = false;
    while start < n && !done
        invariant
            s@ == text@,
            n == s@.len(),
            ls == lines(text@),
            start <= n,
            i <= start,
            i <= ls.len(),
            !done ==> lines_from(s@, start as int) == ls.subrange(i as int, ls.len() as int),
            !done ==> ret@ + preset_from(ls, p, keep, i as int) == preset_from(ls, p, keep, 0),
            done ==> ret@ == preset_from(ls, p, keep, 0),
        decreases n - start + (if done {
            0int
        } else {
            1int
        }),
    {
        let (line, e) = next_line(s.as_slice(), start);
        proof {
            let rest = ls.subrange(i as int, ls.len() as int);
            assert(rest == seq![line@] + lines_from(s@, e + 1));
            assert(rest.len() >= 1);
            assert(i < ls.len());
            assert(rest[0] == line@);
            assert(ls[i as int] == line@);
            assert(lines_from(s@, e + 1) =~= rest.subrange(1, rest.len() as int));
            assert(rest.subrange(1, rest.len() as int) =~= ls.subrange(i + 1, ls.len() as int));
            if e >= n {
                assert(lines_from(s@, n as int) =~= lines_from(s@, e + 1));
            }
        }
        if i > p.line_end {
            done = true;
        } else if i < p.line_start {
            start = if e < n {
                e + 1
            } else {
                n
            };
            i += 1;
        } else {
            let ghost before = ret@;
            let len = line.len();
            let cs = if p.char_start >= len {
                len
            } else {
                p.char_start
            };
            if i == p.line_start && i == p.line_end {
                if p.char_end >= p.char_start {
                    let m = p.char_end - p.char_start;
                    let end = if m >= len - cs {
                        len
                    } else {
                        cs + m + 1
                    };
                    push_kept(&mut ret, line.as_slice(), cs, end, keep);
                }
            } else if i == p.line_start {
                push_kept(&mut ret, line.as_slice(), cs, len, keep);
            } else if i == p.line_end {
                let end = if p.char_end >= len {
                    len
                } else {
                    p.char_end + 1
                };
                push_kept(&mut ret, line.as_slice(), 0, end, keep);
            } else {
                push_kept(&mut ret, line.as_slice(), 0, len, keep);
                assert(line@.subrange(0, len as int) =~= line@);
            }
            assert(ret@ == before + line_part(ls[i as int], i as int, p, keep));
            if keep && i < p.line_end {
                ret.push('\n');
            }
            assert(ret@ =~= before + (line_part(ls[i as int], i as int, p, keep) + (if keep && i
                < p.line_end {
                seq!['\n']
            } else {
                Seq::empty()
            })));
            start = if e < n {
                e + 1
            } else {
                n
            };
            i += 1;
        }
    }
    proof {
        if !done {
            assert(ls.subrange(i as int, ls.len() as int).len() == 0);
            assert(i >= ls.len());
        }
    }
    ret
}

} // verus!
