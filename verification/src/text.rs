use vstd::prelude::*;

verus! {

/// Whether `c` has the Unicode `White_Space` property, as `char::is_whitespace` decides it.
pub uninterp spec fn unicode_whitespace(c: char) -> bool;

/// Whether `c` has the Unicode `Alphabetic` property, as `char::is_alphabetic` decides it.
pub uninterp spec fn unicode_alphabetic(c: char) -> bool;

/// Whether `c` is alphabetic or numeric in Unicode, as `char::is_alphanumeric` decides it.
pub uninterp spec fn unicode_alphanumeric(c: char) -> bool;

/// Whether `c` is in the Unicode general category `Cc`, as `char::is_control` decides it.
pub uninterp spec fn unicode_control(c: char) -> bool;

/// `char::is_whitespace`: the result is the `White_Space` property of `c`, named
/// `unicode_whitespace`; for ASCII characters the documentation lists the members.
#[verifier::external_body]
pub(crate) fn is_whitespace(c: char) -> (b: bool)
    ensures
        b == unicode_whitespace(c),
        is_ascii_char(c) ==> (b <==> is_ascii_whitespace_char(c) || c == '\u{0B}'),
{
    c.is_whitespace()
}

/// `char::is_alphabetic`: the result is named `unicode_alphabetic`; for ASCII
/// characters it holds exactly of the letters.
#[verifier::external_body]
pub(crate) fn is_alphabetic(c: char) -> (b: bool)
    ensures
        b == unicode_alphabetic(c),
        is_ascii_char(c) ==> (b <==> is_ascii_alphabetic_char(c)),
{
    c.is_alphabetic()
}

/// `char::is_alphanumeric`: the result is named `unicode_alphanumeric`; for ASCII
/// characters it holds exactly of the letters and digits.
#[verifier::external_body]
pub(crate) fn is_alphanumeric(c: char) -> (b: bool)
    ensures
        b == unicode_alphanumeric(c),
        is_ascii_char(c) ==> (b <==> is_ascii_alphabetic_char(c) || is_ascii_digit_char(c)),
{
    c.is_alphanumeric()
}

/// `char::is_control`: the result is named `unicode_control`; for ASCII characters
/// it holds exactly of the codes below 0x20 and of 0x7F.
#[verifier::external_body]
pub(crate) fn is_control(c: char) -> (b: bool)
    ensures
        b == unicode_control(c),
        is_ascii_char(c) ==> (b <==> ((c as u32) < 0x20 || (c as u32) == 0x7F)),
{
    c.is_control()
}

pub open spec fn is_ascii_char(c: char) -> bool {
    (c as u32) < 128
}

pub open spec fn is_ascii_alphabetic_char(c: char) -> bool {
    ('a' <= c && c <= 'z') || ('A' <= c && c <= 'Z')
}

pub open spec fn is_ascii_lowercase_char(c: char) -> bool {
    'a' <= c && c <= 'z'
}

pub open spec fn is_ascii_digit_char(c: char) -> bool {
    '0' <= c && c <= '9'
}

/// The ASCII whitespace of `char::is_ascii_whitespace`: space, tab, line feed,
/// form feed and carriage return.
pub open spec fn is_ascii_whitespace_char(c: char) -> bool {
    c == ' ' || c == '\t' || c == '\n' || c == '\u{0C}' || c == '\r'
}

pub fn is_ascii(c: char) -> (b: bool)
    ensures
        b == is_ascii_char(c),
{
    (c as u32) < 128
}

pub fn is_ascii_alphabetic(c: char) -> (b: bool)
    ensures
        b == is_ascii_alphabetic_char(c),
{
    ('a' <= c && c <= 'z') || ('A' <= c && c <= 'Z')
}

pub fn is_ascii_lowercase(c: char) -> (b: bool)
    ensures
        b == is_ascii_lowercase_char(c),
{
    'a' <= c && c <= 'z'
}

pub fn is_ascii_digit(c: char) -> (b: bool)
    ensures
        b == is_ascii_digit_char(c),
{
    '0' <= c && c <= '9'
}

pub fn is_ascii_whitespace(c: char) -> (b: bool)
    ensures
        b == is_ascii_whitespace_char(c),
{
    c == ' ' || c == '\t' || c == '\n' || c == '\u{0C}' || c == '\r'
}

/// `String::push`: appends one character.
#[verifier::external_body]
pub(crate) fn string_push(s: &mut String, c: char)
    ensures
        final(s)@ == old(s)@.push(c),
{
    s.push(c);
}

/// Builds a `String` holding exactly the characters of `chars`.
pub fn string_from_chars(chars: &[char]) -> (s: String)
    ensures
        s@ == chars@,
{
    let mut s = String::new();
    let mut i: usize = 0;
    while i < chars.len()
        invariant
            i <= chars@.len(),
            s@ == chars@.subrange(0, i as int),
        decreases chars@.len() - i,
    {
        string_push(&mut s, chars[i]);
        i += 1;
        assert(s@ =~= chars@.subrange(0, i as int));
    }
    assert(chars@.subrange(0, i as int) =~= chars@);
    s
}

/// Appends the characters of `t` to `s`.
pub fn string_append(s: &mut String, t: &str)
    ensures
        final(s)@ == old(s)@ + t@,
{
    let cs = chars_of(t);
    let ghost s0 = s@;
    let mut i: usize = 0;
    while i < cs.len()
        invariant
            i <= cs@.len(),
            cs@ == t@,
            s@ == s0 + cs@.subrange(0, i as int),
        decreases cs@.len() - i,
    {
        string_push(s, cs[i]);
        i += 1;
        assert(s@ =~= s0 + cs@.subrange(0, i as int));
    }
    assert(cs@.subrange(0, i as int) =~= cs@);
}

/// Whether two strings hold the same characters.
pub fn str_equal(a: &str, b: &str) -> (r: bool)
    ensures
        r == (a@ == b@),
{
    let x = chars_of(a);
    let y = chars_of(b);
    if x.len() != y.len() {
        return false;
    }
    let mut i: usize = 0;
    while i < x.len()
        invariant
            i <= x@.len(),
            x@.len() == y@.len(),
            x@ == a@,
            y@ == b@,
            forall|k: int| 0 <= k < i ==> x@[k] == y@[k],
        decreases x@.len() - i,
    {
        if x[i] != y[i] {
            return false;
        }
        i += 1;
    }
    assert(x@ =~= y@);
    true
}

/// The characters of `s`, in order.
pub fn chars_of(s: &str) -> (v: Vec<char>)
    ensures
        v@ == s@,
{
    let mut v: Vec<char> = Vec::new();
    for c in it: s.chars()
        invariant
            v@ == it.seq().subrange(0, it.index() as int),
    {
        v.push(c);
    }
    v
}


/// Index of the first character at or after `i` that is not whitespace (or `s.len()`).
pub open spec fn first_non_ws_from(s: Seq<char>, i: int) -> int
    decreases s.len() - i,
{
    if i >= s.len() || i < 0 {
        s.len() as int
    } else if unicode_whitespace(s[i]) {
        first_non_ws_from(s, i + 1)
    } else {
        i
    }
}

/// End of the last character before `j` that is not whitespace (or 0).
pub open spec fn last_non_ws_end(s: Seq<char>, j: int) -> int
    decreases j,
{
    if j <= 0 || j > s.len() {
        0
    } else if unicode_whitespace(s[j - 1]) {
        last_non_ws_end(s, j - 1)
    } else {
        j
    }
}

/// `str::trim`: `s` without its leading and trailing whitespace.
pub open spec fn trim(s: Seq<char>) -> Seq<char> {
    let a = first_non_ws_from(s, 0);
    let b = last_non_ws_end(s, s.len() as int);
    if a >= b {
        Seq::empty()
    } else {
        s.subrange(a, b)
    }
}

proof fn lemma_first_non_ws_bounds(s: Seq<char>, i: int)
    requires
        0 <= i <= s.len(),
    ensures
        i <= first_non_ws_from(s, i) <= s.len(),
        first_non_ws_from(s, i) < s.len() ==> !unicode_whitespace(s[first_non_ws_from(s, i)]),
    decreases s.len() - i,
{
    if i < s.len() && unicode_whitespace(s[i]) {
        lemma_first_non_ws_bounds(s, i + 1);
    }
}

proof fn lemma_last_non_ws_bounds(s: Seq<char>, j: int)
    requires
        0 <= j <= s.len(),
    ensures
        0 <= last_non_ws_end(s, j) <= j,
        last_non_ws_end(s, j) > 0 ==> !unicode_whitespace(s[last_non_ws_end(s, j) - 1]),
    decreases j,
{
    if j > 0 && unicode_whitespace(s[j - 1]) {
        lemma_last_non_ws_bounds(s, j - 1);
    }
}

/// `str::trim` on a character sequence.
pub fn trim_chars(s: &[char]) -> (r: Vec<char>)
    ensures
        r@ == trim(s@),
{
    let n = s.len();
    let mut a: usize = 0;
    while a < n && is_whitespace(s[a])
        invariant
            n == s@.len(),
            a <= n,
            first_non_ws_from(s@, 0) == first_non_ws_from(s@, a as int),
        decreases n - a,
    {
        a += 1;
    }
    let mut b: usize = n;
    while b > a && is_whitespace(s[b - 1])
        invariant
            n == s@.len(),
            a <= b <= n,
            last_non_ws_end(s@, n as int) == last_non_ws_end(s@, b as int),
        decreases b,
    {
        b -= 1;
    }
    proof {
        lemma_first_non_ws_bounds(s@, 0);
        lemma_last_non_ws_bounds(s@, n as int);
        if a == b && a < n {
            // every character from b on is whitespace up to the end, and s[a] is not
            lemma_last_non_ws_bounds(s@, b as int);
        }
    }
    let mut r: Vec<char> = Vec::new();
    let mut k: usize = a;
    while k < b
        invariant
            a <= k <= b <= n,
            n == s@.len(),
            r@ == s@.subrange(a as int, k as int),
        decreases b - k,
    {
        r.push(s[k]);
        k += 1;
        assert(r@ =~= s@.subrange(a as int, k as int));
    }
    proof {
        if a < b {
            assert(first_non_ws_from(s@, 0) == a);
            assert(last_non_ws_end(s@, n as int) == b);
        } else {
            assert(r@ =~= Seq::<char>::empty());
        }
    }
    r
}

/// Index of the first `sep` at or after `i` (or `s.len()`).
pub open spec fn next_sep(s: Seq<char>, sep: char, i: int) -> int
    decreases s.len() - i,
{
    if i >= s.len() || i < 0 {
        s.len() as int
    } else if s[i] == sep {
        i
    } else {
        next_sep(s, sep, i + 1)
    }
}

pub(crate) proof fn lemma_next_sep_bounds(s: Seq<char>, sep: char, i: int)
    requires
        0 <= i <= s.len(),
    ensures
        i <= next_sep(s, sep, i) <= s.len(),
        next_sep(s, sep, i) < s.len() ==> s[next_sep(s, sep, i)] == sep,
    decreases s.len() - i,
{
    if i < s.len() && s[i] != sep {
        lemma_next_sep_bounds(s, sep, i + 1);
    }
}

/// The pieces of `s[start..]` between the separators `sep`, as `str::split` gives them:
/// never empty, and empty pieces are kept.
pub open spec fn split_from(s: Seq<char>, sep: char, start: int) -> Seq<Seq<char>>
    decreases s.len() - start, 1int,
{
    if start < 0 || start > s.len() {
        Seq::empty()
    } else {
        let e = next_sep(s, sep, start);
        if e >= s.len() || e < start {
            seq![s.subrange(start, s.len() as int)]
        } else {
            seq![s.subrange(start, e)] + split_from(s, sep, e + 1)
        }
    }
}

/// A split always has at least one piece.
pub proof fn lemma_split_nonempty(s: Seq<char>, sep: char)
    ensures
        split_on(s, sep).len() >= 1,
{
    lemma_next_sep_bounds(s, sep, 0);
}

/// `str::split(sep)` on a character sequence.
pub open spec fn split_on(s: Seq<char>, sep: char) -> Seq<Seq<char>> {
    split_from(s, sep, 0)
}

/// Splits `s` at every `sep`, keeping empty pieces.
pub fn split_chars(s: &[char], sep: char) -> (r: Vec<Vec<char>>)
    ensures
        r@.len() == split_on(s@, sep).len(),
        forall|i: int| 0 <= i < r@.len() ==> (#[trigger] r@[i])@ == split_on(s@, sep)[i],
{
    let n = s.len();
    let mut r: Vec<Vec<char>> = Vec::new();
    let mut cur: Vec<char> = Vec::new();
    let mut start: usize = 0;
    let mut k: usize = 0;
    let ghost mut done: Seq<Seq<char>> = Seq::empty();
    while k < n
        invariant
            n == s@.len(),
            start <= k <= n,
            cur@ == s@.subrange(start as int, k as int),
            next_sep(s@, sep, start as int) == next_sep(s@, sep, k as int),
            done + split_from(s@, sep, start as int) == split_on(s@, sep),
            r@.len() == done.len(),
            forall|i: int| 0 <= i < r@.len() ==> (#[trigger] r@[i])@ == done[i],
        decreases n - k,
    {
        if s[k] == sep {
            proof {
                assert(next_sep(s@, sep, start as int) == k);
                assert(split_from(s@, sep, start as int) == seq![cur@] + split_from(
                    s@,
                    sep,
                    k + 1,
                ));
                assert(done.push(cur@) + split_from(s@, sep, k + 1) =~= done + split_from(
                    s@,
                    sep,
                    start as int,
                ));
                done = done.push(cur@);
            }
            r.push(cur);
            cur = Vec::new();
            start = k + 1;
            k += 1;
            assert(cur@ =~= s@.subrange(start as int, k as int));
        } else {
            cur.push(s[k]);
            k += 1;
            assert(cur@ =~= s@.subrange(start as int, k as int));
        }
    }
    proof {
        assert(next_sep(s@, sep, start as int) == n);
        assert(split_from(s@, sep, start as int) == seq![cur@]);
        assert(done.push(cur@) =~= done + split_from(s@, sep, start as int));
        done = done.push(cur@);
    }
    r.push(cur);
    r
}

/// The lines of `s[start..]` as `str::lines` gives them: split at `'\n'`, a `'\r'`
/// just before a `'\n'` removed, and no empty last line after a final `'\n'`.
pub open spec fn lines_from(s: Seq<char>, start: int) -> Seq<Seq<char>>
    decreases s.len() - start,
{
    if start < 0 || start >= s.len() {
        Seq::empty()
    } else {
        let e = next_sep(s, '\n', start);
        if e < start || e > s.len() {
            Seq::empty()
        } else if e == s.len() {
            seq![s.subrange(start, e)]
        } else {
            let raw = s.subrange(start, e);
            let line = if raw.len() > 0 && raw.last() == '\r' {
                raw.drop_last()
            } else {
                raw
            };
            seq![line] + lines_from(s, e + 1)
        }
    }
}

/// `str::lines` on a character sequence.
pub open spec fn lines(s: Seq<char>) -> Seq<Seq<char>> {
    lines_from(s, 0)
}

/// The next line of `s` from `start`: the line itself and the position of the
/// line feed that ends it (or `s.len()` for the last line).
pub fn next_line(s: &[char], start: usize) -> (r: (Vec<char>, usize))
    requires
        start < s@.len(),
    ensures
        lines_from(s@, start as int) == seq![r.0@] + lines_from(s@, r.1 + 1),
        start <= r.1 <= s@.len(),
{
    let n = s.len();
    let mut k: usize = start;
    let mut line: Vec<char> = Vec::new();
    while k < n && s[k] != '\n'
        invariant
            n == s@.len(),
            start <= k <= n,
            line@ == s@.subrange(start as int, k as int),
            next_sep(s@, '\n', start as int) == next_sep(s@, '\n', k as int),
        decreases n - k,
    {
        line.push(s[k]);
        k += 1;
        assert(line@ =~= s@.subrange(start as int, k as int));
    }
    proof {
        lemma_next_sep_bounds(s@, '\n', k as int);
    }
    if k < n && line.len() > 0 && line[line.len() - 1] == '\r' {
        line.pop();
    }
    assert(lines_from(s@, start as int) == seq![line@] + lines_from(s@, k + 1)) by {
        let raw = s@.subrange(start as int, k as int);
        if k < n && raw.len() > 0 && raw.last() == '\r' {
            assert(line@ =~= raw.drop_last());
        }
        if k == n {
            assert(lines_from(s@, k + 1) =~= Seq::<Seq<char>>::empty());
            assert(seq![line@] + lines_from(s@, k + 1) =~= seq![line@]);
        }
    }
    (line, k)
}

/// Value of a sequence of ASCII decimal digits.
pub open spec fn digits_value(s: Seq<char>) -> int
    decreases s.len(),
{
    if s.len() == 0 {
        0
    } else {
        digits_value(s.drop_last()) * 10 + (s.last() as int - '0' as int)
    }
}

pub open spec fn all_digits(s: Seq<char>) -> bool {
    forall|i: int| 0 <= i < s.len() ==> #[trigger] is_ascii_digit_char(s[i])
}

/// `i32::from_str`: an optional `+` or `-`, then one or more decimal digits, and a
/// value within range.
pub open spec fn parse_i32(s: Seq<char>) -> Option<i32> {
    let neg = s.len() > 0 && s[0] == '-';
    let digits = if s.len() > 0 && (s[0] == '-' || s[0] == '+') {
        s.drop_first()
    } else {
        s
    };
    let v = if neg {
        -digits_value(digits)
    } else {
        digits_value(digits)
    };
    if digits.len() == 0 || !all_digits(digits) || v < i32::MIN || v > i32::MAX {
        None
    } else {
        Some(v as i32)
    }
}

proof fn lemma_digits_value_grows(s: Seq<char>, k: int)
    requires
        0 <= k <= s.len(),
        all_digits(s),
    ensures
        0 <= digits_value(s.subrange(0, k)) <= digits_value(s),
    decreases s.len() - k,
{
    if k < s.len() {
        lemma_digits_value_grows(s, k + 1);
        let t = s.subrange(0, k + 1);
        assert(t.drop_last() =~= s.subrange(0, k));
        assert(is_ascii_digit_char(s[k]));
    } else {
        assert(s.subrange(0, k) =~= s);
        lemma_digits_value_nonneg(s);
    }
}

proof fn lemma_digits_value_nonneg(s: Seq<char>)
    requires
        all_digits(s),
    ensures
        digits_value(s) >= 0,
    decreases s.len(),
{
    if s.len() > 0 {
        assert(all_digits(s.drop_last())) by {
            assert forall|i: int| 0 <= i < s.drop_last().len() implies #[trigger] is_ascii_digit_char(
                s.drop_last()[i],
            ) by {
                assert(is_ascii_digit_char(s[i]));
            }
        }
        lemma_digits_value_nonneg(s.drop_last());
        assert(is_ascii_digit_char(s[s.len() - 1]));
    }
}

/// Why `str::parse::<usize>` fails.
#[derive(PartialEq, Eq, Structural, Clone, Copy, Debug)]
pub enum ParseIntKind {
    Empty,
    InvalidDigit,
    PosOverflow,
}

/// The message of a parse failure, as `ParseIntError` displays it.
pub open spec fn parse_int_message(k: ParseIntKind) -> Seq<char> {
    match k {
        ParseIntKind::Empty => "cannot parse integer from empty string"@,
        ParseIntKind::InvalidDigit => "invalid digit found in string"@,
        ParseIntKind::PosOverflow => "number too large to fit in target type"@,
    }
}

/// The digits of `d` from `k` on, read into `acc`: the first non-digit or the first
/// overflow past `usize::MAX` is the error.
pub open spec fn usize_scan(d: Seq<char>, k: int, acc: int) -> Result<int, ParseIntKind>
    decreases d.len() - k,
{
    if k < 0 || k >= d.len() {
        Ok(acc)
    } else if !is_ascii_digit_char(d[k]) {
        Err(ParseIntKind::InvalidDigit)
    } else {
        let v = acc * 10 + (d[k] as int - '0' as int);
        if v > usize::MAX {
            Err(ParseIntKind::PosOverflow)
        } else {
            usize_scan(d, k + 1, v)
        }
    }
}

/// `usize::from_str`: an optional `+`, then decimal digits.
pub open spec fn parse_usize(s: Seq<char>) -> Result<usize, ParseIntKind> {
    if s.len() == 0 {
        Err(ParseIntKind::Empty)
    } else if (s[0] == '+' || s[0] == '-') && s.len() == 1 {
        Err(ParseIntKind::InvalidDigit)
    } else {
        let d = if s[0] == '+' {
            s.drop_first()
        } else {
            s
        };
        match usize_scan(d, 0, 0) {
            Ok(v) => Ok(v as usize),
            Err(e) => Err(e),
        }
    }
}

/// Parses a decimal `usize` as `str::parse::<usize>` does.
pub fn parse_usize_chars(s: &[char]) -> (r: Result<usize, ParseIntKind>)
    ensures
        r == parse_usize(s@),
{
    let n = s.len();
    if n == 0 {
        return Err(ParseIntKind::Empty);
    }
    if (s[0] == '+' || s[0] == '-') && n == 1 {
        return Err(ParseIntKind::InvalidDigit);
    }
    let start: usize = if s[0] == '+' {
        1
    } else {
        0
    };
    let ghost d = if s@[0] == '+' {
        s@.drop_first()
    } else {
        s@
    };
    assert(d =~= s@.subrange(start as int, n as int));
    assert(parse_usize(s@) == (match usize_scan(d, 0, 0) {
        Ok(v) => Ok(v as usize),
        Err(e) => Err(e),
    }));
    let mut acc: usize = 0;
    let mut k: usize = start;
    while k < n
        invariant
            n == s@.len(),
            start <= k <= n,
            d =~= s@.subrange(start as int, n as int),
            usize_scan(d, 0, 0) == usize_scan(d, k - start, acc as int),
            parse_usize(s@) == (match usize_scan(d, 0, 0) {
                Ok(v) => Ok(v as usize),
                Err(e) => Err(e),
            }),
        decreases n - k,
    {
        let c = s[k];
        assert(d[k - start] == c);
        if !is_ascii_digit(c) {
            return Err(ParseIntKind::InvalidDigit);
        }
        let dv = (c as u32 - '0' as u32) as usize;
        match acc.checked_mul(10) {
            Some(m) => match m.checked_add(dv) {
                Some(v) => {
                    acc = v;
                },
                None => {
                    return Err(ParseIntKind::PosOverflow);
                },
            },
            None => {
                assert(acc * 10 + dv > usize::MAX);
                return Err(ParseIntKind::PosOverflow);
            },
        }
        k += 1;
    }
    assert(usize_scan(d, k - start, acc as int) == Ok::<int, ParseIntKind>(acc as int));
    Ok(acc)
}

/// Parses a decimal `i32` as `str::parse::<i32>` does.
pub fn parse_i32_chars(s: &[char]) -> (r: Option<i32>)
    ensures
        r == parse_i32(s@),
{
    let n = s.len();
    let neg = n > 0 && s[0] == '-';
    let start: usize = if n > 0 && (s[0] == '-' || s[0] == '+') {
        1
    } else {
        0
    };
    let ghost digits = if n > 0 && (s@[0] == '-' || s@[0] == '+') {
        s@.drop_first()
    } else {
        s@
    };
    assert(digits =~= s@.subrange(start as int, n as int));
    if start >= n {
        return None;
    }
    let mut acc: i64 = 0;
    let mut k: usize = start;
    while k < n
        invariant
            n == s@.len(),
            start <= k <= n,
            digits =~= s@.subrange(start as int, n as int),
            digits == (if s@.len() > 0 && (s@[0] == '-' || s@[0] == '+') {
                s@.drop_first()
            } else {
                s@
            }),
            neg == (s@.len() > 0 && s@[0] == '-'),
            all_digits(s@.subrange(start as int, k as int)),
            acc == digits_value(s@.subrange(start as int, k as int)),
            0 <= acc <= 2147483648,
        decreases n - k,
    {
        let c = s[k];
        if !is_ascii_digit(c) {
            proof {
                assert(digits[k - start] == c);
                assert(!is_ascii_digit_char(digits[k - start]));
                assert(!all_digits(digits));
            }
            return None;
        }
        let d = (c as u32 - '0' as u32) as i64;
        let next = acc * 10 + d;
        proof {
            let t = s@.subrange(start as int, k + 1);
            assert(t.drop_last() =~= s@.subrange(start as int, k as int));
            assert(all_digits(t)) by {
                assert forall|i: int| 0 <= i < t.len() implies #[trigger] is_ascii_digit_char(
                    t[i],
                ) by {
                    if i < t.len() - 1 {
                        assert(is_ascii_digit_char(s@.subrange(start as int, k as int)[i]));
                    }
                }
            }
        }
        proof {
            let t = s@.subrange(start as int, k + 1);
            assert(t.last() == c);
            assert(digits_value(t) == digits_value(t.drop_last()) * 10 + (c as int - '0' as int));
            assert(next == digits_value(t));
        }
        if next > 2147483648 {
            proof {
                let t = s@.subrange(start as int, k + 1);
                if all_digits(digits) {
                    lemma_digits_value_grows(digits, (k + 1 - start) as int);
                    assert(digits.subrange(0, (k + 1 - start) as int) =~= t);
                }
            }
            return None;
        }
        acc = next;
        k += 1;
    }
    assert(s@.subrange(start as int, k as int) =~= digits);
    if neg {
        Some((-acc) as i32)
    } else if acc > 2147483647 {
        None
    } else {
        Some(acc as i32)
    }
}

/// Strict lexicographic order on character sequences (that of `str` comparison).
pub open spec fn seq_lt(a: Seq<char>, b: Seq<char>) -> bool
    decreases a.len(),
{
    if a.len() == 0 {
        b.len() > 0
    } else if b.len() == 0 {
        false
    } else if a[0] < b[0] {
        true
    } else if a[0] == b[0] {
        seq_lt(a.drop_first(), b.drop_first())
    } else {
        false
    }
}

/// No sequence comes before itself.
pub proof fn lemma_seq_lt_irrefl(a: Seq<char>)
    ensures
        !seq_lt(a, a),
    decreases a.len(),
{
    if a.len() > 0 {
        lemma_seq_lt_irrefl(a.drop_first());
    }
}

/// Of two sequences, exactly one comes first, or they are equal.
pub proof fn lemma_seq_lt_trichotomy(a: Seq<char>, b: Seq<char>)
    ensures
        seq_lt(a, b) || seq_lt(b, a) || a == b,
        !(seq_lt(a, b) && seq_lt(b, a)),
    decreases a.len(),
{
    if a.len() > 0 && b.len() > 0 && a[0] == b[0] {
        lemma_seq_lt_trichotomy(a.drop_first(), b.drop_first());
        if a.drop_first() == b.drop_first() {
            assert(a =~= seq![a[0]] + a.drop_first());
            assert(b =~= seq![b[0]] + b.drop_first());
        }
    } else if a.len() == 0 && b.len() == 0 {
        assert(a =~= b);
    }
}

/// The lexicographic order is transitive.
pub proof fn lemma_seq_lt_trans(a: Seq<char>, b: Seq<char>, c: Seq<char>)
    requires
        seq_lt(a, b),
        seq_lt(b, c),
    ensures
        seq_lt(a, c),
    decreases a.len(),
{
    if a.len() > 0 && b.len() > 0 && c.len() > 0 && a[0] == b[0] && b[0] == c[0] {
        lemma_seq_lt_trans(a.drop_first(), b.drop_first(), c.drop_first());
    }
}

/// Three-way result of a comparison.
#[derive(PartialEq, Eq, Structural, Clone, Copy, Debug)]
pub enum Order {
    Less,
    Equal,
    Greater,
}

/// Compares `a` and `b` lexicographically.
pub fn compare_chars(a: &[char], b: &[char]) -> (r: Order)
    ensures
        r == Order::Less <==> seq_lt(a@, b@),
        r == Order::Greater <==> seq_lt(b@, a@),
        r == Order::Equal <==> a@ == b@,
{
    let mut k: usize = 0;
    while k < a.len() && k < b.len() && a[k] == b[k]
        invariant
            k <= a@.len(),
            k <= b@.len(),
            a@.subrange(0, k as int) == b@.subrange(0, k as int),
        decreases a@.len() - k,
    {
        k += 1;
        assert(a@.subrange(0, k as int) =~= b@.subrange(0, k as int));
    }
    proof {
        lemma_seq_lt_skip_common(a@, b@, k as int);
        lemma_seq_lt_trichotomy(a@, b@);
    }
    if k < a.len() && k < b.len() {
        if a[k] < b[k] {
            Order::Less
        } else {
            Order::Greater
        }
    } else if a.len() == b.len() {
        proof {
            assert(a@ =~= b@);
        }
        Order::Equal
    } else if a.len() < b.len() {
        Order::Less
    } else {
        Order::Greater
    }
}

/// Comparing past a common prefix of length `k` is comparing what follows it.
pub proof fn lemma_seq_lt_skip_common(a: Seq<char>, b: Seq<char>, k: int)
    requires
        0 <= k <= a.len(),
        k <= b.len(),
        a.subrange(0, k) == b.subrange(0, k),
    ensures
        seq_lt(a, b) == seq_lt(a.subrange(k, a.len() as int), b.subrange(k, b.len() as int)),
        seq_lt(b, a) == seq_lt(b.subrange(k, b.len() as int), a.subrange(k, a.len() as int)),
    decreases k,
{
    if k > 0 {
        assert(a[0] == a.subrange(0, k)[0]);
        assert(b[0] == b.subrange(0, k)[0]);
        assert(a.drop_first().subrange(0, k - 1) =~= b.drop_first().subrange(0, k - 1)) by {
            assert forall|i: int| 0 <= i < k - 1 implies a.drop_first()[i] == b.drop_first()[i] by {
                assert(a.subrange(0, k)[i + 1] == a[i + 1]);
                assert(b.subrange(0, k)[i + 1] == b[i + 1]);
                assert(a.subrange(0, k)[i + 1] == b.subrange(0, k)[i + 1]);
            }
        }
        lemma_seq_lt_skip_common(a.drop_first(), b.drop_first(), k - 1);
        assert(a.drop_first().subrange(k - 1, a.len() - 1) =~= a.subrange(k, a.len() as int));
        assert(b.drop_first().subrange(k - 1, b.len() - 1) =~= b.subrange(k, b.len() as int));
    } else {
        assert(a.subrange(0, a.len() as int) =~= a);
        assert(b.subrange(0, b.len() as int) =~= b);
    }
}


/// Lexicographic order, not strict.
pub open spec fn seq_le(a: Seq<char>, b: Seq<char>) -> bool {
    seq_lt(a, b) || a == b
}

/// A prefix comes no later than the sequence it starts, and strictly before a longer one.
pub proof fn lemma_prefix_le(q: Seq<char>, x: Seq<char>)
    requires
        q.is_prefix_of(x),
    ensures
        seq_le(q, x),
        q.len() < x.len() ==> seq_lt(q, x),
{
    assert(q.subrange(0, q.len() as int) =~= x.subrange(0, q.len() as int));
    lemma_seq_lt_skip_common(q, x, q.len() as int);
    assert(q.subrange(q.len() as int, q.len() as int) =~= Seq::<char>::empty());
    if q.len() == x.len() {
        assert(q =~= x);
    }
}

/// The order, not strict, is transitive.
pub proof fn lemma_le_trans(a: Seq<char>, b: Seq<char>, c: Seq<char>)
    requires
        seq_le(a, b),
        seq_le(b, c),
    ensures
        seq_le(a, c),
        seq_lt(a, b) || seq_lt(b, c) ==> seq_lt(a, c),
{
    if seq_lt(a, b) && seq_lt(b, c) {
        lemma_seq_lt_trans(a, b, c);
    }
}

/// `l` is the length of the longest common prefix of `a` and `b`.
pub open spec fn is_lcp(a: Seq<char>, b: Seq<char>, l: int) -> bool {
    &&& 0 <= l <= a.len()
    &&& l <= b.len()
    &&& a.subrange(0, l) == b.subrange(0, l)
    &&& (l == a.len() || l == b.len() || a[l] != b[l])
}

/// Length of the longest common prefix of `a` and `b`.
pub fn common_prefix_len(a: &[char], b: &[char]) -> (l: usize)
    ensures
        is_lcp(a@, b@, l as int),
{
    let mut k: usize = 0;
    while k < a.len() && k < b.len() && a[k] == b[k]
        invariant
            k <= a@.len(),
            k <= b@.len(),
            a@.subrange(0, k as int) == b@.subrange(0, k as int),
        decreases a@.len() - k,
    {
        k += 1;
        assert(a@.subrange(0, k as int) =~= b@.subrange(0, k as int));
    }
    k
}

/// Past the common prefix of `prev < c`, every longer prefix of `c` is above `prev`.
pub proof fn lemma_lt_past_lcp(prev: Seq<char>, c: Seq<char>, l: int, m: int)
    requires
        seq_lt(prev, c),
        is_lcp(prev, c, l),
        l < m <= c.len(),
    ensures
        seq_lt(prev, c.subrange(0, m)),
{
    let t = c.subrange(0, m);
    assert(prev.subrange(0, l) =~= t.subrange(0, l));
    lemma_seq_lt_skip_common(prev, c, l);
    lemma_seq_lt_skip_common(prev, t, l);
    if l == prev.len() {
        assert(prev.subrange(l, prev.len() as int).len() == 0);
        assert(t.subrange(l, t.len() as int).len() > 0);
    } else if l == c.len() {
        assert(false);
    } else {
        let ps = prev.subrange(l, prev.len() as int);
        let cs = c.subrange(l, c.len() as int);
        let ts = t.subrange(l, t.len() as int);
        assert(ps[0] == prev[l]);
        assert(cs[0] == c[l]);
        assert(ts[0] == c[l]);
        assert(prev[l] < c[l]);
    }
}

/// Prefixes of one sequence are ordered by length.
pub proof fn lemma_prefix_of_prefix(c: Seq<char>, m: int, k: int)
    requires
        0 <= m < k <= c.len(),
    ensures
        seq_lt(c.subrange(0, m), c.subrange(0, k)),
{
    assert(c.subrange(0, m).is_prefix_of(c.subrange(0, k))) by {
        assert(c.subrange(0, m) =~= c.subrange(0, k).subrange(0, m));
    }
    lemma_prefix_le(c.subrange(0, m), c.subrange(0, k));
}

} // verus!
