//! Laying typed text out on a screen of fixed width: which character goes into which
//! cell of which row, with which style, and where the cursor stands.

use vstd::prelude::*;
use unicode_width::UnicodeWidthChar;

verus! {

/// The palette entry of a character that differs from the text to type.
pub const COLOR_DIFF: usize = 2;

/// How many palette entries alternate between the words of the text to type.
pub const COLOR_SEG_LEN: usize = 2;

/// The palette entry of a plain character.
pub const COLOR_NORMAL: usize = 3;

/// The palette entry of the text still being composed.
pub const COLOR_PENDING: usize = 4;

/// One cell of a row on screen: its column, the index in the text of the character
/// laid out there, that character (none for a blank cell), and its style: an entry of
/// the palette and a patch laid over it.
#[derive(Debug)]
pub struct RenderCell<P> {
    pub x: u16,
    pub sentence_i: usize,
    pub char: Option<char>,
    pub style: (usize, Option<P>),
}

impl<P> Default for RenderCell<P> {
    fn default() -> (c: Self)
        ensures
            c == blank_cell::<P>(0),
    {
        RenderCell { x: 0, sentence_i: 0, char: None, style: (COLOR_NORMAL, None) }
    }
}

/// The columns that `c` takes on screen, as Unicode's East Asian Width gives them
/// (ambiguous characters narrow).
pub uninterp spec fn display_width(c: char) -> usize;

/// The control characters, to which no width is given: below U+0020 and from U+007F
/// to U+009F.
pub open spec fn is_control_code(c: char) -> bool {
    (c as u32) < 0x20 || (0x7F <= (c as u32) && (c as u32) < 0xA0)
}

/// `UnicodeWidthChar::width`: `None` for a control character, else the character's
/// width, named `display_width`; one column for the printable ASCII characters.
#[verifier::external_body]
fn char_width(c: char) -> (r: Option<usize>)
    ensures
        r is None <==> is_control_code(c),
        r matches Some(w) ==> w == display_width(c),
        r matches Some(w) ==> (c as u32) < 0x7F ==> w == 1,
{
    c.width()
}

/// The columns a character advances the cursor: none for a control character, one
/// for the other ASCII characters.
pub open spec fn cols(c: char) -> int {
    if is_control_code(c) {
        0
    } else if (c as u32) < 0x7F {
        1
    } else {
        display_width(c) as int
    }
}

/// A blank cell in column `j`.
pub open spec fn blank_cell<P>(j: int) -> RenderCell<P> {
    RenderCell { x: j as u16, sentence_i: 0, char: None, style: (COLOR_NORMAL, None) }
}

/// A new row of `width` blank cells; the row starts at character `first` of the text.
pub open spec fn fresh_row<P>(width: int, first: int) -> Seq<RenderCell<P>> {
    Seq::new(
        width as nat,
        |j: int|
            if j == 1 {
                RenderCell { x: 1u16, sentence_i: first as usize, char: None, style: (COLOR_NORMAL, None) }
            } else {
                blank_cell(j)
            },
    )
}

/// Where the cursor is while characters are laid out: the next free column `x` of
/// row `y`, the cursor's cell once the character at the cursor is placed, and whether
/// the rows wanted are full.
pub struct Caret {
    pub x: int,
    pub y: int,
    pub cursor: Option<(u16, u16)>,
    pub done: bool,
}

/// Whether the character `c`, at column `x`, goes to a new row.
pub open spec fn wraps(x: int, c: char, width: int) -> bool {
    x + cols(c) >= width || c == '\n'
}

/// The caret after laying out the first `n` characters of `content` on rows of
/// `width` cells, the cursor at character `cursor_at`; once the cursor is placed, the
/// layout stops when it would start a row past `lines`.
pub open spec fn caret(content: Seq<char>, n: int, width: int, lines: int, cursor_at: int) -> Caret
    decreases n,
{
    if n <= 0 || n > content.len() {
        Caret { x: 1, y: 0, cursor: None, done: false }
    } else {
        let st = caret(content, n - 1, width, lines, cursor_at);
        let k = n - 1;
        let c = content[k];
        if st.done {
            st
        } else if wraps(st.x, c, width) && st.cursor is Some && st.y + 1 > lines {
            Caret { done: true, ..st }
        } else {
            let wrap = wraps(st.x, c, width);
            let y1 = if wrap {
                st.y + 1
            } else {
                st.y
            };
            let x1 = if wrap {
                1
            } else {
                st.x
            };
            Caret {
                x: x1 + cols(c),
                y: y1,
                cursor: if k == cursor_at && st.cursor is None {
                    Some((x1 as u16, y1 as u16))
                } else {
                    st.cursor
                },
                done: false,
            }
        }
    }
}

/// `rows` with the cell at `(y, x)` marked as holding character `si`.
pub open spec fn mark<P>(rows: Seq<Seq<RenderCell<P>>>, y: int, x: int, si: int) -> Seq<
    Seq<RenderCell<P>>,
> {
    let cell = rows[y][x];
    rows.update(
        y,
        rows[y].update(
            x,
            RenderCell { x: cell.x, sentence_i: si as usize, char: cell.char, style: cell.style },
        ),
    )
}

/// `rows` with `c`, character `si` of the text, put into the cell at `(y, x)`, in the
/// style `style` when there is one.
pub open spec fn put<P>(
    rows: Seq<Seq<RenderCell<P>>>,
    y: int,
    x: int,
    c: char,
    si: int,
    style: Option<(usize, Option<P>)>,
) -> Seq<Seq<RenderCell<P>>> {
    let cell = rows[y][x];
    rows.update(
        y,
        rows[y].update(
            x,
            RenderCell {
                x: cell.x,
                sentence_i: si as usize,
                char: Some(c),
                style: match style {
                    Some(s) => s,
                    None => cell.style,
                },
            },
        ),
    )
}

/// The rows after laying out the first `n` characters of `content`, character `k`
/// being character `k + offset` of the text, styled by `styles` at that index.
pub open spec fn rows_upto<P>(
    content: Seq<char>,
    n: int,
    styles: Seq<(usize, Option<P>)>,
    width: int,
    lines: int,
    cursor_at: int,
    offset: int,
) -> Seq<Seq<RenderCell<P>>>
    decreases n,
{
    if n <= 0 || n > content.len() {
        Seq::empty()
    } else {
        let prev = rows_upto(content, n - 1, styles, width, lines, cursor_at, offset);
        let st = caret(content, n - 1, width, lines, cursor_at);
        let k = n - 1;
        let c = content[k];
        let si = k + offset;
        if st.done {
            prev
        } else {
            let rows0 = if k == 0 {
                seq![fresh_row(width, offset)]
            } else {
                prev
            };
            let rows1 = mark(rows0, st.y, st.x, si);
            let wrap = wraps(st.x, c, width);
            if wrap && st.cursor is Some && st.y + 1 > lines {
                rows1
            } else {
                let y1 = if wrap {
                    st.y + 1
                } else {
                    st.y
                };
                let x1 = if wrap {
                    1
                } else {
                    st.x
                };
                let rows2 = if wrap {
                    rows1.push(fresh_row(width, si))
                } else {
                    rows1
                };
                let rows3 = mark(rows2, y1, x1, si);
                if c != '\n' {
                    put(
                        rows3,
                        y1,
                        x1,
                        c,
                        si,
                        if si < styles.len() {
                            Some(styles[si])
                        } else {
                            None
                        },
                    )
                } else {
                    rows3
                }
            }
        }
    }
}

/// Whether character `k` of `content`, unless the rows wanted are full before it, is
/// written at a column inside a row of at least two cells, with the column count in
/// range.
pub open spec fn fits_at(content: Seq<char>, k: int, width: int, lines: int, cursor_at: int) -> bool {
    let st = caret(content, k, width, lines, cursor_at);
    !st.done ==> {
        &&& 2 <= width
        &&& st.x < width
        &&& st.x + cols(content[k]) <= usize::MAX
    }
}

/// The layouts that stay on screen: every character is written inside its row.
pub open spec fn layout_fits(content: Seq<char>, width: int, lines: int, cursor_at: int) -> bool {
    forall|k: int| 0 <= k < content.len() ==> #[trigger] fits_at(content, k, width, lines, cursor_at)
}

/// The cells of the rows as plain values.
pub open spec fn rows_view<P>(rows: Seq<Vec<RenderCell<P>>>) -> Seq<Seq<RenderCell<P>>> {
    Seq::new(rows.len(), |k: int| rows[k]@)
}

/// Where the cursor ends: at the character `cursor_at` if it was laid out, else after
/// the last character.
pub open spec fn final_cursor(st: Caret) -> (u16, u16) {
    match st.cursor {
        Some(p) => p,
        None => (st.x as u16, st.y as u16),
    }
}

/// A new row of `width` blank cells, starting at character `first` of the text.
fn init_line<P>(width: usize, first: usize) -> (v: Vec<RenderCell<P>>)
    requires
        width >= 2,
    ensures
        v@ == fresh_row::<P>(width as int, first as int),
{
    let mut v: Vec<RenderCell<P>> = Vec::new();
    let mut j: usize = 0;
    while j < width
        invariant
            j <= width,
            v@.len() == j,
            forall|k: int| 0 <= k < j ==> #[trigger] v@[k] == fresh_row::<P>(width as int, first as int)[k],
        decreases width - j,
    {
        let cell = if j == 1 {
            RenderCell { x: 1, sentence_i: first, char: None, style: (COLOR_NORMAL, None) }
        } else {
            RenderCell { x: j as u16, sentence_i: 0, char: None, style: (COLOR_NORMAL, None) }
        };
        v.push(cell);
        j += 1;
    }
    assert(v@ =~= fresh_row::<P>(width as int, first as int));
    v
}

/// Once the rows wanted are full, the caret stays where it is.
proof fn lemma_caret_done_stays(content: Seq<char>, k: int, m: int, width: int, lines: int, cursor_at: int)
    requires
        0 <= k <= m <= content.len(),
        caret(content, k, width, lines, cursor_at).done,
    ensures
        caret(content, m, width, lines, cursor_at) == caret(content, k, width, lines, cursor_at),
    decreases m - k,
{
    if m > k {
        lemma_caret_done_stays(content, k, m - 1, width, lines, cursor_at);
    }
}

/// Once the rows wanted are full, laying out more characters changes nothing.
proof fn lemma_done_stays<P>(
    content: Seq<char>,
    k: int,
    m: int,
    styles: Seq<(usize, Option<P>)>,
    width: int,
    lines: int,
    cursor_at: int,
    offset: int,
)
    requires
        0 <= k <= m <= content.len(),
        caret(content, k, width, lines, cursor_at).done,
    ensures
        caret(content, m, width, lines, cursor_at) == caret(content, k, width, lines, cursor_at),
        rows_upto(content, m, styles, width, lines, cursor_at, offset) == rows_upto(
            content,
            k,
            styles,
            width,
            lines,
            cursor_at,
            offset,
        ),
    decreases m - k,
{
    lemma_caret_done_stays(content, k, m, width, lines, cursor_at);
    if m > k {
        lemma_done_stays(content, k, m - 1, styles, width, lines, cursor_at, offset);
    }
}

/// Lays `content` out on rows of `width` cells, starting at column 1 of the first row;
/// character `k` is character `k + idx_offset` of the text and takes the style
/// `styles[k + idx_offset]` where there is one. A character goes to a new row when it
/// would reach the last column, and after a line break. Once the character at
/// `cursor_at` is placed, the layout stops before starting a row past `lines`.
/// Returns the rows and the cursor's cell.
pub fn calc_pre_render<P: Copy>(
    content: &[char],
    styles: &[(usize, Option<P>)],
    width: usize,
    lines: usize,
    cursor_at: usize,
    idx_offset: usize,
) -> (r: (Vec<Vec<RenderCell<P>>>, (u16, u16)))
    requires
        content@.len() + idx_offset <= usize::MAX,
        layout_fits(content@, width as int, lines as int, cursor_at as int),
    ensures
        rows_view(r.0@) == rows_upto(
            content@,
            content@.len() as int,
            styles@,
            width as int,
            lines as int,
            cursor_at as int,
            idx_offset as int,
        ),
        r.1 == final_cursor(
            caret(content@, content@.len() as int, width as int, lines as int, cursor_at as int),
        ),
{
    let ghost n = content@.len() as int;
    let ghost wd = width as int;
    let ghost ln = lines as int;
    let ghost ca = cursor_at as int;
    let ghost off = idx_offset as int;
    let mut rows: Vec<Vec<RenderCell<P>>> = Vec::new();
    if content.len() == 0 {
        proof {
            assert(rows_view(rows@) =~= Seq::<Seq<RenderCell<P>>>::empty());
        }
        return (rows, (1, 0));
    }
    proof {
        assert(fits_at(content@, 0, wd, ln, ca));
    }
    let mut cur: Vec<RenderCell<P>> = init_line(width, idx_offset);
    let mut x: usize = 1;
    let mut y: usize = 0;
    let mut cursor: Option<(u16, u16)> = None;
    let mut i: usize = 0;
    proof {
        assert(rows_view(rows@).push(cur@) =~= seq![fresh_row::<P>(wd, off)]);
    }
    while i < content.len()
        invariant
            n == content@.len(),
            wd == width,
            ln == lines,
            ca == cursor_at,
            off == idx_offset,
            n + off <= usize::MAX,
            0 < n,
            0 <= i <= n,
            y <= i,
            1 <= x,
            layout_fits(content@, wd, ln, ca),
            caret(content@, i as int, wd, ln, ca) == (Caret {
                x: x as int,
                y: y as int,
                cursor: cursor,
                done: false,
            }),
            rows@.len() == y,
            cur@.len() == width,
            rows_view(rows@).push(cur@) == if i == 0 {
                seq![fresh_row::<P>(wd, off)]
            } else {
                rows_upto(content@, i as int, styles@, wd, ln, ca, off)
            },
        decreases n - i,
    {
        proof {
            assert(fits_at(content@, i as int, wd, ln, ca));
        }
        let ghost r0 = rows_view(rows@).push(cur@);
        let c = content[i];
        let si = i + idx_offset;
        let ox = cur[x].x;
        let och = cur[x].char;
        let ost = cur[x].style;
        cur.set(x, RenderCell { x: ox, sentence_i: si, char: och, style: ost });
        proof {
            assert(rows_view(rows@).push(cur@) =~= mark(r0, y as int, x as int, si as int));
        }
        let w = match char_width(c) {
            Some(w) => w,
            None => 0,
        };
        let wrap = x + w >= width || c == '\n';
        if wrap && cursor.is_some() && y + 1 > lines {
            let ghost r1 = rows_view(rows@).push(cur@);
            rows.push(cur);
            proof {
                assert(rows_view(rows@) =~= r1);
                assert(caret(content@, i + 1, wd, ln, ca).done);
                lemma_done_stays(content@, i + 1, n, styles@, wd, ln, ca, off);
            }
            return (rows, cursor.unwrap());
        }
        if wrap {
            let ghost r1 = rows_view(rows@).push(cur@);
            rows.push(cur);
            cur = init_line(width, si);
            x = 1;
            y = y + 1;
            proof {
                assert(rows_view(rows@) =~= r1);
            }
        }
        let ghost r3 = rows_view(rows@).push(cur@);
        let ox = cur[x].x;
        let och = cur[x].char;
        let ost = cur[x].style;
        cur.set(x, RenderCell { x: ox, sentence_i: si, char: och, style: ost });
        proof {
            assert(rows_view(rows@).push(cur@) =~= mark(r3, y as int, x as int, si as int));
        }
        if c != '\n' {
            let ghost r4 = rows_view(rows@).push(cur@);
            let ox = cur[x].x;
            let ost = cur[x].style;
            let style = if si < styles.len() {
                styles[si]
            } else {
                ost
            };
            cur.set(x, RenderCell { x: ox, sentence_i: si, char: Some(c), style: style });
            proof {
                assert(rows_view(rows@).push(cur@) =~= put(
                    r4,
                    y as int,
                    x as int,
                    c,
                    si as int,
                    if si < styles@.len() {
                        Some(styles@[si as int])
                    } else {
                        None
                    },
                ));
            }
        }
        if i == cursor_at && cursor.is_none() {
            cursor = Some((x as u16, y as u16));
        }
        x = x + w;
        i += 1;
    }
    let ghost rf = rows_view(rows@).push(cur@);
    rows.push(cur);
    proof {
        assert(rows_view(rows@) =~= rf);
    }
    let end = match cursor {
        Some(p) => p,
        None => (x as u16, y as u16),
    };
    (rows, end)
}

/// Whether `content` laid out on rows of `width` cells stays on screen.
fn layout_fits_exec(content: &[char], width: usize, lines: usize, cursor_at: usize) -> (b: bool)
    ensures
        b == layout_fits(content@, width as int, lines as int, cursor_at as int),
{
    let ghost n = content@.len() as int;
    let ghost wd = width as int;
    let ghost ln = lines as int;
    let ghost ca = cursor_at as int;
    let mut x: usize = 1;
    let mut y: usize = 0;
    let mut cursor: Option<(u16, u16)> = None;
    let mut i: usize = 0;
    while i < content.len()
        invariant
            n == content@.len(),
            wd == width,
            ln == lines,
            ca == cursor_at,
            0 <= i <= n,
            y <= i,
            1 <= x,
            caret(content@, i as int, wd, ln, ca) == (Caret {
                x: x as int,
                y: y as int,
                cursor: cursor,
                done: false,
            }),
            forall|k: int| 0 <= k < i ==> #[trigger] fits_at(content@, k, wd, ln, ca),
        decreases n - i,
    {
        let c = content[i];
        let w = match char_width(c) {
            Some(w) => w,
            None => 0,
        };
        if width < 2 || x >= width || w > usize::MAX - x {
            proof {
                assert(!fits_at(content@, i as int, wd, ln, ca));
            }
            return false;
        }
        let wrap = x + w >= width || c == '\n';
        if wrap && cursor.is_some() && y + 1 > lines {
            proof {
                assert(caret(content@, i + 1, wd, ln, ca).done);
                assert forall|k: int| 0 <= k < n implies #[trigger] fits_at(content@, k, wd, ln, ca) by {
                    if k > i {
                        lemma_caret_done_stays(content@, i + 1, k, wd, ln, ca);
                    }
                }
            }
            return true;
        }
        if wrap {
            x = 1;
            y = y + 1;
        }
        if i == cursor_at && cursor.is_none() {
            cursor = Some((x as u16, y as u16));
        }
        x = x + w;
        i += 1;
    }
    true
}

/// `calc_pre_render` where the layout stays on screen; `None` where a character would
/// be written past the end of its row.
pub fn calc_pre_render_checked<P: Copy>(
    content: &[char],
    styles: &[(usize, Option<P>)],
    width: usize,
    lines: usize,
    cursor_at: usize,
    idx_offset: usize,
) -> (r: Option<(Vec<Vec<RenderCell<P>>>, (u16, u16))>)
    requires
        content@.len() + idx_offset <= usize::MAX,
    ensures
        r is Some <==> layout_fits(content@, width as int, lines as int, cursor_at as int),
        r matches Some(v) ==> rows_view(v.0@) == rows_upto(
            content@,
            content@.len() as int,
            styles@,
            width as int,
            lines as int,
            cursor_at as int,
            idx_offset as int,
        ),
        r matches Some(v) ==> v.1 == final_cursor(
            caret(content@, content@.len() as int, width as int, lines as int, cursor_at as int),
        ),
{
    if layout_fits_exec(content, width, lines, cursor_at) {
        Some(calc_pre_render(content, styles, width, lines, cursor_at, idx_offset))
    } else {
        None
    }
}

} // verus!
