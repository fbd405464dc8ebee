//! The typing trainer: the text typed so far against an optional text to type, the
//! editing keys, and how each analysis of the keys pending is taken into the text.

use vstd::prelude::*;

use crate::input_analyzer::{analysis_view, AnalysisResult, PAGE_DOWN, PAGE_UP};
use crate::js_bridge::JSAction;
use crate::lookup_code::{seg_views, Looker, SegView};
use crate::lsp::{decimal, digits_value, is_digit, lemma_decimal_digits, push_decimal};
use crate::sentence::{insert_at, Movement, Sentence};
use crate::text::{string_from_chars, string_push, unicode_alphabetic};
use crate::typing::advance_to_word_boundary;

verus! {

/// The parts of a sentence as plain values (see `Sentence`).
pub struct SentenceView {
    pub chars: Seq<char>,
    pub appends: Seq<char>,
    pub at: int,
    pub pending: Seq<char>,
    pub origin: Seq<char>,
}

impl SentenceView {
    /// The whole text.
    pub open spec fn content(self) -> Seq<char> {
        insert_at(self.chars, self.at, self.appends + self.pending)
    }

    /// The length of the whole text.
    pub open spec fn total(self) -> int {
        (self.chars.len() + self.appends.len() + self.pending.len()) as int
    }
}

pub open spec fn sentence_view(s: Sentence) -> SentenceView {
    SentenceView {
        chars: s.chars_view(),
        appends: s.appends_view(),
        at: s.at_view() as int,
        pending: s.pending_view(),
        origin: s.origin_view(),
    }
}

/// The trainer as plain values: the text to type, the text typed, the last
/// character copied, the segmenter of the text to type, and the code hint of the next
/// word to type.
pub struct ContextView {
    pub preset: Option<Seq<char>>,
    pub text: SentenceView,
    pub copied: Option<char>,
    pub enc: Looker,
    pub hint: Option<Seq<char>>,
}

impl ContextView {
    /// The insertion point lies in the text, and the text's length fits in memory.
    pub open spec fn wf(self) -> bool {
        0 <= self.text.at <= self.text.chars.len() && self.text.total() <= usize::MAX
    }

    /// The length of the text to type (none: 0).
    pub open spec fn preset_len(self) -> int {
        match self.preset {
            Some(p) => p.len() as int,
            None => 0,
        }
    }
}

/// `text` typed: it goes after what was typed at the insertion point, and the pending
/// text and its keys are dropped.
pub open spec fn push_spec(t: SentenceView, text: Seq<char>) -> SentenceView {
    SentenceView { appends: t.appends + text, pending: Seq::empty(), origin: Seq::empty(), ..t }
}

/// The pending text, if any, is typed.
pub open spec fn confirm_spec(t: SentenceView) -> SentenceView {
    if t.pending.len() > 0 {
        push_spec(t, t.pending)
    } else {
        t
    }
}

/// The pending text and the keys that make it are set.
pub open spec fn pending_spec(t: SentenceView, pending: Seq<char>, origin: Seq<char>) -> SentenceView {
    SentenceView { pending: pending, origin: origin, ..t }
}

/// A key joins the keys pending.
pub open spec fn input_spec(t: SentenceView, c: char) -> SentenceView {
    SentenceView { origin: t.origin.push(c), ..t }
}

/// Deleting backwards in a nonempty text: a pending key (the pending text goes with
/// the last one), else the last character typed, else the character before the
/// insertion point.
pub open spec fn pop_spec(t: SentenceView) -> SentenceView {
    if t.pending.len() > 0 {
        let origin = if t.origin.len() > 0 {
            t.origin.drop_last()
        } else {
            Seq::empty()
        };
        SentenceView {
            origin: origin,
            pending: if origin.len() == 0 {
                Seq::empty()
            } else {
                t.pending
            },
            ..t
        }
    } else if t.appends.len() > 0 {
        SentenceView { appends: t.appends.drop_last(), ..t }
    } else if t.at > 0 {
        SentenceView { chars: t.chars.remove(t.at - 1), at: t.at - 1, ..t }
    } else {
        t
    }
}

/// Backspace: deletes backwards when there is text.
pub open spec fn backspace_spec(t: SentenceView) -> SentenceView {
    if t.total() > 0 {
        pop_spec(t)
    } else {
        t
    }
}

/// Moving the insertion point: the pending text is typed, what was typed is put into
/// the text, and the point moves one character left or right within the text.
pub open spec fn move_spec(t: SentenceView, left: bool) -> SentenceView {
    let c = confirm_spec(t);
    let merged = if c.appends.len() > 0 {
        SentenceView {
            chars: c.content(),
            appends: Seq::empty(),
            at: c.at + c.appends.len(),
            ..c
        }
    } else {
        c
    };
    SentenceView {
        at: if left {
            if merged.at > 0 {
                merged.at - 1
            } else {
                0
            }
        } else if merged.at < merged.total() {
            merged.at + 1
        } else {
            merged.at
        },
        ..merged
    }
}

/// The text emptied (the keys pending stay).
pub open spec fn clear_spec(t: SentenceView) -> SentenceView {
    SentenceView {
        chars: Seq::empty(),
        appends: Seq::empty(),
        at: 0,
        pending: Seq::empty(),
        ..t
    }
}

/// Where the first word of `s` ends: the first position past the first whose
/// character is not a letter, or the end.
pub open spec fn word_end_from(s: Seq<char>, i: int) -> int
    decreases s.len() - i,
{
    if i >= s.len() {
        s.len() as int
    } else if i > 0 && !unicode_alphabetic(s[i]) {
        i
    } else {
        word_end_from(s, i + 1)
    }
}

proof fn lemma_word_end(s: Seq<char>, r: int, i: int)
    requires
        0 <= i <= r <= s.len(),
        r == s.len() || (r > 0 && !unicode_alphabetic(s[r])),
        forall|k: int| 0 < k < r ==> unicode_alphabetic(#[trigger] s[k]),
    ensures
        word_end_from(s, i) == r,
    decreases r - i,
{
    if i < r {
        lemma_word_end(s, r, i + 1);
    }
}

/// The code hint of a word: its code, then its position among the candidates of the
/// code when it is not the first, or `_` when the word does not commit itself.
pub open spec fn seg_hint(w: SegView) -> Seq<char> {
    if w.pos > 0 {
        w.code + decimal(w.pos as nat)
    } else if !w.auto_select {
        w.code.push('_')
    } else {
        w.code
    }
}

/// The hint for the text `s`: that of its first word, none when it has no word or when
/// it is too long to segment.
pub open spec fn hint_of(enc: Looker, s: Seq<char>) -> Option<Seq<char>> {
    if !enc.can_segment(s) || enc.segments_of(s).len() == 0 {
        None
    } else {
        Some(seg_hint(enc.segments_of(s)[0]))
    }
}

/// What a hint `h` tells of the word `w`: it starts with the word's code; after the
/// code come the digits of the word's place among its code's candidates when it is
/// not the first (read back as that place, with no leading zero), else `_` when the
/// word needs a space to commit, else nothing.
pub open spec fn hint_tells(h: Seq<char>, w: SegView) -> bool {
    let rest = h.subrange(w.code.len() as int, h.len() as int);
    &&& w.code.is_prefix_of(h)
    &&& w.pos > 0 ==> rest.len() > 0 && (forall|k: int| 0 <= k < rest.len() ==> is_digit(#[trigger] rest[k]))
        && digits_value(rest) == w.pos && rest[0] != '0'
    &&& w.pos == 0 && !w.auto_select ==> rest == seq!['_']
    &&& w.pos == 0 && w.auto_select ==> rest.len() == 0
}

/// The hint of a word tells its code and how to pick it (see `hint_tells`).
pub proof fn lemma_seg_hint_tells(w: SegView)
    ensures
        hint_tells(seg_hint(w), w),
{
    let h = seg_hint(w);
    let n = w.code.len() as int;
    if w.pos > 0 {
        lemma_decimal_digits(w.pos as nat);
        assert(h.subrange(0, n) =~= w.code);
        assert(h.subrange(n, h.len() as int) =~= decimal(w.pos as nat));
    } else if !w.auto_select {
        assert(h.subrange(0, n) =~= w.code);
        assert(h.subrange(n, h.len() as int) =~= seq!['_']);
    } else {
        assert(h.subrange(0, n) =~= w.code);
        assert(h.subrange(n, h.len() as int) =~= Seq::<char>::empty());
    }
}

/// A hint for a text tells the code of the text's first word and how to pick it.
pub proof fn lemma_hint_tells_first_word(enc: Looker, s: Seq<char>)
    ensures
        hint_of(enc, s) matches Some(h) ==> enc.segments_of(s).len() > 0 && hint_tells(
            h,
            enc.segments_of(s)[0],
        ),
{
    if enc.can_segment(s) && enc.segments_of(s).len() > 0 {
        lemma_seg_hint_tells(enc.segments_of(s)[0]);
    }
}

/// The hint after typing reached `at`: that of the word of the text to type that
/// starts there, when there is one; else the hint stays.
pub open spec fn rehint(v: ContextView, at: int) -> ContextView {
    match v.preset {
        Some(p) => if 0 <= at < p.len() {
            let rest = p.subrange(at, p.len() as int);
            ContextView { hint: hint_of(v.enc, rest.subrange(0, word_end_from(rest, 0))), ..v }
        } else {
            v
        },
        None => v,
    }
}

/// The hint for the whole text to type, when there is one.
pub open spec fn full_hint(v: ContextView) -> ContextView {
    match v.preset {
        Some(p) => ContextView { hint: hint_of(v.enc, p), ..v },
        None => v,
    }
}

/// `text` typed, and the hint of the next word.
pub open spec fn ctx_push(v: ContextView, text: Seq<char>) -> ContextView {
    let t = push_spec(v.text, text);
    rehint(ContextView { text: t, ..v }, t.total())
}

/// Backspace, and the hint of the next word.
pub open spec fn ctx_backspace(v: ContextView) -> ContextView {
    let t = backspace_spec(v.text);
    rehint(ContextView { text: t, ..v }, t.total())
}

/// The text emptied, and the hint of the whole text to type.
pub open spec fn ctx_clear(v: ContextView) -> ContextView {
    full_hint(ContextView { text: clear_spec(v.text), ..v })
}

/// A key of the trainer.
#[derive(Debug)]
pub enum TuiKey {
    /// Start again (Ctrl-X).
    Clear,
    /// Save the record (Ctrl-S).
    Save,
    /// Copy the last character of the text (Ctrl-C).
    CopyLast,
    /// Type the character copied (Ctrl-V).
    PasteLast,
    /// Type the text of the clipboard (Alt-V).
    PasteText(Vec<char>),
    PageUp,
    PageDown,
    /// Leave (Esc).
    Quit,
    Enter,
    Backspace,
    Left,
    Right,
    /// A character key.
    Char(char),
    /// The screen changed size.
    Resize,
    /// Any other key.
    Other,
}

/// What the loop does after a key.
#[derive(Debug, PartialEq, Eq, Structural, Clone, Copy)]
pub enum TuiAction {
    /// Analyse the keys pending and draw again.
    Redraw,
    /// Save the record, then analyse and draw again.
    Save,
    /// Take the new size, then analyse and draw again.
    Resize,
    /// Leave the loop.
    Quit,
    /// Wait for the next key.
    Ignore,
}

/// What a key does to the trainer, and what the loop does next.
pub open spec fn tui_key_spec(v: ContextView, key: TuiKey) -> (TuiAction, ContextView) {
    let t = v.text;
    match key {
        TuiKey::Clear => (TuiAction::Redraw, ctx_clear(v)),
        TuiKey::Save => (TuiAction::Save, v),
        TuiKey::CopyLast => (
            TuiAction::Redraw,
            ContextView {
                copied: if t.content().len() > 0 {
                    Some(t.content().last())
                } else {
                    None
                },
                ..v
            },
        ),
        TuiKey::PasteLast => match v.copied {
            Some(c) => (
                TuiAction::Redraw,
                ctx_push(ContextView { text: confirm_spec(t), ..v }, seq![c]),
            ),
            None => (TuiAction::Redraw, v),
        },
        TuiKey::PasteText(text) => (
            TuiAction::Redraw,
            ctx_push(ContextView { text: confirm_spec(t), ..v }, text@),
        ),
        TuiKey::PageUp => (TuiAction::Redraw, ContextView { text: input_spec(t, PAGE_UP), ..v }),
        TuiKey::PageDown => (TuiAction::Redraw, ContextView { text: input_spec(t, PAGE_DOWN), ..v }),
        TuiKey::Quit => (TuiAction::Quit, v),
        TuiKey::Enter => (
            TuiAction::Redraw,
            ctx_push(ContextView { text: confirm_spec(t), ..v }, seq!['\n']),
        ),
        TuiKey::Backspace => (TuiAction::Redraw, ctx_backspace(v)),
        TuiKey::Left => (TuiAction::Redraw, ContextView { text: move_spec(t, true), ..v }),
        TuiKey::Right => (TuiAction::Redraw, ContextView { text: move_spec(t, false), ..v }),
        TuiKey::Char(c) => (TuiAction::Redraw, ContextView { text: input_spec(t, c), ..v }),
        TuiKey::Resize => (TuiAction::Resize, v),
        TuiKey::Other => (TuiAction::Ignore, v),
    }
}

/// How many characters a key can add to the text.
pub open spec fn key_growth(v: ContextView, key: TuiKey) -> int {
    match key {
        TuiKey::PasteText(text) => text@.len() as int,
        _ => 1,
    }
}

/// Taking an analysis into the text: each segment but the last is typed; the last is
/// set pending when the analysis is pending, else typed too.
pub open spec fn apply_spec(v: ContextView, segs: Seq<(Seq<char>, Seq<char>)>, pending: bool) -> ContextView
    decreases segs.len(),
{
    if segs.len() == 0 {
        v
    } else if segs.len() == 1 {
        if pending {
            ContextView { text: pending_spec(v.text, segs[0].0, segs[0].1), ..v }
        } else {
            ctx_push(v, segs[0].0)
        }
    } else {
        apply_spec(ctx_push(v, segs[0].0), segs.drop_first(), pending)
    }
}

/// The texts and keys of the segments of an analysis.
pub open spec fn seg_texts_of(r: AnalysisResult) -> Seq<(Seq<char>, Seq<char>)> {
    Seq::new(
        analysis_view(r).segments.len(),
        |i: int| (analysis_view(r).segments[i].0, analysis_view(r).segments[i].1),
    )
}

/// The sum of the lengths of the segments' texts.
pub open spec fn texts_len(segs: Seq<(Seq<char>, Seq<char>)>) -> int
    decreases segs.len(),
{
    if segs.len() == 0 {
        0
    } else {
        segs[0].0.len() + texts_len(segs.drop_first())
    }
}

proof fn lemma_texts_len_nonneg(segs: Seq<(Seq<char>, Seq<char>)>)
    ensures
        texts_len(segs) >= 0,
    decreases segs.len(),
{
    if segs.len() > 0 {
        lemma_texts_len_nonneg(segs.drop_first());
    }
}

/// Whether a session's typing is reported to the typing site: something was typed, at
/// least as much as the text to type, the site's settings are there, and the action
/// is not `Unset`.
pub open spec fn report_spec(sentence_len: int, preset_len: int, has_settings: bool, action: Option<JSAction>) -> bool {
    sentence_len > 0 && has_settings && action != Some(JSAction::Unset) && sentence_len >= preset_len
}

/// Whether a session's typing is reported to the typing site (see `report_spec`).
pub fn should_report(sentence_len: usize, preset_len: usize, has_settings: bool, action: Option<JSAction>) -> (b: bool)
    ensures
        b == report_spec(sentence_len as int, preset_len as int, has_settings, action),
{
    let unset = match action {
        Some(JSAction::Unset) => true,
        _ => false,
    };
    sentence_len > 0 && has_settings && !unset && sentence_len >= preset_len
}

/// The typing trainer.
pub struct Context {
    preset: Option<Vec<char>>,
    sentence: Sentence,
    copied: Option<char>,
    enc: Looker,
    hint: Option<String>,
}

impl View for Context {
    type V = ContextView;

    closed spec fn view(&self) -> ContextView {
        ContextView {
            preset: match self.preset {
                Some(p) => Some(p@),
                None => None,
            },
            text: sentence_view(self.sentence),
            copied: self.copied,
            enc: self.enc,
            hint: match self.hint {
                Some(h) => Some(h@),
                None => None,
            },
        }
    }
}

impl Context {
    /// A trainer with no text to type and nothing typed, segmenting with `enc`.
    pub fn new(enc: Looker) -> (c: Self)
        ensures
            c@.wf(),
            c@.preset is None,
            c@.copied is None,
            c@.hint is None,
            c@.enc == enc,
            c@.text.chars.len() == 0,
            c@.text.appends.len() == 0,
            c@.text.pending.len() == 0,
            c@.text.origin.len() == 0,
            c@.text.at == 0,
    {
        Context { preset: None, sentence: Sentence::new(), copied: None, enc, hint: None }
    }

    /// The code hint of the next word to type.
    pub fn get_preset_segment_hint(&self) -> (r: Option<&str>)
        ensures
            match r {
                Some(h) => self@.hint == Some(h@),
                None => self@.hint is None,
            },
    {
        match &self.hint {
            Some(h) => Some(h.as_str()),
            None => None,
        }
    }

    /// The hint for the text `s` (see `hint_of`).
    fn hint_for(&self, s: &[char]) -> (r: Option<String>)
        ensures
            match r {
                Some(h) => hint_of(self@.enc, s@) == Some(h@),
                None => hint_of(self@.enc, s@) is None,
            },
    {
        if !self.enc.can_segment_exec(s) {
            return None;
        }
        let segs = self.enc.analyze(s);
        if segs.len() == 0 {
            return None;
        }
        let w = &segs[0];
        proof {
            assert(seg_views(segs@)[0] == crate::lookup_code::seg_view(segs@[0]));
        }
        let mut h = string_from_chars(w.code.as_slice());
        if w.pos > 0 {
            push_decimal(&mut h, w.pos as usize);
        } else if !w.auto_select {
            string_push(&mut h, '_');
        }
        Some(h)
    }

    /// Takes the hint of the word of the text to type that starts at `at` (see
    /// `rehint`).
    fn hint_at(&mut self, at: usize)
        ensures
            final(self)@ == rehint(old(self)@, at as int),
    {
        let h = match &self.preset {
            Some(p) => {
                if at < p.len() {
                    let rest = vstd::slice::slice_subrange(p.as_slice(), at, p.len());
                    let e = advance_to_word_boundary(rest, 0);
                    proof {
                        lemma_word_end(rest@, e as int, 0);
                    }
                    let word = vstd::slice::slice_subrange(rest, 0, e);
                    Some(self.hint_for(word))
                } else {
                    None
                }
            },
            None => None,
        };
        match h {
            Some(x) => {
                self.hint = x;
            },
            None => {},
        }
    }

    /// Takes the hint of the whole text to type (see `full_hint`).
    fn hint_all(&mut self)
        ensures
            final(self)@ == full_hint(old(self)@),
    {
        let h = match &self.preset {
            Some(p) => Some(self.hint_for(p.as_slice())),
            None => None,
        };
        match h {
            Some(x) => {
                self.hint = x;
            },
            None => {},
        }
    }

    /// Sets the text to type, and takes the hint of its first word.
    pub fn set_preset(&mut self, preset: Option<Vec<char>>)
        ensures
            final(self)@ == full_hint(
                ContextView {
                    preset: match preset {
                        Some(p) => Some(p@),
                        None => None,
                    },
                    ..old(self)@
                },
            ),
    {
        self.preset = preset;
        self.hint_all();
    }

    /// The length of the text to type (none: 0).
    pub fn preset_len(&self) -> (n: usize)
        ensures
            n == self@.preset_len(),
    {
        match &self.preset {
            Some(p) => p.len(),
            None => 0,
        }
    }

    /// The length of the text typed.
    pub fn sentence_len(&self) -> (n: usize)
        requires
            self@.wf(),
        ensures
            n == self@.text.total(),
    {
        self.sentence.len()
    }

    /// The text typed.
    pub fn get_sentence(&self) -> (r: Vec<char>)
        requires
            self@.wf(),
        ensures
            r@ == self@.text.content(),
    {
        self.sentence.get_chars()
    }

    /// The keys pending.
    pub fn get_input(&self) -> (r: &[char])
        ensures
            r@ == self@.text.origin,
    {
        self.sentence.get_pending_origin()
    }

    /// Empties the text typed (the keys pending stay).
    pub fn clear(&mut self)
        requires
            old(self)@.wf(),
        ensures
            final(self)@ == ctx_clear(old(self)@),
            final(self)@.wf(),
    {
        self.sentence.clear();
        proof {
            let f = sentence_view(self.sentence);
            assert(f.chars =~= Seq::<char>::empty());
            assert(f.appends =~= Seq::<char>::empty());
            assert(f.pending =~= Seq::<char>::empty());
        }
        self.hint_all();
    }

    /// Types `text`, dropping the pending text and its keys.
    pub fn push(&mut self, text: Vec<char>)
        requires
            old(self)@.wf(),
            old(self)@.text.total() + text@.len() <= usize::MAX,
        ensures
            final(self)@ == ctx_push(old(self)@, text@),
            final(self)@.wf(),
    {
        self.sentence.extend(text);
        self.sentence.clear_pending();
        proof {
            let f = sentence_view(self.sentence);
            assert(f.pending =~= Seq::<char>::empty());
            assert(f.origin =~= Seq::<char>::empty());
        }
        let n = self.sentence.len();
        self.hint_at(n);
    }

    /// Sets the pending text and the keys that make it.
    pub fn set_pending(&mut self, pending: Vec<char>, input: Vec<char>)
        requires
            old(self)@.wf(),
            old(self)@.text.total() - old(self)@.text.pending.len() + pending@.len() <= usize::MAX,
        ensures
            final(self)@ == (ContextView {
                text: pending_spec(old(self)@.text, pending@, input@),
                ..old(self)@
            }),
            final(self)@.wf(),
    {
        self.sentence.set_pending(pending, input);
    }

    /// Types the pending text, if any.
    pub fn confrim_pending(&mut self)
        requires
            old(self)@.wf(),
        ensures
            final(self)@ == (ContextView { text: confirm_spec(old(self)@.text), ..old(self)@ }),
            final(self)@.wf(),
    {
        if self.sentence.get_pending().len() > 0 {
            let pending = copy_chars(self.sentence.get_pending());
            self.sentence.extend(pending);
            self.sentence.clear_pending();
            proof {
                let f = sentence_view(self.sentence);
                assert(f.pending =~= Seq::<char>::empty());
                assert(f.origin =~= Seq::<char>::empty());
            }
        }
    }

    /// Adds a key to the keys pending.
    pub fn push_input(&mut self, c: char)
        requires
            old(self)@.wf(),
        ensures
            final(self)@ == (ContextView { text: input_spec(old(self)@.text, c), ..old(self)@ }),
            final(self)@.wf(),
    {
        self.sentence.push_input(c);
    }

    /// Deletes backwards when there is text (see `pop_spec`).
    pub fn backspace(&mut self)
        requires
            old(self)@.wf(),
        ensures
            final(self)@ == ctx_backspace(old(self)@),
            final(self)@.wf(),
    {
        if self.sentence.len() > 0 {
            self.sentence.pop();
            proof {
                let o = sentence_view(old(self).sentence);
                let f = sentence_view(self.sentence);
                if o.pending.len() == 0 && o.appends.len() == 0 && o.at > 0 {
                    assert(f.chars == o.chars.remove(o.at - 1));
                }
                assert(f == pop_spec(o));
            }
        }
        let n = self.sentence.len();
        self.hint_at(n);
    }

    /// Types the pending text, puts what was typed into the text, and moves the
    /// insertion point one character left or right within the text.
    pub fn move_cursor(&mut self, left: bool)
        requires
            old(self)@.wf(),
        ensures
            final(self)@ == (ContextView { text: move_spec(old(self)@.text, left), ..old(self)@ }),
            final(self)@.wf(),
    {
        self.confrim_pending();
        let ghost c = self@.text;
        let end = self.sentence.pending_end();
        self.sentence.set_append_at(end);
        proof {
            let f = sentence_view(self.sentence);
            assert(c.pending.len() == 0);
            assert(f.appends =~= Seq::<char>::empty());
            assert(f.pending =~= c.pending);
            if c.appends.len() > 0 {
                assert(f.chars == c.content());
                assert(f.chars.len() == c.total());
            }
        }
        let ghost mid = self@.text;
        let action = if left {
            Movement::Left
        } else {
            Movement::Right
        };
        self.sentence.move_append_at(action);
        proof {
            let f = sentence_view(self.sentence);
            let m = move_spec(old(self)@.text, left);
            assert(f.chars == m.chars);
            assert(f.appends == m.appends);
            assert(f.pending == m.pending);
            assert(f.origin == m.origin);
            assert(f.at == m.at);
        }
    }

    /// What a key does (see `tui_key_spec`).
    pub fn tui_key(&mut self, key: TuiKey) -> (a: TuiAction)
        requires
            old(self)@.wf(),
            old(self)@.text.total() + key_growth(old(self)@, key) <= usize::MAX,
        ensures
            (a, final(self)@) == tui_key_spec(old(self)@, key),
            final(self)@.wf(),
    {
        match key {
            TuiKey::Clear => {
                self.clear();
                TuiAction::Redraw
            },
            TuiKey::Save => TuiAction::Save,
            TuiKey::CopyLast => {
                let s = self.get_sentence();
                self.copied = if s.len() > 0 {
                    Some(s[s.len() - 1])
                } else {
                    None
                };
                TuiAction::Redraw
            },
            TuiKey::PasteLast => {
                match self.copied {
                    Some(c) => {
                        self.confrim_pending();
                        let one = vec![c];
                        assert(one@ =~= seq![c]);
                        self.push(one);
                    },
                    None => {},
                }
                TuiAction::Redraw
            },
            TuiKey::PasteText(text) => {
                self.confrim_pending();
                self.push(text);
                TuiAction::Redraw
            },
            TuiKey::PageUp => {
                self.push_input(PAGE_UP);
                TuiAction::Redraw
            },
            TuiKey::PageDown => {
                self.push_input(PAGE_DOWN);
                TuiAction::Redraw
            },
            TuiKey::Quit => TuiAction::Quit,
            TuiKey::Enter => {
                self.confrim_pending();
                let nl = vec!['\n'];
                assert(nl@ =~= seq!['\n']);
                self.push(nl);
                TuiAction::Redraw
            },
            TuiKey::Backspace => {
                self.backspace();
                TuiAction::Redraw
            },
            TuiKey::Left => {
                self.move_cursor(true);
                TuiAction::Redraw
            },
            TuiKey::Right => {
                self.move_cursor(false);
                TuiAction::Redraw
            },
            TuiKey::Char(c) => {
                self.push_input(c);
                TuiAction::Redraw
            },
            TuiKey::Resize => TuiAction::Resize,
            TuiKey::Other => TuiAction::Ignore,
        }
    }

    /// Takes an analysis of the keys pending into the text (see `apply_spec`).
    pub fn apply_analysis(&mut self, r: &AnalysisResult)
        requires
            old(self)@.wf(),
            old(self)@.text.total() + texts_len(seg_texts_of(*r)) <= usize::MAX,
        ensures
            final(self)@ == apply_spec(old(self)@, seg_texts_of(*r), r.pending),
            final(self)@.wf(),
    {
        let ghost segs = seg_texts_of(*r);
        let n = r.segments.len();
        let mut i: usize = 0;
        assert(segs.subrange(0, n as int) =~= segs);
        while i + 1 < n
            invariant
                n == r.segments@.len(),
                segs == seg_texts_of(*r),
                i <= n,
                i + 1 <= n || n == 0,
                self@.wf(),
                apply_spec(self@, segs.subrange(i as int, n as int), r.pending) == apply_spec(
                    old(self)@,
                    segs,
                    r.pending,
                ),
                self@.text.total() + texts_len(segs.subrange(i as int, n as int)) <= usize::MAX,
            decreases n - i,
        {
            let ghost rest = segs.subrange(i as int, n as int);
            proof {
                assert(rest.drop_first() =~= segs.subrange(i + 1, n as int));
                assert(rest[0] == segs[i as int]);
                lemma_texts_len_nonneg(rest.drop_first());
            }
            let text = chars_of_string(&r.segments[i].0);
            self.push(text);
            i += 1;
        }
        if n > 0 {
            let ghost rest = segs.subrange(i as int, n as int);
            proof {
                assert(rest.len() == 1);
                assert(rest[0] == segs[i as int]);
                assert(rest.drop_first().len() == 0);
                assert(texts_len(rest.drop_first()) == 0);
                assert(texts_len(rest) == rest[0].0.len());
            }
            let text = chars_of_string(&r.segments[i].0);
            if r.pending {
                let origin = r.segments[i].1.clone();
                self.set_pending(text, origin);
            } else {
                self.push(text);
            }
        }
    }
}

/// A copy of `s`.
fn copy_chars(s: &[char]) -> (v: Vec<char>)
    ensures
        v@ == s@,
{
    let mut v: Vec<char> = Vec::new();
    let mut i: usize = 0;
    while i < s.len()
        invariant
            i <= s@.len(),
            v@ == s@.subrange(0, i as int),
        decreases s@.len() - i,
    {
        v.push(s[i]);
        i += 1;
    }
    assert(v@ =~= s@);
    v
}

/// The characters of `s`.
fn chars_of_string(s: &String) -> (v: Vec<char>)
    ensures
        v@ == s@,
{
    crate::text::chars_of(s.as_str())
}

} // verus!
