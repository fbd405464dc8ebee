use vstd::prelude::*;

use crate::input_analyzer::{
    analysis_view, AnalysisResult, AnalysisView, CandidateRich, InputAnalyzer, RichView, Tag,
    PAGE_DOWN, PAGE_UP,
};
use crate::lsp::joined_texts;
use crate::text::{string_append, string_from_chars, string_push};

verus! {

// ---------------------------------------------------------------------------
// Keys
// ---------------------------------------------------------------------------

/// Modifier masks of a key event.
pub const MOD_SHIFT: u32 = 0x01u32;
pub const MOD_CAPSLOCK: u32 = 0x02u32;
pub const MOD_CTRL: u32 = 0x04u32;
pub const MOD_ALT: u32 = 0x08u32;
pub const MOD_NUMLOCK: u32 = 0x10u32;
pub const MOD_SUPER: u32 = 0x40u32;

/// Key symbols the engine reacts to.
pub const KEY_BACKSPACE: u32 = 0xff08u32;
pub const KEY_RETURN: u32 = 0xff0du32;
pub const KEY_ESCAPE: u32 = 0xff1bu32;
pub const KEY_PAGE_UP: u32 = 0xff55u32;
pub const KEY_PAGE_DOWN: u32 = 0xff56u32;
pub const KEY_KP_PAGE_UP: u32 = 0xff9au32;
pub const KEY_KP_PAGE_DOWN: u32 = 0xff9bu32;
pub const KEY_SHIFT_L: u32 = 0xffe1u32;
pub const KEY_SHIFT_R: u32 = 0xffe2u32;
pub const KEY_CONTROL_L: u32 = 0xffe3u32;
pub const KEY_CONTROL_R: u32 = 0xffe4u32;
pub const KEY_META_L: u32 = 0xffe7u32;
pub const KEY_META_R: u32 = 0xffe8u32;
pub const KEY_ALT_L: u32 = 0xffe9u32;
pub const KEY_ALT_R: u32 = 0xffeau32;
pub const KEY_SUPER_L: u32 = 0xffebu32;
pub const KEY_SUPER_R: u32 = 0xffecu32;
pub const KEY_HYPER_L: u32 = 0xffedu32;
pub const KEY_HYPER_R: u32 = 0xffeeu32;
pub const KEY_SPACE: u32 = 0x0020u32;
pub const KEY_C: u32 = 0x0043u32;
pub const KEY_ASCIITILDE: u32 = 0x007eu32;
pub const KEY_NOBREAKSPACE: u32 = 0x00a0u32;
pub const KEY_YDIAERESIS: u32 = 0x00ffu32;

/// The character a key symbol types: printable ASCII and Latin-1 symbols stand for
/// the character of the same number.
pub open spec fn key_char(sym: u32) -> Option<char> {
    if (KEY_SPACE <= sym <= KEY_ASCIITILDE) || (KEY_NOBREAKSPACE <= sym <= KEY_YDIAERESIS) {
        Some(sym as char)
    } else {
        None
    }
}

/// The character a key symbol types, if it types one.
pub fn keysym_to_char(sym: u32) -> (r: Option<char>)
    ensures
        r == key_char(sym),
{
    if (KEY_SPACE <= sym && sym <= KEY_ASCIITILDE) || (KEY_NOBREAKSPACE <= sym && sym
        <= KEY_YDIAERESIS) {
        let b = sym as u8;
        assert(b as u32 == sym);
        Some(b as char)
    } else {
        None
    }
}

/// The modifier mask that a modifier key sets (0 for other keys).
pub open spec fn key_states(sym: u32) -> u32 {
    if sym == KEY_CONTROL_L || sym == KEY_CONTROL_R {
        MOD_CTRL
    } else if sym == KEY_ALT_L || sym == KEY_ALT_R || sym == KEY_META_L || sym == KEY_META_R {
        MOD_ALT
    } else if sym == KEY_SHIFT_L || sym == KEY_SHIFT_R {
        MOD_SHIFT
    } else if sym == KEY_SUPER_L || sym == KEY_SUPER_R || sym == KEY_HYPER_L || sym == KEY_HYPER_R {
        MOD_SUPER
    } else {
        0
    }
}

/// The modifier mask that a modifier key sets (0 for other keys).
pub fn keysym_to_states(sym: u32) -> (r: u32)
    ensures
        r == key_states(sym),
{
    if sym == KEY_CONTROL_L || sym == KEY_CONTROL_R {
        MOD_CTRL
    } else if sym == KEY_ALT_L || sym == KEY_ALT_R || sym == KEY_META_L || sym == KEY_META_R {
        MOD_ALT
    } else if sym == KEY_SHIFT_L || sym == KEY_SHIFT_R {
        MOD_SHIFT
    } else if sym == KEY_SUPER_L || sym == KEY_SUPER_R || sym == KEY_HYPER_L || sym == KEY_HYPER_R {
        MOD_SUPER
    } else {
        0
    }
}

/// A key event: its symbol, the modifiers held, and whether the key goes up.
#[derive(PartialEq, Eq, Structural, Clone, Copy, Debug)]
pub struct SenimeKeyEvent {
    pub sym: u32,
    pub states: u32,
    pub is_release: bool,
}

/// A key with its modifiers; `modifier_only` when the key is itself the modifier.
#[derive(PartialEq, Eq, Structural, Clone, Copy, Debug)]
pub struct KeyBinding {
    pub sym: u32,
    pub modifier: u32,
    pub modifier_only: bool,
}

impl KeyBinding {
    /// The binding of `sym` with the modifiers `modifier`.
    pub fn from_pair(sym: u32, modifier: u32) -> (b: Self)
        ensures
            b == (KeyBinding { sym, modifier, modifier_only: key_states(sym) == modifier }),
    {
        KeyBinding { sym, modifier, modifier_only: keysym_to_states(sym) == modifier }
    }
}

/// How the engine behaves: the key that switches languages, the characters that open
/// and close a stretch of Chinese in English mode, the language it starts in,
/// whether Chinese flows as a sentence, and what the preedit shows.
#[derive(Clone, Copy, Debug)]
pub struct EngineConfig {
    pub toggle_key: KeyBinding,
    pub trigger_chars: Option<(char, char)>,
    pub default_chinese_mode: bool,
    pub sentence_flow: bool,
    pub enable_text_preedit: bool,
    pub enable_input_preedit: bool,
}

impl Default for EngineConfig {
    fn default() -> (c: Self)
        ensures
            c == (EngineConfig {
                toggle_key: KeyBinding {
                    sym: KEY_SHIFT_L,
                    modifier: MOD_SHIFT,
                    modifier_only: key_states(KEY_SHIFT_L) == MOD_SHIFT,
                },
                trigger_chars: None,
                default_chinese_mode: false,
                sentence_flow: false,
                enable_text_preedit: true,
                enable_input_preedit: false,
            }),
    {
        EngineConfig {
            toggle_key: KeyBinding::from_pair(KEY_SHIFT_L, MOD_SHIFT),
            trigger_chars: None,
            default_chinese_mode: false,
            sentence_flow: false,
            enable_text_preedit: true,
            enable_input_preedit: false,
        }
    }
}

impl EngineConfig {
    /// The configuration from the raw settings: the trigger characters are the
    /// characters of the two key symbols, the closing one defaulting to the opening
    /// one; none when the opening symbol types no character.
    pub fn from_settings(
        toggle_sym: u32,
        toggle_states: u32,
        trigger_start: u32,
        trigger_end: u32,
        default_chinese_mode: bool,
        sentence_flow: bool,
        enable_text_preedit: bool,
        enable_input_preedit: bool,
    ) -> (c: Self)
        ensures
            c.toggle_key == (KeyBinding {
                sym: toggle_sym,
                modifier: toggle_states,
                modifier_only: key_states(toggle_sym) == toggle_states,
            }),
            c.trigger_chars == match key_char(trigger_start) {
                Some(s) => Some(
                    (
                        s,
                        match key_char(trigger_end) {
                            Some(e) => e,
                            None => s,
                        },
                    ),
                ),
                None => None,
            },
            c.default_chinese_mode == default_chinese_mode,
            c.sentence_flow == sentence_flow,
            c.enable_text_preedit == enable_text_preedit,
            c.enable_input_preedit == enable_input_preedit,
    {
        let trigger_chars = match keysym_to_char(trigger_start) {
            Some(s) => {
                let e = match keysym_to_char(trigger_end) {
                    Some(e) => e,
                    None => s,
                };
                Some((s, e))
            },
            None => None,
        };
        EngineConfig {
            toggle_key: KeyBinding::from_pair(toggle_sym, toggle_states),
            trigger_chars,
            default_chinese_mode,
            sentence_flow,
            enable_text_preedit,
            enable_input_preedit,
        }
    }
}

// ---------------------------------------------------------------------------
// What the input panel shows
// ---------------------------------------------------------------------------

/// A candidate as the panel shows it: its text, the rest of its code after what was
/// typed, and its selection key.
#[derive(Clone, Debug)]
pub struct PanelCandidate {
    pub text: String,
    pub code: String,
    pub select_key: u32,
}

/// What the input panel is to show after a key: text to commit, preedit, the
/// auxiliary texts, the candidates, and whether the status area changes.
#[derive(Debug)]
pub struct Panel {
    pub commit: Option<String>,
    pub preedit: Option<String>,
    pub aux_up: Option<String>,
    pub aux_down: Option<String>,
    pub candidates: Vec<PanelCandidate>,
    pub update_status_area: bool,
}

/// A panel as plain values.
pub struct PanelView {
    pub commit: Option<Seq<char>>,
    pub preedit: Option<Seq<char>>,
    pub aux_up: Option<Seq<char>>,
    pub aux_down: Option<Seq<char>>,
    pub candidates: Seq<(Seq<char>, Seq<char>, u32)>,
    pub update_status_area: bool,
}

pub open spec fn opt_str(s: Option<String>) -> Option<Seq<char>> {
    match s {
        Some(t) => Some(t@),
        None => None,
    }
}

pub open spec fn panel_view(p: Panel) -> PanelView {
    PanelView {
        commit: opt_str(p.commit),
        preedit: opt_str(p.preedit),
        aux_up: opt_str(p.aux_up),
        aux_down: opt_str(p.aux_down),
        candidates: Seq::new(
            p.candidates@.len(),
            |i: int| (p.candidates@[i].text@, p.candidates@[i].code@, p.candidates@[i].select_key),
        ),
        update_status_area: p.update_status_area,
    }
}

/// An empty panel.
pub open spec fn blank_panel() -> PanelView {
    PanelView {
        commit: None,
        preedit: None,
        aux_up: None,
        aux_down: None,
        candidates: Seq::empty(),
        update_status_area: false,
    }
}

/// Adds `t` to the text to commit (nothing when `t` is empty).
pub open spec fn with_commit(p: PanelView, t: Seq<char>) -> PanelView {
    if t.len() == 0 {
        p
    } else {
        PanelView {
            commit: Some(
                match p.commit {
                    Some(c) => c + t,
                    None => t,
                },
            ),
            ..p
        }
    }
}

/// Shows `t` as preedit (nothing when `t` is empty).
pub open spec fn with_preedit(p: PanelView, t: Seq<char>) -> PanelView {
    if t.len() == 0 {
        p
    } else {
        PanelView { preedit: Some(t), ..p }
    }
}

/// Shows `t` above the preedit (nothing when `t` is empty).
pub open spec fn with_aux_up(p: PanelView, t: Seq<char>) -> PanelView {
    if t.len() == 0 {
        p
    } else {
        PanelView { aux_up: Some(t), ..p }
    }
}

/// `code` without the start `typed`, if it starts so.
pub open spec fn code_rest(code: Seq<char>, typed: Seq<char>) -> Seq<char> {
    if typed.len() <= code.len() && code.subrange(0, typed.len() as int) == typed {
        code.subrange(typed.len() as int, code.len() as int)
    } else {
        code
    }
}

/// What is left of a code after the keys typed: when the keys start the code, the
/// keys followed by what is left make the code, and what is left is shorter by the
/// number of keys; otherwise the code is left whole.
pub proof fn lemma_code_rest(code: Seq<char>, typed: Seq<char>)
    ensures
        typed.is_prefix_of(code) ==> typed + code_rest(code, typed) == code && code_rest(code, typed).len()
            == code.len() - typed.len(),
        !typed.is_prefix_of(code) ==> code_rest(code, typed) == code,
{
    if typed.is_prefix_of(code) {
        assert(code.subrange(0, typed.len() as int) =~= typed);
        assert(typed + code.subrange(typed.len() as int, code.len() as int) =~= code);
    } else if typed.len() <= code.len() && code.subrange(0, typed.len() as int) == typed {
        assert(typed.is_prefix_of(code));
    }
}

/// Shows the candidates `cs`.
pub open spec fn with_candidates(p: PanelView, cs: Seq<RichView>) -> PanelView {
    PanelView {
        candidates: Seq::new(
            cs.len(),
            |i: int| (cs[i].text, code_rest(cs[i].code, cs[i].origin), cs[i].select_key as u32),
        ),
        ..p
    }
}

/// Each candidate shown lists its text, its code without the keys already typed for
/// it (when they start the code), and its selection key, in the order given.
pub proof fn lemma_shown_candidates(p: PanelView, cs: Seq<RichView>)
    ensures
        with_candidates(p, cs).candidates.len() == cs.len(),
        forall|i: int|
            0 <= i < cs.len() ==> {
                let shown = #[trigger] with_candidates(p, cs).candidates[i];
                &&& shown.0 == cs[i].text
                &&& cs[i].origin.is_prefix_of(cs[i].code) ==> cs[i].origin + shown.1 == cs[i].code
                    && shown.1.len() == cs[i].code.len() - cs[i].origin.len()
                &&& !cs[i].origin.is_prefix_of(cs[i].code) ==> shown.1 == cs[i].code
            },
{
    assert forall|i: int| 0 <= i < cs.len() implies {
        let shown = #[trigger] with_candidates(p, cs).candidates[i];
        &&& shown.0 == cs[i].text
        &&& cs[i].origin.is_prefix_of(cs[i].code) ==> cs[i].origin + shown.1 == cs[i].code && shown.1.len()
            == cs[i].code.len() - cs[i].origin.len()
        &&& !cs[i].origin.is_prefix_of(cs[i].code) ==> shown.1 == cs[i].code
    } by {
        lemma_code_rest(cs[i].code, cs[i].origin);
    }
}

/// The preedit for `text` and, when the segment is a code, the keys typed for it.
pub open spec fn preedit_of(cfg: EngineConfig, text: Seq<char>, input: Option<Seq<char>>) -> Seq<char> {
    if cfg.enable_text_preedit && cfg.enable_input_preedit {
        text + match input {
            Some(i) => i,
            None => Seq::empty(),
        }
    } else if !cfg.enable_text_preedit && cfg.enable_input_preedit && input is Some {
        input->0
    } else if !cfg.enable_text_preedit && !cfg.enable_input_preedit {
        Seq::empty()
    } else {
        text
    }
}

impl Panel {
    fn new() -> (p: Self)
        ensures
            panel_view(p) == blank_panel(),
    {
        let p = Panel {
            commit: None,
            preedit: None,
            aux_up: None,
            aux_down: None,
            candidates: Vec::new(),
            update_status_area: false,
        };
        assert(panel_view(p).candidates =~= Seq::<(Seq<char>, Seq<char>, u32)>::empty());
        p
    }

    fn set_commit(&mut self, text: &str)
        ensures
            panel_view(*final(self)) == with_commit(panel_view(*old(self)), text@),
    {
        if text.is_empty() {
            return;
        }
        match self.commit.take() {
            Some(mut c) => {
                string_append(&mut c, text);
                self.commit = Some(c);
            },
            None => {
                let mut c = String::new();
                string_append(&mut c, text);
                assert(c@ =~= Seq::<char>::empty() + text@);
                assert(c@ =~= text@);
                self.commit = Some(c);
            },
        }
    }

    fn set_preedit(&mut self, text: String)
        ensures
            panel_view(*final(self)) == with_preedit(panel_view(*old(self)), text@),
    {
        if text.as_str().is_empty() {
            return;
        }
        self.preedit = Some(text);
    }

    fn set_aux_up(&mut self, text: &str)
        ensures
            panel_view(*final(self)) == with_aux_up(panel_view(*old(self)), text@),
    {
        if text.is_empty() {
            return;
        }
        self.aux_up = Some(text.to_owned());
    }

    fn set_candidates(&mut self, cands: &Vec<CandidateRich>)
        ensures
            panel_view(*final(self)) == with_candidates(
                panel_view(*old(self)),
                crate::input_analyzer::rich_views(cands@),
            ),
    {
        let ghost cs = crate::input_analyzer::rich_views(cands@);
        let mut out: Vec<PanelCandidate> = Vec::new();
        let mut i: usize = 0;
        while i < cands.len()
            invariant
                i <= cands@.len(),
                cs == crate::input_analyzer::rich_views(cands@),
                out@.len() == i,
                forall|k: int|
                    0 <= k < i ==> (#[trigger] out@[k]).text@ == cs[k].text && out@[k].code@ == code_rest(
                        cs[k].code,
                        cs[k].origin,
                    ) && out@[k].select_key == cs[k].select_key as u32,
            decreases cands@.len() - i,
        {
            let c = &cands[i];
            let code = code_rest_exec(c.code.as_str(), c.origin.as_slice());
            out.push(PanelCandidate { text: c.text.clone(), code, select_key: c.select_key as u32 });
            i += 1;
        }
        self.candidates = out;
        assert(panel_view(*self).candidates =~= with_candidates(panel_view(*old(self)), cs).candidates);
    }
}

/// `code` without the start `typed`, if it starts so.
fn code_rest_exec(code: &str, typed: &[char]) -> (r: String)
    ensures
        r@ == code_rest(code@, typed@),
{
    let cs = crate::text::chars_of(code);
    if typed.len() > cs.len() {
        return string_from_chars(cs.as_slice());
    }
    let mut k: usize = 0;
    while k < typed.len()
        invariant
            k <= typed@.len() <= cs@.len(),
            cs@ == code@,
            forall|t: int| 0 <= t < k ==> cs@[t] == typed@[t],
        decreases typed@.len() - k,
    {
        if cs[k] != typed[k] {
            assert(cs@.subrange(0, typed@.len() as int)[k as int] != typed@[k as int]);
            return string_from_chars(cs.as_slice());
        }
        k += 1;
    }
    assert(cs@.subrange(0, typed@.len() as int) =~= typed@);
    let rest = vstd::slice::slice_subrange(cs.as_slice(), typed.len(), cs.len());
    string_from_chars(rest)
}


// ---------------------------------------------------------------------------
// The engine's state and how keys change it
// ---------------------------------------------------------------------------

/// A segment of an analysis: its text, the keys typed for it, its tag.
pub type SegTriple = (Seq<char>, Seq<char>, Tag);

/// The state as plain values: the keys typed, the language, the configuration, the
/// segments of the last analysis, the preset still to type (last item first), and
/// the panel to show.
pub struct StateView {
    pub input: Seq<char>,
    pub chinese: bool,
    pub cfg: EngineConfig,
    pub segments: Seq<SegTriple>,
    pub preset: Option<Seq<(Seq<char>, usize)>>,
    pub panel: PanelView,
}

/// What a key did: whether the engine took it, and whether the preset is to be
/// loaded now.
#[derive(PartialEq, Eq, Structural, Clone, Copy, Debug)]
pub struct KeyOutcome {
    pub accepted: bool,
    pub load_preset: bool,
}

/// The opening and closing trigger characters (meaningful when there are some).
pub open spec fn trigger_pair(cfg: EngineConfig) -> (char, char) {
    cfg.trigger_chars->0
}

/// The keys typed for a code segment.
pub open spec fn code_input(seg: SegTriple) -> Option<Seq<char>> {
    match seg.2 {
        Tag::Code(_) => Some(seg.1),
        _ => None,
    }
}

/// Marks a code segment looked up in a secondary table.
pub open spec fn lookup_aux(p: PanelView, seg: SegTriple) -> PanelView {
    match seg.2 {
        Tag::Code(sel) => if sel.dict_idx > 0 {
            with_aux_up(p, "查"@)
        } else {
            p
        },
        _ => p,
    }
}

/// Shows the candidates, if any.
pub open spec fn with_opt_candidates(p: PanelView, c: Option<Seq<RichView>>) -> PanelView {
    match c {
        Some(cs) => with_candidates(p, cs),
        None => p,
    }
}

/// The keys typed for the segments, one after the other.
pub open spec fn joined_inputs(segs: Seq<SegTriple>) -> Seq<char>
    decreases segs.len(),
{
    if segs.len() == 0 {
        Seq::empty()
    } else {
        joined_inputs(segs.drop_last()) + segs.last().1
    }
}

/// Everything is committed at once.
pub open spec fn mode_just_commit(st: StateView, a: AnalysisView) -> StateView {
    StateView {
        input: Seq::empty(),
        segments: Seq::empty(),
        panel: with_commit(st.panel, joined_texts(a.segments)),
        ..st
    }
}

/// Chinese typed between trigger characters in English mode: it stays in the preedit
/// until the closing trigger commits it.
pub open spec fn mode_temp(st: StateView, a: AnalysisView) -> StateView {
    let cfg = st.cfg;
    if cfg.trigger_chars is Some && st.input.len() > 0 && st.input.last() == trigger_pair(cfg).1 {
        StateView {
            input: Seq::empty(),
            segments: Seq::empty(),
            panel: with_commit(st.panel, joined_texts(a.segments)),
            ..st
        }
    } else {
        let last = a.segments.last();
        let pre = joined_texts(a.segments.drop_last());
        let p1 = lookup_aux(st.panel, last);
        let p2 = with_preedit(p1, pre + preedit_of(cfg, last.0, code_input(last)));
        let p3 = if a.pending {
            with_opt_candidates(p2, a.candidates)
        } else {
            p2
        };
        StateView { segments: a.segments, panel: p3, ..st }
    }
}

/// A segment that lets a sentence flow on: a code, or an empty unknown stretch.
pub open spec fn flows(seg: SegTriple) -> bool {
    seg.2 is Code || (seg.2 is Unknown && seg.0.len() == 0)
}

/// Sentence flow: codes stay in the preedit; anything else commits what came before.
pub open spec fn mode_flow(st: StateView, a: AnalysisView) -> StateView {
    let cfg = st.cfg;
    let pre_segs = a.segments.drop_last();
    let last = a.segments.last();
    let pre_text = joined_texts(pre_segs);
    let p1 = lookup_aux(st.panel, last);
    if flows(last) && (pre_segs.len() == 0 || flows(pre_segs.last())) {
        StateView {
            segments: a.segments,
            panel: with_opt_candidates(
                with_preedit(p1, pre_text + preedit_of(cfg, last.0, code_input(last))),
                a.candidates,
            ),
            ..st
        }
    } else {
        let p2 = with_commit(p1, pre_text);
        if a.pending {
            StateView {
                segments: Seq::empty(),
                input: last.1,
                panel: with_opt_candidates(
                    with_preedit(p2, preedit_of(cfg, last.0, code_input(last))),
                    a.candidates,
                ),
                ..st
            }
        } else {
            StateView {
                segments: Seq::empty(),
                input: Seq::empty(),
                panel: with_opt_candidates(with_commit(p2, last.0), a.candidates),
                ..st
            }
        }
    }
}

/// Punctuation, and an unknown stretch with text, end a sentence; a code, or an
/// unknown stretch without text, lets it flow on.
pub proof fn lemma_flows_tags(seg: SegTriple)
    ensures
        seg.2 is Punctuation ==> !flows(seg),
        seg.2 is Unknown && seg.0.len() > 0 ==> !flows(seg),
        seg.2 is Code ==> flows(seg),
        seg.2 is Unknown && seg.0.len() == 0 ==> flows(seg),
{
}

/// The text committed so far on a panel (empty when none).
pub open spec fn committed(p: PanelView) -> Seq<char> {
    match p.commit {
        Some(c) => c,
        None => Seq::empty(),
    }
}

/// In sentence flow, a step whose last segment is punctuation ends the sentence: no
/// segment stays, and what was typed before it is committed, followed by the
/// punctuation itself when nothing is pending.
pub proof fn lemma_flow_ends_at_punctuation(st: StateView, a: AnalysisView)
    requires
        a.segments.len() > 0,
        a.segments.last().2 is Punctuation,
    ensures
        mode_flow(st, a).segments.len() == 0,
        !a.pending ==> committed(mode_flow(st, a).panel) == committed(st.panel) + joined_texts(
            a.segments.drop_last(),
        ) + a.segments.last().0,
        a.pending ==> committed(mode_flow(st, a).panel) == committed(st.panel) + joined_texts(
            a.segments.drop_last(),
        ),
{
    let last = a.segments.last();
    let pre = joined_texts(a.segments.drop_last());
    assert(!flows(last));
    let p1 = lookup_aux(st.panel, last);
    assert(p1 == st.panel);
    let p2 = with_commit(p1, pre);
    assert(committed(p2) == committed(st.panel) + pre) by {
        if pre.len() == 0 {
            assert(committed(st.panel) + pre =~= committed(st.panel));
        }
    }
    let p3 = with_commit(p2, last.0);
    assert(committed(p3) == committed(p2) + last.0) by {
        if last.0.len() == 0 {
            assert(committed(p2) + last.0 =~= committed(p2));
        }
    }
    if a.pending {
        let q = with_preedit(p2, preedit_of(st.cfg, last.0, code_input(last)));
        assert(committed(q) == committed(p2));
        assert(committed(with_opt_candidates(q, a.candidates)) == committed(q));
    } else {
        assert(committed(with_opt_candidates(p3, a.candidates)) == committed(p3));
    }
}

/// Plain Chinese mode: all but the last segment are committed; the last stays in the
/// preedit while it is pending.
pub open spec fn mode_normal(st: StateView, a: AnalysisView) -> StateView {
    let cfg = st.cfg;
    let last = a.segments.last();
    let p1 = with_commit(st.panel, joined_texts(a.segments.drop_last()));
    if a.pending {
        StateView {
            input: last.1,
            panel: with_opt_candidates(
                with_preedit(lookup_aux(p1, last), preedit_of(cfg, last.0, code_input(last))),
                a.candidates,
            ),
            ..st
        }
    } else {
        StateView { input: Seq::empty(), panel: with_commit(p1, last.0), ..st }
    }
}

/// The preset at work: while fewer keys than the current item's code length plus one
/// are typed they show in the preedit; then the item's text is committed.
pub open spec fn preset_step(st: StateView) -> (bool, StateView) {
    match st.preset {
        None => (false, st),
        Some(items) => if items.len() == 0 {
            (false, StateView { preset: None, ..st })
        } else {
            let item = items.last();
            if st.input.len() < item.1 + 1 {
                (true, StateView { panel: with_preedit(st.panel, st.input), ..st })
            } else {
                let rest = items.drop_last();
                (
                    true,
                    StateView {
                        input: Seq::empty(),
                        segments: Seq::empty(),
                        preset: if rest.len() == 0 {
                            None
                        } else {
                            Some(rest)
                        },
                        panel: with_commit(st.panel, item.0),
                        ..st
                    },
                )
            }
        },
    }
}

/// The keys without an opening trigger character in front and a closing one behind.
pub open spec fn trim_triggers(cfg: EngineConfig, s: Seq<char>) -> Seq<char> {
    match cfg.trigger_chars {
        Some(t) => {
            let x = if s.len() > 0 && s[0] == t.0 {
                s.subrange(1, s.len() as int)
            } else {
                s
            };
            if x.len() > 0 && x.last() == t.1 {
                x.drop_last()
            } else {
                x
            }
        },
        None => s,
    }
}

/// Analyses the keys typed and updates the state and panel.
pub open spec fn update_spec(eng: InputAnalyzer, st: StateView, temp: bool, just_commit: bool) -> StateView {
    let (done, st1) = preset_step(st);
    if done {
        st1
    } else {
        let chars = if temp {
            trim_triggers(st1.cfg, st1.input)
        } else {
            st1.input
        };
        if chars.len() == 0 {
            if st1.input.len() == 2 {
                StateView {
                    input: Seq::empty(),
                    segments: Seq::empty(),
                    panel: with_commit(st1.panel, seq![st1.input[0]]),
                    ..st1
                }
            } else {
                StateView { panel: with_preedit(st1.panel, st1.input), ..st1 }
            }
        } else {
            let a = eng.analysis(chars);
            if a.segments.len() == 0 {
                StateView { input: Seq::empty(), segments: Seq::empty(), ..st1 }
            } else if just_commit {
                mode_just_commit(st1, a)
            } else if temp {
                mode_temp(st1, a)
            } else if st1.cfg.sentence_flow {
                mode_flow(st1, a)
            } else {
                mode_normal(st1, a)
            }
        }
    }
}

/// The index of the last segment with some text (0 if none).
pub open spec fn last_text_index(segs: Seq<SegTriple>, n: int) -> int
    decreases n,
{
    if n <= 0 {
        0
    } else if segs[n - 1].0.len() > 0 {
        n - 1
    } else {
        last_text_index(segs, n - 1)
    }
}

/// The keys without the last one, and without the page keys just before it.
pub open spec fn pop_key(s: Seq<char>) -> Seq<char>
    decreases s.len(),
{
    if s.len() == 0 {
        s
    } else if s.last() != PAGE_UP && s.last() != PAGE_DOWN {
        s.drop_last()
    } else {
        pop_key(s.drop_last())
    }
}

/// The state with an empty panel.
pub open spec fn cleared(st: StateView) -> StateView {
    StateView { panel: blank_panel(), ..st }
}

/// The mask of the modifiers other than shift, caps lock and num lock.
pub open spec fn other_mods(states: u32) -> u32 {
    states & !(MOD_SHIFT | MOD_CAPSLOCK | MOD_NUMLOCK)
}

/// How a key acts in Chinese mode (or in a stretch of Chinese when `temp`).
pub open spec fn chinese_step(eng: InputAnalyzer, st: StateView, sym: u32, states: u32, temp: bool) -> (
    KeyOutcome,
    StateView,
) {
    let cfg = st.cfg;
    let c = cleared(st);
    let no = KeyOutcome { accepted: false, load_preset: false };
    let yes = KeyOutcome { accepted: true, load_preset: false };
    if sym == KEY_C && states == MOD_ALT {
        (KeyOutcome { accepted: true, load_preset: true }, c)
    } else if other_mods(states) != 0 {
        (
            no,
            StateView {
                input: Seq::empty(),
                segments: Seq::empty(),
                panel: if st.input.len() > 0 {
                    with_commit(blank_panel(), st.input)
                } else {
                    blank_panel()
                },
                ..st
            },
        )
    } else if sym == KEY_ESCAPE {
        (
            no,
            StateView {
                chinese: false,
                input: Seq::empty(),
                segments: Seq::empty(),
                preset: None,
                panel: PanelView { update_status_area: true, ..blank_panel() },
                ..st
            },
        )
    } else if sym == KEY_RETURN {
        (no, update_spec(eng, c, temp, true))
    } else if sym == KEY_BACKSPACE {
        if (temp || cfg.sentence_flow) && st.input.len() > 0 && st.segments.len() > 0 {
            let prev = joined_inputs(
                st.segments.subrange(0, last_text_index(st.segments, st.segments.len() as int)),
            );
            let input = if temp && cfg.trigger_chars is Some {
                seq![trigger_pair(cfg).0] + prev
            } else {
                prev
            };
            (yes, update_spec(eng, StateView { input, ..c }, temp, false))
        } else if st.input.len() > 0 {
            (yes, update_spec(eng, StateView { input: pop_key(st.input), ..c }, temp, false))
        } else {
            (no, update_spec(eng, c, temp, false))
        }
    } else if (sym == KEY_PAGE_UP || sym == KEY_KP_PAGE_UP) && st.input.len() > 0 {
        (yes, update_spec(eng, StateView { input: st.input.push(PAGE_UP), ..c }, temp, false))
    } else if (sym == KEY_PAGE_DOWN || sym == KEY_KP_PAGE_DOWN) && st.input.len() > 0 {
        (yes, update_spec(eng, StateView { input: st.input.push(PAGE_DOWN), ..c }, temp, false))
    } else {
        match key_char(sym) {
            Some(ch) => (yes, update_spec(eng, StateView { input: st.input.push(ch), ..c }, temp, false)),
            None => (no, StateView { panel: PanelView { commit: None, ..st.panel }, ..st }),
        }
    }
}

/// How a key acts: the switch key toggles the language (committing what was typed
/// when leaving Chinese); in English mode the opening trigger character starts a
/// stretch of Chinese and other keys pass through; in Chinese mode see
/// `chinese_step`.
pub open spec fn key_step(eng: InputAnalyzer, st: StateView, key: SenimeKeyEvent) -> (KeyOutcome, StateView) {
    let cfg = st.cfg;
    let acc = KeyOutcome { accepted: !key.is_release, load_preset: false };
    if key.sym == cfg.toggle_key.sym && key.states == cfg.toggle_key.modifier {
        if st.chinese {
            let text = if cfg.sentence_flow && st.segments.len() > 0 {
                joined_texts(st.segments)
            } else {
                st.input
            };
            (
                acc,
                StateView {
                    chinese: false,
                    input: Seq::empty(),
                    segments: Seq::empty(),
                    preset: None,
                    panel: PanelView {
                        update_status_area: true,
                        ..with_aux_up(with_commit(blank_panel(), text), "En"@)
                    },
                    ..st
                },
            )
        } else {
            (
                acc,
                StateView {
                    chinese: true,
                    panel: PanelView { update_status_area: true, ..with_aux_up(blank_panel(), "中"@) },
                    ..st
                },
            )
        }
    } else if !st.chinese {
        match cfg.trigger_chars {
            Some(t) => if st.input.len() > 0 && st.input[0] == t.0 {
                chinese_step(eng, st, key.sym, key.states, true)
            } else if key_char(key.sym) == Some(t.0) {
                (
                    KeyOutcome { accepted: true, load_preset: false },
                    StateView { input: st.input.push(t.0), panel: with_aux_up(blank_panel(), "中"@), ..st },
                )
            } else {
                (KeyOutcome { accepted: false, load_preset: false }, cleared(st))
            },
            None => (KeyOutcome { accepted: false, load_preset: false }, cleared(st)),
        }
    } else {
        chinese_step(eng, st, key.sym, key.states, false)
    }
}

/// The state of one input context of the engine.
pub struct SenimeState {
    input: Vec<char>,
    chinese_mode: bool,
    config: EngineConfig,
    segments: Vec<(String, Vec<char>, Tag)>,
    preset: Option<Vec<(String, usize)>>,
    panel: Panel,
}

pub open spec fn segs_of(v: Seq<(String, Vec<char>, Tag)>) -> Seq<SegTriple> {
    Seq::new(v.len(), |i: int| (v[i].0@, v[i].1@, v[i].2))
}

pub open spec fn preset_of(p: Option<Vec<(String, usize)>>) -> Option<Seq<(Seq<char>, usize)>> {
    match p {
        Some(v) => Some(Seq::new(v@.len(), |i: int| (v@[i].0@, v@[i].1))),
        None => None,
    }
}

impl View for SenimeState {
    type V = StateView;

    closed spec fn view(&self) -> StateView {
        StateView {
            input: self.input@,
            chinese: self.chinese_mode,
            cfg: self.config,
            segments: segs_of(self.segments@),
            preset: preset_of(self.preset),
            panel: panel_view(self.panel),
        }
    }
}


/// The texts of the first `n` segments, one after the other.
fn join_texts(segs: &Vec<(String, Vec<char>, Tag)>, n: usize) -> (r: String)
    requires
        n <= segs@.len(),
    ensures
        r@ == joined_texts(segs_of(segs@).subrange(0, n as int)),
{
    let mut out = String::new();
    let mut i: usize = 0;
    while i < n
        invariant
            i <= n <= segs@.len(),
            out@ == joined_texts(segs_of(segs@).subrange(0, i as int)),
        decreases n - i,
    {
        string_append(&mut out, segs[i].0.as_str());
        proof {
            assert(segs_of(segs@).subrange(0, i + 1).drop_last() =~= segs_of(segs@).subrange(0, i as int));
        }
        i += 1;
    }
    out
}

/// The keys typed for the first `n` segments, one after the other.
fn join_inputs(segs: &Vec<(String, Vec<char>, Tag)>, n: usize) -> (r: Vec<char>)
    requires
        n <= segs@.len(),
    ensures
        r@ == joined_inputs(segs_of(segs@).subrange(0, n as int)),
{
    let mut out: Vec<char> = Vec::new();
    let mut i: usize = 0;
    while i < n
        invariant
            i <= n <= segs@.len(),
            out@ == joined_inputs(segs_of(segs@).subrange(0, i as int)),
        decreases n - i,
    {
        let mut more = vstd::slice::slice_to_vec(segs[i].1.as_slice());
        out.append(&mut more);
        proof {
            assert(segs_of(segs@).subrange(0, i + 1).drop_last() =~= segs_of(segs@).subrange(0, i as int));
        }
        i += 1;
    }
    out
}

impl SenimeState {
    /// A fresh state in the configured starting language.
    pub fn new(config: EngineConfig) -> (s: Self)
        ensures
            s@ == (StateView {
                input: Seq::empty(),
                chinese: config.default_chinese_mode,
                cfg: config,
                segments: Seq::empty(),
                preset: None,
                panel: blank_panel(),
            }),
    {
        let s = SenimeState {
            input: Vec::new(),
            chinese_mode: config.default_chinese_mode,
            config,
            segments: Vec::new(),
            preset: None,
            panel: Panel::new(),
        };
        assert(s@.segments =~= Seq::<SegTriple>::empty());
        s
    }

    /// Clears the keys typed and the panel, and returns to the starting language.
    pub fn reset(&mut self)
        ensures
            final(self)@ == (StateView {
                input: Seq::empty(),
                chinese: old(self)@.cfg.default_chinese_mode,
                segments: Seq::empty(),
                preset: None,
                panel: blank_panel(),
                ..old(self)@
            }),
    {
        self.reset_input();
        self.chinese_mode = self.config.default_chinese_mode;
    }

    /// Clears the keys typed and the panel; the language stays.
    pub fn reset_input(&mut self)
        ensures
            final(self)@ == (StateView {
                input: Seq::empty(),
                segments: Seq::empty(),
                preset: None,
                panel: blank_panel(),
                ..old(self)@
            }),
    {
        self.input = Vec::new();
        self.segments = Vec::new();
        self.preset = None;
        self.panel = Panel::new();
        assert(self@.segments =~= Seq::<SegTriple>::empty());
    }

    /// Sets the language, dropping the keys typed and the preset.
    pub fn set_chinese_mode(&mut self, chinese: bool)
        ensures
            final(self)@ == (StateView {
                input: Seq::empty(),
                segments: Seq::empty(),
                preset: None,
                chinese,
                ..old(self)@
            }),
    {
        self.input = Vec::new();
        self.segments = Vec::new();
        self.preset = None;
        self.chinese_mode = chinese;
        assert(self@.segments =~= Seq::<SegTriple>::empty());
    }

    /// Whether the state is in Chinese mode.
    pub fn is_chinese_mode(&self) -> (b: bool)
        ensures
            b == self@.chinese,
    {
        self.chinese_mode
    }

    /// What the panel is to show.
    pub fn panel(&self) -> (p: &Panel)
        ensures
            panel_view(*p) == self@.panel,
    {
        &self.panel
    }

    /// Empties the panel.
    pub fn clear_inner_state(&mut self)
        ensures
            final(self)@ == cleared(old(self)@),
    {
        self.panel = Panel::new();
    }

    fn commit(&mut self, text: &str)
        ensures
            final(self)@ == (StateView { panel: with_commit(old(self)@.panel, text@), ..old(self)@ }),
    {
        self.panel.set_commit(text);
    }

    fn preedit(&mut self, text: String)
        ensures
            final(self)@ == (StateView { panel: with_preedit(old(self)@.panel, text@), ..old(self)@ }),
    {
        self.panel.set_preedit(text);
    }

    fn aux_up(&mut self, text: &str)
        ensures
            final(self)@ == (StateView { panel: with_aux_up(old(self)@.panel, text@), ..old(self)@ }),
    {
        self.panel.set_aux_up(text);
    }

    fn candidates(&mut self, cands: &Option<Vec<CandidateRich>>)
        ensures
            final(self)@ == (StateView {
                panel: with_opt_candidates(
                    old(self)@.panel,
                    crate::input_analyzer::opt_rich_views(*cands),
                ),
                ..old(self)@
            }),
    {
        match cands {
            Some(c) => self.panel.set_candidates(c),
            None => {},
        }
    }

    /// Marks a segment looked up in a secondary table.
    fn mark_lookup(&mut self, seg: &(String, Vec<char>, Tag))
        ensures
            final(self)@ == (StateView { panel: lookup_aux(old(self)@.panel, (seg.0@, seg.1@, seg.2)), ..old(self)@ }),
    {
        match seg.2 {
            Tag::Code(sel) => {
                if sel.dict_idx > 0 {
                    self.aux_up("查");
                }
            },
            _ => {},
        }
    }

    /// The preedit of a segment's text and, for a code, its keys.
    fn make_preedit(&self, seg: &(String, Vec<char>, Tag)) -> (r: String)
        ensures
            r@ == preedit_of(self@.cfg, seg.0@, code_input((seg.0@, seg.1@, seg.2))),
    {
        let is_code = match seg.2 {
            Tag::Code(_) => true,
            _ => false,
        };
        let t = self.config.enable_text_preedit;
        let k = self.config.enable_input_preedit;
        if t && k {
            let mut out = String::new();
            string_append(&mut out, seg.0.as_str());
            if is_code {
                let keys = string_from_chars(seg.1.as_slice());
                string_append(&mut out, keys.as_str());
            } else {
                assert(out@ =~= seg.0@ + Seq::<char>::empty());
            }
            assert(out@ =~= Seq::<char>::empty() + seg.0@ + match code_input((seg.0@, seg.1@, seg.2)) {
                Some(i) => i,
                None => Seq::empty(),
            });
            out
        } else if !t && k && is_code {
            string_from_chars(seg.1.as_slice())
        } else if !t && !k {
            String::new()
        } else {
            let mut out = String::new();
            string_append(&mut out, seg.0.as_str());
            assert(out@ =~= seg.0@);
            out
        }
    }

    fn update_mode_just_commit(&mut self, result: AnalysisResult)
        ensures
            final(self)@ == mode_just_commit(old(self)@, analysis_view(result)),
    {
        let text = join_texts(&result.segments, result.segments.len());
        proof {
            assert(segs_of(result.segments@).subrange(0, result.segments@.len() as int) =~= analysis_view(
                result,
            ).segments);
        }
        self.input = Vec::new();
        self.segments = Vec::new();
        self.commit(text.as_str());
        assert(self@.segments =~= Seq::<SegTriple>::empty());
    }

    fn update_mode_temp_chinese(&mut self, result: AnalysisResult)
        requires
            result.segments@.len() > 0,
        ensures
            final(self)@ == mode_temp(old(self)@, analysis_view(result)),
    {
        let ghost a = analysis_view(result);
        let ghost st = self@;
        let n = result.segments.len();
        proof {
            assert(segs_of(result.segments@) =~= a.segments);
            assert(segs_of(result.segments@).subrange(0, n as int) =~= a.segments);
            assert(segs_of(result.segments@).subrange(0, n - 1) =~= a.segments.drop_last());
        }
        let ends = match self.config.trigger_chars {
            Some(t) => self.input.len() > 0 && self.input[self.input.len() - 1] == t.1,
            None => false,
        };
        if ends {
            let text = join_texts(&result.segments, n);
            self.input = Vec::new();
            self.segments = Vec::new();
            self.commit(text.as_str());
            assert(self@.segments =~= Seq::<SegTriple>::empty());
            return;
        }
        let mut pre = join_texts(&result.segments, n - 1);
        let last = &result.segments[n - 1];
        assert(a.segments.last() == (last.0@, last.1@, last.2));
        self.mark_lookup(last);
        let text = self.make_preedit(last);
        string_append(&mut pre, text.as_str());
        self.preedit(pre);
        if result.pending {
            self.candidates(&result.candidates);
        }
        self.segments = result.segments;
    }

    fn update_mode_sentence_flow(&mut self, result: AnalysisResult)
        requires
            result.segments@.len() > 0,
        ensures
            final(self)@ == mode_flow(old(self)@, analysis_view(result)),
    {
        let ghost a = analysis_view(result);
        let n = result.segments.len();
        proof {
            assert(segs_of(result.segments@) =~= a.segments);
            assert(segs_of(result.segments@).subrange(0, n - 1) =~= a.segments.drop_last());
        }
        let mut pre_text = join_texts(&result.segments, n - 1);
        let last = &result.segments[n - 1];
        assert(a.segments.last() == (last.0@, last.1@, last.2));
        self.mark_lookup(last);
        let last_flows = seg_flows(last);
        let pre_flows = if n == 1 {
            true
        } else {
            assert(a.segments.drop_last().last() == a.segments[n - 2]);
            seg_flows(&result.segments[n - 2])
        };
        if last_flows && pre_flows {
            let text = self.make_preedit(last);
            string_append(&mut pre_text, text.as_str());
            self.preedit(pre_text);
            self.candidates(&result.candidates);
            self.segments = result.segments;
        } else {
            self.commit(pre_text.as_str());
            if result.pending {
                let preedit = self.make_preedit(last);
                self.input = vstd::slice::slice_to_vec(last.1.as_slice());
                self.preedit(preedit);
            } else {
                self.input = Vec::new();
                self.commit(last.0.as_str());
            }
            self.candidates(&result.candidates);
            self.segments = Vec::new();
            assert(self@.segments =~= Seq::<SegTriple>::empty());
        }
    }

    fn update_mode_normal(&mut self, result: AnalysisResult)
        requires
            result.segments@.len() > 0,
        ensures
            final(self)@ == mode_normal(old(self)@, analysis_view(result)),
    {
        let ghost a = analysis_view(result);
        let n = result.segments.len();
        proof {
            assert(segs_of(result.segments@) =~= a.segments);
            assert(segs_of(result.segments@).subrange(0, n - 1) =~= a.segments.drop_last());
        }
        let pre_text = join_texts(&result.segments, n - 1);
        let last = &result.segments[n - 1];
        assert(a.segments.last() == (last.0@, last.1@, last.2));
        self.commit(pre_text.as_str());
        if result.pending {
            self.mark_lookup(last);
            let preedit = self.make_preedit(last);
            self.input = vstd::slice::slice_to_vec(last.1.as_slice());
            self.preedit(preedit);
            self.candidates(&result.candidates);
        } else {
            self.commit(last.0.as_str());
            self.input = Vec::new();
        }
    }

    /// Applies the preset to the keys typed; `true` when it handled them.
    fn do_preset(&mut self) -> (done: bool)
        ensures
            (done, final(self)@) == preset_step(old(self)@),
    {
        let ghost st = self@;
        match self.preset.take() {
            None => {
                return false;
            },
            Some(mut items) => {
                if items.len() == 0 {
                    return false;
                }
                let n = items.len();
                if self.input.len() <= items[n - 1].1 {
                    let shown = string_from_chars(self.input.as_slice());
                    self.preedit(shown);
                    self.preset = Some(items);
                    return true;
                }
                let item = items.pop().unwrap();
                self.input = Vec::new();
                self.segments = Vec::new();
                if items.len() > 0 {
                    self.preset = Some(items);
                }
                self.commit(item.0.as_str());
                proof {
                    assert(self@.segments =~= Seq::<SegTriple>::empty());
                    let rest = st.preset->0.drop_last();
                    if rest.len() > 0 {
                        assert(preset_of(self.preset)->0 =~= rest);
                    }
                }
                true
            },
        }
    }

    /// The keys typed without the trigger characters around them.
    fn trimmed_input(&self) -> (r: Vec<char>)
        ensures
            r@ == trim_triggers(self@.cfg, self@.input),
    {
        let s = self.input.as_slice();
        match self.config.trigger_chars {
            Some(t) => {
                let mut a: usize = 0;
                let mut b: usize = s.len();
                if b > 0 && s[0] == t.0 {
                    a = 1;
                }
                if b > a && s[b - 1] == t.1 {
                    b = b - 1;
                }
                let r = vstd::slice::slice_to_vec(vstd::slice::slice_subrange(s, a, b));
                proof {
                    let x = if s@.len() > 0 && s@[0] == t.0 {
                        s@.subrange(1, s@.len() as int)
                    } else {
                        s@
                    };
                    assert(x =~= s@.subrange(a as int, s@.len() as int));
                    if x.len() > 0 && x.last() == t.1 {
                        assert(r@ =~= x.drop_last());
                    } else {
                        assert(r@ =~= x);
                    }
                }
                r
            },
            None => vstd::slice::slice_to_vec(s),
        }
    }

    /// Analyses the keys typed and updates the state and the panel.
    fn do_update(&mut self, engine: &InputAnalyzer, temp: bool, just_commit: bool)
        requires
            engine.well_formed(),
        ensures
            final(self)@ == update_spec(*engine, old(self)@, temp, just_commit),
    {
        if self.do_preset() {
            return;
        }
        let chars = if temp {
            self.trimmed_input()
        } else {
            vstd::slice::slice_to_vec(self.input.as_slice())
        };
        if chars.len() == 0 {
            if self.input.len() == 2 {
                let mut first = String::new();
                string_push(&mut first, self.input[0]);
                assert(first@ =~= seq![self@.input[0]]);
                self.input = Vec::new();
                self.segments = Vec::new();
                self.commit(first.as_str());
                assert(self@.segments =~= Seq::<SegTriple>::empty());
            } else {
                let shown = string_from_chars(self.input.as_slice());
                self.preedit(shown);
            }
            return;
        }
        let result = engine.analyze(chars.as_slice());
        if result.segments.len() == 0 {
            self.input = Vec::new();
            self.segments = Vec::new();
            assert(self@.segments =~= Seq::<SegTriple>::empty());
            return;
        }
        if just_commit {
            self.update_mode_just_commit(result);
        } else if temp {
            self.update_mode_temp_chinese(result);
        } else if self.config.sentence_flow {
            self.update_mode_sentence_flow(result);
        } else {
            self.update_mode_normal(result);
        }
    }
}

impl SenimeState {
    /// The keys left after a backspace, and whether there were keys to take back: in
    /// sentence flow or a stretch of Chinese, the keys of the segments before the last
    /// one with text; else the keys without the last one.
    fn backspace_keys(&self, temp: bool) -> (r: (bool, Vec<char>))
        ensures
            r.0 == (self@.input.len() > 0),
            r.1@ == (if (temp || self@.cfg.sentence_flow) && self@.input.len() > 0
                && self@.segments.len() > 0 {
                let prev = joined_inputs(
                    self@.segments.subrange(0, last_text_index(self@.segments, self@.segments.len() as int)),
                );
                if temp && self@.cfg.trigger_chars is Some {
                    seq![trigger_pair(self@.cfg).0] + prev
                } else {
                    prev
                }
            } else if self@.input.len() > 0 {
                pop_key(self@.input)
            } else {
                self@.input
            }),
    {
        let ghost st = self@;
        if (temp || self.config.sentence_flow) && self.input.len() > 0 && self.segments.len() > 0 {
            let mut k = self.segments.len();
            let mut trim_idx: usize = 0;
            let mut found = false;
            while k > 0 && !found
                invariant
                    k <= self.segments@.len(),
                    self@ == st,
                    !found ==> last_text_index(st.segments, st.segments.len() as int) == last_text_index(
                        st.segments,
                        k as int,
                    ),
                    found ==> trim_idx == last_text_index(st.segments, st.segments.len() as int),
                    !found ==> trim_idx == 0,
                    trim_idx <= self.segments@.len(),
                decreases k + (if found {
                    0int
                } else {
                    1int
                }),
            {
                if !self.segments[k - 1].0.as_str().is_empty() {
                    trim_idx = k - 1;
                    found = true;
                } else {
                    k -= 1;
                }
            }
            proof {
                if !found {
                    assert(last_text_index(st.segments, 0) == 0);
                }
                lemma_last_text_index_bound(st.segments, st.segments.len() as int);
            }
            let mut prev = join_inputs(&self.segments, trim_idx);
            if temp {
                match self.config.trigger_chars {
                    Some(t) => {
                        prev.insert(0, t.0);
                    },
                    None => {},
                }
            }
            proof {
                if temp && st.cfg.trigger_chars is Some {
                    assert(prev@ =~= seq![trigger_pair(st.cfg).0] + joined_inputs(
                        st.segments.subrange(0, trim_idx as int),
                    ));
                }
            }
            (true, prev)
        } else if self.input.len() > 0 {
            let mut inp = vstd::slice::slice_to_vec(self.input.as_slice());
            let ghost orig = inp@;
            loop
                invariant_except_break
                    pop_key(orig) == pop_key(inp@),
                ensures
                    inp@ == pop_key(orig),
                decreases inp@.len(),
            {
                let ghost before = inp@;
                match inp.pop() {
                    Some(ch) => {
                        assert(before.drop_last() == inp@ && before.last() == ch);
                        if ch != PAGE_UP && ch != PAGE_DOWN {
                            break;
                        }
                    },
                    None => {
                        break;
                    },
                }
            }
            (true, inp)
        } else {
            (false, vstd::slice::slice_to_vec(self.input.as_slice()))
        }
    }

    /// How a key acts in Chinese mode (or in a stretch of Chinese when `temp`).
    #[verifier::rlimit(40)]
    #[verifier::spinoff_prover]
    fn chinese_mode(&mut self, engine: &InputAnalyzer, sym: u32, states: u32, temp: bool) -> (r:
        KeyOutcome)
        requires
            engine.well_formed(),
        ensures
            (r, final(self)@) == chinese_step(*engine, old(self)@, sym, states, temp),
    {
        let no = KeyOutcome { accepted: false, load_preset: false };
        let yes = KeyOutcome { accepted: true, load_preset: false };
        if sym == KEY_C && states == MOD_ALT {
            self.clear_inner_state();
            return KeyOutcome { accepted: true, load_preset: true };
        }
        let other = states & !(MOD_SHIFT | MOD_CAPSLOCK | MOD_NUMLOCK);
        if other != 0 {
            self.clear_inner_state();
            if self.input.len() > 0 {
                let typed = string_from_chars(self.input.as_slice());
                self.commit(typed.as_str());
            }
            self.input = Vec::new();
            self.segments = Vec::new();
            proof {
                assert(self@.input =~= Seq::<char>::empty());
                assert(self@.segments =~= Seq::<SegTriple>::empty());
            }
            return no;
        }
        if sym == KEY_ESCAPE {
            self.clear_inner_state();
            self.chinese_mode = false;
            self.reset_input();
            self.panel.update_status_area = true;
            return no;
        }
        if sym == KEY_RETURN {
            self.clear_inner_state();
            self.do_update(engine, temp, true);
            return no;
        }
        if sym == KEY_BACKSPACE {
            let (accept, keys) = self.backspace_keys(temp);
            self.clear_inner_state();
            self.input = keys;
            self.do_update(engine, temp, false);
            return KeyOutcome { accepted: accept, load_preset: false };
        }
        if (sym == KEY_PAGE_UP || sym == KEY_KP_PAGE_UP) && self.input.len() > 0 {
            self.clear_inner_state();
            self.input.push(PAGE_UP);
            self.do_update(engine, temp, false);
            return yes;
        }
        if (sym == KEY_PAGE_DOWN || sym == KEY_KP_PAGE_DOWN) && self.input.len() > 0 {
            self.clear_inner_state();
            self.input.push(PAGE_DOWN);
            self.do_update(engine, temp, false);
            return yes;
        }
        match keysym_to_char(sym) {
            Some(ch) => {
                self.clear_inner_state();
                self.input.push(ch);
                self.do_update(engine, temp, false);
                yes
            },
            None => {
                self.panel.commit = None;
                no
            },
        }
    }

    /// Handles a key event: returns whether the engine took the key and whether the
    /// preset is to be loaded; the panel to show is in `panel()`.
    #[verifier::rlimit(40)]
    #[verifier::spinoff_prover]
    pub fn key_event(&mut self, engine: &InputAnalyzer, key: &SenimeKeyEvent) -> (r: KeyOutcome)
        requires
            engine.well_formed(),
        ensures
            (r, final(self)@) == key_step(*engine, old(self)@, *key),
    {
        let toggle = self.config.toggle_key;
        if key.sym == toggle.sym && key.states == toggle.modifier {
            self.clear_inner_state();
            if self.chinese_mode {
                if self.config.sentence_flow && self.segments.len() > 0 {
                    let text = join_texts(&self.segments, self.segments.len());
                    proof {
                        assert(segs_of(self.segments@).subrange(0, self.segments@.len() as int) =~= segs_of(
                            self.segments@,
                        ));
                    }
                    self.commit(text.as_str());
                } else {
                    let text = string_from_chars(self.input.as_slice());
                    self.commit(text.as_str());
                }
                self.chinese_mode = false;
                self.input = Vec::new();
                self.segments = Vec::new();
                self.preset = None;
                self.aux_up("En");
                assert(self@.segments =~= Seq::<SegTriple>::empty());
            } else {
                self.chinese_mode = true;
                self.aux_up("中");
            }
            self.panel.update_status_area = true;
            return KeyOutcome { accepted: !key.is_release, load_preset: false };
        }
        if !self.chinese_mode {
            match self.config.trigger_chars {
                Some(t) => {
                    if self.input.len() > 0 && self.input[0] == t.0 {
                        return self.chinese_mode(engine, key.sym, key.states, true);
                    }
                    match keysym_to_char(key.sym) {
                        Some(ch) => {
                            if ch == t.0 {
                                self.clear_inner_state();
                                self.input.push(ch);
                                self.aux_up("中");
                                return KeyOutcome { accepted: true, load_preset: false };
                            }
                        },
                        None => {},
                    }
                },
                None => {},
            }
            self.clear_inner_state();
            return KeyOutcome { accepted: false, load_preset: false };
        }
        self.chinese_mode(engine, key.sym, key.states, false)
    }

    /// Installs a preset loaded on request (`None` when none could be loaded, which
    /// keeps the current one), and marks the panel when a preset is active.
    pub fn apply_preset(&mut self, items: Option<Vec<(String, usize)>>)
        ensures
            final(self)@ == ({
                let p = if items is Some {
                    preset_of(items)
                } else {
                    old(self)@.preset
                };
                StateView {
                    preset: p,
                    panel: if p is Some {
                        with_aux_up(old(self)@.panel, "[预设启用]"@)
                    } else {
                        old(self)@.panel
                    },
                    ..old(self)@
                }
            }),
    {
        if items.is_some() {
            self.preset = items;
        }
        if self.preset.is_some() {
            self.aux_up("[预设启用]");
        }
    }
}

proof fn lemma_last_text_index_bound(segs: Seq<SegTriple>, n: int)
    requires
        0 <= n,
    ensures
        0 <= last_text_index(segs, n) <= n,
    decreases n,
{
    if n > 0 {
        lemma_last_text_index_bound(segs, n - 1);
    }
}

/// The items of a preset, in the order they are typed: each text with the number of
/// keys of its code; `None` when there are none. The result holds the last item
/// first.
pub fn preset_items(entries: Vec<(String, String)>) -> (r: Option<Vec<(String, usize)>>)
    ensures
        entries@.len() == 0 ==> r is None,
        entries@.len() > 0 ==> r is Some && preset_of(r) == Some(
            Seq::new(
                entries@.len(),
                |i: int|
                    (
                        entries@[entries@.len() - 1 - i].0@,
                        entries@[entries@.len() - 1 - i].1@.len() as usize,
                    ),
            ),
        ),
{
    let n = entries.len();
    if n == 0 {
        return None;
    }
    let mut out: Vec<(String, usize)> = Vec::new();
    let mut k = n;
    while k > 0
        invariant
            k <= n == entries@.len(),
            out@.len() == n - k,
            forall|i: int|
                0 <= i < n - k ==> (#[trigger] out@[i]).0@ == entries@[n - 1 - i].0@ && out@[i].1
                    == entries@[n - 1 - i].1@.len(),
        decreases k,
    {
        k -= 1;
        let text = entries[k].0.clone();
        let len = crate::text::chars_of(entries[k].1.as_str()).len();
        out.push((text, len));
    }
    let r = Some(out);
    proof {
        assert(preset_of(r)->0 =~= Seq::new(
            entries@.len(),
            |i: int|
                (
                    entries@[entries@.len() - 1 - i].0@,
                    entries@[entries@.len() - 1 - i].1@.len() as usize,
                ),
        ));
    }
    r
}

/// A preset file as plain values: for each element of its `codes` array, the strings
/// at `text` and at `code` (each `None` when absent or not a string); `None` when
/// `codes` is missing or not an array.
pub type PresetFileView = Option<Seq<(Option<Seq<char>>, Option<Seq<char>>)>>;

/// What `serde_json::from_str::<serde_json::Value>` reads from a preset file, taken
/// apart as `PresetFileView` says (`Value::as_array`, `Value::as_str`), or serde_json's
/// message when the file is not JSON.
pub uninterp spec fn preset_file(content: Seq<char>) -> Result<PresetFileView, Seq<char>>;

/// The entries of a preset file as plain values.
pub open spec fn entry_views(v: Seq<(Option<String>, Option<String>)>) -> Seq<
    (Option<Seq<char>>, Option<Seq<char>>),
> {
    Seq::new(
        v.len(),
        |i: int|
            (
                match v[i].0 {
                    Some(t) => Some(t@),
                    None => None,
                },
                match v[i].1 {
                    Some(c) => Some(c@),
                    None => None,
                },
            ),
    )
}

/// `serde_json::from_str::<serde_json::Value>` of a preset file, then the `text` and
/// `code` strings of each element of its `codes` array; on a parse error, its message.
#[verifier::external_body]
fn parse_preset_file(content: &str) -> (r: Result<Option<Vec<(Option<String>, Option<String>)>>, String>)
    ensures
        match r {
            Ok(None) => preset_file(content@) == Ok::<PresetFileView, Seq<char>>(None),
            Ok(Some(v)) => preset_file(content@) == Ok::<PresetFileView, Seq<char>>(Some(entry_views(v@))),
            Err(m) => preset_file(content@) == Err::<PresetFileView, Seq<char>>(m@),
        },
{
    let v: serde_json::Value = match serde_json::from_str(content) {
        Ok(v) => v,
        Err(e) => return Err(e.to_string()),
    };
    let codes = match v["codes"].as_array() {
        Some(a) => a,
        None => return Ok(None),
    };
    Ok(Some(codes.iter().map(|e| (e["text"].as_str().map(String::from), e["code"].as_str().map(String::from))).collect()))
}

/// The entries that have both a text and a code, in order.
pub open spec fn complete_entries(es: Seq<(Option<Seq<char>>, Option<Seq<char>>)>) -> Seq<
    (Seq<char>, Seq<char>),
>
    decreases es.len(),
{
    if es.len() == 0 {
        Seq::empty()
    } else {
        let r = complete_entries(es.drop_last());
        match es.last() {
            (Some(t), Some(c)) => r.push((t, c)),
            _ => r,
        }
    }
}

/// Why a preset file gives no preset.
#[derive(Debug)]
pub enum PresetFileError {
    /// The file is not JSON; serde_json's message.
    NotJson(String),
    /// It has no `codes` array.
    NoCodes,
    /// No element of `codes` has both a text and a code.
    NoEntries,
}

/// The preset that a preset file gives: from the elements of its `codes` array that
/// have both a text and a code, the items of `preset_items`.
pub fn preset_from_file(content: &str) -> (r: Result<Vec<(String, usize)>, PresetFileError>)
    ensures
        match preset_file(content@) {
            Err(m) => r matches Err(PresetFileError::NotJson(e)) && e@ == m,
            Ok(None) => r matches Err(PresetFileError::NoCodes),
            Ok(Some(es)) => {
                let ce = complete_entries(es);
                if ce.len() == 0 {
                    r matches Err(PresetFileError::NoEntries)
                } else {
                    r matches Ok(v) && preset_of(Some(v)) == Some(
                        Seq::new(
                            ce.len(),
                            |i: int| (ce[ce.len() - 1 - i].0, ce[ce.len() - 1 - i].1.len() as usize),
                        ),
                    )
                }
            },
        },
{
    let es = match parse_preset_file(content) {
        Err(m) => return Err(PresetFileError::NotJson(m)),
        Ok(None) => return Err(PresetFileError::NoCodes),
        Ok(Some(es)) => es,
    };
    let ghost ev = entry_views(es@);
    let mut entries: Vec<(String, String)> = Vec::new();
    let mut i: usize = 0;
    while i < es.len()
        invariant
            i <= es@.len(),
            ev == entry_views(es@),
            entries@.len() == complete_entries(ev.subrange(0, i as int)).len(),
            forall|k: int|
                0 <= k < entries@.len() ==> (#[trigger] entries@[k]).0@ == complete_entries(
                    ev.subrange(0, i as int),
                )[k].0 && entries@[k].1@ == complete_entries(ev.subrange(0, i as int))[k].1,
        decreases es@.len() - i,
    {
        proof {
            assert(ev.subrange(0, i + 1).drop_last() =~= ev.subrange(0, i as int));
            assert(ev.subrange(0, i + 1).last() == ev[i as int]);
        }
        match &es[i] {
            (Some(t), Some(c)) => {
                entries.push((t.clone(), c.clone()));
            },
            _ => {},
        }
        i += 1;
    }
    proof {
        assert(ev.subrange(0, es@.len() as int) =~= ev);
    }
    match preset_items(entries) {
        Some(v) => {
            proof {
                let ce = complete_entries(ev);
                assert(Seq::new(
                    entries@.len(),
                    |i: int|
                        (
                            entries@[entries@.len() - 1 - i].0@,
                            entries@[entries@.len() - 1 - i].1@.len() as usize,
                        ),
                ) =~= Seq::new(
                    ce.len(),
                    |i: int| (ce[ce.len() - 1 - i].0, ce[ce.len() - 1 - i].1.len() as usize),
                ));
            }
            Ok(v)
        },
        None => Err(PresetFileError::NoEntries),
    }
}

/// Whether a segment lets a sentence flow on.
fn seg_flows(seg: &(String, Vec<char>, Tag)) -> (b: bool)
    ensures
        b == flows((seg.0@, seg.1@, seg.2)),
{
    match seg.2 {
        Tag::Code(_) => true,
        Tag::Unknown => seg.0.as_str().is_empty(),
        _ => false,
    }
}


/// The switch key flips the language. Leaving Chinese commits what was typed (the
/// texts of the segments in sentence flow when there are any, else the keys), shows
/// `En` and drops everything typed; entering it commits nothing and shows `中`.
/// Nothing else shows on the panel.
pub proof fn lemma_toggle_flips(eng: InputAnalyzer, st: StateView, key: SenimeKeyEvent)
    requires
        key.sym == st.cfg.toggle_key.sym,
        key.states == st.cfg.toggle_key.modifier,
    ensures
        key_step(eng, st, key).1.chinese == !st.chinese,
        key_step(eng, st, key).0.accepted == !key.is_release,
        st.chinese ==> key_step(eng, st, key).1.input.len() == 0 && key_step(eng, st, key).1.preset is None
            && key_step(eng, st, key).1.segments.len() == 0,
        key_step(eng, st, key).1.panel.update_status_area,
        st.chinese ==> key_step(eng, st, key).1.panel.aux_up == Some("En"@),
        !st.chinese ==> key_step(eng, st, key).1.panel.aux_up == Some("中"@),
        st.chinese ==> key_step(eng, st, key).1.panel.commit == ({
            let text = if st.cfg.sentence_flow && st.segments.len() > 0 {
                joined_texts(st.segments)
            } else {
                st.input
            };
            if text.len() > 0 {
                Some(text)
            } else {
                None
            }
        }),
        !st.chinese ==> key_step(eng, st, key).1.panel.commit is None,
        key_step(eng, st, key).1.panel.preedit is None,
        key_step(eng, st, key).1.panel.aux_down is None,
        key_step(eng, st, key).1.panel.candidates.len() == 0,
{
    reveal_strlit("En");
    reveal_strlit("中");
}
} // verus!
