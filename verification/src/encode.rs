use vstd::prelude::*;

use crate::input_analyzer::PAGE_DOWN;
use crate::lookup_code::Segment;
use crate::text::{chars_of, string_from_chars, string_push};

verus! {

/// A word of an encoded text as it is reported: its text and code, its position among
/// the candidates of its code, whether it commits itself, the page it is on and the
/// key that selects it there.
#[derive(Debug)]
pub struct AnSegment {
    pub text: String,
    pub code: String,
    pub pos: u16,
    pub auto_select: bool,
    pub page_num: usize,
    pub select_key: char,
}

/// The key that selects the candidate at `idx` of a page: the selection key there, or
/// the digit-like character `'0' + idx` past the selection keys.
pub open spec fn key_for(keys: Seq<char>, idx: int) -> char {
    if 0 <= idx < keys.len() {
        keys[idx]
    } else {
        ((idx % 256) + 48) as char
    }
}

/// Reports `seg`: its page and selection key come from its position, `page_count`
/// candidates per page.
pub fn map_an_segment(selection_keys: &[char], page_count: usize, seg: Segment) -> (a: AnSegment)
    requires
        page_count > 0,
        (seg.pos as int) % (page_count as int) < selection_keys@.len() || ((seg.pos as int) % (
        page_count as int)) % 256 + 48 <= 255,
    ensures
        a.text@ == seg.text@,
        a.code@ == seg.code@,
        a.auto_select == seg.auto_select,
        a.pos == seg.pos,
        a.page_num == (seg.pos as int) / (page_count as int),
        a.select_key == key_for(selection_keys@, (seg.pos as int) % (page_count as int)),
{
    let pos = seg.pos as usize;
    let page_num = pos / page_count;
    let idx_modded = pos % page_count;
    let select_key = if idx_modded < selection_keys.len() {
        selection_keys[idx_modded]
    } else {
        let low = (idx_modded % 256) as u8;
        (low + 48u8) as char
    };
    AnSegment {
        text: string_from_chars(&seg.text),
        code: string_from_chars(&seg.code),
        auto_select: seg.auto_select,
        pos: seg.pos,
        page_num,
        select_key,
    }
}

/// Appends the characters of `s`.
fn push_chars(w: &mut String, s: &[char])
    ensures
        final(w)@ == old(w)@ + s@,
{
    let ghost start = w@;
    let mut i: usize = 0;
    while i < s.len()
        invariant
            i <= s@.len(),
            w@ == start + s@.subrange(0, i as int),
        decreases s@.len() - i,
    {
        string_push(w, s[i]);
        i += 1;
        assert(w@ =~= start + s@.subrange(0, i as int));
    }
    assert(s@.subrange(0, i as int) =~= s@);
}

/// `n` page-down keys.
pub open spec fn page_keys(n: nat) -> Seq<char> {
    Seq::new(n, |i: int| PAGE_DOWN)
}

impl AnSegment {
    /// What `write` appends: the color (picked by `i`), the text if asked for, the code,
    /// a page-down key per page, then a space (or `alt_space`) for a word that does
    /// not commit itself, or the selection key for a candidate past the first.
    pub open spec fn written(
        &self,
        with_text: bool,
        alt_space: Option<Seq<char>>,
        colors: Option<Seq<Seq<char>>>,
        i: int,
    ) -> Seq<char> {
        let color = match colors {
            Some(cs) => cs[i % cs.len() as int],
            None => Seq::empty(),
        };
        let text = if with_text {
            self.text@
        } else {
            Seq::empty()
        };
        let ending = if !self.auto_select && self.pos == 0 {
            match alt_space {
                Some(a) => a,
                None => seq![' '],
            }
        } else if self.pos > 0 {
            seq![self.select_key]
        } else {
            Seq::empty()
        };
        color + text + self.code@ + page_keys(self.page_num as nat) + ending
    }

    /// Appends the encoded word to `writer` (see `written`).
    pub fn write(
        &self,
        writer: &mut String,
        with_text: bool,
        alt_space: Option<&String>,
        colors: Option<&Vec<&str>>,
        i: usize,
    )
        requires
            colors matches Some(cs) ==> cs@.len() > 0,
        ensures
            final(writer)@ == old(writer)@ + self.written(
                with_text,
                match alt_space {
                    Some(a) => Some(a@),
                    None => None,
                },
                match colors {
                    Some(cs) => Some(Seq::new(cs@.len(), |k: int| cs@[k]@)),
                    None => None,
                },
                i as int,
            ),
    {
        let ghost start = writer@;
        let ghost mut expect: Seq<char> = Seq::empty();
        if let Some(cs) = colors {
            let c = cs[i % cs.len()];
            push_chars(writer, &chars_of(c));
            proof {
                expect = c@;
            }
        }
        if with_text {
            push_chars(writer, &chars_of(self.text.as_str()));
            proof {
                expect = expect + self.text@;
            }
        }
        push_chars(writer, &chars_of(self.code.as_str()));
        proof {
            expect = expect + self.code@;
        }
        let mut p: usize = 0;
        while p < self.page_num
            invariant
                p <= self.page_num,
                writer@ == start + expect + page_keys(p as nat),
            decreases self.page_num - p,
        {
            string_push(writer, PAGE_DOWN);
            p += 1;
            assert(writer@ =~= start + expect + page_keys(p as nat));
        }
        proof {
            expect = expect + page_keys(self.page_num as nat);
        }
        if !self.auto_select && self.pos == 0 {
            match alt_space {
                Some(alt) => {
                    push_chars(writer, &chars_of(alt.as_str()));
                },
                None => {
                    string_push(writer, ' ');
                },
            }
        } else if self.pos > 0 {
            string_push(writer, self.select_key);
        }
        proof {
            let cs_view = match colors {
                Some(cs) => Some(Seq::new(cs@.len(), |k: int| cs@[k]@)),
                None => None,
            };
            let alt_view = match alt_space {
                Some(a) => Some(a@),
                None => None,
            };
            assert(writer@ =~= start + self.written(with_text, alt_view, cs_view, i as int));
        }
    }
}

/// Number of words that need a space, number that need a selection key, and the
/// characters of their codes, over `segs`.
pub open spec fn stats_of(segs: Seq<Segment>) -> (int, int, int)
    decreases segs.len(),
{
    if segs.len() == 0 {
        (0, 0, 0)
    } else {
        let (sp, cand, len) = stats_of(segs.drop_last());
        let s = segs.last();
        let sp2 = if !s.auto_select && s.pos == 0 {
            sp + 1
        } else {
            sp
        };
        let cand2 = if !(!s.auto_select && s.pos == 0) && s.pos > 0 {
            cand + 1
        } else {
            cand
        };
        (sp2, cand2, len + s.code@.len())
    }
}

/// The space presses of an encoding are its words that are first candidates and do
/// not commit themselves; the selections are its words past the first candidate; a
/// word that commits itself counts in neither.
pub proof fn lemma_stats_are_counts(segs: Seq<Segment>)
    ensures
        stats_of(segs).0 == segs.filter(|s: Segment| !s.auto_select && s.pos == 0).len(),
        stats_of(segs).1 == segs.filter(|s: Segment| s.pos > 0).len(),
        stats_of(segs).0 + stats_of(segs).1 <= segs.len(),
    decreases segs.len(),
{
    reveal(Seq::filter);
    if segs.len() > 0 {
        lemma_stats_are_counts(segs.drop_last());
    }
}

/// The counts of two encodings one after the other add up, and a single word
/// takes the keys of its code.
pub proof fn lemma_stats_add(a: Seq<Segment>, b: Seq<Segment>)
    ensures
        stats_of(a + b).0 == stats_of(a).0 + stats_of(b).0,
        stats_of(a + b).1 == stats_of(a).1 + stats_of(b).1,
        stats_of(a + b).2 == stats_of(a).2 + stats_of(b).2,
        b.len() == 1 ==> stats_of(b).2 == b[0].code@.len(),
    decreases b.len(),
{
    if b.len() == 0 {
        assert(a + b =~= a);
    } else {
        lemma_stats_add(a, b.drop_last());
        assert((a + b).drop_last() =~= a + b.drop_last());
        assert((a + b).last() == b.last());
        if b.len() == 1 {
            assert(b.drop_last() =~= Seq::<Segment>::empty());
        }
    }
}

/// The counts of an encoding: words committed with a space, words selected among
/// candidates, and the keys typed (the codes plus one key for each of those).
pub fn segment_stats(segments: &Vec<Segment>) -> (r: (u32, u32, usize))
    requires
        segments@.len() <= u32::MAX,
        stats_of(segments@).2 + segments@.len() <= usize::MAX,
    ensures
        r.0 == stats_of(segments@).0,
        r.1 == stats_of(segments@).1,
        r.2 == stats_of(segments@).2 + stats_of(segments@).0 + stats_of(segments@).1,
{
    let mut use_space_times: u32 = 0;
    let mut use_candidate_times: u32 = 0;
    let mut code_len: usize = 0;
    let mut i: usize = 0;
    while i < segments.len()
        invariant
            i <= segments@.len(),
            segments@.len() <= u32::MAX,
            stats_of(segments@).2 + segments@.len() <= usize::MAX,
            use_space_times == stats_of(segments@.subrange(0, i as int)).0,
            use_candidate_times == stats_of(segments@.subrange(0, i as int)).1,
            code_len == stats_of(segments@.subrange(0, i as int)).2,
            use_space_times + use_candidate_times <= i,
        decreases segments@.len() - i,
    {
        proof {
            assert(segments@.subrange(0, i + 1).drop_last() =~= segments@.subrange(0, i as int));
            lemma_stats_grow(segments@, i + 1);
        }
        let seg = &segments[i];
        code_len = code_len + seg.code.len();
        if !seg.auto_select && seg.pos == 0 {
            use_space_times = use_space_times + 1;
        } else if seg.pos > 0 {
            use_candidate_times = use_candidate_times + 1;
        }
        i += 1;
    }
    assert(segments@.subrange(0, i as int) =~= segments@);
    code_len = code_len + use_space_times as usize;
    code_len = code_len + use_candidate_times as usize;
    (use_space_times, use_candidate_times, code_len)
}

proof fn lemma_stats_grow(segs: Seq<Segment>, k: int)
    requires
        0 <= k <= segs.len(),
    ensures
        stats_of(segs.subrange(0, k)).2 <= stats_of(segs).2,
        0 <= stats_of(segs.subrange(0, k)).0,
        0 <= stats_of(segs.subrange(0, k)).1,
        stats_of(segs.subrange(0, k)).0 + stats_of(segs.subrange(0, k)).1 <= k,
    decreases segs.len() - k,
{
    if k < segs.len() {
        lemma_stats_grow(segs, k + 1);
        assert(segs.subrange(0, k + 1).drop_last() =~= segs.subrange(0, k));
    } else {
        assert(segs.subrange(0, k) =~= segs);
    }
    lemma_stats_counts(segs.subrange(0, k));
}

proof fn lemma_stats_counts(segs: Seq<Segment>)
    ensures
        0 <= stats_of(segs).0,
        0 <= stats_of(segs).1,
        0 <= stats_of(segs).2,
        stats_of(segs).0 + stats_of(segs).1 <= segs.len(),
    decreases segs.len(),
{
    if segs.len() > 0 {
        lemma_stats_counts(segs.drop_last());
    }
}

} // verus!
