use vstd::prelude::*;

use std::ops::Range;

verus! {

/// A move of the insertion point.
#[derive(PartialEq, Eq, Structural, Clone, Copy, Debug)]
pub enum Movement {
    Left,
    Right,
    Up,
    Down,
}

/// The text being typed, kept in parts so that typing in the middle stays cheap:
/// `chars` is split at `append_at`; what is typed there goes to `appends`, then comes
/// the `pending` text still being composed (with the keys that produced it). The text
/// reads `chars[..append_at]`, `appends`, `pending`, `chars[append_at..]`.
#[derive(Debug)]
pub struct Sentence {
    chars: Vec<char>,
    appends: Vec<char>,
    append_at: usize,
    pending: Vec<char>,
    pending_origin: Vec<char>,
}

/// `a[..k] + mid + a[k..]`.
pub open spec fn insert_at(a: Seq<char>, k: int, mid: Seq<char>) -> Seq<char> {
    a.subrange(0, k) + mid + a.subrange(k, a.len() as int)
}

/// `x` limited to `n`.
pub open spec fn clamp(x: int, n: int) -> int {
    if x < n {
        x
    } else {
        n
    }
}

/// The local bounds of the window `[x, ...)` within a segment `[s, s + n)`.
pub open spec fn local(x: int, s: int, n: int) -> int {
    clamp(
        if x < s {
            s
        } else {
            x
        },
        s + n,
    ) - s
}

proof fn lemma_two(x: Seq<char>, y: Seq<char>, lo: int, hi: int)
    requires
        0 <= lo <= hi <= x.len() + y.len(),
    ensures
        (x + y).subrange(lo, hi) == x.subrange(local(lo, 0, x.len() as int), local(hi, 0, x.len() as int))
            + y.subrange(local(lo, x.len() as int, y.len() as int), local(hi, x.len() as int, y.len() as int)),
{
    let n = x.len() as int;
    assert((x + y).subrange(lo, hi) =~= x.subrange(local(lo, 0, n), local(hi, 0, n)) + y.subrange(
        local(lo, n, y.len() as int),
        local(hi, n, y.len() as int),
    ));
}

/// Copies `s[a..b]` onto the end of `v`.
fn push_range(v: &mut Vec<char>, s: &Vec<char>, a: usize, b: usize)
    requires
        a <= b <= s@.len(),
    ensures
        final(v)@ == old(v)@ + s@.subrange(a as int, b as int),
{
    let ghost start = v@;
    let mut i = a;
    while i < b
        invariant
            a <= i <= b <= s@.len(),
            v@ == start + s@.subrange(a as int, i as int),
        decreases b - i,
    {
        v.push(s[i]);
        i += 1;
        assert(v@ =~= start + s@.subrange(a as int, i as int));
    }
}

impl Sentence {
    pub closed spec fn chars_view(&self) -> Seq<char> {
        self.chars@
    }

    pub closed spec fn appends_view(&self) -> Seq<char> {
        self.appends@
    }

    pub closed spec fn at_view(&self) -> usize {
        self.append_at
    }

    pub closed spec fn pending_view(&self) -> Seq<char> {
        self.pending@
    }

    pub closed spec fn origin_view(&self) -> Seq<char> {
        self.pending_origin@
    }

    /// The insertion point lies within `chars`.
    pub open spec fn wf(&self) -> bool {
        self.at_view() <= self.chars_view().len()
    }

    /// The whole text.
    pub open spec fn content(&self) -> Seq<char> {
        insert_at(
            self.chars_view(),
            self.at_view() as int,
            self.appends_view() + self.pending_view(),
        )
    }

    /// The length of the whole text.
    pub open spec fn total(&self) -> int {
        (self.chars_view().len() + self.appends_view().len() + self.pending_view().len()) as int
    }

    /// An empty sentence.
    pub fn new() -> (s: Self)
        ensures
            s.chars_view().len() == 0,
            s.appends_view().len() == 0,
            s.pending_view().len() == 0,
            s.origin_view().len() == 0,
            s.at_view() == 0,
    {
        Sentence {
            chars: Vec::new(),
            appends: Vec::new(),
            append_at: 0,
            pending: Vec::new(),
            pending_origin: Vec::new(),
        }
    }

    /// Number of characters of the text.
    pub fn len(&self) -> (n: usize)
        requires
            self.total() <= usize::MAX,
        ensures
            n == self.total(),
    {
        self.chars.len() + self.appends.len() + self.pending.len()
    }

    /// Where the pending text ends.
    pub fn pending_end(&self) -> (n: usize)
        requires
            self.at_view() + self.appends_view().len() + self.pending_view().len() <= usize::MAX,
        ensures
            n == self.at_view() + self.appends_view().len() + self.pending_view().len(),
    {
        self.append_at + self.appends.len() + self.pending.len()
    }

    /// Where the typed characters end.
    pub fn append_end(&self) -> (n: usize)
        requires
            self.at_view() + self.appends_view().len() <= usize::MAX,
        ensures
            n == self.at_view() + self.appends_view().len(),
    {
        self.append_at + self.appends.len()
    }

    /// The whole text.
    pub fn get_chars(&self) -> (r: Vec<char>)
        requires
            self.wf(),
        ensures
            r@ == self.content(),
    {
        let mut r: Vec<char> = Vec::new();
        push_range(&mut r, &self.chars, 0, self.append_at);
        push_range(&mut r, &self.appends, 0, self.appends.len());
        push_range(&mut r, &self.pending, 0, self.pending.len());
        push_range(&mut r, &self.chars, self.append_at, self.chars.len());
        assert(self.appends@.subrange(0, self.appends@.len() as int) =~= self.appends@);
        assert(self.pending@.subrange(0, self.pending@.len() as int) =~= self.pending@);
        assert(r@ =~= self.content());
        r
    }

    /// Moves the insertion point to `at`. Characters typed at the old point are first
    /// put into the text there, together with the pending text (whose keys are then
    /// dropped); with nothing typed, the pending text stays as it is.
    pub fn set_append_at(&mut self, at: usize)
        requires
            old(self).appends_view().len() > 0 ==> old(self).wf(),
        ensures
            old(self).appends_view().len() > 0 ==> {
                &&& final(self).chars_view() == old(self).content()
                &&& final(self).pending_view().len() == 0
                &&& final(self).origin_view() == (if old(self).pending_view().len() > 0 {
                    Seq::empty()
                } else {
                    old(self).origin_view()
                })
            },
            old(self).appends_view().len() == 0 ==> {
                &&& final(self).chars_view() == old(self).chars_view()
                &&& final(self).pending_view() == old(self).pending_view()
                &&& final(self).origin_view() == old(self).origin_view()
            },
            final(self).appends_view().len() == 0,
            final(self).at_view() == at,
    {
        if self.appends.len() > 0 {
            let mut merged: Vec<char> = Vec::new();
            push_range(&mut merged, &self.chars, 0, self.append_at);
            push_range(&mut merged, &self.appends, 0, self.appends.len());
            if self.pending.len() > 0 {
                push_range(&mut merged, &self.pending, 0, self.pending.len());
                self.pending = Vec::new();
                self.pending_origin.clear();
            }
            push_range(&mut merged, &self.chars, self.append_at, self.chars.len());
            proof {
                assert(old(self).appends@.subrange(0, old(self).appends@.len() as int) =~= old(
                    self,
                ).appends@);
                assert(old(self).pending@.subrange(0, old(self).pending@.len() as int) =~= old(
                    self,
                ).pending@);
                assert(merged@ =~= old(self).content());
            }
            self.chars = merged;
            self.appends = Vec::new();
        }
        self.append_at = at;
    }

    /// Types `chars` at the insertion point, after what was typed there before.
    pub fn extend(&mut self, chars: Vec<char>)
        ensures
            final(self).appends_view() == old(self).appends_view() + chars@,
            final(self).chars_view() == old(self).chars_view(),
            final(self).pending_view() == old(self).pending_view(),
            final(self).origin_view() == old(self).origin_view(),
            final(self).at_view() == old(self).at_view(),
    {
        let mut chars = chars;
        self.appends.append(&mut chars);
    }

    /// Empties the text (the keys of the pending text are kept).
    pub fn clear(&mut self)
        ensures
            final(self).chars_view().len() == 0,
            final(self).appends_view().len() == 0,
            final(self).pending_view().len() == 0,
            final(self).at_view() == 0,
            final(self).origin_view() == old(self).origin_view(),
    {
        self.chars.clear();
        self.appends.clear();
        self.pending.clear();
        self.append_at = 0;
    }

    /// Deletes backwards: a key of the pending text (the pending text goes when its
    /// last key does), else the last typed character, else the character before the
    /// insertion point.
    pub fn pop(&mut self)
        requires
            old(self).pending_view().len() == 0 && old(self).appends_view().len() == 0 ==> old(
                self,
            ).wf(),
        ensures
            old(self).pending_view().len() > 0 ==> {
                &&& final(self).origin_view() == (if old(self).origin_view().len() > 0 {
                    old(self).origin_view().drop_last()
                } else {
                    Seq::empty()
                })
                &&& final(self).pending_view() == (if final(self).origin_view().len() == 0 {
                    Seq::empty()
                } else {
                    old(self).pending_view()
                })
                &&& final(self).chars_view() == old(self).chars_view()
                &&& final(self).appends_view() == old(self).appends_view()
                &&& final(self).at_view() == old(self).at_view()
            },
            old(self).pending_view().len() == 0 && old(self).appends_view().len() > 0 ==> {
                &&& final(self).appends_view() == old(self).appends_view().drop_last()
                &&& final(self).chars_view() == old(self).chars_view()
                &&& final(self).pending_view() == old(self).pending_view()
                &&& final(self).origin_view() == old(self).origin_view()
                &&& final(self).at_view() == old(self).at_view()
            },
            old(self).pending_view().len() == 0 && old(self).appends_view().len() == 0 ==> {
                &&& final(self).chars_view() == (if old(self).at_view() > 0 {
                    old(self).chars_view().remove(old(self).at_view() - 1)
                } else {
                    old(self).chars_view()
                })
                &&& final(self).at_view() == (if old(self).at_view() > 0 {
                    old(self).at_view() - 1
                } else {
                    0
                })
                &&& final(self).appends_view() == old(self).appends_view()
                &&& final(self).pending_view() == old(self).pending_view()
                &&& final(self).origin_view() == old(self).origin_view()
            },
    {
        if self.pending.len() > 0 {
            self.pending_origin.pop();
            if self.pending_origin.len() == 0 {
                self.clear_pending();
            }
        } else if self.appends.len() > 0 {
            self.appends.pop();
        } else if self.chars.len() > 0 {
            if self.append_at == 0 {
                return;
            }
            if self.append_at == self.chars.len() {
                self.chars.pop();
                assert(self.chars@ =~= old(self).chars@.remove(old(self).append_at - 1));
            } else {
                self.chars.remove(self.append_at - 1);
            }
            self.append_at -= 1;
        } else {
            assert(old(self).append_at == 0);
        }
    }

    /// Records a key of the pending text.
    pub fn push_input(&mut self, c: char)
        ensures
            final(self).origin_view() == old(self).origin_view().push(c),
            final(self).chars_view() == old(self).chars_view(),
            final(self).appends_view() == old(self).appends_view(),
            final(self).pending_view() == old(self).pending_view(),
            final(self).at_view() == old(self).at_view(),
    {
        self.pending_origin.push(c);
    }

    /// Sets the pending text and the keys that produced it.
    pub fn set_pending(&mut self, pending: Vec<char>, origin: Vec<char>)
        ensures
            final(self).pending_view() == pending@,
            final(self).origin_view() == origin@,
            final(self).chars_view() == old(self).chars_view(),
            final(self).appends_view() == old(self).appends_view(),
            final(self).at_view() == old(self).at_view(),
    {
        self.pending = pending;
        self.pending_origin = origin;
    }

    pub fn get_pending(&self) -> (r: &[char])
        ensures
            r@ == self.pending_view(),
    {
        self.pending.as_slice()
    }

    pub fn get_pending_origin(&self) -> (r: &[char])
        ensures
            r@ == self.origin_view(),
    {
        self.pending_origin.as_slice()
    }

    pub fn get_append_at(&self) -> (n: usize)
        ensures
            n == self.at_view(),
    {
        self.append_at
    }

    /// Moves the insertion point one character left or right, within the text.
    pub fn move_append_at(&mut self, action: Movement)
        requires
            action == Movement::Left || action == Movement::Right,
            old(self).total() <= usize::MAX,
        ensures
            final(self).at_view() == (if action == Movement::Left {
                if old(self).at_view() > 0 {
                    old(self).at_view() - 1
                } else {
                    0
                }
            } else {
                if old(self).at_view() < old(self).total() {
                    old(self).at_view() + 1
                } else {
                    old(self).at_view() as int
                }
            }),
            final(self).chars_view() == old(self).chars_view(),
            final(self).appends_view() == old(self).appends_view(),
            final(self).pending_view() == old(self).pending_view(),
            final(self).origin_view() == old(self).origin_view(),
    {
        match action {
            Movement::Left => {
                if self.append_at > 0 {
                    self.append_at -= 1;
                }
            },
            _ => {
                if self.append_at < self.len() {
                    self.append_at += 1;
                }
            },
        }
    }

    /// Drops the pending text and its keys.
    pub fn clear_pending(&mut self)
        ensures
            final(self).pending_view().len() == 0,
            final(self).origin_view().len() == 0,
            final(self).chars_view() == old(self).chars_view(),
            final(self).appends_view() == old(self).appends_view(),
            final(self).at_view() == old(self).at_view(),
    {
        self.pending.clear();
        self.pending_origin.clear();
    }

    /// The characters of the text at positions `range` (as far as the text goes).
    #[verifier::rlimit(100)]
    #[verifier::spinoff_prover]
    pub fn get_chars_by(&self, range: Range<usize>) -> (r: Vec<char>)
        requires
            range.start <= range.end,
            self.wf(),
            self.total() <= usize::MAX,
        ensures
            r@ == self.content().subrange(
                clamp(range.start as int, self.total()),
                clamp(range.end as int, self.total()),
            ),
    {
        let c1_len = self.append_at;
        let a_len = self.appends.len();
        let p_len = self.pending.len();
        let seg_a_start = c1_len;
        let seg_p_start = seg_a_start + a_len;
        let seg_c2_start = seg_p_start + p_len;
        let c2_len = self.chars.len() - self.append_at;
        let (c1a, c1b) = intersect(range.start, range.end, 0, c1_len);
        let (aa, ab) = intersect(range.start, range.end, seg_a_start, a_len);
        let (pa, pb) = intersect(range.start, range.end, seg_p_start, p_len);
        let (c2a, c2b) = intersect(range.start, range.end, seg_c2_start, c2_len);
        let mut r: Vec<char> = Vec::new();
        push_range(&mut r, &self.chars, c1a, c1b);
        push_range(&mut r, &self.appends, aa, ab);
        push_range(&mut r, &self.pending, pa, pb);
        push_range(&mut r, &self.chars, c2a + self.append_at, c2b + self.append_at);
        proof {
            let c1 = self.chars@.subrange(0, self.append_at as int);
            let c2 = self.chars@.subrange(self.append_at as int, self.chars@.len() as int);
            let a = self.appends@;
            let p = self.pending@;
            let t = self.total();
            let lo = clamp(range.start as int, t);
            let hi = clamp(range.end as int, t);
            assert(self.content() =~= c1 + a + p + c2);
            lemma_two(c1 + a + p, c2, lo, hi);
            let l3 = (c1 + a + p).len() as int;
            lemma_two(c1 + a, p, local(lo, 0, l3), local(hi, 0, l3));
            let l2 = (c1 + a).len() as int;
            lemma_two(c1, a, local(local(lo, 0, l3), 0, l2), local(local(hi, 0, l3), 0, l2));
            assert(c1.subrange(c1a as int, c1b as int) =~= self.chars@.subrange(c1a as int, c1b as int));
            assert(c2.subrange(c2a as int, c2b as int) =~= self.chars@.subrange(
                c2a + self.append_at,
                c2b + self.append_at,
            ));
            assert(r@ =~= self.content().subrange(lo, hi));
        }
        r
    }
}

/// The part of `[start, end)` that falls in `[seg_start, seg_start + seg_len)`, counted
/// from `seg_start`.
fn intersect(start: usize, end: usize, seg_start: usize, seg_len: usize) -> (r: (usize, usize))
    requires
        start <= end,
        seg_start + seg_len <= usize::MAX,
    ensures
        r.0 == clamp(
            if start < seg_start {
                seg_start as int
            } else {
                start as int
            },
            seg_start + seg_len,
        ) - seg_start,
        r.1 == clamp(
            if end < seg_start {
                seg_start as int
            } else {
                end as int
            },
            seg_start + seg_len,
        ) - seg_start,
        r.0 <= r.1 <= seg_len,
{
    let seg_end = seg_start + seg_len;
    let s0 = if start < seg_start {
        seg_start
    } else {
        start
    };
    let s1 = if s0 < seg_end {
        s0
    } else {
        seg_end
    };
    let e0 = if end < seg_start {
        seg_start
    } else {
        end
    };
    let e1 = if e0 < seg_end {
        e0
    } else {
        seg_end
    };
    (s1 - seg_start, e1 - seg_start)
}

impl Default for Sentence {
    fn default() -> (s: Self)
        ensures
            s.chars_view().len() == 0,
            s.appends_view().len() == 0,
            s.pending_view().len() == 0,
            s.origin_view().len() == 0,
            s.at_view() == 0,
    {
        Sentence::new()
    }
}

} // verus!
