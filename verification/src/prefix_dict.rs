use vstd::prelude::*;

use crate::dict::{arena_range_ok, arena_str, Candidate, StringArena};
use crate::text::string_from_chars;
use crate::text::{
    common_prefix_len, compare_chars, is_lcp, lemma_le_trans, lemma_lt_past_lcp, lemma_prefix_le,
    lemma_prefix_of_prefix, lemma_seq_lt_irrefl, lemma_seq_lt_trans, lemma_seq_lt_trichotomy,
    seq_le, seq_lt, Order,
};

verus! {

/// The codes of the candidates, read in the arena.
pub open spec fn codes_of(arena: Seq<char>, cands: Seq<Candidate>) -> Seq<Seq<char>> {
    Seq::new(cands.len(), |i: int| arena_str(arena, cands[i].code))
}

/// Every code and text of the candidates lies inside the arena.
pub open spec fn ranges_ok(arena: Seq<char>, cands: Seq<Candidate>) -> bool {
    forall|i: int|
        0 <= i < cands.len() ==> arena_range_ok(arena, (#[trigger] cands[i]).code)
            && arena_range_ok(arena, cands[i].text)
}

/// The codes are in ascending order (equal codes allowed).
pub open spec fn codes_sorted(codes: Seq<Seq<char>>) -> bool {
    forall|a: int, b: int| 0 <= a < b < codes.len() ==> seq_le(#[trigger] codes[a], #[trigger] codes[b])
}

/// The keys are in strictly ascending order.
pub open spec fn strictly_sorted(ks: Seq<Seq<char>>) -> bool {
    forall|a: int, b: int| 0 <= a < b < ks.len() ==> seq_lt(#[trigger] ks[a], #[trigger] ks[b])
}

/// `q` is a nonempty prefix of one of the first `n` codes.
pub open spec fn reaches_upto(codes: Seq<Seq<char>>, q: Seq<char>, n: int) -> bool {
    q.len() > 0 && exists|j: int| 0 <= j < n && q.is_prefix_of(#[trigger] codes[j])
}

/// `q` is a nonempty prefix of one of the codes.
pub open spec fn reaches(codes: Seq<Seq<char>>, q: Seq<char>) -> bool {
    reaches_upto(codes, q, codes.len() as int)
}

/// Every nonempty start of a reachable key sequence is reachable too: typing a code
/// one key at a time never passes through a dead end.
pub proof fn lemma_reaches_prefix(codes: Seq<Seq<char>>, q: Seq<char>, p: Seq<char>)
    requires
        reaches(codes, q),
        p.len() > 0,
        p.is_prefix_of(q),
    ensures
        reaches(codes, p),
{
    let j = choose|j: int| 0 <= j < codes.len() && q.is_prefix_of(#[trigger] codes[j]);
    assert(p.is_prefix_of(codes[j]));
}

/// Among the first `n` codes, those that start with `q` are exactly those at `[a, b)`.
pub open spec fn block_upto(codes: Seq<Seq<char>>, q: Seq<char>, a: int, b: int, n: int) -> bool {
    &&& 0 <= a <= b <= n
    &&& forall|j: int| 0 <= j < n ==> (a <= j < b <==> q.is_prefix_of(#[trigger] codes[j]))
}

/// The codes that start with `q` are exactly those at `[a, b)`.
pub open spec fn prefix_block(codes: Seq<Seq<char>>, q: Seq<char>, a: int, b: int) -> bool {
    block_upto(codes, q, a, b, codes.len() as int)
}

/// The prefix index over the first `n` codes: `ks` are all the nonempty prefixes of
/// those codes, each once and in ascending order, and `idx[k]` is the block of the
/// codes that start with `ks[k]`.
pub open spec fn prism_upto(
    ks: Seq<Seq<char>>,
    idx: Seq<(usize, usize)>,
    codes: Seq<Seq<char>>,
    n: int,
) -> bool {
    &&& ks.len() == idx.len()
    &&& strictly_sorted(ks)
    &&& forall|k: int|
        0 <= k < ks.len() ==> (#[trigger] ks[k]).len() > 0 && idx[k].0 < idx[k].1 && block_upto(
            codes,
            ks[k],
            idx[k].0 as int,
            idx[k].1 as int,
            n,
        )
    &&& forall|q: Seq<char>|
        #[trigger] reaches_upto(codes, q, n) ==> exists|k: int| 0 <= k < ks.len() && ks[k] == q
}

/// The prefix index over all the codes.
pub open spec fn prism_ok(ks: Seq<Seq<char>>, idx: Seq<(usize, usize)>, codes: Seq<Seq<char>>) -> bool {
    prism_upto(ks, idx, codes, codes.len() as int)
}

/// The keys stored one after another in `keys`, found again by `(offset, len)`.
pub open spec fn key_seq(keys: Seq<char>, meta: Seq<(usize, usize)>) -> Seq<Seq<char>> {
    Seq::new(meta.len(), |k: int| keys.subrange(meta[k].0 as int, meta[k].0 + meta[k].1))
}

pub open spec fn meta_ok(keys: Seq<char>, meta: Seq<(usize, usize)>) -> bool {
    forall|k: int| 0 <= k < meta.len() ==> (#[trigger] meta[k]).0 + meta[k].1 <= keys.len()
}

proof fn lemma_sorted_distinct(ks: Seq<Seq<char>>, a: int, b: int)
    requires
        strictly_sorted(ks),
        0 <= a < ks.len(),
        0 <= b < ks.len(),
        a != b,
    ensures
        ks[a] != ks[b],
{
    if a < b {
        assert(seq_lt(ks[a], ks[b]));
        lemma_seq_lt_irrefl(ks[a]);
    } else {
        assert(seq_lt(ks[b], ks[a]));
        lemma_seq_lt_irrefl(ks[a]);
    }
}

/// A prefix of `code` of length `m` within the common prefix of `prev` and `code` is
/// also a prefix of `prev`.
proof fn lemma_common_prefix(prev: Seq<char>, code: Seq<char>, l: int, m: int)
    requires
        is_lcp(prev, code, l),
        0 <= m <= l,
    ensures
        code.subrange(0, m) == prev.subrange(0, m),
{
    assert(code.subrange(0, m) =~= code.subrange(0, l).subrange(0, m));
    assert(prev.subrange(0, m) =~= prev.subrange(0, l).subrange(0, m));
}

/// A key of the index over the codes before `code` that is also a prefix of `code` is
/// a prefix of the code just before, no longer than their common prefix.
proof fn lemma_old_key(
    codes: Seq<Seq<char>>,
    i: int,
    key: Seq<char>,
    j: int,
    l: int,
)
    requires
        codes_sorted(codes),
        0 < i < codes.len(),
        0 <= j < i,
        key.is_prefix_of(codes[j]),
        key.is_prefix_of(codes[i]),
        is_lcp(codes[i - 1], codes[i], l),
    ensures
        key.len() <= l,
        key.is_prefix_of(codes[i - 1]),
{
    let prev = codes[i - 1];
    let code = codes[i];
    let m = key.len() as int;
    if m > l {
        if prev == code {
            assert(l == code.len()) by {
                if l < code.len() {
                    assert(prev[l] == code[l]);
                }
            }
        } else {
            assert(seq_le(prev, code));
            assert(seq_lt(prev, code));
            lemma_lt_past_lcp(prev, code, l, m);
            assert(key =~= code.subrange(0, m));
            lemma_prefix_le(key, codes[j]);
            if j < i - 1 {
                assert(seq_le(codes[j], prev));
                lemma_le_trans(key, codes[j], prev);
            }
            assert(seq_le(key, prev));
            lemma_seq_lt_trichotomy(key, prev);
        }
    } else {
        lemma_common_prefix(prev, code, l, m);
        assert(key =~= code.subrange(0, m));
    }
}

/// A prefix of `codes[i]` longer than its common prefix with `codes[i - 1]` starts
/// none of the codes before it, and is above every prefix of them.
proof fn lemma_new_key(codes: Seq<Seq<char>>, i: int, l: int, m: int, j: int, key: Seq<char>)
    requires
        codes_sorted(codes),
        0 < i < codes.len(),
        0 <= j < i,
        is_lcp(codes[i - 1], codes[i], l),
        l < m <= codes[i].len(),
        key.is_prefix_of(codes[j]),
    ensures
        !codes[i].subrange(0, m).is_prefix_of(codes[j]),
        seq_lt(key, codes[i].subrange(0, m)),
{
    let prev = codes[i - 1];
    let code = codes[i];
    let t = code.subrange(0, m);
    assert(prev != code) by {
        if prev == code {
            assert(l == code.len()) by {
                if l < code.len() {
                    assert(prev[l] == code[l]);
                }
            }
        }
    }
    assert(seq_le(prev, code));
    lemma_lt_past_lcp(prev, code, l, m);
    lemma_prefix_le(key, codes[j]);
    if j < i - 1 {
        assert(seq_le(codes[j], prev));
        lemma_le_trans(key, codes[j], prev);
    }
    lemma_le_trans(key, prev, t);
    if t.is_prefix_of(codes[j]) {
        lemma_prefix_le(t, codes[j]);
        if j < i - 1 {
            lemma_le_trans(t, codes[j], prev);
        }
        lemma_le_trans(t, prev, t);
        lemma_seq_lt_irrefl(t);
    }
}

/// Appends the first `m` characters of `s`.
fn push_prefix(v: &mut Vec<char>, s: &[char], m: usize)
    requires
        m <= s@.len(),
    ensures
        final(v)@ == old(v)@ + s@.subrange(0, m as int),
{
    let ghost start = v@;
    let mut i: usize = 0;
    while i < m
        invariant
            i <= m <= s@.len(),
            v@ == start + s@.subrange(0, i as int),
        decreases m - i,
    {
        v.push(s[i]);
        i += 1;
        assert(v@ =~= start + s@.subrange(0, i as int));
    }
}

/// Index of every nonempty prefix of the codes of a table: the prefixes in ascending
/// order, and for each the block of candidates whose code starts with it.
#[derive(Debug)]
pub struct Prism {
    keys: Vec<char>,
    key_meta: Vec<(usize, usize)>,
    indices: Vec<(usize, usize)>,
}

impl Prism {
    pub closed spec fn keys_view(&self) -> Seq<Seq<char>> {
        key_seq(self.keys@, self.key_meta@)
    }

    pub closed spec fn indices_view(&self) -> Seq<(usize, usize)> {
        self.indices@
    }

    pub closed spec fn wf(&self) -> bool {
        meta_ok(self.keys@, self.key_meta@)
    }

    /// The stored form of the index: the keys one after another, where each key lies
    /// in them, and the block of candidates of each key.
    pub closed spec fn keys_raw(&self) -> Seq<char> {
        self.keys@
    }

    pub closed spec fn meta_raw(&self) -> Seq<(usize, usize)> {
        self.key_meta@
    }

    /// The stored form of the index (see `keys_raw`).
    pub fn parts(&self) -> (r: (&Vec<char>, &Vec<(usize, usize)>, &Vec<(usize, usize)>))
        ensures
            r.0@ == self.keys_raw(),
            r.1@ == self.meta_raw(),
            r.2@ == self.indices_view(),
    {
        (&self.keys, &self.key_meta, &self.indices)
    }

    /// The index over an empty table.
    pub fn empty() -> (p: Self)
        ensures
            p.wf(),
            prism_ok(p.keys_view(), p.indices_view(), Seq::empty()),
            p.keys_view().len() == 0,
            p.indices_view().len() == 0,
    {
        let p = Prism { keys: Vec::new(), key_meta: Vec::new(), indices: Vec::new() };
        assert(p.keys_view() =~= Seq::<Seq<char>>::empty());
        p
    }

    /// Builds the index over the candidates of a table, whose codes are in order.
    #[verifier::rlimit(40)]
    pub fn new_with_arena(candidates: &Vec<Candidate>, arena: &StringArena) -> (p: Self)
        requires
            ranges_ok(arena@, candidates@),
            codes_sorted(codes_of(arena@, candidates@)),
        ensures
            p.wf(),
            prism_ok(p.keys_view(), p.indices_view(), codes_of(arena@, candidates@)),
    {
        let ghost codes = codes_of(arena@, candidates@);
        let n = candidates.len();
        let mut keys: Vec<char> = Vec::new();
        let mut key_meta: Vec<(usize, usize)> = Vec::new();
        let mut indices: Vec<(usize, usize)> = Vec::new();
        let mut stack: Vec<usize> = Vec::new();
        let mut prev: Vec<char> = Vec::new();
        let mut i: usize = 0;
        assert(key_seq(keys@, key_meta@) =~= Seq::<Seq<char>>::empty());
        while i < n
            invariant
                n == candidates@.len(),
                codes == codes_of(arena@, candidates@),
                ranges_ok(arena@, candidates@),
                codes_sorted(codes),
                i <= n,
                meta_ok(keys@, key_meta@),
                prism_upto(key_seq(keys@, key_meta@), indices@, codes, i as int),
                i == 0 ==> prev@.len() == 0,
                i > 0 ==> prev@ == codes[i - 1],
                stack@.len() == prev@.len(),
                forall|t: int|
                    0 <= t < stack@.len() ==> {
                        &&& (#[trigger] stack@[t]) < key_meta@.len()
                        &&& key_seq(keys@, key_meta@)[stack@[t] as int] == prev@.subrange(0, t + 1)
                        &&& indices@[stack@[t] as int].1 == i
                    },
            decreases n - i,
        {
            let cand = candidates[i];
            proof {
                assert(arena_range_ok(arena@, candidates@[i as int].code));
            }
            let code = arena.get(cand.code.0, cand.code.1);
            assert(code@ == codes[i as int]);
            assert(code@.len() == cand.code.1);
            let l = common_prefix_len(&prev, &code);
            let ghost ks0 = key_seq(keys@, key_meta@);
            let ghost idx0 = indices@;
            let ghost stack0 = stack@;
            assert(prism_upto(ks0, idx0, codes, i as int));
            // the keys that are prefixes of both the previous code and this one:
            // their blocks now reach this candidate
            let mut t: usize = 0;
            while t < l
                invariant
                    l <= prev@.len(),
                    l <= code@.len(),
                    is_lcp(prev@, code@, l as int),
                    t <= l,
                    i < n,
                    stack@ == stack0,
                    stack0.len() == prev@.len(),
                    ks0 == key_seq(keys@, key_meta@),
                    strictly_sorted(ks0),
                    indices@.len() == idx0.len(),
                    ks0.len() == idx0.len(),
                    forall|s: int|
                        0 <= s < stack0.len() ==> {
                            &&& (#[trigger] stack0[s]) < ks0.len()
                            &&& ks0[stack0[s] as int] == prev@.subrange(0, s + 1)
                        },
                    forall|k: int|
                        0 <= k < idx0.len() ==> #[trigger] indices@[k] == (if ks0[k].len() <= t
                            && ks0[k].is_prefix_of(prev@) {
                            (idx0[k].0, (i + 1) as usize)
                        } else {
                            idx0[k]
                        }),
                decreases l - t,
            {
                let k = stack[t];
                let old_start = indices[k].0;
                proof {
                    assert(ks0[k as int] == prev@.subrange(0, t + 1));
                    assert(ks0[k as int].is_prefix_of(prev@));
                    assert forall|k2: int|
                        0 <= k2 < idx0.len() && k2 != k && ks0[k2].len() == t + 1
                            && ks0[k2].is_prefix_of(prev@) implies false by {
                        assert(ks0[k2] =~= prev@.subrange(0, t + 1));
                        lemma_sorted_distinct(ks0, k2, k as int);
                    }
                }
                indices.set(k, (old_start, i + 1));
                t += 1;
            }
            // keep on the stack only the prefixes that this code shares
            stack.truncate(l);
            let ghost ks1 = ks0;
            let ghost idx1 = indices@;
            proof {
                // the blocks of the old keys, over the codes up to this one
                assert forall|k: int| 0 <= k < ks1.len() implies (#[trigger] ks1[k]).len() > 0
                    && idx1[k].0 < idx1[k].1 && block_upto(
                    codes,
                    ks1[k],
                    idx1[k].0 as int,
                    idx1[k].1 as int,
                    i + 1,
                ) && (l + 1 <= code@.len() ==> seq_lt(ks1[k], code@.subrange(0, l + 1))) by {
                    assert(ks0[k].len() > 0 && idx0[k].0 < idx0[k].1);
                    if l + 1 <= code@.len() {
                        let j1 = idx0[k].0 as int;
                        assert(block_upto(codes, ks0[k], idx0[k].0 as int, idx0[k].1 as int, i as int));
                        assert(ks0[k].is_prefix_of(codes[j1]));
                        lemma_new_key(codes, i as int, l as int, l + 1, j1, ks0[k]);
                    }
                    assert(block_upto(codes, ks0[k], idx0[k].0 as int, idx0[k].1 as int, i as int));
                    let j0 = idx0[k].0 as int;
                    assert(ks0[k].is_prefix_of(codes[j0]));
                    if i > 0 && ks0[k].is_prefix_of(codes[i as int]) {
                        lemma_old_key(codes, i as int, ks0[k], j0, l as int);
                    }
                    if ks0[k].len() <= l && ks0[k].is_prefix_of(prev@) {
                        assert(i > 0) by {
                            if i == 0 {
                                assert(prev@.len() == 0);
                            }
                        }
                        let m = ks0[k].len() as int;
                        lemma_common_prefix(prev@, code@, l as int, m);
                        assert(ks0[k] =~= prev@.subrange(0, m));
                        assert(ks0[k].is_prefix_of(codes[i as int]));
                        // the block of a prefix of the previous code reached it
                        assert(ks0[k].is_prefix_of(codes[i - 1]));
                        assert(idx0[k].1 == i) by {
                            let s = m - 1;
                            assert(ks0[stack0[s] as int] == prev@.subrange(0, s + 1));
                            if stack0[s] as int != k {
                                lemma_sorted_distinct(ks0, k, stack0[s] as int);
                            }
                        }
                    }
                }
            }
            proof {
                // the shared prefixes stay on the stack, their blocks reaching this code
                assert forall|s: int| 0 <= s < stack@.len() implies {
                    &&& (#[trigger] stack@[s]) < ks1.len()
                    &&& ks1[stack@[s] as int] == code@.subrange(0, s + 1)
                    &&& idx1[stack@[s] as int].1 == i + 1
                } by {
                    assert(stack@[s] == stack0[s]);
                    assert(ks0[stack0[s] as int] == prev@.subrange(0, s + 1));
                    lemma_common_prefix(prev@, code@, l as int, s + 1);
                    assert(ks0[stack0[s] as int].is_prefix_of(prev@));
                }
            }
            // the prefixes of this code longer than the shared part are new keys
            let mut m: usize = l + 1;
            let ghost mut ks = ks1;
            while m <= code.len()
                invariant
                    l < m <= code@.len() + 1,
                    is_lcp(prev@, code@, l as int),
                    i < n,
                    n == candidates@.len(),
                    codes == codes_of(arena@, candidates@),
                    codes_sorted(codes),
                    code@ == codes[i as int],
                    code@.len() <= u16::MAX,
                    i == 0 ==> prev@.len() == 0,
                    i > 0 ==> prev@ == codes[i - 1],
                    meta_ok(keys@, key_meta@),
                    ks == key_seq(keys@, key_meta@),
                    ks.len() == indices@.len(),
                    ks1.len() <= ks.len(),
                    ks.subrange(0, ks1.len() as int) == ks1,
                    indices@.subrange(0, ks1.len() as int) == idx1,
                    strictly_sorted(ks),
                    m <= code@.len() ==> forall|k: int|
                        0 <= k < ks.len() ==> seq_lt(#[trigger] ks[k], code@.subrange(0, m as int)),
                    forall|k: int|
                        0 <= k < ks.len() ==> (#[trigger] ks[k]).len() > 0 && indices@[k].0
                            < indices@[k].1 && block_upto(
                            codes,
                            ks[k],
                            indices@[k].0 as int,
                            indices@[k].1 as int,
                            i + 1,
                        ),
                    stack@.len() == m - 1,
                    forall|s: int|
                        0 <= s < stack@.len() ==> {
                            &&& (#[trigger] stack@[s]) < ks.len()
                            &&& ks[stack@[s] as int] == code@.subrange(0, s + 1)
                            &&& indices@[stack@[s] as int].1 == i + 1
                        },
                decreases code@.len() + 1 - m,
            {
                let ghost key = code@.subrange(0, m as int);
                let offset = keys.len();
                let ghost keys_before = keys@;
                let ghost idx_before = indices@;
                push_prefix(&mut keys, &code, m);
                key_meta.push((offset, m));
                indices.push((i, i + 1));
                stack.push(key_meta.len() - 1);
                proof {
                    let ks_new = key_seq(keys@, key_meta@);
                    assert forall|k: int| 0 <= k < ks.len() implies ks_new[k] == ks[k] by {
                        assert(keys@.subrange(key_meta@[k].0 as int, key_meta@[k].0 + key_meta@[k].1)
                            =~= keys_before.subrange(
                            key_meta@[k].0 as int,
                            key_meta@[k].0 + key_meta@[k].1,
                        ));
                    }
                    assert(ks_new[ks.len() as int] =~= key);
                    assert(ks_new =~= ks.push(key));
                    // the new key starts this code only
                    assert(block_upto(codes, key, i as int, i + 1, i + 1)) by {
                        assert forall|j: int| 0 <= j < i + 1 implies (i <= j < i + 1
                            <==> key.is_prefix_of(#[trigger] codes[j])) by {
                            if j < i {
                                assert(codes[j].subrange(0, 0).is_prefix_of(codes[j])) by {
                                    assert(codes[j].subrange(0, 0) =~= codes[j].subrange(0, 0).subrange(0, 0));
                                }
                                lemma_new_key(codes, i as int, l as int, m as int, j, codes[j].subrange(0, 0));
                            }
                        }
                    }
                    if m + 1 <= code.len() {
                        assert forall|k: int| 0 <= k < ks_new.len() implies seq_lt(
                            #[trigger] ks_new[k],
                            code@.subrange(0, m + 1),
                        ) by {
                            lemma_prefix_of_prefix(code@, m as int, m + 1);
                            if k < ks.len() {
                                lemma_seq_lt_trans(ks[k], key, code@.subrange(0, m + 1));
                            }
                        }
                    }
                    assert(strictly_sorted(ks_new)) by {
                        assert forall|a: int, b: int| 0 <= a < b < ks_new.len() implies seq_lt(
                            #[trigger] ks_new[a],
                            #[trigger] ks_new[b],
                        ) by {
                            if b < ks.len() {
                                assert(seq_lt(ks[a], ks[b]));
                            } else {
                                assert(seq_lt(ks[a], key));
                            }
                        }
                    }
                    assert forall|k: int| 0 <= k < ks_new.len() implies (#[trigger] ks_new[k]).len() > 0
                        && indices@[k].0 < indices@[k].1 && block_upto(
                        codes,
                        ks_new[k],
                        indices@[k].0 as int,
                        indices@[k].1 as int,
                        i + 1,
                    ) by {
                        if k < ks.len() {
                            assert(ks_new[k] == ks[k]);
                            assert(indices@[k] == idx_before[k]);
                        } else {
                            assert(ks_new[k] == key);
                            assert(indices@[k] == (i, (i + 1) as usize));
                        }
                    }
                    assert(ks_new.subrange(0, ks1.len() as int) =~= ks.subrange(0, ks1.len() as int));
                    assert(indices@.subrange(0, ks1.len() as int) =~= idx1);
                    ks = ks_new;
                }
                m += 1;
            }
            proof {
                let ksn = key_seq(keys@, key_meta@);
                let idxn = indices@;
                assert(ksn == ks);
                assert forall|k: int| 0 <= k < ks1.len() implies ks[k] == ks1[k] && idxn[k] == idx1[k] by {
                    assert(ks.subrange(0, ks1.len() as int)[k] == ks[k]);
                    assert(idxn.subrange(0, ks1.len() as int)[k] == idxn[k]);
                }
                // every nonempty prefix of the codes so far is a key
                assert forall|q: Seq<char>| #[trigger] reaches_upto(codes, q, i + 1) implies exists|
                    k: int,
                | 0 <= k < ks.len() && ks[k] == q by {
                    let j = choose|j: int| 0 <= j < i + 1 && q.is_prefix_of(#[trigger] codes[j]);
                    if j < i {
                        assert(reaches_upto(codes, q, i as int));
                        let k = choose|k: int| 0 <= k < ks0.len() && ks0[k] == q;
                        assert(ks[k] == q);
                    } else {
                        let s = q.len() - 1;
                        assert(q =~= code@.subrange(0, s + 1));
                        assert(ks[stack@[s] as int] == q);
                    }
                }
            }
            prev = code;
            i += 1;
        }
        Prism { keys, key_meta, indices }
    }

    /// The block of candidates whose code starts with `code`, if `code` is a key.
    pub fn lookup(&self, code: &[char]) -> (r: Option<(usize, usize)>)
        requires
            self.wf(),
            self.keys_view().len() == self.indices_view().len(),
            strictly_sorted(self.keys_view()),
        ensures
            match r {
                Some(v) => exists|k: int|
                    0 <= k < self.keys_view().len() && self.keys_view()[k] == code@
                        && self.indices_view()[k] == v,
                None => forall|k: int|
                    0 <= k < self.keys_view().len() ==> self.keys_view()[k] != code@,
            },
    {
        let ghost ks = self.keys_view();
        let mut lo: usize = 0;
        let mut hi: usize = self.key_meta.len();
        while lo < hi
            invariant
                self.wf(),
                ks == self.keys_view(),
                ks.len() == self.indices_view().len(),
                ks.len() == self.key_meta@.len(),
                strictly_sorted(ks),
                lo <= hi <= ks.len(),
                forall|k: int| 0 <= k < lo ==> seq_lt(#[trigger] ks[k], code@),
                forall|k: int| hi <= k < ks.len() ==> seq_lt(code@, #[trigger] ks[k]),
            decreases hi - lo,
        {
            let mid = lo + (hi - lo) / 2;
            let om = self.key_meta[mid];
            let offset = om.0;
            let len = om.1;
            proof {
                assert(meta_ok(self.keys@, self.key_meta@));
                assert(self.key_meta@[mid as int].0 + self.key_meta@[mid as int].1 <= self.keys@.len());
            }
            let key_chars = self.keys.len();
            assert(offset + len <= key_chars);
            let key = &self.keys.as_slice()[offset..offset + len];
            assert(key@ == ks[mid as int]);
            match compare_chars(key, code) {
                Order::Less => {
                    proof {
                        assert forall|k: int| 0 <= k < mid + 1 implies seq_lt(#[trigger] ks[k], code@) by {
                            if k < mid {
                                lemma_seq_lt_trans(ks[k], ks[mid as int], code@);
                            }
                        }
                    }
                    lo = mid + 1;
                },
                Order::Greater => {
                    proof {
                        assert forall|k: int| mid <= k < ks.len() implies seq_lt(code@, #[trigger] ks[k]) by {
                            if k > mid {
                                lemma_seq_lt_trans(code@, ks[mid as int], ks[k]);
                            }
                        }
                    }
                    hi = mid;
                },
                Order::Equal => {
                    return Some(self.indices[mid]);
                },
            }
        }
        proof {
            assert forall|k: int| 0 <= k < ks.len() implies ks[k] != code@ by {
                if k < lo {
                    assert(seq_lt(ks[k], code@));
                } else {
                    assert(seq_lt(code@, ks[k]));
                }
                lemma_seq_lt_irrefl(code@);
            }
        }
        None
    }
}


/// A table looked up by code prefix: its strings, its candidates in order of code, and
/// the prefix index over their codes.
#[derive(Debug)]
pub struct PrefixDict {
    arena: StringArena,
    prism: Prism,
    candidates: Vec<Candidate>,
}

impl PrefixDict {
    #[verifier::type_invariant]
    spec fn inv(self) -> bool {
        &&& ranges_ok(self.arena@, self.candidates@)
        &&& codes_sorted(codes_of(self.arena@, self.candidates@))
        &&& self.prism.wf()
        &&& prism_ok(
            self.prism.keys_view(),
            self.prism.indices_view(),
            codes_of(self.arena@, self.candidates@),
        )
    }

    /// The prefix index over the codes.
    pub closed spec fn prism_view(&self) -> Prism {
        self.prism
    }

    /// The prefix index over the codes.
    pub fn prism(&self) -> (r: &Prism)
        ensures
            *r == self.prism_view(),
    {
        &self.prism
    }

    /// The characters of the table's arena.
    pub closed spec fn arena_view(&self) -> Seq<char> {
        self.arena@
    }

    /// The candidates, in order of code.
    pub closed spec fn cands_view(&self) -> Seq<Candidate> {
        self.candidates@
    }

    /// The codes of the candidates, in order.
    pub open spec fn codes(&self) -> Seq<Seq<char>> {
        codes_of(self.arena_view(), self.cands_view())
    }

    /// Builds the table from candidates that lie in `arena` and come in order of code.
    pub(crate) fn new(arena: StringArena, candidates: Vec<Candidate>) -> (d: Self)
        requires
            ranges_ok(arena@, candidates@),
            codes_sorted(codes_of(arena@, candidates@)),
        ensures
            d.arena_view() == arena@,
            d.cands_view() == candidates@,
    {
        let prism = Prism::new_with_arena(&candidates, &arena);
        PrefixDict { arena, prism, candidates }
    }

    /// Builds the table from an arena and candidates; `None` unless every candidate lies
    /// in the arena and the candidates come in order of code.
    pub fn from_table(arena: StringArena, candidates: Vec<Candidate>) -> (r: Option<Self>)
        ensures
            r is Some <==> ranges_ok(arena@, candidates@) && codes_sorted(
                codes_of(arena@, candidates@),
            ),
            r matches Some(d) ==> d.arena_view() == arena@ && d.cands_view() == candidates@,
    {
        let n = candidates.len();
        let size = arena.len() as u64;
        let mut i: usize = 0;
        while i < n
            invariant
                n == candidates@.len(),
                size == arena@.len(),
                i <= n,
                forall|j: int|
                    0 <= j < i ==> arena_range_ok(arena@, (#[trigger] candidates@[j]).code)
                        && arena_range_ok(arena@, candidates@[j].text),
            decreases n - i,
        {
            let c = candidates[i];
            if c.code.0 as u64 + c.code.1 as u64 > size || c.text.0 as u64 + c.text.1 as u64
                > size {
                assert(!arena_range_ok(arena@, candidates@[i as int].code) || !arena_range_ok(
                    arena@,
                    candidates@[i as int].text,
                ));
                return None;
            }
            i += 1;
        }
        let ghost codes = codes_of(arena@, candidates@);
        let mut i: usize = 1;
        while i < n
            invariant
                n == candidates@.len(),
                codes == codes_of(arena@, candidates@),
                ranges_ok(arena@, candidates@),
                1 <= i,
                i <= n || n == 0,
                forall|a: int, b: int| 0 <= a < b < i && b < n ==> seq_le(#[trigger] codes[a], #[trigger] codes[b]),
            decreases n - i,
        {
            let a = candidates[i - 1];
            let b = candidates[i];
            proof {
                assert(arena_range_ok(arena@, candidates@[i - 1].code));
                assert(arena_range_ok(arena@, candidates@[i as int].code));
            }
            let x = arena.get(a.code.0, a.code.1);
            let y = arena.get(b.code.0, b.code.1);
            assert(x@ == codes[i - 1]);
            assert(y@ == codes[i as int]);
            if compare_chars(&x, &y) == Order::Greater {
                proof {
                    lemma_seq_lt_trichotomy(x@, y@);
                    lemma_seq_lt_irrefl(x@);
                    if codes_sorted(codes) {
                        assert(seq_le(codes[i - 1], codes[i as int]));
                    }
                }
                return None;
            }
            proof {
                assert forall|a: int, b: int| 0 <= a < b < i + 1 && b < n implies seq_le(
                    #[trigger] codes[a],
                    #[trigger] codes[b],
                ) by {
                    if b == i && a < i - 1 {
                        assert(seq_le(codes[a], codes[i - 1]));
                        lemma_le_trans(codes[a], codes[i - 1], codes[b]);
                    }
                }
            }
            i += 1;
        }
        Some(PrefixDict::new(arena, candidates))
    }

    /// Whether some code starts with `chars` (never for empty `chars`).
    pub fn reachable(&self, chars: &[char]) -> (b: bool)
        ensures
            b == reaches(self.codes(), chars@),
    {
        proof {
            use_type_invariant(self);
        }
        let r = self.prism.lookup(chars);
        proof {
            let codes = self.codes();
            let ks = self.prism.keys_view();
            let idx = self.prism.indices_view();
            match r {
                Some(v) => {
                    let k = choose|k: int| 0 <= k < ks.len() && ks[k] == chars@ && idx[k] == v;
                    assert(ks[k].len() > 0 && idx[k].0 < idx[k].1);
                    let j = idx[k].0 as int;
                    assert(chars@.is_prefix_of(codes[j]));
                },
                None => {
                    if reaches(codes, chars@) {
                        assert(reaches_upto(codes, chars@, codes.len() as int));
                    }
                },
            }
        }
        r.is_some()
    }

    /// The candidates whose code starts with `chars`: one block of the table, or `None`
    /// when there are none (always for empty `chars`).
    pub fn search(&self, chars: &[char]) -> (r: Option<&[Candidate]>)
        ensures
            r is Some <==> reaches(self.codes(), chars@),
            r matches Some(s) ==> exists|a: int, b: int|
                a < b && prefix_block(self.codes(), chars@, a, b) && s@ == self.cands_view().subrange(
                    a,
                    b,
                ),
            ranges_ok(self.arena_view(), self.cands_view()),
    {
        proof {
            use_type_invariant(self);
        }
        match self.prism.lookup(chars) {
            Some(range) => {
                proof {
                    let ks = self.prism.keys_view();
                    let idx = self.prism.indices_view();
                    let codes = self.codes();
                    let k = choose|k: int| 0 <= k < ks.len() && ks[k] == chars@ && idx[k] == range;
                    assert(ks[k].len() > 0 && idx[k].0 < idx[k].1);
                    let j = idx[k].0 as int;
                    assert(chars@.is_prefix_of(codes[j]));
                    assert(block_upto(codes, chars@, range.0 as int, range.1 as int, codes.len() as int));
                }
                Some(&self.candidates.as_slice()[range.0..range.1])
            },
            None => {
                proof {
                    let codes = self.codes();
                    if reaches(codes, chars@) {
                        assert(reaches_upto(codes, chars@, codes.len() as int));
                    }
                }
                None
            },
        }
    }

    /// Number of candidates.
    pub fn count(&self) -> (n: usize)
        ensures
            n == self.cands_view().len(),
    {
        self.candidates.len()
    }

    /// All candidates, in order of code.
    pub fn candidates(&self) -> (r: &Vec<Candidate>)
        ensures
            r@ == self.cands_view(),
            ranges_ok(self.arena_view(), self.cands_view()),
            codes_sorted(codes_of(self.arena_view(), self.cands_view())),
    {
        proof {
            use_type_invariant(self);
        }
        &self.candidates
    }

    /// The characters of the table's arena.
    pub fn arena(&self) -> (r: &StringArena)
        ensures
            r@ == self.arena_view(),
    {
        &self.arena
    }

    /// The string at `range` of the arena.
    pub fn get_str(&self, range: (u32, u16)) -> (s: String)
        requires
            arena_range_ok(self.arena_view(), range),
        ensures
            s@ == arena_str(self.arena_view(), range),
    {
        let chars = self.arena.get(range.0, range.1);
        string_from_chars(&chars)
    }
}

impl Default for PrefixDict {
    fn default() -> (d: Self)
        ensures
            d.cands_view().len() == 0,
    {
        let arena = StringArena::new();
        let candidates: Vec<Candidate> = Vec::new();
        assert(codes_of(arena@, candidates@) =~= Seq::<Seq<char>>::empty());
        PrefixDict { arena, prism: Prism::empty(), candidates }
    }
}

} // verus!
