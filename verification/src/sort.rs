use vstd::prelude::*;
use vstd::seq_lib::*;

verus! {

broadcast use vstd::seq_lib::group_to_multiset_ensures;

/// A total preorder on the positions `0..len` of some sequence, checkable at run time.
pub trait IndexOrder {
    spec fn len_spec(&self) -> nat;

    spec fn le(&self, i: int, j: int) -> bool;

    fn len(&self) -> (n: usize)
        ensures
            n == self.len_spec(),
    ;

    fn le_exec(&self, i: usize, j: usize) -> (b: bool)
        requires
            i < self.len_spec(),
            j < self.len_spec(),
        ensures
            b == self.le(i as int, j as int),
    ;

    proof fn lemma_total(&self, i: int, j: int)
        requires
            0 <= i < self.len_spec(),
            0 <= j < self.len_spec(),
        ensures
            self.le(i, j) || self.le(j, i),
    ;

    proof fn lemma_trans(&self, i: int, j: int, k: int)
        requires
            0 <= i < self.len_spec(),
            0 <= j < self.len_spec(),
            0 <= k < self.len_spec(),
            self.le(i, j),
            self.le(j, k),
        ensures
            self.le(i, k),
    ;
}

pub open spec fn sorted_by<O: IndexOrder>(o: &O, s: Seq<usize>) -> bool {
    forall|a: int, b: int| 0 <= a < b < s.len() ==> #[trigger] o.le(s[a] as int, s[b] as int)
}

pub open spec fn in_bounds<O: IndexOrder>(o: &O, s: Seq<usize>) -> bool {
    forall|a: int| 0 <= a < s.len() ==> #[trigger] s[a] < o.len_spec()
}

/// The positions `0..n` in increasing order.
pub open spec fn positions(n: nat) -> Seq<usize> {
    Seq::new(n, |i: int| i as usize)
}

/// The positions of `o`, ordered by `o` with equal ones kept in increasing order
/// when `o` breaks ties by position: a merge sort, stable and `O(n log n)`.
pub fn sort_positions<O: IndexOrder>(o: &O) -> (r: Vec<usize>)
    requires
        o.len_spec() <= usize::MAX,
    ensures
        r@.to_multiset() == positions(o.len_spec()).to_multiset(),
        sorted_by(o, r@),
        r@.len() == o.len_spec(),
        in_bounds(o, r@),
{
    let n = o.len();
    let mut v: Vec<usize> = Vec::new();
    let mut i: usize = 0;
    while i < n
        invariant
            n == o.len_spec(),
            i <= n,
            v@ == positions(i as nat),
        decreases n - i,
    {
        v.push(i);
        i += 1;
        assert(v@ =~= positions(i as nat));
    }
    assert(in_bounds(o, v@));
    merge_sort(o, v)
}

fn merge_sort<O: IndexOrder>(o: &O, v: Vec<usize>) -> (r: Vec<usize>)
    requires
        in_bounds(o, v@),
    ensures
        r@.to_multiset() == v@.to_multiset(),
        sorted_by(o, r@),
        r@.len() == v@.len(),
        in_bounds(o, r@),
    decreases v@.len(),
{
    let n = v.len();
    if n <= 1 {
        return v;
    }
    let mid = n / 2;
    let mut left: Vec<usize> = Vec::new();
    let mut right: Vec<usize> = Vec::new();
    let mut i: usize = 0;
    while i < n
        invariant
            n == v@.len(),
            mid < n,
            i <= n,
            i <= mid ==> left@ == v@.subrange(0, i as int) && right@.len() == 0,
            i > mid ==> left@ == v@.subrange(0, mid as int) && right@ == v@.subrange(
                mid as int,
                i as int,
            ),
        decreases n - i,
    {
        if i < mid {
            left.push(v[i]);
            assert(left@ =~= v@.subrange(0, i + 1));
        } else {
            right.push(v[i]);
            assert(right@ =~= v@.subrange(mid as int, i + 1));
        }
        i += 1;
    }
    assert(v@ =~= left@ + right@);
    proof {
        lemma_multiset_commutative(left@, right@);
    }
    let sl = merge_sort(o, left);
    let sr = merge_sort(o, right);
    merge(o, &sl, &sr)
}

fn merge<O: IndexOrder>(o: &O, a: &Vec<usize>, b: &Vec<usize>) -> (r: Vec<usize>)
    requires
        in_bounds(o, a@),
        in_bounds(o, b@),
        sorted_by(o, a@),
        sorted_by(o, b@),
    ensures
        r@.to_multiset() == a@.to_multiset().add(b@.to_multiset()),
        sorted_by(o, r@),
        r@.len() == a@.len() + b@.len(),
        in_bounds(o, r@),
{
    let mut out: Vec<usize> = Vec::new();
    let mut i: usize = 0;
    let mut j: usize = 0;
    while i < a.len() || j < b.len()
        invariant
            i <= a@.len(),
            j <= b@.len(),
            in_bounds(o, a@),
            in_bounds(o, b@),
            sorted_by(o, a@),
            sorted_by(o, b@),
            in_bounds(o, out@),
            sorted_by(o, out@),
            out@.len() == i + j,
            out@.to_multiset() == a@.subrange(0, i as int).to_multiset().add(
                b@.subrange(0, j as int).to_multiset(),
            ),
            forall|k: int, r: int|
                0 <= k < out@.len() && i <= r < a@.len() ==> #[trigger] o.le(
                    out@[k] as int,
                    a@[r] as int,
                ),
            forall|k: int, r: int|
                0 <= k < out@.len() && j <= r < b@.len() ==> #[trigger] o.le(
                    out@[k] as int,
                    b@[r] as int,
                ),
        decreases a@.len() + b@.len() - i - j,
    {
        let take_a = if i < a.len() && j < b.len() {
            o.le_exec(a[i], b[j])
        } else {
            i < a.len()
        };
        let ghost old_out = out@;
        if take_a {
            let x = a[i];
            proof {
                if j < b@.len() {
                    assert forall|r: int| j <= r < b@.len() implies #[trigger] o.le(
                        x as int,
                        b@[r] as int,
                    ) by {
                        if r > j {
                            o.lemma_trans(x as int, b@[j as int] as int, b@[r] as int);
                        }
                    }
                }
                assert(a@.subrange(0, i + 1) =~= a@.subrange(0, i as int).push(x));
            }
            out.push(x);
            i += 1;
        } else {
            let x = b[j];
            proof {
                if i < a@.len() {
                    o.lemma_total(a@[i as int] as int, x as int);
                    assert forall|r: int| i <= r < a@.len() implies #[trigger] o.le(
                        x as int,
                        a@[r] as int,
                    ) by {
                        if r > i {
                            o.lemma_trans(x as int, a@[i as int] as int, a@[r] as int);
                        }
                    }
                }
                assert(b@.subrange(0, j + 1) =~= b@.subrange(0, j as int).push(x));
            }
            out.push(x);
            j += 1;
        }
        proof {
            assert forall|p: int, q: int| 0 <= p < q < out@.len() implies #[trigger] o.le(
                out@[p] as int,
                out@[q] as int,
            ) by {
                if q < old_out.len() {
                    assert(o.le(old_out[p] as int, old_out[q] as int));
                }
            }
        }
    }
    assert(a@.subrange(0, i as int) =~= a@);
    assert(b@.subrange(0, j as int) =~= b@);
    out
}


/// A sequence with the elements of `positions(n)` holds each of them once.
pub proof fn lemma_positions_distinct(s: Seq<usize>, n: nat, a: int, b: int)
    requires
        s.to_multiset() == positions(n).to_multiset(),
        n <= usize::MAX,
        0 <= a < b < s.len(),
    ensures
        s[a] != s[b],
{
    if s[a] == s[b] {
        let v = s[a];
        let p = positions(n);
        assert(s.remove(a).to_multiset() =~= s.to_multiset().remove(v));
        assert(s.remove(a)[b - 1] == v);
        assert(s.remove(a).contains(v));
        assert(s.contains(v));
        assert(s.to_multiset().count(v) > 0);
        assert(p.to_multiset().count(v) > 0);
        assert(p.contains(v));
        let i = choose|i: int| 0 <= i < p.len() && p[i] == v;
        assert(p[i] == i as usize);
        assert(i == v as int);
        assert(p.remove(i).to_multiset() =~= p.to_multiset().remove(v));
        assert(!p.remove(i).contains(v)) by {
            if p.remove(i).contains(v) {
                let j = choose|j: int| 0 <= j < p.remove(i).len() && p.remove(i)[j] == v;
                if j < i {
                    assert(p.remove(i)[j] == p[j]);
                } else {
                    assert(p.remove(i)[j] == p[j + 1]);
                }
            }
        }
        assert(p.to_multiset().remove(v).count(v) == 0);
        assert(s.to_multiset().remove(v).count(v) > 0);
    }
}

} // verus!
