use vstd::prelude::*;
use crate::indexes::{digits_below, fold, power};
use crate::tensor::sparse_view;

verus! {

/// The largest element of a nonempty `t`.
pub open spec fn max_of(t: Seq<usize>) -> int
    decreases t.len(),
{
    if t.len() <= 1 {
        if t.len() == 1 { t[0] as int } else { 0 }
    } else {
        let m = max_of(t.drop_last());
        if t.last() > m { t.last() as int } else { m }
    }
}

/// The entries of `s` whose largest index is `b`, in order.
pub open spec fn bucket_of(s: Seq<(Seq<usize>, u64)>, b: int) -> Seq<(Seq<usize>, u64)>
    decreases s.len(),
{
    if s.len() == 0 {
        Seq::empty()
    } else {
        let prev = bucket_of(s.drop_last(), b);
        if max_of(s.last().0) == b { prev.push(s.last()) } else { prev }
    }
}

/// The entries of `s` whose largest index is in `[lo, hi)`, grouped by that
/// index in increasing order, each group in the order of `s`.
pub open spec fn kept(s: Seq<(Seq<usize>, u64)>, lo: int, hi: int) -> Seq<(Seq<usize>, u64)>
    decreases hi - lo,
{
    if hi <= lo {
        Seq::empty()
    } else {
        kept(s, lo, hi - 1) + bucket_of(s, hi - 1)
    }
}

/// The key tuple that `layout` gives the character tuple `t`, as a position in the dense tensor.
pub open spec fn dense_index(t: Seq<usize>, layout: Seq<usize>, side: nat) -> int {
    fold(t.map_values(|i: usize| layout[i as int]), side)
}

/// The summed weight × cost of `entries` under `layout`.
pub open spec fn sum_scores(entries: Seq<(Seq<usize>, u64)>, layout: Seq<usize>, dense: Seq<u64>, side: nat) -> int
    decreases entries.len(),
{
    if entries.len() == 0 {
        0
    } else {
        sum_scores(entries.drop_last(), layout, dense, side) + entries.last().1 * dense[dense_index(
            entries.last().0,
            layout,
            side,
        )]
    }
}

/// Every tuple of `s` has `d` indices, each below `side`.
pub open spec fn tuples_in_range(s: Seq<(Seq<usize>, u64)>, d: nat, side: nat) -> bool {
    forall|j: int| 0 <= j < s.len() ==> (#[trigger] s[j]).0.len() == d && digits_below(s[j].0, side)
}

/// A layout of `n` positions: keys below `side` at each.
pub open spec fn layout_ok(layout: Seq<usize>, side: nat) -> bool {
    digits_below(layout, side)
}

pub proof fn lemma_max_of(t: Seq<usize>)
    requires
        t.len() >= 1,
    ensures
        forall|i: int| 0 <= i < t.len() ==> #[trigger] t[i] <= max_of(t),
        exists|i: int| 0 <= i < t.len() && #[trigger] t[i] == max_of(t),
    decreases t.len(),
{
    if t.len() > 1 {
        let p = t.drop_last();
        lemma_max_of(p);
        assert forall|i: int| 0 <= i < t.len() implies #[trigger] t[i] <= max_of(t) by {
            if i < t.len() - 1 {
                assert(t[i] == p[i]);
            }
        }
        if t.last() > max_of(p) {
            assert(t[t.len() - 1] == max_of(t));
        } else {
            let i = choose|i: int| 0 <= i < p.len() && #[trigger] p[i] == max_of(p);
            assert(t[i] == max_of(t));
        }
    } else {
        assert(t[0] == max_of(t));
    }
}

pub proof fn lemma_bucket_of(s: Seq<(Seq<usize>, u64)>, b: int)
    ensures
        forall|j: int| 0 <= j < bucket_of(s, b).len() ==> max_of((#[trigger] bucket_of(s, b)[j]).0) == b,
        forall|j: int| 0 <= j < bucket_of(s, b).len() ==> s.contains(#[trigger] bucket_of(s, b)[j]),
    decreases s.len(),
{
    if s.len() > 0 {
        let p = s.drop_last();
        lemma_bucket_of(p, b);
        let bp = bucket_of(p, b);
        assert forall|j: int| 0 <= j < bucket_of(s, b).len() implies s.contains(#[trigger] bucket_of(s, b)[j]) by {
            if j < bp.len() {
                assert(bucket_of(s, b)[j] == bp[j]);
                let k = choose|k: int| 0 <= k < p.len() && p[k] == bp[j];
                assert(s[k] == p[k]);
            } else {
                assert(s[s.len() - 1] == bucket_of(s, b)[j]);
            }
        }
    }
}

pub proof fn lemma_fold_bound(t: Seq<usize>, b: nat)
    requires
        digits_below(t, b),
    ensures
        0 <= fold(t, b) < power(b, t.len()),
    decreases t.len(),
{
    if t.len() > 0 {
        let p = t.drop_last();
        assert(digits_below(p, b)) by {
            assert forall|i: int| 0 <= i < p.len() implies #[trigger] p[i] < b by {
                assert(p[i] == t[i]);
            }
        }
        lemma_fold_bound(p, b);
        let f = fold(p, b);
        let q = power(b, p.len());
        assert(t.last() < b);
        assert(f * b + t.last() < q * b) by (nonlinear_arith)
            requires
                0 <= f < q,
                0 <= t.last() < b,
        ;
        assert(f * b + t.last() >= 0) by (nonlinear_arith)
            requires
                0 <= f,
                0 <= t.last(),
                b >= 0,
        ;
        assert(power(b, t.len()) == b * q);
        assert(q * b == b * q) by (nonlinear_arith);
    }
}


pub proof fn lemma_power_mono(b: nat, e1: nat, e2: nat)
    requires
        b >= 1,
        e1 <= e2,
    ensures
        power(b, e1) <= power(b, e2),
        power(b, e1) >= 1,
    decreases e2,
{
    if e2 > e1 {
        lemma_power_mono(b, e1, (e2 - 1) as nat);
        assert(b * power(b, (e2 - 1) as nat) >= power(b, (e2 - 1) as nat)) by (nonlinear_arith)
            requires
                b >= 1,
        ;
    } else if e1 > 0 {
        lemma_power_mono(b, (e1 - 1) as nat, (e1 - 1) as nat);
        assert(b * power(b, (e1 - 1) as nat) >= 1) by (nonlinear_arith)
            requires
                b >= 1,
                power(b, (e1 - 1) as nat) >= 1,
        ;
    }
}

pub proof fn lemma_sum_scores_step(entries: Seq<(Seq<usize>, u64)>, lo: int, j: int, layout: Seq<usize>, dense: Seq<u64>, side: nat)
    requires
        0 <= lo <= j < entries.len(),
    ensures
        sum_scores(entries.subrange(lo, j + 1), layout, dense, side) == sum_scores(entries.subrange(lo, j), layout, dense, side)
            + entries[j].1 * dense[dense_index(entries[j].0, layout, side)],
{
    assert(entries.subrange(lo, j + 1).drop_last() =~= entries.subrange(lo, j));
}

pub proof fn lemma_sum_scores_le(entries: Seq<(Seq<usize>, u64)>, lo: int, j: int, hi: int, layout: Seq<usize>, dense: Seq<u64>, side: nat)
    requires
        0 <= lo <= j <= hi <= entries.len(),
        forall|k: int| 0 <= k < dense.len() ==> #[trigger] dense[k] >= 0,
    ensures
        0 <= sum_scores(entries.subrange(lo, j), layout, dense, side) <= sum_scores(entries.subrange(lo, hi), layout, dense, side),
    decreases hi - lo,
{
    if j < hi {
        lemma_sum_scores_le(entries, lo, j, hi - 1, layout, dense, side);
        lemma_sum_scores_step(entries, lo, hi - 1, layout, dense, side);
        let e = entries[hi - 1];
        let d = dense[dense_index(e.0, layout, side)];
        assert(e.1 * d >= 0) by (nonlinear_arith)
            requires
                e.1 >= 0,
                d >= 0,
        ;
    } else if j > lo {
        lemma_sum_scores_le(entries, lo, j - 1, j - 1, layout, dense, side);
        lemma_sum_scores_step(entries, lo, j - 1, layout, dense, side);
        let e = entries[j - 1];
        let d = dense[dense_index(e.0, layout, side)];
        assert(e.1 * d >= 0) by (nonlinear_arith)
            requires
                e.1 >= 0,
                d >= 0,
        ;
    } else {
        assert(entries.subrange(lo, j).len() == 0);
    }
}


/// The largest index of each tuple of `sparse`.
fn tuple_maxes(sparse: &Vec<(Vec<usize>, u64)>) -> (r: Vec<usize>)
    requires
        forall|k: int| 0 <= k < sparse.len() ==> (#[trigger] sparse@[k]).0.len() >= 1,
    ensures
        r.len() == sparse.len(),
        forall|k: int| 0 <= k < sparse.len() ==> #[trigger] r@[k] == max_of(sparse_view(sparse@)[k].0),
{
    let mut r: Vec<usize> = Vec::new();
    let mut j: usize = 0;
    while j < sparse.len()
        invariant
            forall|k: int| 0 <= k < sparse.len() ==> (#[trigger] sparse@[k]).0.len() >= 1,
            j <= sparse.len(),
            r.len() == j,
            forall|k: int| 0 <= k < j ==> #[trigger] r@[k] == max_of(sparse_view(sparse@)[k].0),
        decreases sparse.len() - j,
    {
        r.push(max_index(&sparse[j].0));
        j += 1;
    }
    r
}

/// `n` zeros.
fn zeros(n: usize) -> (r: Vec<usize>)
    ensures
        r.len() == n,
        forall|k: int| 0 <= k < n ==> #[trigger] r@[k] == 0,
{
    let mut r: Vec<usize> = Vec::new();
    while r.len() < n
        invariant
            r.len() <= n,
            forall|k: int| 0 <= k < r.len() ==> #[trigger] r@[k] == 0,
        decreases n - r.len(),
    {
        r.push(0);
    }
    r
}

/// Appends to `out` the tuples of `sparse` whose largest index is `b`, in order.
fn gather_bucket(out: &mut Vec<(Vec<usize>, u64)>, sparse: &Vec<(Vec<usize>, u64)>, maxes: &Vec<usize>, b: usize)
    requires
        maxes.len() == sparse.len(),
        forall|k: int| 0 <= k < sparse.len() ==> #[trigger] maxes@[k] == max_of(sparse_view(sparse@)[k].0),
    ensures
        sparse_view(final(out)@) == sparse_view(old(out)@) + bucket_of(sparse_view(sparse@), b as int),
        final(out)@.take(old(out).len() as int) == old(out)@,
        forall|k: int| old(out).len() <= k < final(out).len() ==> max_of((#[trigger] final(out)@[k]).0@) == b,
        forall|m: nat, side: nat|
            tuples_in_range(sparse_view(old(out)@), m, side) && tuples_in_range(sparse_view(sparse@), m, side)
                ==> #[trigger] tuples_in_range(sparse_view(final(out)@), m, side),
{
    let ghost s = sparse_view(sparse@);
    let ghost start = out@;
    let mut j: usize = 0;
    while j < sparse.len()
        invariant
            s == sparse_view(sparse@),
            maxes.len() == sparse.len(),
            forall|k: int| 0 <= k < sparse.len() ==> #[trigger] maxes@[k] == max_of(s[k].0),
            j <= sparse.len(),
            start.len() <= out.len(),
            sparse_view(out@) == sparse_view(start) + bucket_of(s.take(j as int), b as int),
            out@.take(start.len() as int) == start,
            forall|k: int| start.len() <= k < out.len() ==> max_of((#[trigger] out@[k]).0@) == b,
            forall|k: int| start.len() <= k < out.len() ==> exists|i: int| 0 <= i < sparse.len() && #[trigger] sparse_view(out@)[k] == s[i],
        decreases sparse.len() - j,
    {
        proof {
            assert(s.take(j + 1).drop_last() =~= s.take(j as int));
            assert(s[j as int] == (sparse@[j as int].0@, sparse@[j as int].1));
        }
        if maxes[j] == b {
            let t = sparse[j].0.clone();
            let ghost prev = out@;
            out.push((t, sparse[j].1));
            proof {
                assert(sparse_view(out@) =~= sparse_view(prev).push(s[j as int]));
                assert(sparse_view(out@) =~= sparse_view(start) + bucket_of(s.take(j + 1), b as int));
                assert(out@.take(start.len() as int) =~= prev.take(start.len() as int));
                assert forall|k: int| start.len() <= k < out.len() implies exists|i: int| 0 <= i < sparse.len() && #[trigger] sparse_view(out@)[k] == s[i] by {
                    if k < prev.len() {
                        assert(sparse_view(out@)[k] == sparse_view(prev)[k]);
                    } else {
                        assert(sparse_view(out@)[k] == s[j as int]);
                    }
                }
                assert forall|k: int| start.len() <= k < out.len() implies max_of((#[trigger] out@[k]).0@) == b by {
                    if k < prev.len() {
                        assert(out@[k] == prev[k]);
                    }
                }
            }
        } else {
            proof {
                assert(bucket_of(s.take(j + 1), b as int) =~= bucket_of(s.take(j as int), b as int));
            }
        }
        j += 1;
    }
    proof {
        assert(s.take(sparse.len() as int) =~= s);
        assert forall|m: nat, side: nat|
            tuples_in_range(sparse_view(start), m, side) && tuples_in_range(s, m, side) implies #[trigger] tuples_in_range(sparse_view(out@), m, side) by {
            assert forall|k: int| 0 <= k < sparse_view(out@).len() implies (#[trigger] sparse_view(out@)[k]).0.len() == m && digits_below(sparse_view(out@)[k].0, side) by {
                if k < start.len() {
                    assert(out@[k] == start[k]);
                    assert(sparse_view(out@)[k] == sparse_view(start)[k]);
                } else {
                    let i = choose|i: int| 0 <= i < sparse.len() && #[trigger] sparse_view(out@)[k] == s[i];
                }
            }
        }
    }
}

/// The largest index of a nonempty tuple.
pub fn max_index(t: &Vec<usize>) -> (r: usize)
    requires
        t.len() >= 1,
    ensures
        r == max_of(t@),
{
    let mut m = t[0];
    let mut i: usize = 1;
    proof {
        assert(t@.take(1).len() == 1);
        assert(max_of(t@.take(1)) == t@[0]);
    }
    while i < t.len()
        invariant
            1 <= i <= t.len(),
            m == max_of(t@.take(i as int)),
        decreases t.len() - i,
    {
        proof {
            assert(t@.take(i + 1).drop_last() =~= t@.take(i as int));
        }
        if t[i] > m {
            m = t[i];
        }
        i += 1;
    }
    proof {
        assert(t@.take(t.len() as int) =~= t@);
    }
    m
}

/// Scores layouts against a dense key-cost tensor and a sparse list of
/// weighted character tuples, grouped by their largest index so that the
/// tuples a layout prefix settles come first.
pub struct CompiledNgramAnalyzer {
    sparse: Vec<(Vec<usize>, u64)>,
    bucket_bounds: Vec<usize>,
    dense: Vec<u64>,
    side_len: usize,
    dim: usize,
}

impl CompiledNgramAnalyzer {
    /// The weighted character tuples, grouped by largest index.
    pub closed spec fn entries(&self) -> Seq<(Seq<usize>, u64)> {
        sparse_view(self.sparse@)
    }

    /// Where the group of tuples whose largest index is `b - 1` ends.
    pub closed spec fn bound(&self, b: int) -> int {
        self.bucket_bounds@[b] as int
    }

    /// The key cost of every key tuple, by its number in base `side()`.
    pub closed spec fn costs(&self) -> Seq<u64> {
        self.dense@
    }

    /// The number of keys and characters.
    pub closed spec fn side(&self) -> nat {
        self.side_len as nat
    }

    /// The length of each tuple.
    pub closed spec fn arity(&self) -> nat {
        self.dim as nat
    }


    /// Groups `sparse` by the largest index of each tuple, keeping the order of
    /// `sparse` within a group and dropping the tuples whose indices are all
    /// pinned (below `pins`).
    #[verifier::rlimit(100)]
    pub fn new(dense: Vec<u64>, sparse: Vec<(Vec<usize>, u64)>, pins: usize, side_len: usize, dim: usize) -> (r: Self)
        requires
            pins < side_len < usize::MAX,
            dim >= 1,
            dense.len() == power(side_len as nat, dim as nat),
            tuples_in_range(sparse_view(sparse@), dim as nat, side_len as nat),
        ensures
            r.wf(),
            r.side() == side_len,
            r.arity() == dim,
            r.costs() == dense@,
            r.entries() == kept(sparse_view(sparse@), pins as int, side_len as int),
            forall|b: int| 0 <= b <= pins ==> #[trigger] r.bound(b) == 0,
            forall|b: int| pins <= b <= side_len ==> #[trigger] r.bound(b) == kept(sparse_view(sparse@), pins as int, b).len(),
    {
        let ghost s = sparse_view(sparse@);
        proof {
            assert forall|k: int| 0 <= k < sparse.len() implies (#[trigger] sparse@[k]).0.len() >= 1 by {
                assert(s[k].0 == sparse@[k].0@);
            }
        }
        let maxes = tuple_maxes(&sparse);
        let mut bounds: Vec<usize> = zeros(side_len + 1);
        let mut out: Vec<(Vec<usize>, u64)> = Vec::new();
        let mut b: usize = pins;
        proof {
            assert(sparse_view(out@) =~= kept(s, pins as int, pins as int));
        }
        while b < side_len
            invariant
                s == sparse_view(sparse@),
                tuples_in_range(s, dim as nat, side_len as nat),
                maxes.len() == sparse.len(),
                forall|k: int| 0 <= k < sparse.len() ==> #[trigger] maxes@[k] == max_of(s[k].0),
                pins <= b <= side_len,
                bounds.len() == side_len + 1,
                sparse_view(out@) == kept(s, pins as int, b as int),
                forall|k: int| 0 <= k <= pins ==> #[trigger] bounds@[k] == 0,
                forall|k: int| pins <= k <= b ==> #[trigger] bounds@[k] == kept(s, pins as int, k).len(),
                bounds@[b as int] == out.len(),
                forall|a: int, c: int| 0 <= a <= c <= b ==> #[trigger] bounds@[a] <= #[trigger] bounds@[c],
                tuples_in_range(sparse_view(out@), dim as nat, side_len as nat),
                forall|bb: int, k: int|
                    0 <= bb < b && #[trigger] bounds@[bb] <= k < bounds@[bb + 1] ==> max_of((#[trigger] out@[k]).0@) == bb,
            decreases side_len - b,
        {
            let ghost before = out@;
            gather_bucket(&mut out, &sparse, &maxes, b);
            proof {
                assert(sparse_view(out@) =~= kept(s, pins as int, b + 1));
                assert(tuples_in_range(sparse_view(out@), dim as nat, side_len as nat));
            }
            bounds.set(b + 1, out.len());
            proof {
                assert forall|bb: int, k: int|
                    0 <= bb < b + 1 && #[trigger] bounds@[bb] <= k < bounds@[bb + 1] implies max_of((#[trigger] out@[k]).0@) == bb by {
                    if bb < b {
                        assert(bounds@[bb + 1] <= bounds@[b as int]);
                        assert(out@[k] == before[k]);
                    }
                }
            }
            b += 1;
        }
        let r = CompiledNgramAnalyzer { sparse: out, bucket_bounds: bounds, dense, side_len, dim };
        proof {
            assert forall|a: int, c: int| 0 <= a <= c <= side_len implies #[trigger] r.bucket_bounds@[a] <= #[trigger] r.bucket_bounds@[c] by {}
        }
        r
    }

    /// The cost of the key tuple that `layout` gives the character tuple `index`.
    fn dense_weight(&self, index: &Vec<usize>, layout: &Vec<usize>) -> (r: u64)
        requires
            self.wf(),
            index.len() == self.dim,
            forall|i: int| 0 <= i < index.len() ==> #[trigger] index@[i] < layout.len(),
            layout_ok(layout@, self.side()),
        ensures
            r == self.costs()[dense_index(index@, layout@, self.side())],
    {
        let ghost m = index@.map_values(|i: usize| layout@[i as int]);
        let ghost side = self.side_len as nat;
        let dense_len = self.dense.len();
        let mut res: usize = 0;
        let mut i: usize = 0;
        while i < index.len()
            invariant
                dense_len == self.dense@.len(),
                self.wf(),
                side == self.side_len,
                side >= 1,
                index.len() == self.dim,
                forall|k: int| 0 <= k < index.len() ==> #[trigger] index@[k] < layout.len(),
                layout_ok(layout@, side),
                m == index@.map_values(|i: usize| layout@[i as int]),
                i <= index.len(),
                res == fold(m.take(i as int), side),
            decreases index.len() - i,
        {
            let ghost t = m.take(i + 1);
            proof {
                assert(t.drop_last() =~= m.take(i as int));
                assert(digits_below(t, side)) by {
                    assert forall|k: int| 0 <= k < t.len() implies #[trigger] t[k] < side by {
                        assert(t[k] == layout@[index@[k] as int]);
                    }
                }
                lemma_fold_bound(t, side);
                lemma_power_mono(side, (i + 1) as nat, self.dim as nat);
                assert(t.last() == layout@[index@[i as int] as int]);
                assert(fold(t, side) == fold(t.drop_last(), side) * side + t.last());
                assert(fold(t, side) < self.dense@.len());
                assert(res * side + layout@[index@[i as int] as int] < self.dense@.len());
                assert(res * side <= res * side + layout@[index@[i as int] as int]);
            }
            res = res * self.side_len + layout[index[i]];
            i += 1;
        }
        proof {
            assert(m.take(index.len() as int) =~= m);
            assert(digits_below(m, side)) by {
                assert forall|k: int| 0 <= k < m.len() implies #[trigger] m[k] < side by {
                    assert(m[k] == layout@[index@[k] as int]);
                }
            }
            lemma_fold_bound(m, side);
        }
        self.dense[res]
    }

    /// The summed weight × cost of the tuples at positions `[lo, hi)`.
    fn score_inner(&self, layout: &Vec<usize>, lo: usize, hi: usize) -> (r: u64)
        requires
            self.wf(),
            lo <= hi <= self.entries().len(),
            layout_ok(layout@, self.side()),
            forall|j: int, i: int| lo <= j < hi && 0 <= i < self.entries()[j].0.len() ==> #[trigger] self.entries()[j].0[i] < layout.len(),
            sum_scores(self.entries().subrange(lo as int, hi as int), layout@, self.costs(), self.side()) <= u64::MAX,
        ensures
            r == sum_scores(self.entries().subrange(lo as int, hi as int), layout@, self.costs(), self.side()),
    {
        let ghost e = self.entries();
        let mut acc: u64 = 0;
        let mut j: usize = lo;
        while j < hi
            invariant
                self.wf(),
                e == self.entries(),
                lo <= j <= hi <= e.len(),
                layout_ok(layout@, self.side()),
                forall|jj: int, i: int| lo <= jj < hi && 0 <= i < e[jj].0.len() ==> #[trigger] e[jj].0[i] < layout.len(),
                sum_scores(e.subrange(lo as int, hi as int), layout@, self.costs(), self.side()) <= u64::MAX,
                acc == sum_scores(e.subrange(lo as int, j as int), layout@, self.costs(), self.side()),
            decreases hi - j,
        {
            let w = self.sparse[j].1;
            proof {
                assert(e[j as int] == (self.sparse@[j as int].0@, self.sparse@[j as int].1));
                assert(e[j as int].0.len() == self.dim);
            }
            let d = self.dense_weight(&self.sparse[j].0, layout);
            proof {
                lemma_sum_scores_step(e, lo as int, j as int, layout@, self.costs(), self.side());
                lemma_sum_scores_le(e, lo as int, j + 1, hi as int, layout@, self.costs(), self.side());
                assert(w * d >= 0) by (nonlinear_arith)
                    requires
                        w >= 0,
                        d >= 0,
                ;
            }
            acc = acc + w * d;
            j += 1;
        }
        acc
    }

    /// The score of a full layout: `layout[c]` is the key of character `c`.
    pub fn score(&self, layout: &Vec<usize>) -> (r: u64)
        requires
            self.wf(),
            layout.len() == self.side(),
            layout_ok(layout@, self.side()),
            sum_scores(self.entries(), layout@, self.costs(), self.side()) <= u64::MAX,
        ensures
            r == sum_scores(self.entries(), layout@, self.costs(), self.side()),
    {
        proof {
            assert(self.entries().subrange(0, self.entries().len() as int) =~= self.entries());
        }
        self.score_inner(layout, 0, self.sparse.len())
    }

    /// The part of the score that the last position of the prefix `layout`
    /// settles: the tuples whose largest index is `layout.len() - 1`.
    pub fn step_score(&self, layout: &Vec<usize>) -> (r: u64)
        requires
            self.wf(),
            1 <= layout.len() <= self.side(),
            layout_ok(layout@, self.side()),
            sum_scores(self.entries().subrange(self.bound(layout.len() - 1), self.bound(layout.len() as int)), layout@, self.costs(), self.side()) <= u64::MAX,
        ensures
            r == sum_scores(self.entries().subrange(self.bound(layout.len() - 1), self.bound(layout.len() as int)), layout@, self.costs(), self.side()),
    {
        let l = layout.len();
        let lo = self.bucket_bounds[l - 1];
        let hi = self.bucket_bounds[l];
        proof {
            assert(self.bucket_bounds@[l - 1] <= self.bucket_bounds@[l as int]);
            assert(self.bucket_bounds@[l as int] <= self.bucket_bounds@[self.side_len as int]);
            assert forall|j: int, i: int| lo <= j < hi && 0 <= i < self.entries()[j].0.len() implies #[trigger] self.entries()[j].0[i] < layout.len() by {
                assert(self.entries()[j].0 == self.sparse@[j].0@);
                assert(max_of(self.sparse@[j].0@) == l - 1);
                lemma_max_of(self.sparse@[j].0@);
            }
        }
        self.score_inner(layout, lo, hi)
    }

    pub closed spec fn wf(&self) -> bool {
        &&& self.dim >= 1
        &&& self.side_len >= 1
        &&& self.dense@.len() == power(self.side_len as nat, self.dim as nat)
        &&& self.bucket_bounds@.len() == self.side_len + 1
        &&& self.bucket_bounds@[0] == 0
        &&& self.bucket_bounds@[self.side_len as int] == self.sparse@.len()
        &&& forall|a: int, b: int| 0 <= a <= b <= self.side_len ==> #[trigger] self.bucket_bounds@[a] <= #[trigger] self.bucket_bounds@[b]
        &&& tuples_in_range(sparse_view(self.sparse@), self.dim as nat, self.side_len as nat)
        &&& forall|b: int, j: int|
            0 <= b < self.side_len && #[trigger] self.bucket_bounds@[b] <= j < self.bucket_bounds@[b + 1] ==> max_of(
                (#[trigger] self.sparse@[j]).0@,
            ) == b
    }
}

} // verus!

verus! {

/// The summed step scores of the prefixes of `layout` of lengths `1..=k`.
pub open spec fn step_total(a: CompiledNgramAnalyzer, layout: Seq<usize>, k: int) -> int
    decreases k,
{
    if k <= 0 {
        0
    } else {
        step_total(a, layout, k - 1) + sum_scores(
            a.entries().subrange(a.bound(k - 1), a.bound(k)),
            layout.take(k),
            a.costs(),
            a.side(),
        )
    }
}

pub proof fn lemma_sum_scores_append(x: Seq<(Seq<usize>, u64)>, y: Seq<(Seq<usize>, u64)>, layout: Seq<usize>, dense: Seq<u64>, side: nat)
    ensures
        sum_scores(x + y, layout, dense, side) == sum_scores(x, layout, dense, side) + sum_scores(y, layout, dense, side),
    decreases y.len(),
{
    if y.len() > 0 {
        assert((x + y).drop_last() =~= x + y.drop_last());
        lemma_sum_scores_append(x, y.drop_last(), layout, dense, side);
    } else {
        assert(x + y =~= x);
    }
}

/// Scores of tuples whose indices are all below `k` do not depend on the
/// layout past its first `k` positions.
pub proof fn lemma_sum_scores_prefix(s: Seq<(Seq<usize>, u64)>, layout: Seq<usize>, k: int, dense: Seq<u64>, side: nat)
    requires
        0 <= k <= layout.len(),
        forall|j: int, i: int| 0 <= j < s.len() && 0 <= i < s[j].0.len() ==> #[trigger] s[j].0[i] < k,
    ensures
        sum_scores(s, layout, dense, side) == sum_scores(s, layout.take(k), dense, side),
    decreases s.len(),
{
    if s.len() > 0 {
        let p = s.drop_last();
        assert forall|j: int, i: int| 0 <= j < p.len() && 0 <= i < p[j].0.len() implies #[trigger] p[j].0[i] < k by {
            assert(p[j] == s[j]);
            assert(s[j].0[i] < k);
        }
        lemma_sum_scores_prefix(p, layout, k, dense, side);
        let t = s.last().0;
        let m1 = t.map_values(|i: usize| layout[i as int]);
        let m2 = t.map_values(|i: usize| layout.take(k)[i as int]);
        assert forall|i: int| 0 <= i < t.len() implies m1[i] == m2[i] by {
            assert(s[s.len() - 1].0[i] < k);
        }
        assert(m1 =~= m2);
    }
}

/// The score of a full layout is the sum of the step scores of its prefixes.
pub proof fn law_step_decomposition(a: CompiledNgramAnalyzer, layout: Seq<usize>)
    requires
        a.wf(),
        layout.len() == a.side(),
    ensures
        sum_scores(a.entries(), layout, a.costs(), a.side()) == step_total(a, layout, a.side() as int),
{
    lemma_step_total(a, layout, a.side() as int);
    assert(a.entries().take(a.bound(a.side() as int)) =~= a.entries());
}

proof fn lemma_step_total(a: CompiledNgramAnalyzer, layout: Seq<usize>, k: int)
    requires
        a.wf(),
        layout.len() == a.side(),
        0 <= k <= a.side(),
    ensures
        0 <= a.bound(k) <= a.entries().len(),
        step_total(a, layout, k) == sum_scores(a.entries().take(a.bound(k)), layout, a.costs(), a.side()),
    decreases k,
{
    assert(a.bucket_bounds@[k] <= a.bucket_bounds@[a.side_len as int]);
    if k == 0 {
        assert(a.entries().take(0) =~= Seq::<(Seq<usize>, u64)>::empty());
    } else {
        lemma_step_total(a, layout, k - 1);
        let e = a.entries();
        let lo = a.bound(k - 1);
        let hi = a.bound(k);
        assert(a.bucket_bounds@[k - 1] <= a.bucket_bounds@[k]);
        assert(e.take(hi) =~= e.take(lo) + e.subrange(lo, hi));
        lemma_sum_scores_append(e.take(lo), e.subrange(lo, hi), layout, a.costs(), a.side());
        let sub = e.subrange(lo, hi);
        assert forall|j: int, i: int| 0 <= j < sub.len() && 0 <= i < sub[j].0.len() implies #[trigger] sub[j].0[i] < k by {
            assert(sub[j] == e[lo + j]);
            assert(e[lo + j].0 == a.sparse@[lo + j].0@);
            assert(max_of(a.sparse@[lo + j].0@) == k - 1);
            lemma_max_of(a.sparse@[lo + j].0@);
        }
        lemma_sum_scores_prefix(sub, layout, k, a.costs(), a.side());
    }
}

} // verus!
