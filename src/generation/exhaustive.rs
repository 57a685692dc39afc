use vstd::prelude::*;
use crate::generation::layout::{is_layout_fn, is_permutation, lemma_score_of, lemma_swap_keeps, score_of, swap, swapped};
use crate::windows::copy_range;

verus! {

/// The summed step scores of the prefixes of `s` whose lengths are in `(from, to]`.
pub open spec fn steps<F: Fn(&Vec<usize>) -> u64>(f: F, s: Seq<usize>, from: int, to: int) -> int
    decreases to - from,
{
    if to <= from {
        0
    } else {
        steps(f, s, from, to - 1) + score_of(f, s.take(to))
    }
}

pub proof fn lemma_steps_prefix<F: Fn(&Vec<usize>) -> u64>(f: F, a: Seq<usize>, b: Seq<usize>, from: int, to: int)
    requires
        0 <= from,
        0 <= to <= a.len(),
        to <= b.len(),
        a.take(to) == b.take(to),
    ensures
        steps(f, a, from, to) == steps(f, b, from, to),
    decreases to - from,
{
    if to > from {
        assert(a.take(to - 1) =~= a.take(to).take(to - 1));
        assert(b.take(to - 1) =~= b.take(to).take(to - 1));
        lemma_steps_prefix(f, a, b, from, to - 1);
    }
}

pub proof fn lemma_steps_mono<F: Fn(&Vec<usize>) -> u64>(f: F, s: Seq<usize>, from: int, mid: int, to: int)
    requires
        from <= mid <= to,
    ensures
        0 <= steps(f, s, from, mid) <= steps(f, s, from, to),
    decreases to - from,
{
    if to > mid {
        lemma_steps_mono(f, s, from, mid, to - 1);
    } else if mid > from {
        lemma_steps_mono(f, s, from, mid - 1, mid - 1);
    }
}

/// `q` is an arrangement of `l` from position `d` on: it agrees with `l`
/// before `d` and holds the same values, as often, from `d` on.
pub open spec fn arrangement(q: Seq<usize>, l: Seq<usize>, d: int) -> bool {
    &&& q.len() == l.len()
    &&& 0 <= d <= l.len()
    &&& q.take(d) == l.take(d)
    &&& q.skip(d).to_multiset() == l.skip(d).to_multiset()
}

pub proof fn lemma_swap_multiset(s: Seq<usize>, i: int, j: int)
    requires
        0 <= i < s.len(),
        0 <= j < s.len(),
    ensures
        swapped(s, i, j).to_multiset() == s.to_multiset(),
{
    broadcast use vstd::seq_lib::group_to_multiset_ensures, vstd::multiset::group_multiset_axioms;

    let u = s.update(i, s[j]);
    assert(u.to_multiset() == s.to_multiset().insert(s[j]).remove(s[i]));
    assert(u[j] == s[j]);
    assert(u.update(j, s[i]).to_multiset() == u.to_multiset().insert(s[i]).remove(s[j]));
    assert(s.contains(s[i]));
    assert(s.to_multiset().count(s[i]) > 0);
    assert(swapped(s, i, j).to_multiset() =~= s.to_multiset());
}

/// Every arrangement from `d` puts at `d` a value that stands at some
/// position `i2 >= d` of `l`, and is an arrangement from `d + 1` of `l` with
/// `d` and `i2` exchanged.
pub proof fn lemma_next_choice(q: Seq<usize>, l: Seq<usize>, d: int) -> (i2: int)
    requires
        arrangement(q, l, d),
        d < l.len(),
    ensures
        d <= i2 < l.len(),
        l[i2] == q[d],
        arrangement(q, swapped(l, d, i2), d + 1),
{
    broadcast use vstd::seq_lib::group_to_multiset_ensures;

    let qs = q.skip(d);
    let ls = l.skip(d);
    assert(qs[0] == q[d]);
    assert(qs.contains(q[d]));
    assert(ls.to_multiset().count(q[d]) > 0);
    assert(ls.contains(q[d]));
    let w = choose|w: int| 0 <= w < ls.len() && ls[w] == q[d];
    let i2 = d + w;
    let l2 = swapped(l, d, i2);
    assert forall|x: int| 0 <= x < d + 1 implies #[trigger] l2.take(d + 1)[x] == q.take(d + 1)[x] by {
        if x < d {
            assert(q.take(d)[x] == l.take(d)[x]);
        }
    }
    assert(l2.take(d + 1) =~= q.take(d + 1));
    assert(l2.skip(d) =~= swapped(ls, 0, w));
    lemma_swap_multiset(ls, 0, w);
    assert(l2.skip(d + 1) =~= l2.skip(d).remove(0));
    assert(q.skip(d + 1) =~= qs.remove(0));
    assert(l2.skip(d)[0] == q[d]);
    i2
}

/// Depth-first search over the arrangements of `layout[depth..]`, pruning a
/// prefix whose summed step scores reach `best`. Leaves `layout` as it found it.
fn search<F: Fn(&Vec<usize>) -> u64>(
    layout: &mut Vec<usize>,
    depth: usize,
    score: u64,
    best: &mut u64,
    best_layout: &mut Vec<usize>,
    pinned: usize,
    n: usize,
    step_score: &F,
)
    requires
        is_layout_fn(*step_score),
        n == old(layout).len(),
        pinned <= depth < n,
        score == steps(*step_score, old(layout)@, pinned as int, depth as int),
        old(best_layout).len() == old(layout).len(),
        is_permutation(old(layout)@) ==> is_permutation(old(best_layout)@),
        old(best_layout)@.take(pinned as int) == old(layout)@.take(pinned as int),
    ensures
        final(layout)@ == old(layout)@,
        *final(best) <= *old(best),
        final(best_layout).len() == old(layout).len(),
        is_permutation(old(layout)@) ==> is_permutation(final(best_layout)@),
        final(best_layout)@.take(pinned as int) == old(layout)@.take(pinned as int),
        *final(best) < *old(best) ==> steps(*step_score, final(best_layout)@, pinned as int, n as int) == *final(best),
        *final(best) == *old(best) ==> *final(best_layout) == *old(best_layout),
        forall|q: Seq<usize>| #[trigger] arrangement(q, old(layout)@, depth as int) && steps(*step_score, q, pinned as int, n as int)
            < *old(best) ==> *final(best) <= steps(*step_score, q, pinned as int, n as int),
    decreases n - depth,
{
    let ghost start = layout@;
    let mut i2: usize = depth;
    while i2 < n
        invariant
            is_layout_fn(*step_score),
            pinned <= depth < n,
            depth <= i2 <= n,
            layout@ == start,
            layout.len() == n,
            score == steps(*step_score, start, pinned as int, depth as int),
            *best <= *old(best),
            best_layout.len() == n,
            is_permutation(start) ==> is_permutation(best_layout@),
            best_layout@.take(pinned as int) == start.take(pinned as int),
            *best < *old(best) ==> steps(*step_score, best_layout@, pinned as int, n as int) == *best,
            *best == *old(best) ==> *best_layout == *old(best_layout),
            forall|j: int, q: Seq<usize>| depth <= j < i2 && #[trigger] arrangement(q, swapped(start, depth as int, j), depth + 1)
                && steps(*step_score, q, pinned as int, n as int) < *old(best) ==> *best <= steps(*step_score, q, pinned as int, n as int),
        decreases n - i2,
    {
        proof {
            lemma_swap_keeps(start, depth as int, i2 as int, pinned as int);
        }
        swap(layout, depth, i2);
        let prefix = copy_range(layout, 0, depth + 1);
        let step = step_score(&prefix);
        let ghost cur = layout@;
        proof {
            lemma_score_of(*step_score, &prefix, step);
            assert(prefix@ =~= cur.take(depth + 1));
            assert(cur.take(depth as int) =~= start.take(depth as int));
            lemma_steps_prefix(*step_score, cur, start, pinned as int, depth as int);
            assert(steps(*step_score, cur, pinned as int, depth + 1) == score + step);
        }
        let ghost best_before = *best;
        match score.checked_add(step) {
            Some(s) => {
                if s < *best {
                    if depth + 1 < n {
                        search(layout, depth + 1, s, best, best_layout, pinned, n, step_score);
                    } else {
                        *best = s;
                        *best_layout = copy_range(layout, 0, n);
                        proof {
                            assert(best_layout@ =~= layout@);
                            lemma_steps_prefix(*step_score, best_layout@, cur, pinned as int, n as int);
                        }
                    }
                }
            },
            None => {},
        }
        proof {
            assert forall|j: int, q: Seq<usize>| depth <= j < i2 + 1 && #[trigger] arrangement(q, swapped(start, depth as int, j), depth + 1)
                && steps(*step_score, q, pinned as int, n as int) < *old(best) implies *best <= steps(*step_score, q, pinned as int, n as int) by {
                if j == i2 {
                    assert(cur == swapped(start, depth as int, j));
                    assert(q.take(depth + 1) == cur.take(depth + 1));
                    lemma_steps_prefix(*step_score, q, cur, pinned as int, depth + 1);
                    lemma_steps_mono(*step_score, q, pinned as int, depth + 1, n as int);
                    if depth + 1 == n {
                        assert(q =~= q.take(n as int));
                        assert(cur =~= cur.take(n as int));
                    }
                }
            }
        }
        swap(layout, depth, i2);
        i2 += 1;
    }
    proof {
        assert forall|q: Seq<usize>| #[trigger] arrangement(q, start, depth as int) && steps(*step_score, q, pinned as int, n as int)
            < *old(best) implies *best <= steps(*step_score, q, pinned as int, n as int) by {
            let j = lemma_next_choice(q, start, depth as int);
        }
    }
}

/// Arranges `layout[pinned..]` to minimise the sum, over the prefixes that end
/// after `pinned`, of `step_score` of the prefix, searching every arrangement
/// but those a partial sum already rules out.
pub fn exhaustive<F: Fn(&Vec<usize>) -> u64>(layout: &mut Vec<usize>, pinned: usize, step_score: F)
    requires
        pinned < old(layout).len(),
        is_layout_fn(step_score),
    ensures
        final(layout).len() == old(layout).len(),
        final(layout)@.take(pinned as int) == old(layout)@.take(pinned as int),
        is_permutation(old(layout)@) ==> is_permutation(final(layout)@),
        forall|q: Seq<usize>| #[trigger] arrangement(q, old(layout)@, pinned as int) && steps(step_score, q, pinned as int, old(layout).len() as int)
            < u64::MAX ==> steps(step_score, final(layout)@, pinned as int, old(layout).len() as int) <= steps(
            step_score,
            q,
            pinned as int,
            old(layout).len() as int,
        ),
{
    let n = layout.len();
    let ghost start = layout@;
    let mut best: u64 = u64::MAX;
    let mut best_layout = copy_range(layout, 0, n);
    proof {
        assert(best_layout@ =~= layout@);
    }
    search(layout, pinned, 0, &mut best, &mut best_layout, pinned, n, &step_score);
    proof {
        if best == u64::MAX {
            assert(best_layout@ == start);
        }
    }
    let mut i: usize = 0;
    while i < n
        invariant
            i <= n,
            layout.len() == n,
            best_layout.len() == n,
            forall|k: int| 0 <= k < i ==> layout@[k] == best_layout@[k],
        decreases n - i,
    {
        layout.set(i, best_layout[i]);
        i += 1;
    }
    proof {
        assert(layout@ =~= best_layout@);
    }
}

} // verus!
