use vstd::prelude::*;
use crate::generation::layout::{is_layout_fn, is_permutation, lemma_score_of, lemma_swap_keeps, score_of, swap, swapped};

verus! {

/// No exchange of two positions at or after `pinned` gives `s` a lower score.
pub open spec fn is_swap_optimum<F: Fn(&Vec<usize>) -> u64>(f: F, s: Seq<usize>, pinned: int) -> bool {
    forall|i: int, j: int| pinned <= i < j < s.len() ==> score_of(f, #[trigger] swapped(s, i, j)) >= score_of(f, s)
}

/// Improves `layout` by exchanging pairs of positions at or after `pinned`,
/// keeping each exchange that strictly lowers the score, until a full sweep
/// keeps none. Returns the final score.
pub fn hill_climb<F: Fn(&Vec<usize>) -> u64>(layout: &mut Vec<usize>, pinned: usize, analyze: F) -> (r: u64)
    requires
        pinned <= old(layout).len(),
        is_layout_fn(analyze),
    ensures
        final(layout).len() == old(layout).len(),
        final(layout)@.take(pinned as int) == old(layout)@.take(pinned as int),
        is_permutation(old(layout)@) ==> is_permutation(final(layout)@),
        r == score_of(analyze, final(layout)@),
        r <= score_of(analyze, old(layout)@),
        is_swap_optimum(analyze, final(layout)@, pinned as int),
        is_swap_optimum(analyze, old(layout)@, pinned as int) ==> final(layout)@ == old(layout)@,
{
    let ghost start = layout@;
    let n = layout.len();
    let mut best = analyze(layout);
    proof {
        lemma_score_of(analyze, layout, best);
    }
    loop
        invariant
            is_layout_fn(analyze),
            pinned <= n,
            layout.len() == n,
            start.len() == n,
            layout@.take(pinned as int) == start.take(pinned as int),
            is_permutation(start) ==> is_permutation(layout@),
            best == score_of(analyze, layout@),
            best <= score_of(analyze, start),
            is_swap_optimum(analyze, start, pinned as int) ==> layout@ == start,
        ensures
            is_swap_optimum(analyze, layout@, pinned as int),
        decreases best,
    {
        let ghost sweep_start = layout@;
        let ghost sweep_best = best;
        let mut improved = false;
        let mut i: usize = pinned;
        while i < n
            invariant
                is_layout_fn(analyze),
                pinned <= i <= n,
                layout.len() == n,
                start.len() == n,
                layout@.take(pinned as int) == start.take(pinned as int),
                is_permutation(start) ==> is_permutation(layout@),
                best == score_of(analyze, layout@),
                best <= sweep_best,
                sweep_best <= score_of(analyze, start),
                is_swap_optimum(analyze, start, pinned as int) ==> !improved && sweep_start == start,
                improved ==> best < sweep_best,
                !improved ==> layout@ == sweep_start,
                !improved ==> forall|a: int, b: int| pinned <= a < i && a < b < n ==> score_of(analyze, #[trigger] swapped(sweep_start, a, b)) >= best,
            decreases n - i,
        {
            let mut j: usize = i + 1;
            while j < n
                invariant
                    is_layout_fn(analyze),
                    pinned <= i < n,
                    i + 1 <= j <= n,
                    layout.len() == n,
                    start.len() == n,
                    layout@.take(pinned as int) == start.take(pinned as int),
                    is_permutation(start) ==> is_permutation(layout@),
                    best == score_of(analyze, layout@),
                    best <= sweep_best,
                    sweep_best <= score_of(analyze, start),
                    is_swap_optimum(analyze, start, pinned as int) ==> !improved && sweep_start == start,
                    improved ==> best < sweep_best,
                    !improved ==> layout@ == sweep_start,
                    !improved ==> forall|a: int, b: int| pinned <= a < i && a < b < n ==> score_of(analyze, #[trigger] swapped(sweep_start, a, b)) >= best,
                    !improved ==> forall|b: int| i < b < j ==> score_of(analyze, #[trigger] swapped(sweep_start, i as int, b)) >= best,
                decreases n - j,
            {
                let ghost before = layout@;
                proof {
                    lemma_swap_keeps(before, i as int, j as int, pinned as int);
                }
                swap(layout, i, j);
                let score = analyze(layout);
                proof {
                    lemma_score_of(analyze, layout, score);
                    if is_swap_optimum(analyze, start, pinned as int) {
                        assert(layout@ == swapped(start, i as int, j as int));
                        assert(score_of(analyze, swapped(start, i as int, j as int)) >= score_of(analyze, start));
                    }
                }
                if score < best {
                    best = score;
                    improved = true;
                } else {
                    swap(layout, i, j);
                }
                j += 1;
            }
            proof {
                if !improved {
                    assert forall|a: int, b: int| pinned <= a < i + 1 && a < b < n implies score_of(analyze, #[trigger] swapped(sweep_start, a, b)) >= best by {
                        if a == i {
                            assert(i < b < j);
                        }
                    }
                }
            }
            i += 1;
        }
        if !improved {
            proof {
                assert(is_swap_optimum(analyze, layout@, pinned as int));
            }
            break;
        }
    }
    best
}

} // verus!
