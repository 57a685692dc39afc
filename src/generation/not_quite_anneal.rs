use vstd::prelude::*;
use crate::generation::layout::{is_layout_fn, is_permutation, lemma_score_of, lemma_swap_keeps, score_of, swap, swapped};

verus! {

/// Relies on fastrand::usize: for `lo < hi`, a value drawn from `lo..hi`.
#[verifier::external_body]
fn random_index(lo: usize, hi: usize) -> (r: usize)
    requires
        lo < hi,
    ensures
        lo <= r < hi,
{
    fastrand::usize(lo..hi)
}

/// `t × resistance / (resistance + 1)`, rounded down.
pub open spec fn decayed(t: int, resistance: int) -> int {
    (t * resistance) / (resistance + 1)
}

/// The temperature after one step of decay: `t × resistance / (resistance + 1)`,
/// rounded down.
pub fn decay(t: u128, resistance: u64) -> (r: u128)
    requires
        resistance >= 1,
        t <= 2 * (u64::MAX as u128),
    ensures
        r * (resistance + 1) <= t * resistance < (r + 1) * (resistance + 1),
        r == decayed(t as int, resistance as int),
        r <= t,
        t > 0 ==> r < t,
{
    let d = resistance as u128 + 1;
    let q = (t + resistance as u128) / d;
    proof {
        let rr = resistance as int;
        let qi = q as int;
        let ti = t as int;
        assert(qi * (rr + 1) <= ti + rr < qi * (rr + 1) + rr + 1) by (nonlinear_arith)
            requires
                qi == (ti + rr) / (rr + 1),
                rr >= 1,
        ;
        assert(qi <= ti) by (nonlinear_arith)
            requires
                qi * (rr + 1) <= ti + rr,
                rr >= 1,
                ti >= 0,
        ;
        assert((ti - qi) * (rr + 1) <= ti * rr < (ti - qi + 1) * (rr + 1)) by (nonlinear_arith)
            requires
                qi * (rr + 1) <= ti + rr < qi * (rr + 1) + rr + 1,
        ;
        if ti > 0 {
            assert(qi >= 1) by (nonlinear_arith)
                requires
                    qi * (rr + 1) + rr + 1 > ti + rr,
                    ti >= 1,
                    qi >= 0,
                    rr >= 1,
            ;
        }
    }
    proof {
        let rr = resistance as int;
        let x = (t - q) as int;
        let ti = t as int;
        assert(x * (rr + 1) <= ti * rr < (x + 1) * (rr + 1));
        assert((x + 1) * (rr + 1) == x * (rr + 1) + (rr + 1)) by (nonlinear_arith);
        vstd::arithmetic::div_mod::lemma_fundamental_div_mod_converse(
            (t as int) * rr,
            rr + 1,
            x,
            (t as int) * rr - x * (rr + 1),
        );
    }
    t - q
}

/// One step of the temperature-decay search, on the drawn positions `i1` and
/// `i2`: the swap is kept exactly when the new score is below `current` plus
/// `temperature`; a kept swap moves the temperature by the score's drop, and
/// the temperature then decays. Returns the new score and temperature.
pub fn anneal_step<F: Fn(&Vec<usize>) -> u64>(
    layout: &mut Vec<usize>,
    i1: usize,
    i2: usize,
    analyze: &F,
    current: u64,
    temperature: u128,
    decay_resistance: u64,
) -> (r: (u64, u128))
    requires
        i1 < old(layout).len(),
        i2 < old(layout).len(),
        is_layout_fn(*analyze),
        current == score_of(*analyze, old(layout)@),
        decay_resistance >= 1,
        temperature + current <= 2 * (u64::MAX as u128),
    ensures
        score_of(*analyze, swapped(old(layout)@, i1 as int, i2 as int)) < current + temperature ==> {
            &&& final(layout)@ == swapped(old(layout)@, i1 as int, i2 as int)
            &&& r.0 == score_of(*analyze, swapped(old(layout)@, i1 as int, i2 as int))
            &&& r.1 == decayed(temperature + current - r.0, decay_resistance as int)
        },
        !(score_of(*analyze, swapped(old(layout)@, i1 as int, i2 as int)) < current + temperature) ==> {
            &&& final(layout)@ == old(layout)@
            &&& r.0 == current
            &&& r.1 == decayed(temperature as int, decay_resistance as int)
        },
        r.0 == score_of(*analyze, final(layout)@),
        r.1 + r.0 <= temperature + current,
{
    let ghost before = layout@;
    proof {
        lemma_swap_keeps(before, i1 as int, i2 as int, 0);
    }
    swap(layout, i1, i2);
    let new_score = analyze(layout);
    proof {
        lemma_score_of(*analyze, layout, new_score);
    }
    if (new_score as u128) < current as u128 + temperature {
        let t = decay(temperature + current as u128 - new_score as u128, decay_resistance);
        (new_score, t)
    } else {
        swap(layout, i1, i2);
        (current, decay(temperature, decay_resistance))
    }
}

/// Swaps two random positions at or after `pinned` at each step, keeping the
/// swap when the new score is below the current score plus the temperature;
/// a kept swap moves the temperature by the score's drop, and every step
/// decays it by `decay_resistance / (decay_resistance + 1)`. Stops when the
/// temperature reaches zero and returns the final score, which is at most
/// twice the starting score.
pub fn not_quite_anneal<F: Fn(&Vec<usize>) -> u64>(layout: &mut Vec<usize>, pinned: usize, analyze: F, decay_resistance: u64) -> (r: u64)
    requires
        pinned + 1 < old(layout).len(),
        is_layout_fn(analyze),
        decay_resistance >= 1,
    ensures
        final(layout).len() == old(layout).len(),
        final(layout)@.take(pinned as int) == old(layout)@.take(pinned as int),
        is_permutation(old(layout)@) ==> is_permutation(final(layout)@),
        r == score_of(analyze, final(layout)@),
        r <= 2 * score_of(analyze, old(layout)@),
{
    let ghost start = layout@;
    let n = layout.len();
    let mut current = analyze(layout);
    proof {
        lemma_score_of(analyze, layout, current);
    }
    let ghost s0 = current;
    let mut temperature: u128 = current as u128;
    while 0 < temperature
        invariant
            is_layout_fn(analyze),
            pinned + 1 < n,
            decay_resistance >= 1,
            layout.len() == n,
            start.len() == n,
            s0 == score_of(analyze, start),
            layout@.take(pinned as int) == start.take(pinned as int),
            is_permutation(start) ==> is_permutation(layout@),
            current == score_of(analyze, layout@),
            temperature + current <= 2 * s0,
        decreases temperature + current,
    {
        let i1 = random_index(pinned, n);
        let mut i2 = random_index(pinned, n - 1);
        if i2 >= i1 {
            i2 = i2 + 1;
        }
        let ghost before = layout@;
        proof {
            lemma_swap_keeps(before, i1 as int, i2 as int, pinned as int);
        }
        let (c, t) = anneal_step(layout, i1, i2, &analyze, current, temperature, decay_resistance);
        proof {
            assert(t + c < temperature + current) by {
                let nw = score_of(analyze, swapped(before, i1 as int, i2 as int));
                if nw < current + temperature {
                    lemma_decay_below(temperature + current - nw, decay_resistance as int);
                } else {
                    lemma_decay_below(temperature as int, decay_resistance as int);
                }
            }
        }
        current = c;
        temperature = t;
    }
    current
}

/// Decay lowers every positive temperature.
pub proof fn lemma_decay_below(t: int, resistance: int)
    requires
        t > 0,
        resistance >= 1,
    ensures
        decayed(t, resistance) < t,
{
    assert(t * resistance < t * (resistance + 1)) by (nonlinear_arith)
        requires
            t > 0,
    ;
    vstd::arithmetic::div_mod::lemma_div_by_multiple_is_strongly_ordered(t * resistance, t * (resistance + 1), t, resistance + 1);
    vstd::arithmetic::div_mod::lemma_div_by_multiple(t, resistance + 1);
}

} // verus!
