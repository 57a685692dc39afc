use vstd::prelude::*;

verus! {

/// `s` holds each of `0..s.len()` exactly once.
pub open spec fn is_permutation(s: Seq<usize>) -> bool {
    &&& forall|i: int| 0 <= i < s.len() ==> #[trigger] s[i] < s.len()
    &&& forall|i: int, j: int| 0 <= i < s.len() && 0 <= j < s.len() && i != j ==> #[trigger] s[i] != #[trigger] s[j]
}

/// `s` with the elements at `i` and `j` exchanged.
pub open spec fn swapped(s: Seq<usize>, i: int, j: int) -> Seq<usize> {
    s.update(i, s[j]).update(j, s[i])
}

/// `f` may be called on every layout, and what it returns depends on the
/// layout's contents alone.
pub open spec fn is_layout_fn<F: Fn(&Vec<usize>) -> u64>(f: F) -> bool {
    &&& forall|v: &Vec<usize>| #[trigger] f.requires((v,))
    &&& forall|v1: &Vec<usize>, v2: &Vec<usize>, r1: u64, r2: u64|
        v1@ == v2@ && #[trigger] f.ensures((v1,), r1) && #[trigger] f.ensures((v2,), r2) ==> r1 == r2
}

/// What `f` returns on a layout holding `s`.
pub open spec fn score_of<F: Fn(&Vec<usize>) -> u64>(f: F, s: Seq<usize>) -> u64 {
    (choose|p: (Vec<usize>, u64)| #[trigger] f.ensures((&p.0,), p.1) && p.0@ == s).1
}

pub proof fn lemma_score_of<F: Fn(&Vec<usize>) -> u64>(f: F, v: &Vec<usize>, r: u64)
    requires
        is_layout_fn(f),
        f.ensures((v,), r),
    ensures
        r == score_of(f, v@),
{
    let q = (*v, r);
    assert(f.ensures((&q.0,), q.1) && q.0@ == v@);
    let p = choose|p: (Vec<usize>, u64)| #[trigger] f.ensures((&p.0,), p.1) && p.0@ == v@;
    assert(f.ensures((&p.0,), p.1));
}

/// Exchanges the elements at `i` and `j`.
pub fn swap(v: &mut Vec<usize>, i: usize, j: usize)
    requires
        i < old(v).len(),
        j < old(v).len(),
    ensures
        final(v)@ == swapped(old(v)@, i as int, j as int),
{
    let a = v[i];
    let b = v[j];
    v.set(i, b);
    v.set(j, a);
}

pub proof fn lemma_swap_keeps(s: Seq<usize>, i: int, j: int, p: int)
    requires
        0 <= i < s.len(),
        0 <= j < s.len(),
        0 <= p,
        p <= i,
        p <= j,
    ensures
        is_permutation(s) ==> is_permutation(swapped(s, i, j)),
        swapped(s, i, j).take(p) == s.take(p),
        swapped(s, i, j).len() == s.len(),
        swapped(swapped(s, i, j), i, j) == s,
{
    let t = swapped(s, i, j);
    assert(t.take(p) =~= s.take(p));
    assert(swapped(t, i, j) =~= s);
    if is_permutation(s) {
        assert forall|a: int, b: int| 0 <= a < t.len() && 0 <= b < t.len() && a != b implies #[trigger] t[a] != #[trigger] t[b] by {
            let sa = if a == i { j } else if a == j { i } else { a };
            let sb = if b == i { j } else if b == j { i } else { b };
            assert(t[a] == s[sa]);
            assert(t[b] == s[sb]);
        }
        assert forall|a: int| 0 <= a < t.len() implies #[trigger] t[a] < t.len() by {
            let sa = if a == i { j } else if a == j { i } else { a };
            assert(t[a] == s[sa]);
        }
    }
}

} // verus!
