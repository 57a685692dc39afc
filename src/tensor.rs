use vstd::prelude::*;
use crate::indexes::unfold;

verus! {

/// `f` may be called on every tuple, and what it returns depends on the
/// tuple's contents alone.
pub open spec fn is_tuple_fn<A, F: Fn(Vec<A>) -> u64>(f: F) -> bool {
    &&& forall|v: Vec<A>| #[trigger] f.requires((v,))
    &&& forall|v1: Vec<A>, v2: Vec<A>, r1: u64, r2: u64|
        v1@ == v2@ && #[trigger] f.ensures((v1,), r1) && #[trigger] f.ensures((v2,), r2) ==> r1 == r2
}

/// What `f` returns on a tuple holding `s`.
pub open spec fn value_at<A, F: Fn(Vec<A>) -> u64>(f: F, s: Seq<A>) -> u64 {
    (choose|p: (Vec<A>, u64)| #[trigger] f.ensures((p.0,), p.1) && p.0@ == s).1
}

pub proof fn lemma_value_at<A, F: Fn(Vec<A>) -> u64>(f: F, v: Vec<A>, r: u64)
    requires
        is_tuple_fn(f),
        f.ensures((v,), r),
    ensures
        r == value_at(f, v@),
{
    let q = (v, r);
    assert(f.ensures((q.0,), q.1) && q.0@ == v@);
    let p = choose|p: (Vec<A>, u64)| #[trigger] f.ensures((p.0,), p.1) && p.0@ == v@;
    assert(f.ensures((p.0,), p.1));
}

pub proof fn lemma_value_at_ref<A, F: Fn(Vec<A>) -> u64>(f: &F, v: Vec<A>, r: u64)
    requires
        is_tuple_fn(*f),
        f.ensures((v,), r),
    ensures
        r == value_at(*f, v@),
{
    lemma_value_at(*f, v, r);
}

/// The values that the indices of `t` stand for in `vals`.
pub open spec fn decoded<T>(vals: Seq<T>, t: Seq<usize>) -> Seq<T> {
    t.map_values(|i: usize| vals[i as int])
}

/// The weight of the tuple numbered `p` in base `vals.len()`, over `d`
/// positions, each index standing for its value in `vals`.
pub open spec fn tensor_value<T, F: Fn(Vec<T>) -> u64>(f: F, vals: Seq<T>, d: nat, p: nat) -> u64 {
    value_at(f, decoded(vals, unfold(p, vals.len(), d)))
}

/// The nonzero weights of the first `k` tuples, in order, with their tuples.
pub open spec fn sparse_upto<T, F: Fn(Vec<T>) -> u64>(f: F, vals: Seq<T>, d: nat, k: nat) -> Seq<(Seq<usize>, u64)>
    decreases k,
{
    if k == 0 {
        Seq::empty()
    } else {
        let prev = sparse_upto(f, vals, d, (k - 1) as nat);
        let w = tensor_value(f, vals, d, (k - 1) as nat);
        if w != 0 {
            prev.push((unfold((k - 1) as nat, vals.len(), d), w))
        } else {
            prev
        }
    }
}

pub open spec fn sparse_view(s: Seq<(Vec<usize>, u64)>) -> Seq<(Seq<usize>, u64)> {
    s.map_values(|e: (Vec<usize>, u64)| (e.0@, e.1))
}

} // verus!
