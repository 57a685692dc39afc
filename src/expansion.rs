use vstd::prelude::*;
use crate::windows::{all_windows, window_at, window_count, windows};

verus! {

/// `f` may be called on every value, and what it returns depends on the
/// argument alone.
pub open spec fn is_expansion<T, R, F: Fn(T) -> Vec<R>>(f: F) -> bool {
    &&& forall|t: T| #[trigger] f.requires((t,))
    &&& forall|t: T, a: Vec<R>, b: Vec<R>|
        #[trigger] f.ensures((t,), a) && #[trigger] f.ensures((t,), b) ==> a@ == b@
}

/// What `f` returns for `t`.
pub open spec fn image<T, R, F: Fn(T) -> Vec<R>>(f: F, t: T) -> Seq<R> {
    (choose|v: Vec<R>| #[trigger] f.ensures((t,), v))@
}

/// The concatenation of the images of the elements of `s`.
pub open spec fn flat_image<T, R, F: Fn(T) -> Vec<R>>(f: F, s: Seq<T>) -> Seq<R>
    decreases s.len(),
{
    if s.len() == 0 {
        Seq::empty()
    } else {
        flat_image(f, s.drop_last()) + image(f, s.last())
    }
}

/// Every element of `s` has a nonempty image.
pub open spec fn expands_nonempty<T, R, F: Fn(T) -> Vec<R>>(f: F, s: Seq<T>) -> bool {
    forall|i: int| 0 <= i < s.len() ==> (#[trigger] image(f, s[i])).len() > 0
}

pub proof fn lemma_image<T, R, F: Fn(T) -> Vec<R>>(f: F, t: T, v: Vec<R>)
    requires
        is_expansion(f),
        f.ensures((t,), v),
    ensures
        v@ == image(f, t),
{
    let w = choose|w: Vec<R>| #[trigger] f.ensures((t,), w);
    assert(f.ensures((t,), w));
}

pub proof fn lemma_flat_image_len<T, R, F: Fn(T) -> Vec<R>>(f: F, s: Seq<T>)
    requires
        expands_nonempty(f, s),
    ensures
        flat_image(f, s).len() >= s.len(),
        s.len() > 0 ==> flat_image(f, s).len() >= image(f, s[0]).len() + s.len() - 1,
    decreases s.len(),
{
    if s.len() > 0 {
        let p = s.drop_last();
        assert forall|i: int| 0 <= i < p.len() implies (#[trigger] image(f, p[i])).len() > 0 by {
            assert(p[i] == s[i]);
        }
        lemma_flat_image_len(f, p);
        assert(image(f, s[s.len() - 1]).len() > 0);
        if s.len() == 1 {
            assert(p.len() == 0);
            assert(flat_image(f, s) =~= image(f, s[0]));
        } else {
            assert(p[0] == s[0]);
        }
    }
}

/// The images of the elements of `v`, concatenated.
pub fn flatten_expansion<T: Copy, R: Copy, F: Fn(T) -> Vec<R>>(v: &Vec<T>, f: &F) -> (r: Vec<R>)
    requires
        is_expansion(*f),
    ensures
        r@ == flat_image(*f, v@),
{
    let mut r: Vec<R> = Vec::new();
    let mut i: usize = 0;
    while i < v.len()
        invariant
            is_expansion(*f),
            i <= v.len(),
            r@ == flat_image(*f, v@.subrange(0, i as int)),
        decreases v.len() - i,
    {
        let mut e = f(v[i]);
        proof {
            lemma_image(*f, v[i as int], e);
            assert(v@.subrange(0, i + 1).drop_last() =~= v@.subrange(0, i as int));
        }
        r.append(&mut e);
        i += 1;
    }
    assert(v@.subrange(0, v.len() as int) =~= v@);
    r
}

/// Whether every element of `v` has a nonempty image under `f`.
pub fn check_expansion<T: Copy, R, F: Fn(T) -> Vec<R>>(v: &Vec<T>, f: &F) -> (r: bool)
    requires
        is_expansion(*f),
    ensures
        r == expands_nonempty(*f, v@),
{
    let mut i: usize = 0;
    while i < v.len()
        invariant
            is_expansion(*f),
            i <= v.len(),
            forall|j: int| 0 <= j < i ==> (#[trigger] image(*f, v@[j])).len() > 0,
        decreases v.len() - i,
    {
        let e = f(v[i]);
        proof {
            lemma_image(*f, v[i as int], e);
        }
        if e.len() == 0 {
            return false;
        }
        i += 1;
    }
    true
}

/// The first element of `v` whose image under `f` is empty, if any.
pub fn first_empty<T: Copy, R, F: Fn(T) -> Vec<R>>(v: &Vec<T>, f: &F) -> (r: Option<T>)
    requires
        is_expansion(*f),
    ensures
        r is None <==> expands_nonempty(*f, v@),
        r matches Some(c) ==> v@.contains(c) && image(*f, c).len() == 0,
{
    let mut i: usize = 0;
    while i < v.len()
        invariant
            is_expansion(*f),
            i <= v.len(),
            forall|j: int| 0 <= j < i ==> (#[trigger] image(*f, v@[j])).len() > 0,
        decreases v.len() - i,
    {
        let e = f(v[i]);
        proof {
            lemma_image(*f, v[i as int], e);
        }
        if e.len() == 0 {
            assert(v@[i as int] == v[i as int]);
            return Some(v[i]);
        }
        i += 1;
    }
    None
}

/// Every window of `v.len()` elements of the expansion of `v`.
pub fn expand_full<T: Copy, R: Copy, F: Fn(T) -> Vec<R>>(v: &Vec<T>, f: &F) -> (r: Vec<Vec<R>>)
    requires
        v.len() >= 1,
        is_expansion(*f),
        expands_nonempty(*f, v@),
    ensures
        r@.map_values(|w: Vec<R>| w@) == all_windows(flat_image(*f, v@), v.len() as nat),
{
    let flat = flatten_expansion(v, f);
    let r = windows(&flat, v.len());
    assert(r@.map_values(|w: Vec<R>| w@) =~= all_windows(flat@, v.len() as nat));
    r
}

/// The windows of `v.len()` elements of the expansion of `v` that start
/// within the image of `v[0]`.
pub fn expand_first<T: Copy, R: Copy, F: Fn(T) -> Vec<R>>(v: &Vec<T>, f: &F) -> (r: Vec<Vec<R>>)
    requires
        v.len() >= 1,
        is_expansion(*f),
        expands_nonempty(*f, v@),
    ensures
        r@.map_values(|w: Vec<R>| w@) == all_windows(flat_image(*f, v@), v.len() as nat).take(
            image(*f, v[0]).len() as int,
        ),
{
    let head = f(v[0]);
    proof {
        lemma_image(*f, v[0], head);
        lemma_flat_image_len(*f, v@);
    }
    let count = head.len();
    let flat = flatten_expansion(v, f);
    let n = v.len();
    let mut r: Vec<Vec<R>> = Vec::new();
    let mut i: usize = 0;
    while i < count
        invariant
            count == image(*f, v[0]).len(),
            flat@ == flat_image(*f, v@),
            n == v.len(),
            flat.len() >= count + n - 1,
            i <= count,
            r.len() == i,
            forall|j: int| 0 <= j < i ==> #[trigger] r[j]@ == window_at(flat@, n as nat, j),
        decreases count - i,
    {
        let w = crate::windows::copy_range(&flat, i, i + n);
        r.push(w);
        i += 1;
    }
    assert(r@.map_values(|w: Vec<R>| w@) =~= all_windows(flat@, n as nat).take(count as int));
    r
}

} // verus!
