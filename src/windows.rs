use vstd::prelude::*;

verus! {

/// The window of length `n` that starts at position `i` of `s`.
pub open spec fn window_at<T>(s: Seq<T>, n: nat, i: int) -> Seq<T> {
    s.subrange(i, i + n)
}

/// Number of windows of length `n` in `s` (zero when `s` is shorter than `n`).
pub open spec fn window_count<T>(s: Seq<T>, n: nat) -> nat {
    if s.len() >= n {
        (s.len() - n + 1) as nat
    } else {
        0
    }
}

/// All windows of length `n` of `s`, in order.
pub open spec fn all_windows<T>(s: Seq<T>, n: nat) -> Seq<Seq<T>> {
    Seq::new(window_count(s, n), |i: int| window_at(s, n, i))
}

/// Copies `v[lo..hi]` into a new vector.
pub fn copy_range<T: Copy>(v: &Vec<T>, lo: usize, hi: usize) -> (r: Vec<T>)
    requires
        lo <= hi <= v.len(),
    ensures
        r@ == v@.subrange(lo as int, hi as int),
{
    let mut r: Vec<T> = Vec::new();
    let mut i: usize = lo;
    while i < hi
        invariant
            lo <= i <= hi <= v.len(),
            r@ == v@.subrange(lo as int, i as int),
        decreases hi - i,
    {
        r.push(v[i]);
        i += 1;
    }
    r
}

/// All windows of length `n` of `source`, collected in order.
pub fn windows<T: Copy>(source: &Vec<T>, n: usize) -> (r: Vec<Vec<T>>)
    requires
        n >= 1,
    ensures
        r.len() == window_count(source@, n as nat),
        forall|i: int| 0 <= i < r.len() ==> #[trigger] r[i]@ == window_at(source@, n as nat, i),
{
    let mut r: Vec<Vec<T>> = Vec::new();
    if source.len() < n {
        return r;
    }
    let count = source.len() - n + 1;
    let mut i: usize = 0;
    while i < count
        invariant
            count == source.len() - n + 1,
            n <= source.len(),
            i <= count,
            r.len() == i,
            forall|j: int| 0 <= j < i ==> #[trigger] r[j]@ == window_at(source@, n as nat, j),
        decreases count - i,
    {
        let w = copy_range(source, i, i + n);
        r.push(w);
        i += 1;
    }
    r
}

/// Sliding windows of a fixed length over a finite source, produced one at a
/// time by `next`.
pub struct Windows<T> {
    source: Vec<T>,
    len: usize,
    pos: usize,
}

impl<T: Copy> Windows<T> {
    /// The windows that `next` has yet to produce.
    pub closed spec fn remaining(&self) -> Seq<Seq<T>> {
        all_windows(self.source@, self.len as nat).skip(self.pos as int)
    }

    pub closed spec fn wf(&self) -> bool {
        &&& self.len >= 1
        &&& self.pos <= window_count(self.source@, self.len as nat)
    }

    /// Windows of length `len` over `source`.
    pub fn new(source: Vec<T>, len: usize) -> (r: Self)
        requires
            len >= 1,
        ensures
            r.wf(),
            r.remaining() == all_windows(source@, len as nat),
    {
        let r = Windows { source, len, pos: 0 };
        assert(r.remaining() =~= all_windows(r.source@, len as nat));
        r
    }

    /// The next window, or `None` once every window has been produced.
    pub fn next(&mut self) -> (r: Option<Vec<T>>)
        requires
            old(self).wf(),
        ensures
            final(self).wf(),
            old(self).remaining().len() == 0 ==> r is None && final(self).remaining() == old(
                self,
            ).remaining(),
            old(self).remaining().len() > 0 ==> r is Some && r->Some_0@ == old(self).remaining()[0]
                && final(self).remaining() == old(self).remaining().drop_first(),
    {
        if self.pos < self.source.len() && self.len <= self.source.len() - self.pos {
            let w = copy_range(&self.source, self.pos, self.pos + self.len);
            self.pos = self.pos + 1;
            assert(final(self).remaining() =~= old(self).remaining().drop_first());
            Some(w)
        } else {
            None
        }
    }
}

} // verus!
