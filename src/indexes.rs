use vstd::prelude::*;

verus! {

/// `b` to the power `e`.
pub open spec fn power(b: nat, e: nat) -> nat
    decreases e,
{
    if e == 0 {
        1
    } else {
        b * power(b, (e - 1) as nat)
    }
}

/// The number whose digits in base `b` are `t`, most significant first.
pub open spec fn fold(t: Seq<usize>, b: nat) -> int
    decreases t.len(),
{
    if t.len() == 0 {
        0
    } else {
        fold(t.drop_last(), b) * b + t.last()
    }
}

/// The `d` digits in base `b` of `p`, most significant first.
pub open spec fn unfold(p: nat, b: nat, d: nat) -> Seq<usize>
    decreases d,
{
    if d == 0 {
        Seq::empty()
    } else {
        unfold(p / b, b, (d - 1) as nat).push((p % b) as usize)
    }
}

/// Every element of `t` is below `b`.
pub open spec fn digits_below(t: Seq<usize>, b: nat) -> bool {
    forall|i: int| 0 <= i < t.len() ==> #[trigger] t[i] < b
}

pub proof fn lemma_div_bound(p: nat, b: nat, q: nat)
    requires
        b > 0,
        p < b * q,
    ensures
        p / b < q,
{
    let a = p / b;
    assert(p == a * b + p % b) by (nonlinear_arith)
        requires
            b > 0,
            a == p / b,
    ;
    assert(a < q) by (nonlinear_arith)
        requires
            p == a * b + p % b,
            p % b >= 0,
            p < b * q,
    ;
}

/// Unfolding then folding gives the number back, with every digit in range.
pub proof fn lemma_unfold(p: nat, b: nat, d: nat)
    requires
        b <= usize::MAX,
        p < power(b, d),
    ensures
        unfold(p, b, d).len() == d,
        digits_below(unfold(p, b, d), b),
        fold(unfold(p, b, d), b) == p,
    decreases d,
{
    if d > 0 {
        assert(b > 0) by {
            if b == 0 {
                assert(power(b, d) == 0);
            }
        }
        lemma_div_bound(p, b, power(b, (d - 1) as nat));
        lemma_unfold(p / b, b, (d - 1) as nat);
        let u = unfold(p, b, d);
        assert(u.drop_last() =~= unfold(p / b, b, (d - 1) as nat));
        assert(p == (p / b) * b + p % b) by (nonlinear_arith)
            requires
                b > 0,
        ;
        assert(u.last() == (p % b) as usize);
        assert(fold(u, b) == fold(u.drop_last(), b) * b + u.last());
        assert(fold(u.drop_last(), b) == p / b);
        assert forall|i: int| 0 <= i < u.len() implies #[trigger] u[i] < b by {
            if i < u.len() - 1 {
                assert(u[i] == u.drop_last()[i]);
            }
        }
    }
}

/// The digits of `p` in base `b`, `d` of them, most significant first.
pub fn digits(p: usize, b: usize, d: usize) -> (r: Vec<usize>)
    requires
        b > 0,
    ensures
        r@ == unfold(p as nat, b as nat, d as nat),
    decreases d,
{
    if d == 0 {
        Vec::new()
    } else {
        let mut v = digits(p / b, b, d - 1);
        v.push(p % b);
        v
    }
}

/// `b` to the power `e`, or `None` where that exceeds `usize::MAX`.
pub fn checked_power(b: usize, e: usize) -> (r: Option<usize>)
    ensures
        r matches Some(x) ==> x == power(b as nat, e as nat),
        r is None ==> power(b as nat, e as nat) > usize::MAX,
{
    let mut acc: usize = 1;
    let mut i: usize = 0;
    while i < e
        invariant
            i <= e,
            acc == power(b as nat, i as nat),
        decreases e - i,
    {
        proof {
            assert(power(b as nat, (i + 1) as nat) == b * power(b as nat, i as nat));
        }
        proof {
            assert(acc * b == b * acc) by (nonlinear_arith);
        }
        match acc.checked_mul(b) {
            Some(x) => {
                acc = x;
            },
            None => {
                proof {
                    assert(power(b as nat, (i + 1) as nat) > usize::MAX);
                    lemma_power_grows(b as nat, (i + 1) as nat, e as nat);
                }
                return None;
            },
        }
        i += 1;
    }
    Some(acc)
}

/// Raising the exponent never shrinks a power above one.
pub proof fn lemma_power_grows(b: nat, e1: nat, e2: nat)
    requires
        e1 <= e2,
        power(b, e1) > 1,
    ensures
        power(b, e1) <= power(b, e2),
    decreases e2 - e1,
{
    if e1 < e2 {
        lemma_power_grows(b, e1, (e2 - 1) as nat);
        assert(b >= 1) by {
            if b == 0 {
                if e1 > 0 {
                    assert(power(b, e1) == 0);
                }
            }
        }
        assert(power(b, e2) == b * power(b, (e2 - 1) as nat));
        assert(b * power(b, (e2 - 1) as nat) >= power(b, (e2 - 1) as nat)) by (nonlinear_arith)
            requires
                b >= 1,
        ;
    }
}

/// The tuples of `dim` indices below `len`, in lexicographic order, produced
/// one at a time by `next`.
pub struct Indexes {
    len: usize,
    dim: usize,
    pos: usize,
    count: usize,
}

impl Indexes {
    /// The tuples that `next` has yet to produce.
    pub closed spec fn remaining(&self) -> Seq<Seq<usize>> {
        Seq::new(
            (self.count - self.pos) as nat,
            |i: int| unfold((self.pos + i) as nat, self.len as nat, self.dim as nat),
        )
    }

    pub closed spec fn wf(&self) -> bool {
        &&& self.count == power(self.len as nat, self.dim as nat)
        &&& self.pos <= self.count
    }

    /// Every tuple of `dim` indices below `len`.
    pub fn new(len: usize, dim: usize) -> (r: Self)
        requires
            power(len as nat, dim as nat) <= usize::MAX,
        ensures
            r.wf(),
            r.remaining() == Seq::new(
                power(len as nat, dim as nat),
                |i: int| unfold(i as nat, len as nat, dim as nat),
            ),
    {
        let count = match checked_power(len, dim) {
            Some(c) => c,
            None => 0,
        };
        let r = Indexes { len, dim, pos: 0, count };
        assert(r.remaining() =~= Seq::new(
            power(len as nat, dim as nat),
            |i: int| unfold(i as nat, len as nat, dim as nat),
        ));
        r
    }

    /// The next tuple, or `None` once every tuple has been produced.
    pub fn next(&mut self) -> (r: Option<Vec<usize>>)
        requires
            old(self).wf(),
        ensures
            final(self).wf(),
            old(self).remaining().len() == 0 ==> r is None && final(self).remaining() == old(
                self,
            ).remaining(),
            old(self).remaining().len() > 0 ==> r is Some && r->Some_0@ == old(self).remaining()[0]
                && final(self).remaining() == old(self).remaining().drop_first(),
    {
        if self.pos < self.count {
            proof {
                assert(self.len == 0 ==> self.dim == 0) by {
                    if self.len == 0 && self.dim > 0 {
                        assert(power(0, self.dim as nat) == 0 * power(0, (self.dim - 1) as nat));
                    }
                }
            }
            let t = if self.len == 0 {
                Vec::new()
            } else {
                digits(self.pos, self.len, self.dim)
            };
            self.pos = self.pos + 1;
            assert(final(self).remaining() =~= old(self).remaining().drop_first());
            Some(t)
        } else {
            None
        }
    }
}

} // verus!
