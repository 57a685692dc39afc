use vstd::prelude::*;
use crate::compilation::compiled_ngram_analyzer::{lemma_fold_bound, lemma_power_mono};
use crate::indexes::{digits_below, fold, lemma_unfold, power, unfold, Indexes};
use crate::tensor::{is_tuple_fn, lemma_value_at, value_at};

verus! {

/// The cost of every tuple of `n` keys among `side`, by the tuple's number in
/// base `side`.
pub struct Metric {
    pub data: Vec<u64>,
    pub side: usize,
    pub n: usize,
}

/// The key tuple that `layout` gives the character tuple `t`, as a number in base `side`.
pub open spec fn placed_index(t: Seq<usize>, layout: Seq<usize>, side: nat) -> int {
    fold(t.map_values(|i: usize| layout[i as int]), side)
}

/// `weight` returned `x` on a tuple holding `s`.
pub open spec fn returned<F: Fn(Vec<usize>) -> u64>(weight: F, s: Seq<usize>, x: u64) -> bool {
    exists|v: Vec<usize>| v@ == s && #[trigger] weight.ensures((v,), x)
}

impl Metric {
    pub open spec fn costs(&self) -> Seq<u64> {
        self.data@
    }

    pub open spec fn side_spec(&self) -> nat {
        self.side as nat
    }

    pub open spec fn arity(&self) -> nat {
        self.n as nat
    }

    pub open spec fn wf(&self) -> bool {
        self.costs().len() == power(self.side_spec(), self.arity())
    }

    /// The cost `weight(t)` of every tuple `t` of `n` keys below `side`.
    pub fn new<F: Fn(Vec<usize>) -> u64>(side: usize, n: usize, weight: F) -> (r: Self)
        requires
            is_tuple_fn(weight),
            power(side as nat, n as nat) <= usize::MAX,
        ensures
            r.wf(),
            r.side_spec() == side,
            r.arity() == n,
            forall|p: int| 0 <= p < r.costs().len() ==> #[trigger] r.costs()[p] == value_at(weight, unfold(p as nat, side as nat, n as nat)),
            forall|p: int| 0 <= p < r.costs().len() ==> #[trigger] returned(weight, unfold(p as nat, side as nat, n as nat), r.costs()[p]),
    {
        let ghost count = power(side as nat, n as nat);
        let total = match crate::indexes::checked_power(side, n) {
            Some(c) => c,
            None => 0,
        };
        let mut data: Vec<u64> = Vec::new();
        let mut idx = Indexes::new(side, n);
        while data.len() < total
            invariant
                is_tuple_fn(weight),
                count == power(side as nat, n as nat),
                total == count,
                idx.wf(),
                data.len() <= count,
                idx.remaining() == Seq::new((count - data.len()) as nat, |i: int| unfold((data.len() + i) as nat, side as nat, n as nat)),
                forall|p: int| 0 <= p < data.len() ==> #[trigger] data[p] == value_at(weight, unfold(p as nat, side as nat, n as nat)),
                forall|p: int| 0 <= p < data.len() ==> #[trigger] returned(weight, unfold(p as nat, side as nat, n as nat), data@[p]),
            decreases count - data.len(),
        {
            let ghost p = data.len();
            match idx.next() {
                Some(t) => {
                    let ghost tv = t;
                    let w = weight(t);
                    proof {
                        lemma_value_at(weight, tv, w);
                    }
                    data.push(w);
                    proof {
                        assert(weight.ensures((tv,), data@[p as int]));
                        assert(returned(weight, unfold(p as nat, side as nat, n as nat), data@[p as int]));
                    }
                    proof {
                        assert(idx.remaining() =~= Seq::new((count - data.len()) as nat, |i: int| unfold((data.len() + i) as nat, side as nat, n as nat)));
                    }
                },
                None => {
                    assert(false);
                },
            }
        }
        Metric { data, side, n }
    }

    /// The cost of the keys that `layout` gives the characters of `ngram`.
    pub fn weight(&self, ngram: &Vec<usize>, layout: &Vec<usize>) -> (r: u64)
        requires
            self.wf(),
            ngram.len() == self.arity(),
            forall|i: int| 0 <= i < ngram.len() ==> #[trigger] ngram@[i] < layout.len(),
            digits_below(layout@, self.side_spec()),
        ensures
            r == self.costs()[placed_index(ngram@, layout@, self.side_spec())],
    {
        let ghost m = ngram@.map_values(|i: usize| layout@[i as int]);
        let ghost side = self.side as nat;
        let data_len = self.data.len();
        let mut acc: usize = 0;
        let mut i: usize = 0;
        if ngram.len() > 0 {
            proof {
                assert(m[0] < side);
            }
        }
        while i < ngram.len()
            invariant
                self.wf(),
                data_len == self.data@.len(),
                side == self.side,
                ngram.len() == self.n,
                ngram.len() > 0 ==> side >= 1,
                forall|k: int| 0 <= k < ngram.len() ==> #[trigger] ngram@[k] < layout.len(),
                digits_below(layout@, side),
                m == ngram@.map_values(|i: usize| layout@[i as int]),
                i <= ngram.len(),
                acc == fold(m.take(i as int), side),
            decreases ngram.len() - i,
        {
            let ghost t = m.take(i + 1);
            proof {
                assert(t.drop_last() =~= m.take(i as int));
                assert(digits_below(t, side)) by {
                    assert forall|k: int| 0 <= k < t.len() implies #[trigger] t[k] < side by {
                        assert(t[k] == layout@[ngram@[k] as int]);
                    }
                }
                lemma_fold_bound(t, side);
                lemma_power_mono(side, (i + 1) as nat, self.n as nat);
                assert(t.last() == layout@[ngram@[i as int] as int]);
                assert(fold(t, side) == fold(t.drop_last(), side) * side + t.last());
                assert(acc * side + layout@[ngram@[i as int] as int] < data_len);
                assert(acc * side <= acc * side + layout@[ngram@[i as int] as int]);
            }
            acc = acc * self.side + layout[ngram[i]];
            i += 1;
        }
        proof {
            assert(m.take(ngram.len() as int) =~= m);
            assert(digits_below(m, side)) by {
                assert forall|k: int| 0 <= k < m.len() implies #[trigger] m[k] < side by {
                    assert(m[k] == layout@[ngram@[k] as int]);
                }
            }
            lemma_fold_bound(m, side);
            if ngram.len() == 0 {
                assert(power(side, 0) == 1);
            }
        }
        self.data[acc]
    }
}

} // verus!
