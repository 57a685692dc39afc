use vstd::prelude::*;
use crate::compilation::encoding::{distinct, eq_is_identity};
use crate::generation::corpus_set::{
    corpora_in, corpus_total, count_for, is_largest_ratio, occurs, law_aggregate_normalization, ratio_less, ratio_lt, rows_in, CorpusSet,
};
use crate::generation::layout::{is_permutation, lemma_swap_keeps, swap, swapped};
use crate::generation::layout_encoding::{codes, InvalidLayoutEncoding, LayoutEncoding};
use crate::generation::metric::{placed_index, returned, Metric};
use crate::indexes::{digits_below, power, unfold};
use crate::tensor::{decoded, is_tuple_fn, lemma_value_at, value_at};

verus! {

/// Why a pin could not be applied.
#[derive(Clone, Copy, Debug, PartialEq, Eq)]
pub enum InvalidPin<K> {
    InvalidKey(K),
    DuplicateKey(K),
    InvalidChar(char),
    DuplicateChar(char),
}

/// The product of `s`.
pub open spec fn product(s: Seq<u64>) -> int
    decreases s.len(),
{
    if s.len() == 0 {
        1
    } else {
        product(s.drop_last()) * s.last()
    }
}

pub proof fn lemma_product_factor(s: Seq<u64>, i: int) -> (q: int)
    requires
        0 <= i < s.len(),
        forall|k: int| 0 <= k < s.len() ==> #[trigger] s[k] >= 1,
    ensures
        product(s) == s[i] * q,
        q >= 1,
    decreases s.len(),
{
    let p = s.drop_last();
    assert forall|k: int| 0 <= k < p.len() implies #[trigger] p[k] >= 1 by {
        assert(p[k] == s[k]);
    }
    let pp = lemma_product_positive(p);
    if i == s.len() - 1 {
        let last = s.last() as int;
        assert(product(s) == product(p) * last);
        assert(product(p) * last == last * product(p)) by (nonlinear_arith);
        product(p)
    } else {
        let q0 = lemma_product_factor(p, i);
        assert(p[i] == s[i]);
        let last = s.last() as int;
        assert(product(s) == s[i] * (q0 * last)) by (nonlinear_arith)
            requires
                product(s) == product(p) * last,
                product(p) == s[i] * q0,
        ;
        assert(q0 * last >= 1) by (nonlinear_arith)
            requires
                q0 >= 1,
                last >= 1,
        ;
        q0 * last
    }
}

pub proof fn lemma_product_positive(s: Seq<u64>) -> (u: ())
    requires
        forall|k: int| 0 <= k < s.len() ==> #[trigger] s[k] >= 1,
    ensures
        product(s) >= 1,
    decreases s.len(),
{
    if s.len() > 0 {
        let p = s.drop_last();
        assert forall|k: int| 0 <= k < p.len() implies #[trigger] p[k] >= 1 by {
            assert(p[k] == s[k]);
        }
        lemma_product_positive(p);
        assert(s[s.len() - 1] >= 1);
        assert(product(p) * s.last() >= 1) by (nonlinear_arith)
            requires
                product(p) >= 1,
                s.last() >= 1,
        ;
    }
}

/// `a / b`, scaled by `big` (a common multiple of the denominators).
pub open spec fn scaled(a: int, b: int, big: int) -> int {
    a * (big / b)
}

pub proof fn lemma_scaled_lt(a: int, b: int, c: int, d: int, big: int, qb: int, qd: int)
    requires
        b >= 1,
        d >= 1,
        a >= 0,
        c >= 0,
        big == b * qb,
        big == d * qd,
        qb >= 1,
        qd >= 1,
        ratio_lt(c, d, a, b),
    ensures
        0 <= scaled(c, d, big) < scaled(a, b, big),
{
    vstd::arithmetic::div_mod::lemma_div_multiples_vanish(qb, b);
    vstd::arithmetic::div_mod::lemma_div_multiples_vanish(qd, d);
    assert(big / b == qb);
    assert(big / d == qd);
    assert(c * qd < a * qb) by (nonlinear_arith)
        requires
            c * b < a * d,
            b * qb == d * qd,
            qb >= 1,
            qd >= 1,
            b >= 1,
            d >= 1,
    ;
    assert(c * qd >= 0) by (nonlinear_arith)
        requires
            c >= 0,
            qd >= 1,
    ;
}

pub proof fn lemma_scaled_nonneg(a: int, b: int, big: int)
    requires
        a >= 0,
        b >= 1,
        big >= 1,
    ensures
        scaled(a, b, big) >= 0,
{
    assert(big / b >= 0) by (nonlinear_arith)
        requires
            big >= 1,
            b >= 1,
    ;
    assert(a * (big / b) >= 0) by (nonlinear_arith)
        requires
            a >= 0,
            big / b >= 0,
    ;
}

/// A ratio no smaller than `b` is no smaller than any ratio equal to `b`.
pub proof fn lemma_ratio_transfer(r1: (u128, u64), r2: (u128, u64), b: (u128, u64))
    requires
        r1.1 >= 1,
        r2.1 >= 1,
        b.1 >= 1,
        r2.0 * b.1 == b.0 * r2.1,
        !ratio_lt(r1.0 as int, r1.1 as int, b.0 as int, b.1 as int),
    ensures
        !ratio_lt(r1.0 as int, r1.1 as int, r2.0 as int, r2.1 as int),
{
    let (x0, x1, y0, y1, b0, b1) = (r1.0 as int, r1.1 as int, r2.0 as int, r2.1 as int, b.0 as int, b.1 as int);
    assert(x0 * b1 >= b0 * x1);
    assert(x0 * y1 * b1 >= y0 * x1 * b1) by (nonlinear_arith)
        requires
            x0 * b1 >= b0 * x1,
            y0 * b1 == b0 * y1,
            y1 >= 1,
            x1 >= 1,
    ;
    assert(x0 * y1 >= y0 * x1) by (nonlinear_arith)
        requires
            x0 * y1 * b1 >= y0 * x1 * b1,
            b1 >= 1,
    ;
}

/// A ratio equal to one no smaller than `b` is no smaller than `b`.
pub proof fn lemma_ratio_transfer_left(r1: (u128, u64), s: (u128, u64), b: (u128, u64))
    requires
        r1.1 >= 1,
        s.1 >= 1,
        b.1 >= 1,
        r1.0 * s.1 == s.0 * r1.1,
        !ratio_lt(s.0 as int, s.1 as int, b.0 as int, b.1 as int),
    ensures
        !ratio_lt(r1.0 as int, r1.1 as int, b.0 as int, b.1 as int),
{
    let (x0, x1, s0, s1, b0, b1) = (r1.0 as int, r1.1 as int, s.0 as int, s.1 as int, b.0 as int, b.1 as int);
    assert(s0 * b1 >= b0 * s1);
    assert(x0 * b1 * s1 >= b0 * x1 * s1) by (nonlinear_arith)
        requires
            s0 * b1 >= b0 * s1,
            x0 * s1 == s0 * x1,
            x1 >= 1,
            b1 >= 1,
    ;
    assert(x0 * b1 >= b0 * x1) by (nonlinear_arith)
        requires
            x0 * b1 * s1 >= b0 * x1 * s1,
            s1 >= 1,
    ;
}

pub proof fn lemma_largest_denominator(scores: Seq<u128>, sums: Seq<u64>, r: (u128, u64))
    requires
        is_largest_ratio(scores, sums, r),
        scores.len() == sums.len(),
        forall|i: int| 0 <= i < sums.len() ==> #[trigger] sums[i] >= 1,
    ensures
        r.1 >= 1,
{
    let i = choose|i: int| 0 <= i < scores.len() && r == (#[trigger] scores[i], sums[i]);
}

/// A ratio no smaller than `b` is no smaller than one below `b`.
pub proof fn lemma_ratio_below(r0: (u128, u64), b: (u128, u64), s: (u128, u64))
    requires
        r0.1 >= 1,
        b.1 >= 1,
        s.1 >= 1,
        !ratio_lt(r0.0 as int, r0.1 as int, b.0 as int, b.1 as int),
        ratio_lt(s.0 as int, s.1 as int, b.0 as int, b.1 as int),
    ensures
        !ratio_lt(r0.0 as int, r0.1 as int, s.0 as int, s.1 as int),
{
    let (x0, x1, b0, b1, s0, s1) = (r0.0 as int, r0.1 as int, b.0 as int, b.1 as int, s.0 as int, s.1 as int);
    assert(x0 * b1 >= b0 * x1);
    assert(s0 * b1 < b0 * s1);
    assert(x0 * s1 * b1 >= s0 * x1 * b1) by (nonlinear_arith)
        requires
            x0 * b1 >= b0 * x1,
            s0 * b1 < b0 * s1,
            x1 >= 1,
            s1 >= 1,
    ;
    assert(x0 * s1 >= s0 * x1) by (nonlinear_arith)
        requires
            x0 * s1 * b1 >= s0 * x1 * b1,
            b1 >= 1,
    ;
}

/// `layout` with the key of `pin` moved to the position of its character,
/// exchanged with the key that stood there.
pub open spec fn apply_pin<K>(keys: Seq<K>, chars: Seq<char>, layout: Seq<usize>, pin: (K, char)) -> Seq<usize> {
    let k = choose|k: int| 0 <= k < keys.len() && keys[k] == pin.0;
    let c = choose|c: int| 0 <= c < chars.len() && chars[c] == pin.1;
    let i = choose|i: int| 0 <= i < layout.len() && layout[i] == k;
    swapped(layout, i, c)
}

/// The identity layout with the first `q` pins applied in order.
pub open spec fn pins_applied<K>(keys: Seq<K>, chars: Seq<char>, pins: Seq<(K, char)>, q: int) -> Seq<usize>
    decreases q,
{
    if q <= 0 {
        Seq::new(keys.len(), |x: int| x as usize)
    } else {
        apply_pin(keys, chars, pins_applied(keys, chars, pins, q - 1), pins[q - 1])
    }
}

/// Some pin names the character `c`.
pub open spec fn pins_name<K>(pins: Seq<(K, char)>, c: char) -> bool {
    exists|a: int| 0 <= a < pins.len() && (#[trigger] pins[a]).1 == c
}

/// The error for the first pin, from `pins[q]` on, whose key is not in
/// `keys`, whose character is not in `chars`, or whose key or character an
/// earlier pin already names; `None` if there is no such pin.
pub open spec fn pin_error<K>(keys: Seq<K>, chars: Seq<char>, pins: Seq<(K, char)>, q: int) -> Option<InvalidPin<K>>
    decreases pins.len() - q,
{
    if q < 0 || q >= pins.len() {
        None
    } else if !keys.contains(pins[q].0) {
        Some(InvalidPin::InvalidKey(pins[q].0))
    } else if !chars.contains(pins[q].1) {
        Some(InvalidPin::InvalidChar(pins[q].1))
    } else if exists|a: int| 0 <= a < q && (#[trigger] pins[a]).0 == pins[q].0 {
        Some(InvalidPin::DuplicateKey(pins[q].0))
    } else if exists|a: int| 0 <= a < q && (#[trigger] pins[a]).1 == pins[q].1 {
        Some(InvalidPin::DuplicateChar(pins[q].1))
    } else {
        pin_error(keys, chars, pins, q + 1)
    }
}

/// With the pins before `q` in place and the position `i` of key `k` not
/// pinned, no earlier pin names the key `keys[k]`.
pub proof fn lemma_no_earlier_key<K>(
    pins: Seq<(K, char)>,
    keys: Seq<K>,
    done: Seq<(int, int)>,
    layout: Seq<usize>,
    q: int,
    k: int,
    i: int,
    pinned: Seq<bool>,
)
    requires
        distinct(keys),
        is_permutation(layout),
        layout.len() == keys.len(),
        pinned.len() == keys.len(),
        0 <= k < keys.len(),
        0 <= i < layout.len(),
        layout[i] == k,
        !pinned[i],
        0 <= q <= pins.len(),
        done.len() == q,
        forall|a: int| 0 <= a < q ==> 0 <= (#[trigger] done[a]).0 < keys.len() && 0 <= done[a].1 < keys.len()
            && keys[done[a].0] == pins[a].0 && pinned[done[a].1] && layout[done[a].1] == done[a].0,
    ensures
        !exists|a: int| 0 <= a < q && (#[trigger] pins[a]).0 == keys[k],
{
    if exists|a: int| 0 <= a < q && (#[trigger] pins[a]).0 == keys[k] {
        let a = choose|a: int| 0 <= a < q && (#[trigger] pins[a]).0 == keys[k];
        assert(keys[done[a].0] == keys[k]);
        assert(done[a].0 == k);
        assert(layout[done[a].1] == layout[i]);
        assert(done[a].1 == i);
    }
}

/// The positions whose characters no pin names.
pub open spec fn unpinned<K>(pins: Seq<(K, char)>, chars: Seq<char>) -> spec_fn(int) -> bool {
    |c: int| !pins_name(pins, chars[c])
}

/// `x`, or `u128::MAX` where that is larger.
pub open spec fn sat(x: int) -> int {
    if x > u128::MAX { u128::MAX as int } else { x }
}


/// The cost of corpus `i` under `layout`: each n-gram's count times the
/// metric's cost of the keys that `layout` gives it.
pub open spec fn raw_score(rows: Seq<(Vec<usize>, Vec<u64>)>, i: int, layout: Seq<usize>, costs: Seq<u64>, side: nat) -> int
    decreases rows.len(),
{
    if rows.len() == 0 {
        0
    } else {
        raw_score(rows.drop_last(), i, layout, costs, side) + rows.last().1@[i] * costs[placed_index(rows.last().0@, layout, side)]
    }
}

/// `layout` and `start` agree at every position that `free` does not hold.
pub open spec fn fixed_outside(layout: Seq<usize>, start: Seq<usize>, free: Seq<usize>) -> bool {
    forall|p: int| 0 <= p < layout.len() && !free.contains(p as usize) ==> #[trigger] layout[p] == start[p]
}

/// Generates keyboard layouts: which character each key gets, chosen to
/// lower the worst normalized cost over several corpora.
pub struct Generator<K> {
    pub encoding: LayoutEncoding<K>,
    pub corpus_set: CorpusSet,
    pub metric: Metric,
    pub n: usize,
}

/// Whether every index of `t` is below `side`.
fn in_range(t: &Vec<usize>, side: usize) -> (r: bool)
    ensures
        r == digits_below(t@, side as nat),
{
    let mut i: usize = 0;
    while i < t.len()
        invariant
            i <= t.len(),
            forall|j: int| 0 <= j < i ==> #[trigger] t@[j] < side,
        decreases t.len() - i,
    {
        if t[i] >= side {
            return false;
        }
        i += 1;
    }
    true
}

impl<K: Copy + PartialEq> Generator<K> {
    pub open spec fn wf(&self) -> bool {
        &&& self.encoding.wf()
        &&& self.corpus_set.wf()
        &&& self.metric.wf()
        &&& self.n >= 1
        &&& self.metric.side_spec() == self.encoding.keys.values().len()
        &&& self.metric.arity() == self.n
        &&& rows_in(self.corpus_set.rows_spec(), self.n as nat, self.encoding.keys.values().len())
        &&& self.corpus_set.count() >= 1
        &&& self.encoding.keys.values().len() >= 1
    }

    /// Each corpus's cost under `layout`, capped at `u128::MAX`.
    pub open spec fn raws(&self, layout: Seq<usize>) -> Seq<u128> {
        Seq::new(
            self.corpus_set.count(),
            |i: int| sat(raw_score(self.corpus_set.rows_spec(), i, layout, self.metric.costs(), self.keys().len())) as u128,
        )
    }

    /// `r` is the aggregate score of `layout`: the largest ratio of a
    /// corpus's cost to its total count.
    pub open spec fn aggregate_is(&self, layout: Seq<usize>, r: (u128, u64)) -> bool {
        is_largest_ratio(self.raws(layout), self.corpus_set.sums(), r)
    }

    /// No exchange of the keys of two characters that `movable` allows gives
    /// `layout` a strictly lower aggregate score.
    pub open spec fn is_local_optimum(&self, layout: Seq<usize>, movable: spec_fn(int) -> bool) -> bool {
        forall|p: int, q: int, r1: (u128, u64), r2: (u128, u64)|
            0 <= p < q < layout.len() && movable(p) && movable(q) && #[trigger] self.aggregate_is(swapped(layout, p, q), r1)
                && #[trigger] self.aggregate_is(layout, r2) ==> !ratio_lt(r1.0 as int, r1.1 as int, r2.0 as int, r2.1 as int)
    }

    /// `l` pairs each character, in order, with the key at its position in `layout`.
    pub open spec fn decodes(&self, l: Seq<(K, char)>, layout: Seq<usize>) -> bool {
        &&& l.len() == layout.len()
        &&& forall|c: int| 0 <= c < l.len() ==> layout[c] < self.keys().len() && #[trigger] l[c] == (
            self.keys()[layout[c] as int],
            self.chars()[c],
        )
    }

    /// The aggregate score of `layout` is no worse (no larger) than that of `start`.
    pub open spec fn no_worse(&self, layout: Seq<usize>, start: Seq<usize>) -> bool {
        forall|r1: (u128, u64), r0: (u128, u64)| #[trigger] self.aggregate_is(layout, r1) && #[trigger] self.aggregate_is(start, r0)
            ==> !ratio_lt(r0.0 as int, r0.1 as int, r1.0 as int, r1.1 as int)
    }

    pub open spec fn keys(&self) -> Seq<K> {
        self.encoding.keys.values()
    }

    pub open spec fn chars(&self) -> Seq<char> {
        self.encoding.char_list@
    }

    /// A generator for `keyset` and `charset`, scoring layouts on `corpora`
    /// (n-grams of length `n` with their counts; those holding a character
    /// outside `charset` are left out) with the key-tuple cost `metric`.
    pub fn new<F: Fn(Vec<K>) -> u64>(
        keyset: Vec<K>,
        charset: Vec<char>,
        corpora: Vec<Vec<(Vec<char>, u64)>>,
        n: usize,
        metric: F,
    ) -> (r: Result<Self, InvalidLayoutEncoding<K>>)
        requires
            eq_is_identity::<K>(),
            is_tuple_fn(metric),
            n >= 1,
            keyset.len() >= 1,
            corpora.len() >= 1,
            power(keyset.len() as nat, n as nat) <= usize::MAX,
            forall|i: int| 0 <= i < corpora.len() ==> corpus_total_chars(#[trigger] corpora@[i]@) <= u64::MAX,
        ensures
            r is Ok <==> distinct(keyset@) && distinct(charset@) && keyset.len() == charset.len(),
            r matches Ok(g) ==> g.wf() && g.keys() == keyset@ && g.chars() == charset@,
            r matches Ok(g) ==> g.corpus_set.count() == corpora.len(),
            r matches Ok(g) ==> forall|j: int, i: int| 0 <= j < g.corpus_set.rows_spec().len() && 0 <= i < corpora.len() ==> #[trigger] g.corpus_set.rows_spec()[j].1@[i]
                == encoded_count(charset@, n as nat, corpora@[i]@, g.corpus_set.rows_spec()[j].0@),
            r matches Ok(g) ==> forall|i: int, k: int| 0 <= i < corpora.len() && 0 <= k < corpora@[i].len() && kept(charset@, n as nat, (#[trigger] corpora@[i]@[k]).0@)
                ==> exists|j: int| 0 <= j < g.corpus_set.rows_spec().len() && decoded(charset@, (#[trigger] g.corpus_set.rows_spec()[j]).0@) == corpora@[i]@[k].0@,
            r matches Ok(g) ==> forall|i: int| 0 <= i < corpora.len() ==> #[trigger] g.corpus_set.sums()[i] == if encoded_total(charset@, n as nat, corpora@[i]@) < 1 {
                1
            } else {
                encoded_total(charset@, n as nat, corpora@[i]@)
            },
            r matches Ok(g) ==> g.metric.costs().len() == power(keyset.len() as nat, n as nat)
                && forall|p: int| 0 <= p < g.metric.costs().len() ==> #[trigger] g.metric.costs()[p] == value_at(
                    metric,
                    decoded(keyset@, unfold(p as nat, keyset.len() as nat, n as nat)),
                ),
    {
        let encoding = LayoutEncoding::new(keyset, charset)?;
        let len = encoding.len();
        let mut encoded: Vec<Vec<(Vec<usize>, u64)>> = Vec::new();
        let mut i: usize = 0;
        while i < corpora.len()
            invariant
                encoding.wf(),
                len == encoding.keys.values().len(),
                i <= corpora.len(),
                encoded.len() == i,
                forall|x: int| 0 <= x < corpora.len() ==> corpus_total_chars(#[trigger] corpora@[x]@) <= u64::MAX,
                forall|x: int| 0 <= x < i ==> corpus_total(#[trigger] encoded@[x]@) <= u64::MAX,
                corpora_in(encoded@, n as nat, len as nat),
                encoding.char_list@.len() == len,
                forall|x: int, t: Seq<usize>| 0 <= x < i && t.len() == n && digits_below(t, len as nat) ==> #[trigger] count_for(encoded@[x]@, t)
                    == encoded_count(encoding.char_list@, n as nat, corpora@[x]@, t),
                forall|x: int| 0 <= x < i ==> corpus_total(#[trigger] encoded@[x]@) == encoded_total(encoding.char_list@, n as nat, corpora@[x]@),
                forall|x: int, kk: int| 0 <= x < i && 0 <= kk < corpora@[x].len() && kept(encoding.char_list@, n as nat, (#[trigger] corpora@[x]@[kk]).0@)
                    ==> exists|y: int| 0 <= y < encoded@[x].len() && decoded(encoding.char_list@, (#[trigger] encoded@[x]@[y]).0@) == corpora@[x]@[kk].0@,
            decreases corpora.len() - i,
        {
            let out = encode_corpus(&encoding, &corpora[i], n);
            let ghost before = encoded@;
            let ghost outv = out@;
            encoded.push(out);
            proof {
                assert forall|x: int, kk: int| 0 <= x < encoded.len() && 0 <= kk < encoded@[x].len() implies (#[trigger] encoded@[x]@[kk]).0.len() == n
                    && digits_below(encoded@[x]@[kk].0@, len as nat) by {
                    if x < before.len() {
                        assert(encoded@[x] == before[x]);
                    }
                }
                assert forall|x: int, kk: int| 0 <= x < i + 1 && 0 <= kk < corpora@[x].len() && kept(encoding.char_list@, n as nat, (#[trigger] corpora@[x]@[kk]).0@)
                    implies exists|y: int| 0 <= y < encoded@[x].len() && decoded(encoding.char_list@, (#[trigger] encoded@[x]@[y]).0@) == corpora@[x]@[kk].0@ by {
                    if x < i {
                        assert(encoded@[x] == before[x]);
                    } else {
                        assert(encoded@[x]@ == outv);
                        let y = choose|y: int| 0 <= y < outv.len() && decoded(encoding.char_list@, (#[trigger] outv[y]).0@) == corpora@[x]@[kk].0@;
                        assert(encoded@[x]@[y] == outv[y]);
                    }
                }
                assert forall|x: int| 0 <= x < i + 1 implies corpus_total(#[trigger] encoded@[x]@) == encoded_total(encoding.char_list@, n as nat, corpora@[x]@) by {
                    if x < i {
                        assert(encoded@[x] == before[x]);
                    }
                }
                assert forall|x: int, t: Seq<usize>| 0 <= x < i + 1 && t.len() == n && digits_below(t, len as nat) implies #[trigger] count_for(encoded@[x]@, t)
                    == encoded_count(encoding.char_list@, n as nat, corpora@[x]@, t) by {
                    if x < i {
                        assert(encoded@[x] == before[x]);
                    }
                }
            }
            i += 1;
        }
        let ghost enc = encoded@;
        let corpus_set = CorpusSet::new(encoded);
        proof {
            let chars = encoding.char_list@;
            assert forall|j: int, i: int| 0 <= j < corpus_set.rows_spec().len() && 0 <= i < corpora.len() implies #[trigger] corpus_set.rows_spec()[j].1@[i]
                == encoded_count(chars, n as nat, corpora@[i]@, corpus_set.rows_spec()[j].0@) by {
                assert(rows_in(corpus_set.rows_spec(), n as nat, len as nat));
                assert(corpus_set.rows_spec()[j].0.len() == n);
            }
            assert forall|i: int, k: int| 0 <= i < corpora.len() && 0 <= k < corpora@[i].len() && kept(chars, n as nat, (#[trigger] corpora@[i]@[k]).0@)
                implies exists|j: int| 0 <= j < corpus_set.rows_spec().len() && decoded(chars, (#[trigger] corpus_set.rows_spec()[j]).0@) == corpora@[i]@[k].0@ by {
                let y = choose|y: int| 0 <= y < enc[i].len() && decoded(chars, (#[trigger] enc[i]@[y]).0@) == corpora@[i]@[k].0@;
                let j = choose|j: int| 0 <= j < corpus_set.rows_spec().len() && #[trigger] corpus_set.rows_spec()[j].0@ == (#[trigger] enc[i]@[y]).0@;
            }
        }
        let keys = &encoding.keys;
        let cost = &metric;
        let weight = |t: Vec<usize>| -> (r: u64)
            ensures
                r == (if digits_below(t@, len as nat) { value_at(*cost, decoded(keys.values(), t@)) } else { 0 }),
            {
                if in_range(&t, len) {
                    let args = keys.decode_ngram(&t);
                    let ghost a = args@;
                    let w = cost(args);
                    proof {
                        crate::tensor::lemma_value_at_ref(cost, args, w);
                    }
                    w
                } else {
                    0
                }
            };
        proof {
            assert forall|v1: Vec<usize>, v2: Vec<usize>, r1: u64, r2: u64|
                v1@ == v2@ && #[trigger] weight.ensures((v1,), r1) && #[trigger] weight.ensures((v2,), r2) implies r1 == r2 by {}
            assert(keys.values().len() == len);
        }
        let metric_tensor = Metric::new(len, n, weight);
        proof {
            assert forall|p: int| 0 <= p < metric_tensor.costs().len() implies #[trigger] metric_tensor.costs()[p] == value_at(
                *cost,
                decoded(keys.values(), unfold(p as nat, len as nat, n as nat)),
            ) by {
                assert(returned(weight, unfold(p as nat, len as nat, n as nat), metric_tensor.costs()[p]));
                let v = choose|v: Vec<usize>| v@ == unfold(p as nat, len as nat, n as nat) && #[trigger] weight.ensures((v,), metric_tensor.costs()[p]);
                crate::indexes::lemma_unfold(p as nat, len as nat, n as nat);
            }
        }
        let g = Generator { encoding, corpus_set, metric: metric_tensor, n };
        Ok(g)
    }

    /// A layout with every pin `(key, char)` in place and the other
    /// characters arranged by hill climbing, as `(key, char)` pairs in the
    /// order of the character set.
    pub fn generate(&self, pins: Vec<(K, char)>) -> (r: Result<Vec<(K, char)>, InvalidPin<K>>)
        requires
            self.wf(),
            eq_is_identity::<K>(),
        ensures
            r is Ok <==> pin_error(self.keys(), self.chars(), pins@, 0) is None,
            r matches Err(e) ==> pin_error(self.keys(), self.chars(), pins@, 0) == Some(e),
            r matches Ok(l) ==> l.len() == self.chars().len(),
            r matches Ok(l) ==> forall|c: int| 0 <= c < l.len() ==> (#[trigger] l@[c]).1 == self.chars()[c] && self.keys().contains(l@[c].0),
            r matches Ok(l) ==> forall|c1: int, c2: int| 0 <= c1 < l.len() && 0 <= c2 < l.len() && c1 != c2 ==> (#[trigger] l@[c1]).0 != (#[trigger] l@[c2]).0,
            r matches Ok(l) ==> forall|a: int| 0 <= a < pins.len() ==> l@.contains(#[trigger] pins@[a]),
            r matches Ok(l) ==> exists|layout: Seq<usize>| is_permutation(layout) && #[trigger] self.decodes(l@, layout)
                && self.is_local_optimum(layout, unpinned(pins@, self.chars()))
                && self.no_worse(layout, pins_applied(self.keys(), self.chars(), pins@, pins.len() as int)),
    {
        let len = self.encoding.len();
        let ghost keys = self.keys();
        let ghost chars = self.chars();
        let mut layout: Vec<usize> = Vec::new();
        let mut position: Vec<usize> = Vec::new();
        let mut pinned: Vec<bool> = Vec::new();
        while layout.len() < len
            invariant
                layout.len() <= len,
                position.len() == layout.len(),
                pinned.len() == layout.len(),
                forall|x: int| 0 <= x < layout.len() ==> #[trigger] layout@[x] == x && position@[x] == x && !pinned@[x],
            decreases len - layout.len(),
        {
            let x = layout.len();
            layout.push(x);
            position.push(x);
            pinned.push(false);
        }
        let ghost mut done: Seq<(int, int)> = Seq::empty();
        proof {
            crate::generation::layout_encoding::lemma_codes_distinct(chars);
            assert(layout@ =~= pins_applied(keys, chars, pins@, 0));
            assert forall|kk: int| 0 <= kk < len implies #[trigger] position@[kk] < len && layout@[position@[kk] as int] == kk by {
                assert(layout@[kk] == kk);
            }
            assert forall|pp: int| 0 <= pp < len && #[trigger] pinned@[pp] implies exists|a: int| 0 <= a < 0 && (#[trigger] done[a]).1 == pp by {
                assert(layout@[pp] == pp);
            }
            assert forall|x: int| 0 <= x < layout.len() implies #[trigger] layout@[x] < layout.len() by {}
            assert forall|x: int, y: int| 0 <= x < layout.len() && 0 <= y < layout.len() && x != y implies #[trigger] layout@[x] != #[trigger] layout@[y] by {
                assert(layout@[x] == x);
                assert(layout@[y] == y);
            }
        }
        let mut q: usize = 0;
        while q < pins.len()
            invariant
                self.wf(),
                eq_is_identity::<K>(),
                keys == self.keys(),
                chars == self.chars(),
                len == keys.len(),
                len == chars.len(),
                q <= pins.len(),
                layout.len() == len,
                position.len() == len,
                pinned.len() == len,
                is_permutation(layout@),
                forall|k: int| 0 <= k < len ==> #[trigger] position@[k] < len && layout@[position@[k] as int] == k,
                done.len() == q,
                forall|a: int| 0 <= a < q ==> 0 <= (#[trigger] done[a]).0 < len && 0 <= done[a].1 < len
                    && keys[done[a].0] == pins@[a].0 && chars[done[a].1] == pins@[a].1
                    && pinned@[done[a].1] && layout@[done[a].1] == done[a].0,
                forall|p: int| 0 <= p < len && #[trigger] pinned@[p] ==> exists|a: int| 0 <= a < q && (#[trigger] done[a]).1 == p,
                distinct(keys),
                distinct(chars),
                pin_error(keys, chars, pins@, 0) == pin_error(keys, chars, pins@, q as int),
                layout@ == pins_applied(keys, chars, pins@, q as int),
            decreases pins.len() - q,
        {
            let key = pins[q].0;
            let ch = pins[q].1;
            let k = match self.encoding.keys.encode(&key) {
                Some(k) => k,
                None => {
                    proof {
                        assert(pins@[q as int].0 == key);
                    }
                    return Err(InvalidPin::InvalidKey(key));
                },
            };
            proof {
                assert(eq_is_identity::<u32>());
            }
            let c = match self.encoding.chars.encode(&(ch as u32)) {
                Some(c) => c,
                None => {
                    proof {
                        assert(pins@[q as int].1 == ch);
                        if chars.contains(ch) {
                            let x = choose|x: int| 0 <= x < chars.len() && chars[x] == ch;
                            assert(codes(chars)[x] == ch as u32);
                        }
                        assert(keys[k as int] == key);
                    }
                    return Err(InvalidPin::InvalidChar(ch));
                },
            };
            proof {
                assert(codes(chars)[c as int] == ch as u32);
                vstd::utf8::char_u32_cast(chars[c as int], ch as u32);
                vstd::utf8::char_u32_cast(ch, ch as u32);
                assert(chars[c as int] == ch);
            }
            let i = position[k];
            if pinned[i] {
                proof {
                    let a = choose|a: int| 0 <= a < q && (#[trigger] done[a]).1 == i as int;
                    assert(layout@[i as int] == k);
                    assert(done[a].0 == k);
                    assert(pins@[a].0 == key);
                    assert(pins@[q as int].0 == key);
                    assert(keys[k as int] == key);
                    assert(chars[c as int] == ch);
                }
                return Err(InvalidPin::DuplicateKey(key));
            }
            if pinned[c] {
                proof {
                    let a = choose|a: int| 0 <= a < q && (#[trigger] done[a]).1 == c as int;
                    assert(pins@[a].1 == ch);
                    assert(pins@[q as int].1 == ch);
                    assert(keys[k as int] == key);
                    assert(chars[c as int] == ch);
                    lemma_no_earlier_key(pins@, keys, done, layout@, q as int, k as int, i as int, pinned@);
                }
                return Err(InvalidPin::DuplicateChar(ch));
            }
            proof {
                assert(keys[k as int] == key);
                assert(chars[c as int] == ch);
                lemma_no_earlier_key(pins@, keys, done, layout@, q as int, k as int, i as int, pinned@);
                assert(!exists|a: int| 0 <= a < q && (#[trigger] pins@[a]).1 == pins@[q as int].1) by {
                    if exists|a: int| 0 <= a < q && (#[trigger] pins@[a]).1 == pins@[q as int].1 {
                        let a = choose|a: int| 0 <= a < q && (#[trigger] pins@[a]).1 == pins@[q as int].1;
                        assert(chars[done[a].1] == chars[c as int]);
                        assert(done[a].1 == c as int);
                    }
                }
                assert(pin_error(keys, chars, pins@, q as int) == pin_error(keys, chars, pins@, q + 1));
            }
            let ghost before = layout@;
            let ghost pos_before = position@;
            let li = layout[i];
            let lc = layout[c];
            proof {
                lemma_swap_keeps(before, i as int, c as int, 0);
            }
            swap(&mut layout, i, c);
            position.set(li, c);
            position.set(lc, i);
            pinned.set(c, true);
            proof {
                let pin = pins@[q as int];
                let kk = choose|kk: int| 0 <= kk < keys.len() && keys[kk] == pin.0;
                assert(kk == k as int);
                let cc = choose|cc: int| 0 <= cc < chars.len() && chars[cc] == pin.1;
                assert(cc == c as int);
                let ii = choose|ii: int| 0 <= ii < before.len() && before[ii] == kk;
                assert(before[i as int] == k);
                assert(ii == i as int);
                assert(layout@ == apply_pin(keys, chars, before, pin));
                assert(layout@ == pins_applied(keys, chars, pins@, q + 1));
                assert(li == k);
                assert forall|kk: int| 0 <= kk < len implies #[trigger] position@[kk] < len && layout@[position@[kk] as int] == kk by {
                    if kk == li as int {
                    } else if kk == lc as int {
                    } else {
                        assert(position@[kk] == pos_before[kk]);
                        assert(pos_before[kk] != i && pos_before[kk] != c) by {
                            if pos_before[kk] == i {
                                assert(before[i as int] == kk);
                            }
                            if pos_before[kk] == c {
                                assert(before[c as int] == kk);
                            }
                        }
                    }
                }
                let old_done = done;
                done = done.push((k as int, c as int));
                assert forall|a: int| 0 <= a < q + 1 implies 0 <= (#[trigger] done[a]).0 < len && 0 <= done[a].1 < len
                    && keys[done[a].0] == pins@[a].0 && chars[done[a].1] == pins@[a].1
                    && pinned@[done[a].1] && layout@[done[a].1] == done[a].0 by {
                    if a < q {
                        assert(done[a] == old_done[a]);
                        let p = done[a].1;
                        assert(p != i as int);
                        assert(p != c as int);
                    }
                }
                assert forall|p: int| 0 <= p < len && #[trigger] pinned@[p] implies exists|a: int| 0 <= a < q + 1 && (#[trigger] done[a]).1 == p by {
                    if p == c as int {
                        assert(done[q as int].1 == p);
                    } else {
                        let a = choose|a: int| 0 <= a < q && (#[trigger] old_done[a]).1 == p;
                        assert(done[a] == old_done[a]);
                    }
                }
            }
            q += 1;
        }
        let mut free: Vec<usize> = Vec::new();
        let mut p: usize = 0;
        while p < len
            invariant
                p <= len,
                pinned.len() == len,
                forall|a: int| 0 <= a < free.len() ==> #[trigger] free@[a] < p && !pinned@[free@[a] as int],
                forall|x: int| 0 <= x < p && !pinned@[x] ==> free@.contains(x as usize),
            decreases len - p,
        {
            let ghost before = free@;
            if !pinned[p] {
                free.push(p);
                proof {
                    assert(free@[free.len() - 1] == p);
                }
            }
            proof {
                assert forall|x: int| 0 <= x < p + 1 && !pinned@[x] implies free@.contains(x as usize) by {
                    if x < p {
                        let w = choose|w: int| 0 <= w < before.len() && before[w] == x as usize;
                        assert(free@[w] == x as usize);
                    }
                }
            }
            p += 1;
        }
        let ghost fixed = layout@;
        let result = self.actual_generation(layout, &free);
        proof {
            assert forall|a: int| 0 <= a < pins.len() implies result@[(#[trigger] done[a]).1] == done[a].0 by {
                let pp = done[a].1;
                if free@.contains(pp as usize) {
                    let x = choose|x: int| 0 <= x < free.len() && free@[x] == pp as usize;
                    assert(!pinned@[pp]);
                }
            }
        }
        let decoded_layout = self.encoding.decode(result);
        proof {
            assert forall|a: int| 0 <= a < pins.len() implies decoded_layout@.contains(#[trigger] pins@[a]) by {
                let cc = done[a].1;
                assert(decoded_layout@[cc] == pins@[a]);
            }
            assert forall|c1: int, c2: int| 0 <= c1 < decoded_layout.len() && 0 <= c2 < decoded_layout.len() && c1 != c2 implies (#[trigger] decoded_layout@[c1]).0 != (#[trigger] decoded_layout@[c2]).0 by {
                assert(result@[c1] != result@[c2]);
            }
            assert(self.decodes(decoded_layout@, result@));
            let movable = unpinned(pins@, self.chars());
            let free_at = |p: int| free@.contains(p as usize);
            assert forall|c: int| 0 <= c < len && #[trigger] movable(c) implies free_at(c) by {
                if pinned@[c] {
                    let a = choose|a: int| 0 <= a < pins.len() && (#[trigger] done[a]).1 == c;
                    assert(pins@[a].1 == chars[c]);
                }
            }
            assert forall|p: int, q: int, r1: (u128, u64), r2: (u128, u64)|
                0 <= p < q < result@.len() && movable(p) && movable(q) && #[trigger] self.aggregate_is(swapped(result@, p, q), r1)
                    && #[trigger] self.aggregate_is(result@, r2) implies !ratio_lt(r1.0 as int, r1.1 as int, r2.0 as int, r2.1 as int) by {
                assert(free_at(p) && free_at(q));
            }
            assert(is_permutation(result@) && self.decodes(decoded_layout@, result@) && self.is_local_optimum(result@, movable)
                && self.no_worse(result@, pins_applied(self.keys(), self.chars(), pins@, pins.len() as int)));
        }
        let r: Result<Vec<(K, char)>, InvalidPin<K>> = Ok(decoded_layout);
        proof {
            assert(r->Ok_0@ == decoded_layout@);
            assert(self.decodes(r->Ok_0@, result@));
        }
        r
    }

    /// The aggregate score of `layout`: the largest ratio, over the corpora,
    /// of the corpus's cost (capped at `u128::MAX`) to its total count.
    fn full_analysis(&self, layout: &Vec<usize>) -> (r: (u128, u64))
        requires
            self.wf(),
            layout.len() == self.keys().len(),
            digits_below(layout@, self.keys().len()),
        ensures
            r.1 >= 1,
            exists|i: int| 0 <= i < self.corpus_set.count() && r.1 == #[trigger] self.corpus_set.sums()[i],
            self.aggregate_is(layout@, r),
    {
        let c = self.corpus_set.len();
        let rows = self.corpus_set.iter();
        let ghost side = self.keys().len();
        let mut buffer: Vec<u128> = Vec::new();
        while buffer.len() < c
            invariant
                buffer.len() <= c,
                forall|i: int| 0 <= i < buffer.len() ==> #[trigger] buffer@[i] == 0,
            decreases c - buffer.len(),
        {
            buffer.push(0);
        }
        proof {
            assert forall|i: int| 0 <= i < c implies #[trigger] buffer@[i] == sat(raw_score(rows@.take(0), i, layout@, self.metric.costs(), side))
                && raw_score(rows@.take(0), i, layout@, self.metric.costs(), side) >= 0 by {}
        }
        let mut j: usize = 0;
        while j < rows.len()
            invariant
                self.wf(),
                rows@ == self.corpus_set.rows_spec(),
                c == self.corpus_set.count(),
                side == self.keys().len(),
                layout.len() == side,
                digits_below(layout@, side),
                j <= rows.len(),
                buffer.len() == c,
                forall|i: int| 0 <= i < c ==> #[trigger] buffer@[i] == sat(raw_score(rows@.take(j as int), i, layout@, self.metric.costs(), side))
                    && raw_score(rows@.take(j as int), i, layout@, self.metric.costs(), side) >= 0,
            decreases rows.len() - j,
        {
            proof {
                assert(rows@[j as int].0.len() == self.n);
                assert forall|x: int| 0 <= x < rows@[j as int].0.len() implies #[trigger] rows@[j as int].0@[x] < layout.len() by {
                    assert(digits_below(rows@[j as int].0@, side));
                }
            }
            let w = self.metric.weight(&rows[j].0, layout);
            let ghost before = buffer@;
            let mut i: usize = 0;
            while i < c
                invariant
                    rows@ == self.corpus_set.rows_spec(),
                    self.corpus_set.wf(),
                    c == self.corpus_set.count(),
                    j < rows.len(),
                    i <= c,
                    buffer.len() == c,
                    forall|x: int| 0 <= x < i ==> #[trigger] buffer@[x] == sat(before[x] + rows@[j as int].1@[x] * w),
                    forall|x: int| i <= x < c ==> #[trigger] buffer@[x] == before[x],
                decreases c - i,
            {
                proof {
                    assert(rows@[j as int].1.len() == c);
                }
                proof {
                    let x = rows@[j as int].1@[i as int] as int;
                    let y = w as int;
                    assert(x * y <= 0xffff_ffff_ffff_ffff * 0xffff_ffff_ffff_ffff) by (nonlinear_arith)
                        requires
                            0 <= x <= 0xffff_ffff_ffff_ffff,
                            0 <= y <= 0xffff_ffff_ffff_ffff,
                    ;
                }
                let t = rows[j].1[i] as u128 * w as u128;
                let b = buffer[i];
                if b > u128::MAX - t {
                    buffer.set(i, u128::MAX);
                } else {
                    buffer.set(i, b + t);
                }
                i += 1;
            }
            proof {
                assert forall|x: int| 0 <= x < c implies #[trigger] buffer@[x] == sat(raw_score(rows@.take(j + 1), x, layout@, self.metric.costs(), side))
                    && raw_score(rows@.take(j + 1), x, layout@, self.metric.costs(), side) >= 0 by {
                    assert(rows@.take(j + 1).drop_last() =~= rows@.take(j as int));
                    let prev = raw_score(rows@.take(j as int), x, layout@, self.metric.costs(), side);
                    let cnt = rows@[j as int].1@[x] as int;
                    let wi = w as int;
                    assert(cnt * wi >= 0) by (nonlinear_arith)
                        requires
                            cnt >= 0,
                            wi >= 0,
                    ;
                    let t = cnt * wi;
                    assert(raw_score(rows@.take(j + 1), x, layout@, self.metric.costs(), side) == prev + t);
                }
            }
            j += 1;
        }
        proof {
            assert(rows@.take(rows.len() as int) =~= rows@);
            assert(buffer@ =~= self.raws(layout@));
        }
        let r = self.corpus_set.aggregate_scores(&buffer);
        proof {
            let i = choose|i: int| 0 <= i < buffer.len() && r == (#[trigger] buffer@[i], self.corpus_set.sums()[i]);
            assert(r.1 == self.corpus_set.sums()[i]);
        }
        r
    }

    /// Improves `layout` by exchanging pairs of the positions in `free`,
    /// keeping each exchange that strictly lowers the aggregate score, until a
    /// full sweep keeps none.
    fn actual_generation(&self, layout: Vec<usize>, free: &Vec<usize>) -> (r: Vec<usize>)
        requires
            self.wf(),
            layout.len() == self.keys().len(),
            is_permutation(layout@),
            forall|a: int| 0 <= a < free.len() ==> #[trigger] free@[a] < layout.len(),
        ensures
            r.len() == layout.len(),
            is_permutation(r@),
            fixed_outside(r@, layout@, free@),
            self.is_local_optimum(r@, |p: int| free@.contains(p as usize)),
            self.no_worse(r@, layout@),
    {
        let ghost start = layout@;
        let ghost sums = self.corpus_set.sums();
        let ghost big = product(sums);
        let n = layout.len();
        let mut layout = layout;
        let mut best = self.full_analysis(&layout);
        proof {
            assert forall|k: int| 0 <= k < sums.len() implies #[trigger] sums[k] >= 1 by {}
            assert forall|r0: (u128, u64)| #[trigger] self.aggregate_is(start, r0) implies !ratio_lt(r0.0 as int, r0.1 as int, best.0 as int, best.1 as int) by {
                law_aggregate_normalization(self.raws(start), sums, r0, best);
            }
            lemma_product_positive(sums);
            lemma_scaled_nonneg(best.0 as int, best.1 as int, big);
        }
        loop
            invariant
                self.wf(),
                sums == self.corpus_set.sums(),
                big == product(sums),
                forall|k: int| 0 <= k < sums.len() ==> #[trigger] sums[k] >= 1,
                n == self.keys().len(),
                layout.len() == n,
                is_permutation(layout@),
                forall|a: int| 0 <= a < free.len() ==> #[trigger] free@[a] < n,
                fixed_outside(layout@, start, free@),
                best.1 >= 1,
                big >= 1,
                scaled(best.0 as int, best.1 as int, big) >= 0,
                exists|i: int| 0 <= i < sums.len() && best.1 == #[trigger] sums[i],
                self.aggregate_is(layout@, best),
                forall|r0: (u128, u64)| #[trigger] self.aggregate_is(start, r0) ==> !ratio_lt(r0.0 as int, r0.1 as int, best.0 as int, best.1 as int),
            ensures
                self.is_local_optimum(layout@, |p: int| free@.contains(p as usize)),
                self.no_worse(layout@, start),
            decreases scaled(best.0 as int, best.1 as int, big),
        {
            let ghost sweep_best = best;
            let ghost sweep_start = layout@;
            let mut improved = false;
            let mut a: usize = 0;
            while a < free.len()
                invariant
                    self.wf(),
                    sums == self.corpus_set.sums(),
                    big == product(sums),
                    forall|k: int| 0 <= k < sums.len() ==> #[trigger] sums[k] >= 1,
                    n == self.keys().len(),
                    layout.len() == n,
                    is_permutation(layout@),
                    forall|x: int| 0 <= x < free.len() ==> #[trigger] free@[x] < n,
                    fixed_outside(layout@, start, free@),
                    best.1 >= 1,
                    exists|i: int| 0 <= i < sums.len() && best.1 == #[trigger] sums[i],
                    exists|i: int| 0 <= i < sums.len() && sweep_best.1 == #[trigger] sums[i],
                    big >= 1,
                    scaled(best.0 as int, best.1 as int, big) >= 0,
                    a <= free.len(),
                    improved ==> scaled(best.0 as int, best.1 as int, big) < scaled(sweep_best.0 as int, sweep_best.1 as int, big),
                    !improved ==> best == sweep_best,
                    self.aggregate_is(layout@, best),
                    forall|r0: (u128, u64)| #[trigger] self.aggregate_is(start, r0) ==> !ratio_lt(r0.0 as int, r0.1 as int, best.0 as int, best.1 as int),
                    !improved ==> layout@ == sweep_start,
                    !improved ==> forall|x: int, y: int, r1: (u128, u64)|
                        0 <= x < a && x < y < free.len() && #[trigger] self.aggregate_is(swapped(sweep_start, free@[x] as int, free@[y] as int), r1)
                            ==> !ratio_lt(r1.0 as int, r1.1 as int, best.0 as int, best.1 as int),
                decreases free.len() - a,
            {
                let mut b: usize = a + 1;
                while b < free.len()
                    invariant
                        self.wf(),
                        sums == self.corpus_set.sums(),
                        big == product(sums),
                        forall|k: int| 0 <= k < sums.len() ==> #[trigger] sums[k] >= 1,
                        n == self.keys().len(),
                        layout.len() == n,
                        is_permutation(layout@),
                        forall|x: int| 0 <= x < free.len() ==> #[trigger] free@[x] < n,
                        fixed_outside(layout@, start, free@),
                        best.1 >= 1,
                        exists|i: int| 0 <= i < sums.len() && best.1 == #[trigger] sums[i],
                        exists|i: int| 0 <= i < sums.len() && sweep_best.1 == #[trigger] sums[i],
                        big >= 1,
                        scaled(best.0 as int, best.1 as int, big) >= 0,
                        a < free.len(),
                        a + 1 <= b <= free.len(),
                        improved ==> scaled(best.0 as int, best.1 as int, big) < scaled(sweep_best.0 as int, sweep_best.1 as int, big),
                        !improved ==> best == sweep_best,
                        self.aggregate_is(layout@, best),
                        forall|r0: (u128, u64)| #[trigger] self.aggregate_is(start, r0) ==> !ratio_lt(r0.0 as int, r0.1 as int, best.0 as int, best.1 as int),
                        !improved ==> layout@ == sweep_start,
                        !improved ==> forall|x: int, y: int, r1: (u128, u64)|
                            0 <= x < a && x < y < free.len() && #[trigger] self.aggregate_is(swapped(sweep_start, free@[x] as int, free@[y] as int), r1)
                                ==> !ratio_lt(r1.0 as int, r1.1 as int, best.0 as int, best.1 as int),
                        !improved ==> forall|y: int, r1: (u128, u64)|
                            a < y < b && #[trigger] self.aggregate_is(swapped(sweep_start, free@[a as int] as int, free@[y] as int), r1)
                                ==> !ratio_lt(r1.0 as int, r1.1 as int, best.0 as int, best.1 as int),
                    decreases free.len() - b,
                {
                    let p = free[a];
                    let q = free[b];
                    let ghost before = layout@;
                    proof {
                        lemma_swap_keeps(before, p as int, q as int, 0);
                        assert(free@.contains(p) && free@.contains(q));
                    }
                    swap(&mut layout, p, q);
                    let score = self.full_analysis(&layout);
                    if ratio_less(score.0, score.1, best.0, best.1) {
                        proof {
                            let i1 = choose|i: int| 0 <= i < sums.len() && best.1 == #[trigger] sums[i];
                            let i2 = choose|i: int| 0 <= i < sums.len() && score.1 == #[trigger] sums[i];
                            let qb = lemma_product_factor(sums, i1);
                            let qs = lemma_product_factor(sums, i2);
                            lemma_scaled_lt(best.0 as int, best.1 as int, score.0 as int, score.1 as int, big, qb, qs);
                            assert forall|r0: (u128, u64)| #[trigger] self.aggregate_is(start, r0) implies !ratio_lt(r0.0 as int, r0.1 as int, score.0 as int, score.1 as int) by {
                                lemma_largest_denominator(self.raws(start), sums, r0);
                                lemma_ratio_below(r0, best, score);
                            }
                        }
                        best = score;
                        improved = true;
                    } else {
                        let ghost swapped_layout = layout@;
                        swap(&mut layout, p, q);
                        proof {
                            lemma_swap_keeps(layout@, p as int, q as int, 0);
                            if !improved {
                                assert forall|y: int, r1: (u128, u64)|
                                    a < y < b + 1 && #[trigger] self.aggregate_is(swapped(sweep_start, free@[a as int] as int, free@[y] as int), r1)
                                        implies !ratio_lt(r1.0 as int, r1.1 as int, best.0 as int, best.1 as int) by {
                                    if y == b {
                                        assert(swapped_layout == swapped(sweep_start, p as int, q as int));
                                        law_aggregate_normalization(self.raws(swapped_layout), sums, r1, score);
                                        lemma_largest_denominator(self.raws(swapped_layout), sums, r1);
                                        lemma_ratio_transfer_left(r1, score, best);
                                    }
                                }
                            }
                        }
                    }
                    b += 1;
                }
                a += 1;
            }
            if !improved {
                proof {
                    let movable = |p: int| free@.contains(p as usize);
                    assert forall|p: int, q: int, r1: (u128, u64), r2: (u128, u64)|
                        0 <= p < q < layout@.len() && movable(p) && movable(q) && #[trigger] self.aggregate_is(swapped(layout@, p, q), r1)
                            && #[trigger] self.aggregate_is(layout@, r2) implies !ratio_lt(r1.0 as int, r1.1 as int, r2.0 as int, r2.1 as int) by {
                        let x = choose|x: int| 0 <= x < free.len() && free@[x] == p as usize;
                        let y = choose|y: int| 0 <= y < free.len() && free@[y] == q as usize;
                        if x < y {
                            assert(self.aggregate_is(swapped(sweep_start, free@[x] as int, free@[y] as int), r1));
                        } else {
                            assert(swapped(layout@, q, p) =~= swapped(layout@, p, q));
                            assert(self.aggregate_is(swapped(sweep_start, free@[y] as int, free@[x] as int), r1));
                        }
                        law_aggregate_normalization(self.raws(layout@), sums, r2, best);
                        lemma_largest_denominator(self.raws(swapped(layout@, p, q)), sums, r1);
                        lemma_largest_denominator(self.raws(layout@), sums, r2);
                        lemma_ratio_transfer(r1, r2, best);
                    }
                    assert forall|r1: (u128, u64), r0: (u128, u64)| #[trigger] self.aggregate_is(layout@, r1) && #[trigger] self.aggregate_is(start, r0)
                        implies !ratio_lt(r0.0 as int, r0.1 as int, r1.0 as int, r1.1 as int) by {
                        law_aggregate_normalization(self.raws(layout@), sums, r1, best);
                        lemma_largest_denominator(self.raws(layout@), sums, r1);
                        lemma_largest_denominator(self.raws(start), sums, r0);
                        lemma_ratio_transfer(r0, r1, best);
                    }
                }
                break;
            }
        }
        layout
    }
}

/// `e` has length `n` and each of its characters is in `chars`.
pub open spec fn kept(chars: Seq<char>, n: nat, e: Seq<char>) -> bool {
    e.len() == n && forall|m: int| 0 <= m < e.len() ==> chars.contains(#[trigger] e[m])
}

/// `t` holds the positions in `chars` of the characters of `e`, which has length `n`.
pub open spec fn encodes_as(chars: Seq<char>, n: nat, e: Seq<char>, t: Seq<usize>) -> bool {
    e.len() == n && t.len() == n && digits_below(t, chars.len()) && decoded(chars, t) == e
}

/// The count that `c` gives last to the n-gram whose positions in `chars` are `t`, or zero.
pub open spec fn encoded_count(chars: Seq<char>, n: nat, c: Seq<(Vec<char>, u64)>, t: Seq<usize>) -> u64
    decreases c.len(),
{
    if c.len() == 0 {
        0
    } else if encodes_as(chars, n, c.last().0@, t) {
        c.last().1
    } else {
        encoded_count(chars, n, c.drop_last(), t)
    }
}

/// The summed counts of the entries of `c` that are kept.
pub open spec fn encoded_total(chars: Seq<char>, n: nat, c: Seq<(Vec<char>, u64)>) -> int
    decreases c.len(),
{
    if c.len() == 0 {
        0
    } else {
        encoded_total(chars, n, c.drop_last()) + if kept(chars, n, c.last().0@) { c.last().1 as int } else { 0 }
    }
}

/// The entries of `corpus` of length `n` whose characters are all in the
/// encoding, as positions, with their counts.
fn encode_corpus<K: Copy + PartialEq>(encoding: &LayoutEncoding<K>, corpus: &Vec<(Vec<char>, u64)>, n: usize) -> (r: Vec<(Vec<usize>, u64)>)
    requires
        encoding.wf(),
        corpus_total_chars(corpus@) <= u64::MAX,
    ensures
        forall|x: int| 0 <= x < r.len() ==> (#[trigger] r@[x]).0.len() == n && digits_below(r@[x].0@, encoding.char_list@.len()),
        forall|t: Seq<usize>| t.len() == n && digits_below(t, encoding.char_list@.len()) ==> #[trigger] count_for(r@, t)
            == encoded_count(encoding.char_list@, n as nat, corpus@, t),
        corpus_total(r@) == encoded_total(encoding.char_list@, n as nat, corpus@),
        corpus_total(r@) <= u64::MAX,
        forall|kk: int| 0 <= kk < corpus.len() && kept(encoding.char_list@, n as nat, (#[trigger] corpus@[kk]).0@) ==> exists|x: int|
            0 <= x < r.len() && decoded(encoding.char_list@, (#[trigger] r@[x]).0@) == corpus@[kk].0@,
{
    let ghost chars = encoding.char_list@;
    let ghost len = chars.len();
    proof {
        crate::generation::layout_encoding::lemma_codes_distinct(chars);
    }
    let mut out: Vec<(Vec<usize>, u64)> = Vec::new();
    let mut k: usize = 0;
    while k < corpus.len()
        invariant
            encoding.wf(),
            chars == encoding.char_list@,
            len == chars.len(),
            distinct(chars),
            k <= corpus.len(),
            corpus_total_chars(corpus@) <= u64::MAX,
            corpus_total(out@) <= corpus_total_chars(corpus@.take(k as int)),
            forall|x: int| 0 <= x < out.len() ==> (#[trigger] out@[x]).0.len() == n && digits_below(out@[x].0@, len),
            forall|t: Seq<usize>| t.len() == n && digits_below(t, len) ==> #[trigger] count_for(out@, t)
                == encoded_count(chars, n as nat, corpus@.take(k as int), t),
            corpus_total(out@) == encoded_total(chars, n as nat, corpus@.take(k as int)),
            forall|kk: int| 0 <= kk < k && kept(chars, n as nat, (#[trigger] corpus@[kk]).0@) ==> exists|x: int|
                0 <= x < out.len() && decoded(chars, (#[trigger] out@[x]).0@) == corpus@[kk].0@,
        decreases corpus.len() - k,
    {
        let ghost e = corpus@[k as int].0@;
        let ghost ck = corpus@[k as int].1;
        let ghost before = out@;
        proof {
            assert(corpus@.take(k + 1).drop_last() =~= corpus@.take(k as int));
            assert(corpus@.take(k + 1).last() == corpus@[k as int]);
            lemma_chars_total_prefix(corpus@, k + 1);
        }
        let mut pushed = false;
        if corpus[k].0.len() == n {
            let cs = crate::generation::layout_encoding::code_points(&corpus[k].0);
            proof {
                assert(eq_is_identity::<u32>());
            }
            match encoding.chars.encode_ngram(&cs) {
                Some(t) => {
                    proof {
                        assert forall|m: int| 0 <= m < n implies #[trigger] decoded(chars, t@)[m] == e[m] by {
                            assert(decoded(codes(chars), t@)[m] == cs@[m]);
                            assert(codes(chars)[t@[m] as int] == chars[t@[m] as int] as u32);
                            vstd::utf8::char_u32_cast(chars[t@[m] as int], chars[t@[m] as int] as u32);
                            vstd::utf8::char_u32_cast(e[m], e[m] as u32);
                        }
                        assert(decoded(chars, t@) =~= e);
                        assert forall|m: int| 0 <= m < e.len() implies chars.contains(#[trigger] e[m]) by {
                            assert(chars[t@[m] as int] == e[m]);
                        }
                    }
                    let ghost tv = t@;
                    out.push((t, corpus[k].1));
                    pushed = true;
                    proof {
                        assert(out@.drop_last() =~= before);
                        assert forall|g: Seq<usize>| g.len() == n && digits_below(g, len) implies #[trigger] count_for(out@, g)
                            == encoded_count(chars, n as nat, corpus@.take(k + 1), g) by {
                            assert(encodes_as(chars, n as nat, e, tv));
                            assert(out@.last() == (out@[out.len() - 1].0, ck));
                            assert(count_for(out@, g) == (if tv == g { ck } else { count_for(before, g) }));
                            assert(encoded_count(chars, n as nat, corpus@.take(k + 1), g) == (if encodes_as(chars, n as nat, e, g) {
                                ck
                            } else {
                                encoded_count(chars, n as nat, corpus@.take(k as int), g)
                            }));
                            if encodes_as(chars, n as nat, e, g) {
                                assert forall|m: int| 0 <= m < n implies g[m] == tv[m] by {
                                    assert(decoded(chars, g)[m] == decoded(chars, tv)[m]);
                                }
                                assert(g =~= tv);
                            }
                        }
                        assert forall|kk: int| 0 <= kk < k + 1 && kept(chars, n as nat, (#[trigger] corpus@[kk]).0@) implies exists|x: int|
                            0 <= x < out.len() && decoded(chars, (#[trigger] out@[x]).0@) == corpus@[kk].0@ by {
                            if kk < k {
                                let x = choose|x: int| 0 <= x < before.len() && decoded(chars, (#[trigger] before[x]).0@) == corpus@[kk].0@;
                                assert(out@[x] == before[x]);
                            } else {
                                assert(out@[out.len() - 1].0@ == tv);
                            }
                        }
                    }
                },
                None => {
                    proof {
                        let m = choose|m: int| 0 <= m < cs.len() && !codes(chars).contains(#[trigger] cs@[m]);
                        assert(!chars.contains(e[m])) by {
                            if chars.contains(e[m]) {
                                let x = choose|x: int| 0 <= x < chars.len() && chars[x] == e[m];
                                assert(codes(chars)[x] == cs@[m]);
                            }
                        }
                        assert(!kept(chars, n as nat, e));
                        assert forall|g: Seq<usize>| #![auto] g.len() == n && digits_below(g, len) implies !encodes_as(chars, n as nat, e, g) by {
                            if encodes_as(chars, n as nat, e, g) {
                                assert(decoded(chars, g)[m] == chars[g[m] as int]);
                            }
                        }
                    }
                },
            }
        }
        proof {
            if !pushed {
                assert(out@ == before);
                assert(!kept(chars, n as nat, e)) by {
                    if e.len() == n && kept(chars, n as nat, e) {
                    }
                }
                assert forall|g: Seq<usize>| g.len() == n && digits_below(g, len) implies #[trigger] count_for(out@, g)
                    == encoded_count(chars, n as nat, corpus@.take(k + 1), g) by {
                    if e.len() != n {
                        assert(!encodes_as(chars, n as nat, e, g));
                    }
                }
            }
        }
        k += 1;
    }
    proof {
        assert(corpus@.take(corpus.len() as int) =~= corpus@);
    }
    out
}

/// The sum of the counts of `c`.
pub open spec fn corpus_total_chars(c: Seq<(Vec<char>, u64)>) -> int
    decreases c.len(),
{
    if c.len() == 0 {
        0
    } else {
        corpus_total_chars(c.drop_last()) + c.last().1
    }
}

proof fn lemma_chars_total_prefix(c: Seq<(Vec<char>, u64)>, k: int)
    requires
        0 <= k <= c.len(),
    ensures
        0 <= corpus_total_chars(c.take(k)) <= corpus_total_chars(c),
    decreases c.len() - k,
{
    if k < c.len() {
        lemma_chars_total_prefix(c, k + 1);
        assert(c.take(k + 1).drop_last() =~= c.take(k));
        lemma_chars_total_nonneg(c.take(k));
    } else {
        assert(c.take(k) =~= c);
        lemma_chars_total_nonneg(c);
    }
}

proof fn lemma_chars_total_nonneg(c: Seq<(Vec<char>, u64)>)
    ensures
        corpus_total_chars(c) >= 0,
    decreases c.len(),
{
    if c.len() > 0 {
        lemma_chars_total_nonneg(c.drop_last());
    }
}

} // verus!
