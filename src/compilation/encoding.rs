use vstd::prelude::*;
use vstd::std_specs::cmp::PartialEqSpec;
use crate::indexes::{digits_below, lemma_unfold, power, unfold, Indexes};
use crate::tensor::{decoded, is_tuple_fn, lemma_value_at, sparse_upto, sparse_view, tensor_value};

verus! {

/// `==` on `T` is equality of values.
pub open spec fn eq_is_identity<T: PartialEq>() -> bool {
    &&& T::obeys_eq_spec()
    &&& forall|x: T, y: T| (#[trigger] x.eq_spec(&y)) <==> (x == y)
}

/// Whether `a` and `b` are the same value.
pub fn same<T: PartialEq>(a: &T, b: &T) -> (r: bool)
    requires
        eq_is_identity::<T>(),
    ensures
        r == (*a == *b),
{
    *a == *b
}

/// Whether `s` holds `v`.
pub fn holds<T: PartialEq>(s: &Vec<T>, v: &T) -> (r: bool)
    requires
        eq_is_identity::<T>(),
    ensures
        r == s@.contains(*v),
{
    let mut i: usize = 0;
    while i < s.len()
        invariant
            eq_is_identity::<T>(),
            i <= s.len(),
            forall|j: int| 0 <= j < i ==> s@[j] != *v,
        decreases s.len() - i,
    {
        if same(&s[i], v) {
            return true;
        }
        i += 1;
    }
    false
}

/// No value stands twice in `s`.
pub open spec fn distinct<T>(s: Seq<T>) -> bool {
    forall|i: int, j: int| 0 <= i < j < s.len() ==> s[i] != s[j]
}

/// The values of `s` from position `i` on that occur again later, in order.
pub open spec fn repeated_from<T>(s: Seq<T>, i: int) -> Seq<T>
    decreases s.len() - i,
{
    if i >= s.len() || i < 0 {
        Seq::empty()
    } else {
        let rest = repeated_from(s, i + 1);
        if s.subrange(i + 1, s.len() as int).contains(s[i]) {
            seq![s[i]] + rest
        } else {
            rest
        }
    }
}

/// The values of `s` that occur again later, in order.
pub open spec fn repeated<T>(s: Seq<T>) -> Seq<T> {
    repeated_from(s, 0)
}

/// Without repetitions nothing is repeated.
pub proof fn lemma_repeated_distinct<T>(s: Seq<T>)
    requires
        distinct(s),
    ensures
        repeated(s).len() == 0,
{
    lemma_repeated_from_distinct(s, 0);
}

/// Every repeated value is a value of `s`.
pub proof fn lemma_repeated_within<T>(s: Seq<T>)
    ensures
        forall|j: int| 0 <= j < repeated(s).len() ==> s.contains(#[trigger] repeated(s)[j]),
{
    lemma_repeated_from_within(s, 0);
}

proof fn lemma_repeated_from_within<T>(s: Seq<T>, i: int)
    requires
        0 <= i,
    ensures
        forall|j: int| 0 <= j < repeated_from(s, i).len() ==> s.contains(#[trigger] repeated_from(s, i)[j]),
    decreases s.len() - i,
{
    if i < s.len() {
        lemma_repeated_from_within(s, i + 1);
        let rest = repeated_from(s, i + 1);
        let t = s.subrange(i + 1, s.len() as int);
        if t.contains(s[i]) {
            let r = repeated_from(s, i);
            assert forall|j: int| 0 <= j < r.len() implies s.contains(#[trigger] r[j]) by {
                if j == 0 {
                    assert(s[i] == r[0]);
                } else {
                    assert(r[j] == rest[j - 1]);
                }
            }
        }
    }
}

proof fn lemma_repeated_from_distinct<T>(s: Seq<T>, i: int)
    requires
        distinct(s),
        0 <= i,
    ensures
        repeated_from(s, i).len() == 0,
    decreases s.len() - i,
{
    if i < s.len() {
        lemma_repeated_from_distinct(s, i + 1);
        let t = s.subrange(i + 1, s.len() as int);
        if t.contains(s[i]) {
            let w = choose|w: int| 0 <= w < t.len() && #[trigger] t[w] == s[i];
            assert(s[i + 1 + w] == s[i]);
        }
    }
}

/// The values of `p` that `s` does not hold, in order.
pub open spec fn absent<T>(p: Seq<T>, s: Seq<T>) -> Seq<T> {
    p.filter(|v: T| !s.contains(v))
}

/// The values of `s` that `p` does not hold, in order.
pub open spec fn missing<T>(p: Seq<T>, s: Seq<T>) -> Seq<T> {
    s.filter(|v: T| !p.contains(v))
}

/// An encoding of `value_set` with `pins` first can be built: no value
/// stands twice in either, and every pin is in `value_set`.
pub open spec fn encoding_ok<T>(pins: Seq<T>, value_set: Seq<T>) -> bool {
    distinct(value_set) && absent(pins, value_set).len() == 0 && distinct(pins)
}

/// `e` is the error for `pins` and `value_set`: repeats in `value_set`
/// first, then pins absent from it, then repeated pins.
pub open spec fn is_encoding_error<T>(pins: Seq<T>, value_set: Seq<T>, e: EncodingError<T>) -> bool {
    if !distinct(value_set) {
        e matches EncodingError::Duplicate(d) && d@ == repeated(value_set)
    } else if absent(pins, value_set).len() > 0 {
        e matches EncodingError::Invalid(d) && d@ == absent(pins, value_set)
    } else {
        e matches EncodingError::Duplicate(d) && d@ == repeated(pins)
    }
}

/// Why an encoding could not be built.
#[derive(Clone, Debug, PartialEq, Eq)]
pub enum EncodingError<T> {
    /// These values stand more than once.
    Duplicate(Vec<T>),
    /// These pinned values are not in the value set.
    Invalid(Vec<T>),
}

/// The values that occur again later in `s`, in order.
pub fn repeated_values<T: Copy + PartialEq>(s: &Vec<T>) -> (r: Vec<T>)
    requires
        eq_is_identity::<T>(),
    ensures
        r@ == repeated(s@),
        r@.len() == 0 <==> distinct(s@),
{
    let mut r: Vec<T> = Vec::new();
    let mut i: usize = 0;
    while i < s.len()
        invariant
            eq_is_identity::<T>(),
            i <= s.len(),
            repeated(s@) == r@ + repeated_from(s@, i as int),
            r@.len() == 0 <==> (forall|a: int, b: int| 0 <= a < i && a < b < s.len() ==> s@[a] != s@[b]),
        decreases s.len() - i,
    {
        let mut found = false;
        let mut j: usize = i + 1;
        while j < s.len()
            invariant
                eq_is_identity::<T>(),
                i < j <= s.len(),
                found == s@.subrange(i + 1, j as int).contains(s@[i as int]),
            decreases s.len() - j,
        {
            if !found && same(&s[j], &s[i]) {
                found = true;
            }
            proof {
                let x = s@[i as int];
                let a = s@.subrange(i + 1, j as int);
                let b = s@.subrange(i + 1, j + 1);
                assert(b =~= a.push(s@[j as int]));
                if a.contains(x) {
                    let w = choose|w: int| 0 <= w < a.len() && #[trigger] a[w] == x;
                    assert(b[w] == x);
                }
                if s@[j as int] == x {
                    assert(b[b.len() - 1] == x);
                }
                if b.contains(x) {
                    let w = choose|w: int| 0 <= w < b.len() && #[trigger] b[w] == x;
                    if w < a.len() {
                        assert(a[w] == x);
                    }
                }
            }
            j += 1;
        }
        proof {
            if found {
                let t = s@.subrange(i + 1, s.len() as int);
                let w = choose|w: int| 0 <= w < t.len() && #[trigger] t[w] == s@[i as int];
                assert(s@[i as int] == s@[i + 1 + w]);
            } else {
                assert forall|b: int| i < b < s.len() implies s@[i as int] != s@[b] by {
                    assert(s@.subrange(i + 1, s.len() as int)[b - i - 1] == s@[b]);
                }
            }
            assert(repeated(s@) == r@ + repeated_from(s@, i as int));
        }
        if found {
            r.push(s[i]);
            proof {
                assert(seq![s@[i as int]] + repeated_from(s@, i + 1) =~= repeated_from(s@, i as int));
                assert(r@ + repeated_from(s@, i + 1) =~= r@.drop_last() + repeated_from(s@, i as int));
            }
        }
        i += 1;
    }
    proof {
        assert(r@ + repeated_from(s@, s.len() as int) =~= r@);
    }
    r
}

/// An ordered list of distinct values, pinned values first; a value is
/// encoded as its position.
#[derive(Clone, Debug)]
pub struct Encoding<T>(Vec<T>);

impl<T: Copy + PartialEq> Encoding<T> {
    /// The values, in order.
    pub closed spec fn values(&self) -> Seq<T> {
        self.0@
    }

    /// `pins` in the order given, then every other value of `value_set` in
    /// its own order.
    pub fn new(pins: Vec<T>, value_set: Vec<T>) -> (r: Result<Self, EncodingError<T>>)
        requires
            eq_is_identity::<T>(),
        ensures
            r is Ok <==> encoding_ok(pins@, value_set@),
            r matches Err(e) ==> is_encoding_error(pins@, value_set@, e),
            !distinct(value_set@) ==> (r matches Err(EncodingError::Duplicate(d)) && d@ == repeated(value_set@)),
            distinct(value_set@) && absent(pins@, value_set@).len() > 0 ==> (r matches Err(
                EncodingError::Invalid(d),
            ) && d@ == absent(pins@, value_set@)),
            distinct(value_set@) && absent(pins@, value_set@).len() == 0 && !distinct(pins@) ==> (r matches Err(
                EncodingError::Duplicate(d),
            ) && d@ == repeated(pins@)),
            distinct(value_set@) && distinct(pins@) && absent(pins@, value_set@).len() == 0 ==> (r matches Ok(e) && e.values()
                == pins@ + missing(pins@, value_set@) && distinct(e.values())),
    {
        let dups = repeated_values(&value_set);
        if dups.len() > 0 {
            return Err(EncodingError::Duplicate(dups));
        }
        let mut invalid: Vec<T> = Vec::new();
        let mut i: usize = 0;
        while i < pins.len()
            invariant
                eq_is_identity::<T>(),
                i <= pins.len(),
                invalid@ == absent(pins@.take(i as int), value_set@),
            decreases pins.len() - i,
        {
            let present = holds(&value_set, &pins[i]);
            proof {
                let p = pins@.take(i + 1);
                assert(p.drop_last() =~= pins@.take(i as int));
                assert(absent(p, value_set@) == absent(p.drop_last(), value_set@) + (if !value_set@.contains(p.last()) { seq![p.last()] } else { Seq::empty() })) by {
                    reveal(Seq::filter);
                }
            }
            if !present {
                invalid.push(pins[i]);
            }
            i += 1;
        }
        proof {
            assert(pins@.take(pins.len() as int) =~= pins@);
        }
        if invalid.len() > 0 {
            return Err(EncodingError::Invalid(invalid));
        }
        let dups = repeated_values(&pins);
        if dups.len() > 0 {
            return Err(EncodingError::Duplicate(dups));
        }
        let mut out = crate::windows::copy_range(&pins, 0, pins.len());
        let ghost p = pins@;
        assert(out@ =~= p);
        assert(missing(p, value_set@.take(0)) =~= Seq::<T>::empty()) by {
            reveal(Seq::filter);
        }
        assert(out@ =~= p + missing(p, value_set@.take(0)));
        let mut i: usize = 0;
        while i < value_set.len()
            invariant
                eq_is_identity::<T>(),
                p == pins@,
                distinct(value_set@),
                distinct(p),
                i <= value_set.len(),
                out@ == p + missing(p, value_set@.take(i as int)),
                distinct(out@),
                forall|a: int| 0 <= a < out@.len() - p.len() ==> exists|b: int| 0 <= b < i && #[trigger] out@[p.len() + a] == value_set@[b],
            decreases value_set.len() - i,
        {
            let v = value_set[i];
            let known = holds(&pins, &v);
            proof {
                let s = value_set@.take(i + 1);
                assert(s.drop_last() =~= value_set@.take(i as int));
                assert(missing(p, s) == missing(p, s.drop_last()) + (if !p.contains(s.last()) { seq![s.last()] } else { Seq::empty() })) by {
                    reveal(Seq::filter);
                }
            }
            if !known {
                proof {
                    assert forall|a: int| 0 <= a < out@.len() implies out@[a] != v by {
                        if a >= p.len() {
                            let b = choose|b: int| 0 <= b < i && #[trigger] out@[p.len() + (a - p.len())] == value_set@[b];
                            assert(out@[a] == value_set@[b]);
                        } else {
                            assert(out@[a] == p[a]);
                        }
                    }
                }
                out.push(v);
            }
            i += 1;
        }
        proof {
            assert(value_set@.take(value_set.len() as int) =~= value_set@);
        }
        Ok(Encoding(out))
    }

    /// The number of values.
    pub fn len(&self) -> (r: usize)
        ensures
            r == self.values().len(),
    {
        self.0.len()
    }

    /// The position of `v`.
    pub fn encode(&self, v: &T) -> (r: usize)
        requires
            eq_is_identity::<T>(),
            self.values().contains(*v),
        ensures
            r < self.values().len(),
            self.values()[r as int] == *v,
            forall|j: int| 0 <= j < r ==> self.values()[j] != *v,
    {
        let mut i: usize = 0;
        while i < self.0.len()
            invariant
                eq_is_identity::<T>(),
                self.values().contains(*v),
                i <= self.0.len(),
                forall|j: int| 0 <= j < i ==> self.values()[j] != *v,
            decreases self.0.len() - i,
        {
            if same(&self.0[i], v) {
                return i;
            }
            i += 1;
        }
        proof {
            let w = choose|w: int| 0 <= w < self.values().len() && self.values()[w] == *v;
        }
        0
    }

    /// The value at position `e`.
    pub fn decode(&self, e: usize) -> (r: &T)
        requires
            e < self.values().len(),
        ensures
            *r == self.values()[e as int],
    {
        &self.0[e]
    }

    /// The values that the indices of `t` stand for.
    pub fn decode_tuple(&self, t: &Vec<usize>) -> (r: Vec<T>)
        requires
            digits_below(t@, self.values().len()),
        ensures
            r@ == decoded(self.values(), t@),
    {
        let mut r: Vec<T> = Vec::new();
        let mut i: usize = 0;
        while i < t.len()
            invariant
                digits_below(t@, self.values().len()),
                i <= t.len(),
                r@ == decoded(self.values(), t@.take(i as int)),
            decreases t.len() - i,
        {
            r.push(self.0[t[i]]);
            proof {
                assert(decoded(self.values(), t@.take(i + 1)) =~= decoded(self.values(), t@.take(i as int)).push(self.values()[t@[i as int] as int]));
            }
            i += 1;
        }
        proof {
            assert(t@.take(t.len() as int) =~= t@);
        }
        r
    }

    /// The weight of every tuple of `d` values, laid out by the tuple's
    /// number in base `len()`.
    pub fn encode_into_tensor<F: Fn(Vec<T>) -> u64>(&self, d: usize, weight: F) -> (r: Vec<u64>)
        requires
            is_tuple_fn(weight),
            power(self.values().len(), d as nat) <= usize::MAX,
        ensures
            r.len() == power(self.values().len(), d as nat),
            forall|p: int| 0 <= p < r.len() ==> #[trigger] r[p] == tensor_value(weight, self.values(), d as nat, p as nat),
    {
        let ghost n = self.values().len();
        let ghost count = power(n, d as nat);
        let mut r: Vec<u64> = Vec::new();
        let total = tuple_count(self.0.len(), d);
        let mut idx = Indexes::new(self.0.len(), d);
        while r.len() < total
            invariant
                is_tuple_fn(weight),
                n == self.values().len(),
                n == self.0.len(),
                count == power(n, d as nat),
                total == count,
                count <= usize::MAX,
                idx.wf(),
                r.len() <= count,
                idx.remaining() == Seq::new((count - r.len()) as nat, |i: int| unfold((r.len() + i) as nat, n, d as nat)),
                forall|p: int| 0 <= p < r.len() ==> #[trigger] r[p] == tensor_value(weight, self.values(), d as nat, p as nat),
            decreases count - r.len(),
        {
            let ghost before = idx.remaining();
            let ghost p = r.len();
            match idx.next() {
                Some(t) => {
                    proof {
                        assert(t@ == unfold(p as nat, n, d as nat));
                        lemma_unfold(p as nat, n, d as nat);
                    }
                    let args = self.decode_tuple(&t);
                    let w = weight(args);
                    proof {
                        lemma_value_at(weight, args, w);
                    }
                    r.push(w);
                    proof {
                        assert(idx.remaining() =~= Seq::new((count - r.len()) as nat, |i: int| unfold((r.len() + i) as nat, n, d as nat)));
                    }
                },
                None => {
                    assert(false);
                },
            }
        }
        r
    }

    /// Every tuple of `d` values whose weight is not zero, with that weight,
    /// in lexicographic order of the tuples.
    pub fn encode_into_sparse_tensor<F: Fn(Vec<T>) -> u64>(&self, d: usize, weight: F) -> (r: Vec<(Vec<usize>, u64)>)
        requires
            is_tuple_fn(weight),
            power(self.values().len(), d as nat) <= usize::MAX,
        ensures
            sparse_view(r@) == sparse_upto(weight, self.values(), d as nat, power(self.values().len(), d as nat)),
    {
        let ghost n = self.values().len();
        let ghost count = power(n, d as nat);
        let mut r: Vec<(Vec<usize>, u64)> = Vec::new();
        let mut idx = Indexes::new(self.0.len(), d);
        let total = tuple_count(self.0.len(), d);
        let mut k: usize = 0;
        while k < total
            invariant
                total == count,
                is_tuple_fn(weight),
                n == self.values().len(),
                n == self.0.len(),
                count == power(n, d as nat),
                count <= usize::MAX,
                idx.wf(),
                k <= count,
                idx.remaining() == Seq::new((count - k) as nat, |i: int| unfold((k + i) as nat, n, d as nat)),
                sparse_view(r@) == sparse_upto(weight, self.values(), d as nat, k as nat),
            decreases count - k,
        {
            match idx.next() {
                Some(t) => {
                    proof {
                        assert(t@ == unfold(k as nat, n, d as nat));
                        lemma_unfold(k as nat, n, d as nat);
                    }
                    let args = self.decode_tuple(&t);
                    let w = weight(args);
                    proof {
                        lemma_value_at(weight, args, w);
                    }
                    if w != 0 {
                        r.push((t, w));
                        proof {
                            assert(sparse_view(r@) =~= sparse_view(r@.drop_last()).push((t@, w)));
                        }
                    }
                    k += 1;
                    proof {
                        assert(idx.remaining() =~= Seq::new((count - k) as nat, |i: int| unfold((k + i) as nat, n, d as nat)));
                    }
                },
                None => {
                    assert(false);
                },
            }
        }
        r
    }
}

/// The number of tuples of `d` indices below `len`.
fn tuple_count(len: usize, d: usize) -> (r: usize)
    requires
        power(len as nat, d as nat) <= usize::MAX,
    ensures
        r == power(len as nat, d as nat),
{
    match crate::indexes::checked_power(len, d) {
        Some(c) => c,
        None => 0,
    }
}

} // verus!

verus! {

/// Over distinct values, encoding is a bijection with positions: the first
/// position holding `s[i]` is `i`, so decoding what `encode` gives returns the
/// value and encoding what `decode` gives returns the position; and the pinned
/// values stay first, in their order.
pub proof fn law_encoding_bijection<T>(pins: Seq<T>, value_set: Seq<T>, i: int, r: int)
    requires
        distinct(pins + missing(pins, value_set)),
        0 <= i < (pins + missing(pins, value_set)).len(),
        0 <= r < (pins + missing(pins, value_set)).len(),
        (pins + missing(pins, value_set))[r] == (pins + missing(pins, value_set))[i],
        forall|j: int| 0 <= j < r ==> (pins + missing(pins, value_set))[j] != (pins + missing(pins, value_set))[i],
    ensures
        r == i,
        (pins + missing(pins, value_set)).take(pins.len() as int) == pins,
{
    let s = pins + missing(pins, value_set);
    if r < i {
        assert(s[r] != s[i]);
    } else if r > i {
        assert(s[i] != s[r]);
    }
    assert(s.take(pins.len() as int) =~= pins);
}

} // verus!

verus! {

/// What `filter` keeps comes from the sequence.
pub proof fn lemma_filter_from<T>(s: Seq<T>, pred: spec_fn(T) -> bool, x: T)
    requires
        s.filter(pred).contains(x),
    ensures
        s.contains(x),
    decreases s.len(),
{
    reveal(Seq::filter);
    if s.len() > 0 {
        let sub = s.drop_last().filter(pred);
        let i = choose|i: int| 0 <= i < s.filter(pred).len() && s.filter(pred)[i] == x;
        if pred(s.last()) && i == sub.len() {
            assert(s[s.len() - 1] == x);
        } else {
            assert(sub[i] == x);
            lemma_filter_from(s.drop_last(), pred, x);
            let j = choose|j: int| 0 <= j < s.drop_last().len() && s.drop_last()[j] == x;
            assert(s[j] == x);
        }
    }
}

/// An encoding built from `pins` and `value_set` holds as many values as
/// `value_set`.
pub proof fn lemma_encoding_len<T>(pins: Seq<T>, value_set: Seq<T>)
    requires
        encoding_ok(pins, value_set),
        distinct(pins + missing(pins, value_set)),
    ensures
        (pins + missing(pins, value_set)).len() == value_set.len(),
{
    broadcast use vstd::set::group_set_axioms;

    let m = missing(pins, value_set);
    let e = pins + m;
    reveal(Seq::filter);
    value_set.filter_lemma(|v: T| !pins.contains(v));
    pins.filter_lemma(|v: T| !value_set.contains(v));
    assert forall|x: T| e.contains(x) <==> value_set.contains(x) by {
        if e.contains(x) {
            let i = choose|i: int| 0 <= i < e.len() && e[i] == x;
            if i < pins.len() {
                assert(pins[i] == x);
                if !value_set.contains(x) {
                    assert(absent(pins, value_set).contains(x));
                }
            } else {
                assert(m[i - pins.len()] == x);
                lemma_filter_from(value_set, |v: T| !pins.contains(v), x);
            }
        }
        if value_set.contains(x) {
            if pins.contains(x) {
                let i = choose|i: int| 0 <= i < pins.len() && pins[i] == x;
                assert(e[i] == x);
            } else {
                let k = choose|k: int| 0 <= k < value_set.len() && value_set[k] == x;
                value_set.lemma_filter_contains(|v: T| !pins.contains(v), k);
                assert(m.contains(x));
                let i = choose|i: int| 0 <= i < m.len() && m[i] == x;
                assert(e[pins.len() + i] == x);
            }
        }
    }
    assert(e.to_set() =~= value_set.to_set());
    assert(e.no_duplicates()) by {
        assert forall|i: int, j: int| 0 <= i < e.len() && 0 <= j < e.len() && i != j implies e[i] != e[j] by {
            if i < j {
            } else {
            }
        }
    }
    assert(value_set.no_duplicates()) by {
        assert forall|i: int, j: int| 0 <= i < value_set.len() && 0 <= j < value_set.len() && i != j implies value_set[i] != value_set[j] by {
            if i < j {
            } else {
            }
        }
    }
    e.unique_seq_to_set();
    value_set.unique_seq_to_set();
}

} // verus!
