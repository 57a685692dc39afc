use vstd::prelude::*;
use crate::compilation::encoding::{distinct, eq_is_identity, repeated, repeated_values, same};
use crate::indexes::digits_below;
use crate::tensor::decoded;

verus! {

/// An ordered list of distinct values; a value is encoded as its position.
#[derive(Clone, Debug)]
pub struct Encoding<T>(pub Vec<T>);

/// The position of the first `v` in `s`, if any.
pub open spec fn position_of<T>(s: Seq<T>, v: T) -> Option<usize> {
    if s.contains(v) {
        Some((choose|i: int| 0 <= i < s.len() && s[i] == v && forall|j: int| 0 <= j < i ==> s[j] != v) as usize)
    } else {
        None
    }
}

impl<T: Copy + PartialEq> Encoding<T> {
    /// The values, in order.
    pub open spec fn values(&self) -> Seq<T> {
        self.0@
    }

    /// The encoding of `values` in their order; the repeated values if some
    /// value stands twice.
    pub fn new(values: Vec<T>) -> (r: Result<Self, Vec<T>>)
        requires
            eq_is_identity::<T>(),
        ensures
            r is Ok <==> distinct(values@),
            r matches Ok(e) ==> e.values() == values@,
            r matches Err(d) ==> d@ == repeated(values@),
    {
        let dups = repeated_values(&values);
        if dups.len() == 0 {
            Ok(Encoding(values))
        } else {
            Err(dups)
        }
    }

    /// The number of values.
    pub fn len(&self) -> (r: usize)
        ensures
            r == self.values().len(),
    {
        self.0.len()
    }

    /// The position of `v`, if it is one of the values.
    pub fn encode(&self, v: &T) -> (r: Option<usize>)
        requires
            eq_is_identity::<T>(),
        ensures
            r is None <==> !self.values().contains(*v),
            r matches Some(i) ==> i < self.values().len() && self.values()[i as int] == *v && forall|j: int|
                0 <= j < i ==> self.values()[j] != *v,
    {
        let mut i: usize = 0;
        while i < self.0.len()
            invariant
                eq_is_identity::<T>(),
                i <= self.0.len(),
                forall|j: int| 0 <= j < i ==> self.values()[j] != *v,
            decreases self.0.len() - i,
        {
            if same(&self.0[i], v) {
                return Some(i);
            }
            i += 1;
        }
        None
    }

    /// The value at position `e`.
    pub fn decode(&self, e: usize) -> (r: &T)
        requires
            e < self.values().len(),
        ensures
            *r == self.values()[e as int],
    {
        &self.0[e]
    }

    /// The positions of the values of `ngram`, if all are values.
    pub fn encode_ngram(&self, ngram: &Vec<T>) -> (r: Option<Vec<usize>>)
        requires
            eq_is_identity::<T>(),
        ensures
            r is None <==> exists|i: int| 0 <= i < ngram.len() && !self.values().contains(#[trigger] ngram@[i]),
            r matches Some(t) ==> t.len() == ngram.len() && digits_below(t@, self.values().len())
                && decoded(self.values(), t@) == ngram@,
    {
        let mut res: Vec<usize> = Vec::new();
        let mut i: usize = 0;
        while i < ngram.len()
            invariant
                eq_is_identity::<T>(),
                i <= ngram.len(),
                res.len() == i,
                digits_below(res@, self.values().len()),
                forall|j: int| 0 <= j < i ==> self.values()[#[trigger] res@[j] as int] == ngram@[j],
            decreases ngram.len() - i,
        {
            match self.encode(&ngram[i]) {
                Some(e) => {
                    res.push(e);
                },
                None => {
                    return None;
                },
            }
            i += 1;
        }
        proof {
            assert(decoded(self.values(), res@) =~= ngram@);
            assert forall|i: int| 0 <= i < ngram.len() implies self.values().contains(#[trigger] ngram@[i]) by {
                assert(self.values()[res@[i] as int] == ngram@[i]);
            }
        }
        Some(res)
    }

    /// The values at the positions of `ngram`.
    pub fn decode_ngram(&self, ngram: &Vec<usize>) -> (r: Vec<T>)
        requires
            digits_below(ngram@, self.values().len()),
        ensures
            r@ == decoded(self.values(), ngram@),
    {
        let mut r: Vec<T> = Vec::new();
        let mut i: usize = 0;
        while i < ngram.len()
            invariant
                digits_below(ngram@, self.values().len()),
                i <= ngram.len(),
                r@ == decoded(self.values(), ngram@.take(i as int)),
            decreases ngram.len() - i,
        {
            r.push(self.0[ngram[i]]);
            proof {
                assert(decoded(self.values(), ngram@.take(i + 1)) =~= decoded(self.values(), ngram@.take(i as int)).push(self.values()[ngram@[i as int] as int]));
            }
            i += 1;
        }
        proof {
            assert(ngram@.take(ngram.len() as int) =~= ngram@);
        }
        r
    }
}

} // verus!
