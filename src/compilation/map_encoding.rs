use vstd::prelude::*;
use crate::compilation::compiled_ngram_analyzer::{kept, tuples_in_range, CompiledNgramAnalyzer};
use crate::compilation::encoding::{
    distinct, encoding_ok, eq_is_identity, is_encoding_error, missing, Encoding, EncodingError,
};
use crate::indexes::{lemma_unfold, power, unfold};
use crate::tensor::{is_tuple_fn, sparse_upto, tensor_value};

verus! {

/// Why a map encoding could not be built.
#[derive(Clone, Debug, PartialEq, Eq)]
pub enum MapEncodingError<K, V> {
    /// The keys or the pinned keys are invalid.
    Keys(EncodingError<K>),
    /// The values or the pinned values are invalid.
    Values(EncodingError<V>),
    /// The number of keys and the number of values differ.
    SizeMismatch(usize, usize),
}

/// Encodes layouts, maps from keys to values, as vectors of value positions
/// indexed by key position. Pinned pairs take the first positions of both.
#[derive(Debug)]
pub struct MapEncoding<K, V> {
    keys: Encoding<K>,
    values: Encoding<V>,
    pins: usize,
}

pub proof fn lemma_sparse_upto_in_range<T, F: Fn(Vec<T>) -> u64>(f: F, vals: Seq<T>, d: nat, k: nat)
    requires
        k <= power(vals.len(), d),
        vals.len() <= usize::MAX,
    ensures
        tuples_in_range(sparse_upto(f, vals, d, k), d, vals.len()),
    decreases k,
{
    if k > 0 {
        lemma_sparse_upto_in_range(f, vals, d, (k - 1) as nat);
        lemma_unfold((k - 1) as nat, vals.len(), d);
        let prev = sparse_upto(f, vals, d, (k - 1) as nat);
        let cur = sparse_upto(f, vals, d, k);
        assert forall|j: int| 0 <= j < cur.len() implies (#[trigger] cur[j]).0.len() == d && crate::indexes::digits_below(cur[j].0, vals.len()) by {
            if j < prev.len() {
                assert(cur[j] == prev[j]);
            }
        }
    }
}

impl<K: Copy + PartialEq, V: Copy + PartialEq> MapEncoding<K, V> {
    pub closed spec fn key_values(&self) -> Seq<K> {
        self.keys.values()
    }

    pub closed spec fn value_values(&self) -> Seq<V> {
        self.values.values()
    }

    pub closed spec fn pin_count(&self) -> nat {
        self.pins as nat
    }

    pub closed spec fn wf(&self) -> bool {
        &&& self.keys.values().len() == self.values.values().len()
        &&& distinct(self.keys.values())
        &&& distinct(self.values.values())
        &&& self.pins <= self.keys.values().len()
    }

    /// An encoding of `key_set` and `value_set`, with the pairs of `pinned`
    /// first, in order.
    pub fn new(key_set: Vec<K>, value_set: Vec<V>, pinned: Vec<(K, V)>) -> (r: Result<Self, MapEncodingError<K, V>>)
        requires
            eq_is_identity::<K>(),
            eq_is_identity::<V>(),
        ensures
            r is Ok <==> encoding_ok(pinned@.map_values(|p: (K, V)| p.0), key_set@) && encoding_ok(
                pinned@.map_values(|p: (K, V)| p.1),
                value_set@,
            ) && key_set.len() == value_set.len(),
            r matches Err(MapEncodingError::Keys(e)) ==> is_encoding_error(pinned@.map_values(|p: (K, V)| p.0), key_set@, e),
            r matches Err(MapEncodingError::Values(e)) ==> encoding_ok(pinned@.map_values(|p: (K, V)| p.0), key_set@)
                && is_encoding_error(pinned@.map_values(|p: (K, V)| p.1), value_set@, e),
            r matches Err(MapEncodingError::SizeMismatch(a, b)) ==> encoding_ok(pinned@.map_values(|p: (K, V)| p.0), key_set@)
                && encoding_ok(pinned@.map_values(|p: (K, V)| p.1), value_set@)
                && a == key_set.len() && b == value_set.len() && a != b,
            r matches Ok(e) ==> {
                &&& e.wf()
                &&& e.pin_count() == pinned.len()
                &&& e.key_values().take(pinned.len() as int) == pinned@.map_values(|p: (K, V)| p.0)
                &&& e.value_values().take(pinned.len() as int) == pinned@.map_values(|p: (K, V)| p.1)
                &&& e.key_values() == pinned@.map_values(|p: (K, V)| p.0) + missing(pinned@.map_values(|p: (K, V)| p.0), key_set@)
                &&& e.value_values() == pinned@.map_values(|p: (K, V)| p.1) + missing(pinned@.map_values(|p: (K, V)| p.1), value_set@)
            },
                {
        let mut pk: Vec<K> = Vec::new();
        let mut pv: Vec<V> = Vec::new();
        let mut i: usize = 0;
        while i < pinned.len()
            invariant
                i <= pinned.len(),
                pk@ == pinned@.take(i as int).map_values(|p: (K, V)| p.0),
                pv@ == pinned@.take(i as int).map_values(|p: (K, V)| p.1),
            decreases pinned.len() - i,
        {
            pk.push(pinned[i].0);
            pv.push(pinned[i].1);
            proof {
                assert(pinned@.take(i + 1).map_values(|p: (K, V)| p.0) =~= pinned@.take(i as int).map_values(|p: (K, V)| p.0).push(pinned@[i as int].0));
                assert(pinned@.take(i + 1).map_values(|p: (K, V)| p.1) =~= pinned@.take(i as int).map_values(|p: (K, V)| p.1).push(pinned@[i as int].1));
            }
            i += 1;
        }
        proof {
            assert(pinned@.take(pinned.len() as int) =~= pinned@);
        }
        let pins = pinned.len();
        let ghost pk0 = pk@;
        let ghost pv0 = pv@;
        let ghost ks = key_set@;
        let ghost vs = value_set@;
        let keys = match Encoding::new(pk, key_set) {
            Ok(e) => e,
            Err(e) => {
                return Err(MapEncodingError::Keys(e));
            },
        };
        let values = match Encoding::new(pv, value_set) {
            Ok(e) => e,
            Err(e) => {
                return Err(MapEncodingError::Values(e));
            },
        };
        proof {
            crate::compilation::encoding::lemma_encoding_len(pk0, ks);
            crate::compilation::encoding::lemma_encoding_len(pv0, vs);
        }
        if keys.len() != values.len() {
            return Err(MapEncodingError::SizeMismatch(keys.len(), values.len()));
        }
        proof {
            assert((pk0 + missing(pk0, ks)).take(pins as int) =~= pk0);
            assert((pv0 + missing(pv0, vs)).take(pins as int) =~= pv0);
        }
        Ok(MapEncoding { keys, values, pins })
    }

    /// The number of pinned pairs.
    pub fn pins(&self) -> (r: usize)
        ensures
            r == self.pin_count(),
    {
        self.pins
    }

    /// The layout as pairs: key at position `k` with the value at position `vec[k]`.
    pub fn decode(&self, vec: Vec<usize>) -> (r: Vec<(K, V)>)
        requires
            vec.len() <= self.key_values().len(),
            forall|i: int| 0 <= i < vec.len() ==> #[trigger] vec@[i] < self.value_values().len(),
        ensures
            r.len() == vec.len(),
            forall|i: int| 0 <= i < vec.len() ==> #[trigger] r@[i] == (self.key_values()[i], self.value_values()[vec@[i] as int]),
    {
        let mut r: Vec<(K, V)> = Vec::new();
        let mut i: usize = 0;
        while i < vec.len()
            invariant
                vec.len() <= self.key_values().len(),
                forall|i: int| 0 <= i < vec.len() ==> #[trigger] vec@[i] < self.value_values().len(),
                i <= vec.len(),
                r.len() == i,
                forall|j: int| 0 <= j < i ==> #[trigger] r@[j] == (self.key_values()[j], self.value_values()[vec@[j] as int]),
            decreases vec.len() - i,
        {
            let k = *self.keys.decode(i);
            let v = *self.values.decode(vec[i]);
            r.push((k, v));
            i += 1;
        }
        r
    }

    /// The layout given by `map`, which gives each key its value, as the
    /// position of the value of each key, in key order.
    pub fn encode<F: Fn(K) -> V>(&self, map: F) -> (r: Vec<usize>)
        requires
            eq_is_identity::<V>(),
            forall|k: K| #[trigger] map.requires((k,)),
            forall|k: K, v: V| #[trigger] map.ensures((k,), v) ==> self.value_values().contains(v),
        ensures
            r.len() == self.key_values().len(),
            forall|i: int| 0 <= i < r.len() ==> #[trigger] r@[i] < self.value_values().len() && map.ensures(
                (self.key_values()[i],),
                self.value_values()[r@[i] as int],
            ),
    {
        let mut r: Vec<usize> = Vec::new();
        let mut i: usize = 0;
        while i < self.keys.len()
            invariant
                eq_is_identity::<V>(),
                forall|k: K| #[trigger] map.requires((k,)),
                forall|k: K, v: V| #[trigger] map.ensures((k,), v) ==> self.value_values().contains(v),
                i <= self.key_values().len(),
                r.len() == i,
                forall|j: int| 0 <= j < i ==> #[trigger] r@[j] < self.value_values().len() && map.ensures(
                    (self.key_values()[j],),
                    self.value_values()[r@[j] as int],
                ),
            decreases self.key_values().len() - i,
        {
            let k = *self.keys.decode(i);
            let v = map(k);
            let e = self.values.encode(&v);
            r.push(e);
            i += 1;
        }
        r
    }

    /// The analyzer for layouts of this encoding: key costs from `wk`, value
    /// weights from `wv`, over tuples of `d`.
    pub fn compile_analyzer<FK: Fn(Vec<K>) -> u64, FV: Fn(Vec<V>) -> u64>(&self, d: usize, wk: FK, wv: FV) -> (r: CompiledNgramAnalyzer)
        requires
            self.wf(),
            d >= 1,
            self.pin_count() < self.key_values().len() < usize::MAX,
            power(self.key_values().len(), d as nat) <= usize::MAX,
            is_tuple_fn(wk),
            is_tuple_fn(wv),
        ensures
            r.wf(),
            r.side() == self.key_values().len(),
            r.arity() == d,
            r.costs().len() == power(self.key_values().len(), d as nat),
            forall|p: int| 0 <= p < r.costs().len() ==> #[trigger] r.costs()[p] == tensor_value(wk, self.key_values(), d as nat, p as nat),
            r.entries() == kept(
                sparse_upto(wv, self.value_values(), d as nat, power(self.value_values().len(), d as nat)),
                self.pin_count() as int,
                self.key_values().len() as int,
            ),
    {
        let dense = self.keys.encode_into_tensor(d, wk);
        let sparse = self.values.encode_into_sparse_tensor(d, wv);
        proof {
            lemma_sparse_upto_in_range(wv, self.value_values(), d as nat, power(self.value_values().len(), d as nat));
        }
        CompiledNgramAnalyzer::new(dense, sparse, self.pins, self.keys.len(), d)
    }
}

} // verus!
