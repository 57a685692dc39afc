use vstd::prelude::*;
use crate::expansion::{
    expand_first, expand_full, expands_nonempty, first_empty, flat_image, image, is_expansion,
    lemma_flat_image_len,
};
use crate::table::{
    add_windows, all_of_length, all_positive, bump, count_in, counts_positive, same_counts, table_total, unique_keys, keys_len, keys_unique, lemma_sum_over_one, lemma_total_nonneg,
    lemma_weighted_nonneg, lemma_weighted_take_le, lemma_weighted_take_step, one, sum_over, total,
    views, weighted, Table,
};
use crate::windows::{all_windows, copy_range, window_count, windows};

verus! {

/// Why n-grams could not be counted or expanded.
#[derive(Clone, Copy, Debug, PartialEq, Eq)]
pub enum NgramError {
    /// The text holds fewer characters than the n-gram length.
    InputTooShort,
    /// This character expands to nothing.
    EmptyExpansion(char),
}

/// All windows of length `n` of `s` but the last.
pub open spec fn body_windows(s: Seq<char>, n: nat) -> Seq<Seq<char>> {
    all_windows(s, n).drop_last()
}

/// The last window of length `n` of `s`, alone.
pub open spec fn tail_windows(s: Seq<char>, n: nat) -> Seq<Seq<char>> {
    let a = all_windows(s, n);
    a.subrange(a.len() - 1, a.len() as int)
}

/// For an n-gram `w`: the sum of `g` over its windows of length `k`.
pub open spec fn window_sum(k: nat, g: spec_fn(Seq<char>) -> int) -> spec_fn(Seq<char>) -> int {
    |w: Seq<char>| sum_over(all_windows(w, k), g)
}

/// For an n-gram `w`: `g` of its first `k` characters.
pub open spec fn prefix_value(k: nat, g: spec_fn(Seq<char>) -> int) -> spec_fn(Seq<char>) -> int {
    |w: Seq<char>| g(w.take(k as int))
}

/// The windows of length `n` of the expansion of `w` by `f`.
pub open spec fn expanded_windows<F: Fn(char) -> Vec<char>>(f: F, n: nat, w: Seq<char>) -> Seq<Seq<char>> {
    all_windows(flat_image(f, w), n)
}

/// For a final n-gram: `g` of the last window of its expansion.
pub open spec fn expanded_last<F: Fn(char) -> Vec<char>>(f: F, n: nat, g: spec_fn(Seq<char>) -> int) -> spec_fn(Seq<char>) -> int {
    |w: Seq<char>| g(expanded_windows(f, n, w).last())
}

/// For a final n-gram: the sum of `g` over every window of its expansion but the last.
pub open spec fn expanded_rest<F: Fn(char) -> Vec<char>>(f: F, n: nat, g: spec_fn(Seq<char>) -> int) -> spec_fn(Seq<char>) -> int {
    |w: Seq<char>| sum_over(expanded_windows(f, n, w).drop_last(), g)
}

/// For an inner n-gram: the sum of `g` over the windows of its expansion that
/// start within the image of its first character.
pub open spec fn expanded_first<F: Fn(char) -> Vec<char>>(f: F, n: nat, g: spec_fn(Seq<char>) -> int) -> spec_fn(Seq<char>) -> int {
    |w: Seq<char>| sum_over(expanded_windows(f, n, w).take(image(f, w[0]).len() as int), g)
}

/// Counts of the character n-grams of one or more texts. Each text adds its
/// last window to `tails` and every other window to `ngrams`, which keeps
/// shorter n-grams and expansions exact.
#[derive(Clone, Debug)]
pub struct NgramData {
    n: usize,
    ngrams: Table,
    tails: Table,
}

impl NgramData {
    /// The n-gram length.
    pub closed spec fn len_spec(&self) -> nat {
        self.n as nat
    }

    /// Every window but the last one of each text.
    pub closed spec fn inner(&self) -> Seq<(Vec<char>, u64)> {
        self.ngrams@
    }

    /// The last window of each text.
    pub closed spec fn tail(&self) -> Seq<(Vec<char>, u64)> {
        self.tails@
    }

    pub open spec fn total_count(&self) -> int {
        total(self.inner()) + total(self.tail())
    }

    pub closed spec fn wf(&self) -> bool {
        &&& self.n >= 1
        &&& keys_unique(self.ngrams@)
        &&& keys_unique(self.tails@)
        &&& keys_len(self.ngrams@, self.n as nat)
        &&& keys_len(self.tails@, self.n as nat)
        &&& counts_positive(self.ngrams@)
        &&& counts_positive(self.tails@)
        &&& total(self.ngrams@) + total(self.tails@) <= u64::MAX
    }

    /// How many counts taking n-grams of length `k` produces.
    pub open spec fn contracted_total(&self, k: nat) -> int {
        weighted(self.tail(), window_sum(k, one())) + total(self.inner())
    }

    /// How many counts expanding by `f` produces.
    pub open spec fn expanded_total<F: Fn(char) -> Vec<char>>(&self, f: F) -> int {
        weighted(self.tail(), expanded_rest(f, self.len_spec(), one())) + total(self.tail())
            + weighted(self.inner(), expanded_first(f, self.len_spec(), one()))
    }

    /// Every character of every stored n-gram expands to something.
    pub open spec fn expands_nonempty_all<F: Fn(char) -> Vec<char>>(&self, f: F) -> bool {
        &&& forall|i: int| 0 <= i < self.inner().len() ==> expands_nonempty(f, (#[trigger] self.inner()[i]).0@)
        &&& forall|i: int| 0 <= i < self.tail().len() ==> expands_nonempty(f, (#[trigger] self.tail()[i]).0@)
    }

    /// No counts, for n-grams of length `n`.
    pub fn empty(n: usize) -> (r: Self)
        requires
            n >= 1,
        ensures
            r.wf(),
            r.len_spec() == n,
            r.inner().len() == 0,
            r.tail().len() == 0,
    {
        NgramData { n, ngrams: Vec::new(), tails: Vec::new() }
    }

    /// The n-gram length, the inner windows and the final windows.
    pub fn into_parts(self) -> (r: (usize, Table, Table))
        ensures
            r.0 == self.len_spec(),
            r.1@ == self.inner(),
            r.2@ == self.tail(),
    {
        (self.n, self.ngrams, self.tails)
    }

    /// Counts from their parts, where they make valid counts: a positive
    /// length, every n-gram of that length and in one entry of its table, and
    /// a total that fits in a `u64`.
    pub fn from_parts(n: usize, ngrams: Table, tails: Table) -> (r: Option<NgramData>)
        ensures
            r is Some <==> n >= 1 && keys_unique(ngrams@) && keys_unique(tails@) && keys_len(ngrams@, n as nat)
                && keys_len(tails@, n as nat) && counts_positive(ngrams@) && counts_positive(tails@) && total(ngrams@)
                + total(tails@) <= u64::MAX,
            r matches Some(d) ==> d.wf() && d.len_spec() == n && d.inner() == ngrams@ && d.tail() == tails@,
    {
        if n == 0 || !unique_keys(&ngrams) || !unique_keys(&tails) || !all_of_length(&ngrams, n) || !all_of_length(&tails, n)
            || !all_positive(&ngrams) || !all_positive(&tails) {
            return None;
        }
        let a = table_total(&ngrams);
        let b = table_total(&tails);
        if a > u64::MAX as u128 || b > u64::MAX as u128 - a {
            return None;
        }
        Some(NgramData { n, ngrams, tails })
    }

    /// The sum of all counts.
    pub fn count_total(&self) -> (r: u64)
        requires
            self.wf(),
        ensures
            r == self.total_count(),
    {
        (table_total(&self.ngrams) + table_total(&self.tails)) as u64
    }

    /// The n-gram length.
    pub fn len(&self) -> (r: usize)
        ensures
            r == self.len_spec(),
    {
        self.n
    }

    /// The counts of the n-grams of length `n` of `text`.
    pub fn new(n: usize, text: &Vec<char>) -> (r: Result<Self, NgramError>)
        requires
            n >= 1,
        ensures
            text.len() < n <==> r == Err::<Self, NgramError>(NgramError::InputTooShort),
            r matches Ok(d) ==> {
                &&& d.wf()
                &&& d.len_spec() == n
                &&& forall|g: spec_fn(Seq<char>) -> int| #[trigger] weighted(d.inner(), g) == sum_over(body_windows(text@, n as nat), g)
                &&& forall|g: spec_fn(Seq<char>) -> int| #[trigger] weighted(d.tail(), g) == sum_over(tail_windows(text@, n as nat), g)
            },
    {
        let mut d = NgramData::empty(n);
        match d.add(text) {
            Ok(()) => Ok(d),
            Err(e) => Err(e),
        }
    }

    /// Counts the n-grams of `text` on top of the counts already held.
    pub fn add(&mut self, text: &Vec<char>) -> (r: Result<(), NgramError>)
        requires
            old(self).wf(),
            old(self).total_count() + text.len() <= u64::MAX,
        ensures
            final(self).wf(),
            final(self).len_spec() == old(self).len_spec(),
            text.len() < old(self).len_spec() <==> r == Err::<(), NgramError>(NgramError::InputTooShort),
            r is Err ==> *final(self) == *old(self),
            r is Ok ==> forall|g: spec_fn(Seq<char>) -> int| #[trigger] weighted(final(self).inner(), g) == weighted(old(self).inner(), g)
                + sum_over(body_windows(text@, old(self).len_spec()), g),
            r is Ok ==> forall|g: spec_fn(Seq<char>) -> int| #[trigger] weighted(final(self).tail(), g) == weighted(old(self).tail(), g)
                + sum_over(tail_windows(text@, old(self).len_spec()), g),
    {
        if text.len() < self.n {
            return Err(NgramError::InputTooShort);
        }
        let ws = windows(text, self.n);
        let m = ws.len();
        let ghost n = self.n as nat;
        proof {
            assert(views(ws@) =~= all_windows(text@, n));
            lemma_total_nonneg(self.ngrams@);
            lemma_total_nonneg(self.tails@);
        }
        add_windows(&mut self.ngrams, &ws, 0, m - 1, 1);
        add_windows(&mut self.tails, &ws, m - 1, m, 1);
        proof {
            assert(views(ws@).subrange(0, m - 1) =~= body_windows(text@, n));
            assert(views(ws@).subrange(m - 1, m as int) =~= tail_windows(text@, n));
            lemma_sum_over_one(body_windows(text@, n));
            lemma_sum_over_one(tail_windows(text@, n));
            assert(forall|j: int| 0 <= j < m ==> (#[trigger] ws@[j])@.len() == n);
            assert(keys_len(self.ngrams@, n));
            assert(keys_len(self.tails@, n));
        }
        Ok(())
    }

    /// The counts of every window of every text: `ngrams` and `tails` merged.
    pub fn into_inner(self) -> (r: Table)
        requires
            self.wf(),
        ensures
            keys_unique(r@),
            keys_len(r@, self.len_spec()),
            counts_positive(r@),
            forall|g: spec_fn(Seq<char>) -> int| #[trigger] weighted(r@, g) == weighted(self.inner(), g) + weighted(self.tail(), g),
    {
        let NgramData { n, ngrams, tails } = self;
        let mut out = ngrams;
        let ghost body = out@;
        let mut i: usize = 0;
        proof {
            lemma_total_nonneg(tails@);
        }
        while i < tails.len()
            invariant
                i <= tails.len(),
                keys_unique(out@),
                keys_len(out@, n as nat),
                keys_len(tails@, n as nat),
                counts_positive(out@),
                counts_positive(tails@),
                total(body) + total(tails@) <= u64::MAX,
                forall|g: spec_fn(Seq<char>) -> int| #[trigger] weighted(out@, g) == weighted(body, g) + weighted(
                    tails@.take(i as int),
                    g,
                ),
            decreases tails.len() - i,
        {
            proof {
                lemma_weighted_take_step(tails@, i as int, one());
                lemma_weighted_take_le(tails@, i + 1, one());
            }
            let k = tails[i].0.clone();
            let c = tails[i].1;
            let ghost before = out@;
            bump(&mut out, k, c);
            proof {
                assert forall|g: spec_fn(Seq<char>) -> int| #[trigger] weighted(out@, g) == weighted(body, g) + weighted(
                    tails@.take(i + 1),
                    g,
                ) by {
                    lemma_weighted_take_step(tails@, i as int, g);
                }
            }
            i += 1;
        }
        proof {
            assert(tails@.take(tails.len() as int) =~= tails@);
        }
        out
    }

    /// The counts of the n-grams of length `k`: every window of length `k` of
    /// each final n-gram, and the first `k` characters of every other one.
    pub fn ngrams(&self, k: usize) -> (r: Table)
        requires
            self.wf(),
            1 <= k <= self.len_spec(),
            self.contracted_total(k as nat) <= u64::MAX,
        ensures
            keys_unique(r@),
            keys_len(r@, k as nat),
            counts_positive(r@),
            forall|g: spec_fn(Seq<char>) -> int| #[trigger] weighted(r@, g) == weighted(self.tail(), window_sum(k as nat, g))
                + weighted(self.inner(), prefix_value(k as nat, g)),
    {
        let mut out: Table = Vec::new();
        let ghost kk = k as nat;
        proof {
            assert forall|w: Seq<char>| #[trigger] window_sum(kk, one())(w) >= 0 by {
                lemma_sum_over_one(all_windows(w, kk));
            }
            assert forall|w: Seq<char>| #[trigger] prefix_value(kk, one())(w) >= 0 by {}
            lemma_weighted_nonneg(self.ngrams@, prefix_value(kk, one()));
            lemma_weighted_ext_one(self.ngrams@, kk);
        }
        let mut i: usize = 0;
        while i < self.tails.len()
            invariant
                self.wf(),
                1 <= k <= self.n,
                kk == k,
                self.contracted_total(kk) <= u64::MAX,
                total(self.ngrams@) == weighted(self.ngrams@, prefix_value(kk, one())),
                forall|w: Seq<char>| #[trigger] window_sum(kk, one())(w) >= 0,
                i <= self.tails.len(),
                keys_unique(out@),
                keys_len(out@, kk),
                counts_positive(out@),
                forall|g: spec_fn(Seq<char>) -> int| #[trigger] weighted(out@, g) == weighted(
                    self.tails@.take(i as int),
                    window_sum(kk, g),
                ),
            decreases self.tails.len() - i,
        {
            let key = &self.tails[i].0;
            let c = self.tails[i].1;
            let ws = windows(key, k);
            proof {
                assert(views(ws@) =~= all_windows(key@, kk));
                lemma_sum_over_one(all_windows(key@, kk));
                lemma_weighted_take_step(self.tails@, i as int, window_sum(kk, one()));
                lemma_weighted_take_le(self.tails@, i + 1, window_sum(kk, one()));
                lemma_total_nonneg(self.ngrams@);
                assert(total(out@) == weighted(self.tails@.take(i as int), window_sum(kk, one())));
            }
            let ghost before = out@;
            add_windows(&mut out, &ws, 0, ws.len(), c);
            proof {
                assert(views(ws@).subrange(0, ws.len() as int) =~= all_windows(key@, kk));
                assert forall|g: spec_fn(Seq<char>) -> int| #[trigger] weighted(out@, g) == weighted(
                    self.tails@.take(i + 1),
                    window_sum(kk, g),
                ) by {
                    lemma_weighted_take_step(self.tails@, i as int, window_sum(kk, g));
                }
                assert(forall|j: int| 0 <= j < ws.len() ==> (#[trigger] ws@[j])@.len() == kk);
            }
            i += 1;
        }
        proof {
            assert(self.tails@.take(self.tails.len() as int) =~= self.tails@);
        }
        let ghost from_tails = out@;
        let mut i: usize = 0;
        while i < self.ngrams.len()
            invariant
                self.wf(),
                1 <= k <= self.n,
                kk == k,
                self.contracted_total(kk) <= u64::MAX,
                total(self.ngrams@) == weighted(self.ngrams@, prefix_value(kk, one())),
                forall|w: Seq<char>| #[trigger] prefix_value(kk, one())(w) >= 0,
                total(from_tails) == weighted(self.tails@, window_sum(kk, one())),
                i <= self.ngrams.len(),
                keys_unique(out@),
                keys_len(out@, kk),
                counts_positive(out@),
                forall|g: spec_fn(Seq<char>) -> int| #[trigger] weighted(out@, g) == weighted(from_tails, g) + weighted(
                    self.ngrams@.take(i as int),
                    prefix_value(kk, g),
                ),
            decreases self.ngrams.len() - i,
        {
            let key = &self.ngrams[i].0;
            let c = self.ngrams[i].1;
            proof {
                assert(self.ngrams@[i as int].0@.len() == self.n);
                lemma_weighted_take_step(self.ngrams@, i as int, prefix_value(kk, one()));
                lemma_weighted_take_le(self.ngrams@, i + 1, prefix_value(kk, one()));
            }
            let prefix = copy_range(key, 0, k);
            proof {
                assert(total(out@) == weighted(out@, one()));
                assert(weighted(out@, one()) == weighted(from_tails, one()) + weighted(self.ngrams@.take(i as int), prefix_value(kk, one())));
                assert(prefix_value(kk, one())(self.ngrams@[i as int].0@) == 1);
                assert(weighted(self.ngrams@.take(i + 1), prefix_value(kk, one())) == weighted(self.ngrams@.take(i as int), prefix_value(kk, one())) + c * 1);
                lemma_weighted_take_le(self.ngrams@, i + 1, prefix_value(kk, one()));
                assert(total(out@) + c <= u64::MAX);
            }
            bump(&mut out, prefix, c);
            proof {
                assert(prefix@ =~= key@.take(kk as int));
                assert forall|g: spec_fn(Seq<char>) -> int| #[trigger] weighted(out@, g) == weighted(from_tails, g) + weighted(
                    self.ngrams@.take(i + 1),
                    prefix_value(kk, g),
                ) by {
                    lemma_weighted_take_step(self.ngrams@, i as int, prefix_value(kk, g));
                }
            }
            i += 1;
        }
        proof {
            assert(self.ngrams@.take(self.ngrams.len() as int) =~= self.ngrams@);
        }
        out
    }

    /// The counts of the texts obtained by replacing every character `c` with
    /// `f(c)`, computed from the counts alone.
    pub fn expand<F: Fn(char) -> Vec<char>>(&self, f: F) -> (r: Result<NgramData, NgramError>)
        requires
            self.wf(),
            is_expansion(f),
            self.expanded_total(f) <= u64::MAX,
        ensures
            r is Ok <==> self.expands_nonempty_all(f),
            r matches Err(e) ==> e matches NgramError::EmptyExpansion(c) && image(f, c).len() == 0,
            r matches Ok(d) ==> {
                &&& d.wf()
                &&& d.len_spec() == self.len_spec()
                &&& forall|g: spec_fn(Seq<char>) -> int| #[trigger] weighted(d.tail(), g) == weighted(self.tail(), expanded_last(f, self.len_spec(), g))
                &&& forall|g: spec_fn(Seq<char>) -> int| #[trigger] weighted(d.inner(), g) == weighted(self.tail(), expanded_rest(f, self.len_spec(), g))
                    + weighted(self.inner(), expanded_first(f, self.len_spec(), g))
            },
    {
        let n = self.n;
        let ghost nn = n as nat;
        let mut tails: Table = Vec::new();
        let mut ngrams: Table = Vec::new();
        proof {
            assert forall|w: Seq<char>| #[trigger] expanded_rest(f, nn, one())(w) >= 0 by {
                lemma_sum_over_one(expanded_windows(f, nn, w).drop_last());
            }
            assert forall|w: Seq<char>| #[trigger] expanded_first(f, nn, one())(w) >= 0 by {
                let e = expanded_windows(f, nn, w);
                lemma_sum_over_one(e.take(image(f, w[0]).len() as int));
            }
            assert forall|w: Seq<char>| #[trigger] one()(w) >= 0 by {}
            lemma_weighted_nonneg(self.ngrams@, expanded_first(f, nn, one()));
            lemma_weighted_nonneg(self.tails@, expanded_rest(f, nn, one()));
            lemma_weighted_nonneg(self.tails@, one());
        }
        let mut i: usize = 0;
        while i < self.tails.len()
            invariant
                self.wf(),
                n == self.n,
                nn == n,
                is_expansion(f),
                self.expanded_total(f) <= u64::MAX,
                forall|w: Seq<char>| #[trigger] expanded_rest(f, nn, one())(w) >= 0,
                forall|w: Seq<char>| #[trigger] one()(w) >= 0,
                weighted(self.ngrams@, expanded_first(f, nn, one())) >= 0,
                weighted(self.tails@, expanded_rest(f, nn, one())) >= 0,
                i <= self.tails.len(),
                forall|j: int| 0 <= j < i ==> expands_nonempty(f, (#[trigger] self.tails@[j]).0@),
                keys_unique(tails@),
                keys_unique(ngrams@),
                keys_len(tails@, nn),
                keys_len(ngrams@, nn),
                counts_positive(tails@),
                counts_positive(ngrams@),
                total(tails@) == weighted(self.tails@.take(i as int), one()),
                total(ngrams@) == weighted(self.tails@.take(i as int), expanded_rest(f, nn, one())),
                forall|g: spec_fn(Seq<char>) -> int| #[trigger] weighted(tails@, g) == weighted(
                    self.tails@.take(i as int),
                    expanded_last(f, nn, g),
                ),
                forall|g: spec_fn(Seq<char>) -> int| #[trigger] weighted(ngrams@, g) == weighted(
                    self.tails@.take(i as int),
                    expanded_rest(f, nn, g),
                ),
            decreases self.tails.len() - i,
        {
            let key = &self.tails[i].0;
            let c = self.tails[i].1;
            match first_empty(key, &f) {
                Some(ch) => {
                    proof {
                        let j = choose|j: int| 0 <= j < key@.len() && key@[j] == ch;
                        assert(!expands_nonempty(f, key@)) by {
                            assert(image(f, key@[j]).len() == 0);
                        }
                        assert(self.tail()[i as int] == self.tails@[i as int]);
                    }
                    return Err(NgramError::EmptyExpansion(ch));
                },
                None => {},
            }
            proof {
                assert(key@.len() == nn);
                lemma_flat_image_len(f, key@);
            }
            let ws = expand_full(key, &f);
            let m = ws.len();
            proof {
                assert(views(ws@) =~= expanded_windows(f, nn, key@));
                assert(m >= 1);
                lemma_sum_over_one(expanded_windows(f, nn, key@).drop_last());
                lemma_weighted_take_step(self.tails@, i as int, one());
                lemma_weighted_take_step(self.tails@, i as int, expanded_rest(f, nn, one()));
                lemma_weighted_take_le(self.tails@, i + 1, one());
                lemma_weighted_take_le(self.tails@, i + 1, expanded_rest(f, nn, one()));
                let e = expanded_windows(f, nn, key@);
                assert forall|j: int| 0 <= j < m implies (#[trigger] ws@[j])@.len() == nn by {
                    assert(views(ws@)[j] == ws@[j]@);
                }
                assert(one()(key@) == 1);
                lemma_total_nonneg(self.tails@);
                assert(expanded_rest(f, nn, one())(key@) == m - 1);
                assert(total(tails@) + c * 1 <= total(self.tails@));
                assert(total(ngrams@) + c * (m - 1) <= weighted(self.tails@, expanded_rest(f, nn, one())));
            }
            add_windows(&mut tails, &ws, m - 1, m, c);
            add_windows(&mut ngrams, &ws, 0, m - 1, c);
            proof {
                let e = expanded_windows(f, nn, key@);
                assert(views(ws@).subrange(m - 1, m as int) =~= seq![e.last()]);
                assert(views(ws@).subrange(0, m - 1) =~= e.drop_last());
                assert(seq![e.last()].drop_last() =~= Seq::<Seq<char>>::empty());
                assert forall|g: spec_fn(Seq<char>) -> int| #[trigger] weighted(tails@, g) == weighted(
                    self.tails@.take(i + 1),
                    expanded_last(f, nn, g),
                ) by {
                    lemma_weighted_take_step(self.tails@, i as int, expanded_last(f, nn, g));
                    crate::table::lemma_sum_over_single(e.last(), g);
                }
                assert forall|g: spec_fn(Seq<char>) -> int| #[trigger] weighted(ngrams@, g) == weighted(
                    self.tails@.take(i + 1),
                    expanded_rest(f, nn, g),
                ) by {
                    lemma_weighted_take_step(self.tails@, i as int, expanded_rest(f, nn, g));
                }
                crate::table::lemma_sum_over_single(e.last(), one());
            }
            i += 1;
        }
        proof {
            assert(self.tails@.take(self.tails.len() as int) =~= self.tails@);
        }
        let ghost from_tails = ngrams@;
        let mut i: usize = 0;
        while i < self.ngrams.len()
            invariant
                self.wf(),
                n == self.n,
                nn == n,
                is_expansion(f),
                self.expanded_total(f) <= u64::MAX,
                forall|w: Seq<char>| #[trigger] expanded_first(f, nn, one())(w) >= 0,
                forall|j: int| 0 <= j < self.tails.len() ==> expands_nonempty(f, (#[trigger] self.tails@[j]).0@),
                i <= self.ngrams.len(),
                forall|j: int| 0 <= j < i ==> expands_nonempty(f, (#[trigger] self.ngrams@[j]).0@),
                keys_unique(tails@),
                keys_unique(ngrams@),
                keys_len(tails@, nn),
                keys_len(ngrams@, nn),
                counts_positive(tails@),
                counts_positive(ngrams@),
                total(tails@) == weighted(self.tails@, one()),
                total(from_tails) == weighted(self.tails@, expanded_rest(f, nn, one())),
                total(ngrams@) == total(from_tails) + weighted(self.ngrams@.take(i as int), expanded_first(f, nn, one())),
                forall|g: spec_fn(Seq<char>) -> int| #[trigger] weighted(tails@, g) == weighted(
                    self.tails@,
                    expanded_last(f, nn, g),
                ),
                forall|g: spec_fn(Seq<char>) -> int| #[trigger] weighted(ngrams@, g) == weighted(from_tails, g) + weighted(
                    self.ngrams@.take(i as int),
                    expanded_first(f, nn, g),
                ),
            decreases self.ngrams.len() - i,
        {
            let key = &self.ngrams[i].0;
            let c = self.ngrams[i].1;
            match first_empty(key, &f) {
                Some(ch) => {
                    proof {
                        let j = choose|j: int| 0 <= j < key@.len() && key@[j] == ch;
                        assert(!expands_nonempty(f, key@)) by {
                            assert(image(f, key@[j]).len() == 0);
                        }
                        assert(self.inner()[i as int] == self.ngrams@[i as int]);
                    }
                    return Err(NgramError::EmptyExpansion(ch));
                },
                None => {},
            }
            proof {
                assert(key@.len() == nn);
                lemma_flat_image_len(f, key@);
            }
            let ws = expand_first(key, &f);
            let m = ws.len();
            proof {
                let e = expanded_windows(f, nn, key@);
                assert(views(ws@) =~= e.take(image(f, key@[0]).len() as int));
                lemma_sum_over_one(e.take(image(f, key@[0]).len() as int));
                lemma_weighted_take_step(self.ngrams@, i as int, expanded_first(f, nn, one()));
                lemma_weighted_take_le(self.ngrams@, i + 1, expanded_first(f, nn, one()));
                assert forall|j: int| 0 <= j < m implies (#[trigger] ws@[j])@.len() == nn by {
                    assert(views(ws@)[j] == ws@[j]@);
                }
                assert(expanded_first(f, nn, one())(key@) == m);
                lemma_total_nonneg(self.tails@);
                assert(total(ngrams@) + c * m <= total(from_tails) + weighted(self.ngrams@, expanded_first(f, nn, one())));
            }
            add_windows(&mut ngrams, &ws, 0, m, c);
            proof {
                let e = expanded_windows(f, nn, key@);
                assert(views(ws@).subrange(0, m as int) =~= e.take(image(f, key@[0]).len() as int));
                assert forall|g: spec_fn(Seq<char>) -> int| #[trigger] weighted(ngrams@, g) == weighted(from_tails, g) + weighted(
                    self.ngrams@.take(i + 1),
                    expanded_first(f, nn, g),
                ) by {
                    lemma_weighted_take_step(self.ngrams@, i as int, expanded_first(f, nn, g));
                }
            }
            i += 1;
        }
        proof {
            assert(self.ngrams@.take(self.ngrams.len() as int) =~= self.ngrams@);
        }
        Ok(NgramData { n, ngrams, tails })
    }
}

/// Two n-gram counts are equal when their lengths are and every n-gram has
/// the same count in both, among the inner windows and among the final ones.
pub open spec fn same_data(a: &NgramData, b: &NgramData) -> bool {
    &&& a.len_spec() == b.len_spec()
    &&& forall|k: Seq<char>| #[trigger] count_in(a.inner(), k) == count_in(b.inner(), k)
    &&& forall|k: Seq<char>| #[trigger] count_in(a.tail(), k) == count_in(b.tail(), k)
}

impl PartialEq for NgramData {
    fn eq(&self, other: &NgramData) -> (r: bool)
        ensures
            r == same_data(self, other),
    {
        if self.n != other.n {
            return false;
        }
        let a = same_counts(&self.ngrams, &other.ngrams);
        let b = same_counts(&self.tails, &other.tails);
        proof {
            assert(self.inner() == self.ngrams@);
            assert(other.inner() == other.ngrams@);
            assert(self.tail() == self.tails@);
            assert(other.tail() == other.tails@);
            if !a {
                let k = choose|k: Seq<char>| count_in(self.ngrams@, k) != count_in(other.ngrams@, k);
                assert(count_in(self.inner(), k) != count_in(other.inner(), k));
            }
            if !b {
                let k = choose|k: Seq<char>| count_in(self.tails@, k) != count_in(other.tails@, k);
                assert(count_in(self.tail(), k) != count_in(other.tail(), k));
            }
        }
        a && b
    }
}

impl vstd::std_specs::cmp::PartialEqSpecImpl for NgramData {
    open spec fn obeys_eq_spec() -> bool {
        true
    }

    open spec fn eq_spec(&self, other: &NgramData) -> bool {
        same_data(self, other)
    }
}

proof fn lemma_weighted_ext_one(t: Seq<(Vec<char>, u64)>, k: nat)
    ensures
        total(t) == weighted(t, prefix_value(k, one())),
{
    crate::table::lemma_weighted_ext(t, one(), prefix_value(k, one()));
}

} // verus!

verus! {

pub proof fn lemma_flat_identity<F: Fn(char) -> Vec<char>>(f: F, w: Seq<char>)
    requires
        forall|c: char| #[trigger] image(f, c) == seq![c],
    ensures
        flat_image(f, w) == w,
    decreases w.len(),
{
    if w.len() > 0 {
        lemma_flat_identity(f, w.drop_last());
        assert(image(f, w.last()) == seq![w.last()]);
        assert(w.drop_last() + seq![w.last()] =~= w);
    } else {
        assert(w =~= Seq::<char>::empty());
    }
}

proof fn lemma_weighted_zero(t: Seq<(Vec<char>, u64)>, g: spec_fn(Seq<char>) -> int)
    requires
        forall|i: int| 0 <= i < t.len() ==> g((#[trigger] t[i]).0@) == 0,
    ensures
        weighted(t, g) == 0,
    decreases t.len(),
{
    if t.len() > 0 {
        let p = t.drop_last();
        assert forall|i: int| 0 <= i < p.len() implies g((#[trigger] p[i]).0@) == 0 by {
            assert(p[i] == t[i]);
        }
        lemma_weighted_zero(p, g);
        assert(g(t[t.len() - 1].0@) == 0);
    }
}

/// Expanding every character to itself changes no count: what `expand`
/// gives for the final windows and for the others is what `self` holds.
pub proof fn law_identity_expansion<F: Fn(char) -> Vec<char>>(d: NgramData, f: F)
    requires
        d.wf(),
        forall|c: char| #[trigger] image(f, c) == seq![c],
    ensures
        forall|g: spec_fn(Seq<char>) -> int| #[trigger] weighted(d.tail(), expanded_last(f, d.len_spec(), g)) == weighted(d.tail(), g),
        forall|g: spec_fn(Seq<char>) -> int| #[trigger] weighted(d.tail(), expanded_rest(f, d.len_spec(), g))
            + weighted(d.inner(), expanded_first(f, d.len_spec(), g)) == weighted(d.inner(), g),
{
    let n = d.len_spec();
    assert forall|w: Seq<char>| w.len() == n implies #[trigger] expanded_windows(f, n, w) == seq![w] by {
        lemma_flat_identity(f, w);
        assert(w.subrange(0, n as int) =~= w);
        assert(window_count(w, n) == 1);
        assert(expanded_windows(f, n, w) =~= seq![w]);
    }
    assert forall|g: spec_fn(Seq<char>) -> int| #[trigger] weighted(d.tail(), expanded_last(f, n, g)) == weighted(d.tail(), g) by {
        assert forall|i: int| 0 <= i < d.tail().len() implies expanded_last(f, n, g)((#[trigger] d.tail()[i]).0@) == g(d.tail()[i].0@) by {
            let w = d.tail()[i].0@;
            assert(w.len() == n);
            assert(expanded_windows(f, n, w) == seq![w]);
        }
        crate::table::lemma_weighted_ext(d.tail(), expanded_last(f, n, g), g);
    }
    assert forall|g: spec_fn(Seq<char>) -> int| #[trigger] weighted(d.tail(), expanded_rest(f, n, g))
        + weighted(d.inner(), expanded_first(f, n, g)) == weighted(d.inner(), g) by {
        assert forall|i: int| 0 <= i < d.tail().len() implies expanded_rest(f, n, g)((#[trigger] d.tail()[i]).0@) == 0 by {
            let w = d.tail()[i].0@;
            assert(w.len() == n);
            assert(expanded_windows(f, n, w) == seq![w]);
            assert(seq![w].drop_last() =~= Seq::<Seq<char>>::empty());
        }
        lemma_weighted_zero(d.tail(), expanded_rest(f, n, g));
        assert forall|i: int| 0 <= i < d.inner().len() implies expanded_first(f, n, g)((#[trigger] d.inner()[i]).0@) == g(d.inner()[i].0@) by {
            let w = d.inner()[i].0@;
            assert(w.len() == n);
            assert(expanded_windows(f, n, w) == seq![w]);
            assert(image(f, w[0]) == seq![w[0]]);
            assert(seq![w].take(1) =~= seq![w]);
            crate::table::lemma_sum_over_single(w, g);
        }
        crate::table::lemma_weighted_ext(d.inner(), expanded_first(f, n, g), g);
    }
}

/// Counting n-grams of length `n` of `s` and then taking those of length `k`
/// gives the counts of counting n-grams of length `k` directly: for every
/// `g`, what `ngrams(k)` gives on `new(n, s)` is what `into_inner` gives on
/// `new(k, s)`.
pub proof fn law_contraction(s: Seq<char>, n: nat, k: nat)
    requires
        1 <= k <= n <= s.len(),
    ensures
        forall|g: spec_fn(Seq<char>) -> int| #[trigger] contracted(s, n, k, g) == sum_over(body_windows(s, k), g) + sum_over(tail_windows(s, k), g),
{
    let l = s.len();
    let wk = all_windows(s, k);
    let wn = all_windows(s, n);
    let m = (l - n) as int;
    assert forall|g: spec_fn(Seq<char>) -> int| #[trigger] contracted(s, n, k, g) == sum_over(body_windows(s, k), g) + sum_over(tail_windows(s, k), g) by {
        // the inner windows' prefixes are the first windows of length k
        let pre = body_windows(s, n);
        assert(pre.len() == m);
        let mapped = pre.map_values(|w: Seq<char>| w.take(k as int));
        assert forall|i: int| 0 <= i < m implies #[trigger] mapped[i] == wk.take(m)[i] by {
            assert(pre[i] == wn[i]);
            assert(wn[i].take(k as int) =~= s.subrange(i, i + k));
        }
        assert(mapped =~= wk.take(m));
        lemma_sum_over_map(pre, k, g);
        // the last window's windows are the remaining windows of length k
        let last = wn[m];
        assert(tail_windows(s, n) =~= seq![last]);
        crate::table::lemma_sum_over_single(last, window_sum(k, g));
        assert(last =~= s.subrange(m, m + n));
        assert forall|j: int| 0 <= j < all_windows(last, k).len() implies #[trigger] all_windows(last, k)[j] == wk.skip(m)[j] by {
            assert(last.subrange(j, j + k) =~= s.subrange(m + j, m + j + k));
        }
        assert(all_windows(last, k) =~= wk.skip(m));
        crate::table::lemma_sum_over_append(wk.take(m), wk.skip(m), g);
        assert(wk.take(m) + wk.skip(m) =~= wk);
        assert(body_windows(s, k) + tail_windows(s, k) =~= wk);
        crate::table::lemma_sum_over_append(body_windows(s, k), tail_windows(s, k), g);
    }
}

/// What `ngrams(k)` gives for `g` on the counts of `new(n, s)`.
pub open spec fn contracted(s: Seq<char>, n: nat, k: nat, g: spec_fn(Seq<char>) -> int) -> int {
    sum_over(tail_windows(s, n), window_sum(k, g)) + sum_over(body_windows(s, n), prefix_value(k, g))
}

proof fn lemma_sum_over_map(ws: Seq<Seq<char>>, k: nat, g: spec_fn(Seq<char>) -> int)
    ensures
        sum_over(ws, prefix_value(k, g)) == sum_over(ws.map_values(|w: Seq<char>| w.take(k as int)), g),
    decreases ws.len(),
{
    if ws.len() > 0 {
        lemma_sum_over_map(ws.drop_last(), k, g);
        assert(ws.map_values(|w: Seq<char>| w.take(k as int)).drop_last() =~= ws.drop_last().map_values(|w: Seq<char>| w.take(k as int)));
    }
}

} // verus!

verus! {

/// Where the expansion of `s[x]` starts in the expansion of `s`.
pub open spec fn offset<F: Fn(char) -> Vec<char>>(f: F, s: Seq<char>, x: int) -> int {
    flat_image(f, s.take(x)).len() as int
}

pub proof fn lemma_flat_append<F: Fn(char) -> Vec<char>>(f: F, a: Seq<char>, b: Seq<char>)
    ensures
        flat_image(f, a + b) == flat_image(f, a) + flat_image(f, b),
    decreases b.len(),
{
    if b.len() == 0 {
        assert(a + b =~= a);
        assert(flat_image(f, a) + flat_image(f, b) =~= flat_image(f, a));
    } else {
        assert((a + b).drop_last() =~= a + b.drop_last());
        lemma_flat_append(f, a, b.drop_last());
        assert(flat_image(f, a) + flat_image(f, b) =~= flat_image(f, a) + flat_image(f, b.drop_last()) + image(f, b.last()));
    }
}

/// The expansion of `s[x..y]` is the part of the expansion of `s` between
/// their offsets.
pub proof fn lemma_flat_subrange<F: Fn(char) -> Vec<char>>(f: F, s: Seq<char>, x: int, y: int)
    requires
        0 <= x <= y <= s.len(),
    ensures
        0 <= offset(f, s, x) <= offset(f, s, y) <= flat_image(f, s).len(),
        flat_image(f, s.subrange(x, y)) == flat_image(f, s).subrange(offset(f, s, x), offset(f, s, y)),
{
    lemma_flat_append(f, s.take(x), s.subrange(x, y));
    assert(s.take(x) + s.subrange(x, y) =~= s.take(y));
    lemma_flat_append(f, s.take(y), s.skip(y));
    assert(s.take(y) + s.skip(y) =~= s);
    assert(flat_image(f, s.subrange(x, y)) =~= flat_image(f, s).subrange(offset(f, s, x), offset(f, s, y)));
}

pub proof fn lemma_offset_step<F: Fn(char) -> Vec<char>>(f: F, s: Seq<char>, x: int)
    requires
        0 <= x < s.len(),
    ensures
        offset(f, s, x + 1) == offset(f, s, x) + image(f, s[x]).len(),
{
    assert(s.take(x + 1).drop_last() =~= s.take(x));
}

pub proof fn lemma_offset_gap<F: Fn(char) -> Vec<char>>(f: F, s: Seq<char>, x: int, y: int)
    requires
        0 <= x <= y <= s.len(),
        expands_nonempty(f, s),
    ensures
        offset(f, s, y) - offset(f, s, x) >= y - x,
    decreases y - x,
{
    if x < y {
        lemma_offset_gap(f, s, x, y - 1);
        lemma_offset_step(f, s, y - 1);
        assert(image(f, s[y - 1]).len() > 0);
    }
}

/// What `expand` then `into_inner` gives for `g` on the counts of `new(n, s)`.
pub open spec fn expanded_counts<F: Fn(char) -> Vec<char>>(f: F, s: Seq<char>, n: nat, g: spec_fn(Seq<char>) -> int) -> int {
    sum_over(tail_windows(s, n), expanded_last(f, n, g)) + sum_over(tail_windows(s, n), expanded_rest(f, n, g))
        + sum_over(body_windows(s, n), expanded_first(f, n, g))
}

proof fn lemma_inner_windows<F: Fn(char) -> Vec<char>>(f: F, s: Seq<char>, n: nat, g: spec_fn(Seq<char>) -> int, p: int)
    requires
        1 <= n <= s.len(),
        expands_nonempty(f, s),
        0 <= p <= s.len() - n,
    ensures
        sum_over(body_windows(s, n).take(p), expanded_first(f, n, g)) == sum_over(
            all_windows(flat_image(f, s), n).take(offset(f, s, p)),
            g,
        ),
    decreases p,
{
    let big = flat_image(f, s);
    let v = all_windows(big, n);
    lemma_flat_image_len(f, s);
    if p == 0 {
        assert(body_windows(s, n).take(0) =~= Seq::<Seq<char>>::empty());
        assert(s.take(0) =~= Seq::<char>::empty());
        assert(v.take(0) =~= Seq::<Seq<char>>::empty());
    } else {
        let q = p - 1;
        lemma_inner_windows(f, s, n, g, q);
        let w = s.subrange(q, q + n);
        assert(body_windows(s, n).take(p).drop_last() =~= body_windows(s, n).take(q));
        assert(body_windows(s, n).take(p).last() == w);
        lemma_flat_subrange(f, s, q, q + n);
        lemma_flat_subrange(f, s, q + n, s.len() as int);
        lemma_offset_step(f, s, q);
        lemma_offset_gap(f, s, q + 1, q + n);
        assert(w[0] == s[q]);
        let oq = offset(f, s, q);
        let op = offset(f, s, p);
        let c = image(f, s[q]).len() as int;
        let fw = flat_image(f, w);
        assert(fw == big.subrange(oq, offset(f, s, q + n)));
        let e = all_windows(fw, n).take(c);
        assert(op <= big.len() - n + 1) by {
            assert(offset(f, s, q + n) - offset(f, s, p) >= n - 1);
        }
        assert(e =~= v.subrange(oq, op)) by {
            assert forall|j: int| 0 <= j < c implies #[trigger] e[j] == v.subrange(oq, op)[j] by {
                assert(fw.subrange(j, j + n) =~= big.subrange(oq + j, oq + j + n));
            }
        }
        assert(v.take(op) =~= v.take(oq) + v.subrange(oq, op));
        crate::table::lemma_sum_over_append(v.take(oq), v.subrange(oq, op), g);
    }
}

/// Expanding the counts of `s` gives the counts of the expanded text: for
/// every `g`, what `expand` then `into_inner` gives on `new(n, s)` is what
/// `into_inner` gives on `new(n, t)`, where `t` is `s` with each character
/// replaced by its image.
pub proof fn law_expansion_commutes<F: Fn(char) -> Vec<char>>(f: F, s: Seq<char>, n: nat)
    requires
        1 <= n <= s.len(),
        expands_nonempty(f, s),
    ensures
        flat_image(f, s).len() >= n,
        forall|g: spec_fn(Seq<char>) -> int| #[trigger] expanded_counts(f, s, n, g) == sum_over(body_windows(flat_image(f, s), n), g)
            + sum_over(tail_windows(flat_image(f, s), n), g),
{
    lemma_flat_image_len(f, s);
    let big = flat_image(f, s);
    let v = all_windows(big, n);
    let m = s.len() - n;
    assert forall|g: spec_fn(Seq<char>) -> int| #[trigger] expanded_counts(f, s, n, g) == sum_over(body_windows(big, n), g)
        + sum_over(tail_windows(big, n), g) by {
        lemma_inner_windows(f, s, n, g, m);
        assert(body_windows(s, n).take(m) =~= body_windows(s, n));
        let last = s.subrange(m, m + n);
        assert(tail_windows(s, n) =~= seq![last]);
        crate::table::lemma_sum_over_single(last, expanded_last(f, n, g));
        crate::table::lemma_sum_over_single(last, expanded_rest(f, n, g));
        lemma_flat_subrange(f, s, m, s.len() as int);
        assert(last =~= s.subrange(m, s.len() as int));
        let om = offset(f, s, m);
        assert(offset(f, s, s.len() as int) == big.len()) by {
            assert(s.take(s.len() as int) =~= s);
        }
        let fw = flat_image(f, last);
        assert(fw == big.subrange(om, big.len() as int));
        lemma_flat_image_len(f, last);
        let e = all_windows(fw, n);
        assert(e =~= v.skip(om)) by {
            assert forall|j: int| 0 <= j < e.len() implies #[trigger] e[j] == v.skip(om)[j] by {
                assert(fw.subrange(j, j + n) =~= big.subrange(om + j, om + j + n));
            }
        }
        assert(e.drop_last() + seq![e.last()] =~= e);
        crate::table::lemma_sum_over_append(e.drop_last(), seq![e.last()], g);
        crate::table::lemma_sum_over_single(e.last(), g);
        assert(v.take(om) + v.skip(om) =~= v);
        crate::table::lemma_sum_over_append(v.take(om), v.skip(om), g);
        assert(body_windows(big, n) + tail_windows(big, n) =~= v);
        crate::table::lemma_sum_over_append(body_windows(big, n), tail_windows(big, n), g);
    }
}

} // verus!
