use vstd::prelude::*;

verus! {

/// The count that `c` gives `g` last, or zero.
pub open spec fn count_for(c: Seq<(Vec<usize>, u64)>, g: Seq<usize>) -> u64
    decreases c.len(),
{
    if c.len() == 0 {
        0
    } else if c.last().0@ == g {
        c.last().1
    } else {
        count_for(c.drop_last(), g)
    }
}

/// The sum of the counts of `c`.
pub open spec fn corpus_total(c: Seq<(Vec<usize>, u64)>) -> int
    decreases c.len(),
{
    if c.len() == 0 {
        0
    } else {
        corpus_total(c.drop_last()) + c.last().1
    }
}

/// `a / b < c / d`, for positive `b` and `d`.
pub open spec fn ratio_lt(a: int, b: int, c: int, d: int) -> bool {
    a * d < c * b
}

pub proof fn lemma_count_for_absent(c: Seq<(Vec<usize>, u64)>, g: Seq<usize>)
    requires
        forall|k: int| 0 <= k < c.len() ==> (#[trigger] c[k]).0@ != g,
    ensures
        count_for(c, g) == 0,
    decreases c.len(),
{
    if c.len() > 0 {
        let p = c.drop_last();
        assert forall|k: int| 0 <= k < p.len() implies (#[trigger] p[k]).0@ != g by {
            assert(p[k] == c[k]);
        }
        lemma_count_for_absent(p, g);
        assert(c[c.len() - 1].0@ != g);
    }
}

/// Entry `k` of corpus `x` holds the n-gram `g`.
pub open spec fn occurs_at(corpora: Seq<Vec<(Vec<usize>, u64)>>, g: Seq<usize>, x: int, k: int) -> bool {
    0 <= x < corpora.len() && 0 <= k < corpora[x].len() && corpora[x]@[k].0@ == g
}

/// Entry `k` of corpus `x` comes before entry `l` of corpus `y`.
pub open spec fn lex_lt(x: int, k: int, y: int, l: int) -> bool {
    x < y || (x == y && k < l)
}

/// Some corpus holds the n-gram `g`.
pub open spec fn occurs(corpora: Seq<Vec<(Vec<usize>, u64)>>, g: Seq<usize>) -> bool {
    exists|x: int, k: int| #[trigger] occurs_at(corpora, g, x, k)
}

/// `g` occurs somewhere before every occurrence of `h`.
pub open spec fn first_before(corpora: Seq<Vec<(Vec<usize>, u64)>>, g: Seq<usize>, h: Seq<usize>) -> bool {
    exists|x: int, k: int| #[trigger] occurs_at(corpora, g, x, k) && forall|y: int, l: int| #[trigger] occurs_at(corpora, h, y, l) ==> lex_lt(x, k, y, l)
}

/// `g` occurs before entry `k` of corpus `i`.
pub open spec fn occurs_before(corpora: Seq<Vec<(Vec<usize>, u64)>>, g: Seq<usize>, i: int, k: int) -> bool {
    exists|x: int, kk: int| #[trigger] occurs_at(corpora, g, x, kk) && lex_lt(x, kk, i, k)
}

/// Every n-gram of every corpus has `m` indices, each below `side`.
pub open spec fn corpora_in(corpora: Seq<Vec<(Vec<usize>, u64)>>, m: nat, side: nat) -> bool {
    forall|i: int, k: int| 0 <= i < corpora.len() && 0 <= k < corpora[i].len() ==> (#[trigger] corpora[i]@[k]).0.len() == m
        && crate::indexes::digits_below(corpora[i]@[k].0@, side)
}

/// Every n-gram of `rows` has `m` indices, each below `side`.
pub open spec fn rows_in(rows: Seq<(Vec<usize>, Vec<u64>)>, m: nat, side: nat) -> bool {
    forall|j: int| 0 <= j < rows.len() ==> (#[trigger] rows[j]).0.len() == m && crate::indexes::digits_below(rows[j].0@, side)
}

/// Whether `a / b < c / d`, for positive `b` and `d`.
pub fn ratio_less(a: u128, b: u64, c: u128, d: u64) -> (r: bool)
    requires
        b >= 1,
        d >= 1,
    ensures
        r == ratio_lt(a as int, b as int, c as int, d as int),
{
    let q1 = a / (b as u128);
    let r1 = a % (b as u128);
    let q2 = c / (d as u128);
    let r2 = c % (d as u128);
    proof {
        let (ai, bi, ci, di) = (a as int, b as int, c as int, d as int);
        let (q1i, r1i, q2i, r2i) = (q1 as int, r1 as int, q2 as int, r2 as int);
        assert(ai == q1i * bi + r1i) by (nonlinear_arith)
            requires
                q1i == ai / bi,
                r1i == ai % bi,
                bi >= 1,
        ;
        assert(ci == q2i * di + r2i) by (nonlinear_arith)
            requires
                q2i == ci / di,
                r2i == ci % di,
                di >= 1,
        ;
        assert(ai * di == q1i * bi * di + r1i * di) by (nonlinear_arith)
            requires
                ai == q1i * bi + r1i,
        ;
        assert(ci * bi == q2i * bi * di + r2i * bi) by (nonlinear_arith)
            requires
                ci == q2i * di + r2i,
        ;
        assert(0 <= r1i * di < bi * di) by (nonlinear_arith)
            requires
                0 <= r1i < bi,
                di >= 1,
        ;
        assert(0 <= r2i * bi < bi * di) by (nonlinear_arith)
            requires
                0 <= r2i < di,
                bi >= 1,
        ;
        if q1i < q2i {
            assert(q1i * bi * di + bi * di <= q2i * bi * di) by (nonlinear_arith)
                requires
                    q1i < q2i,
                    bi * di >= 1,
            ;
        } else if q1i > q2i {
            assert(q2i * bi * di + bi * di <= q1i * bi * di) by (nonlinear_arith)
                requires
                    q2i < q1i,
                    bi * di >= 1,
            ;
        }
        assert(r1i * di < 0x1_0000_0000_0000_0000 * 0x1_0000_0000_0000_0000) by (nonlinear_arith)
            requires
                0 <= r1i < bi,
                bi <= 0xffff_ffff_ffff_ffff,
                di <= 0xffff_ffff_ffff_ffff,
        ;
        assert(r2i * bi < 0x1_0000_0000_0000_0000 * 0x1_0000_0000_0000_0000) by (nonlinear_arith)
            requires
                0 <= r2i < di,
                bi <= 0xffff_ffff_ffff_ffff,
                di <= 0xffff_ffff_ffff_ffff,
        ;
    }
    if q1 != q2 {
        q1 < q2
    } else {
        r1 * (d as u128) < r2 * (b as u128)
    }
}

/// The n-grams of several corpora in one list, each with its count in every
/// corpus, and each corpus's total count (at least one).
#[derive(Clone, Debug)]
pub struct CorpusSet {
    pub rows: Vec<(Vec<usize>, Vec<u64>)>,
    pub weight_sums: Vec<u64>,
    pub corpus_count: usize,
}

impl CorpusSet {
    pub open spec fn rows_spec(&self) -> Seq<(Vec<usize>, Vec<u64>)> {
        self.rows@
    }

    pub open spec fn sums(&self) -> Seq<u64> {
        self.weight_sums@
    }

    pub open spec fn count(&self) -> nat {
        self.corpus_count as nat
    }

    pub open spec fn wf(&self) -> bool {
        &&& self.sums().len() == self.count()
        &&& forall|i: int| 0 <= i < self.count() ==> #[trigger] self.sums()[i] >= 1
        &&& forall|j: int| 0 <= j < self.rows_spec().len() ==> (#[trigger] self.rows_spec()[j]).1.len() == self.count()
    }

    /// Merges `corpora`: one row per distinct n-gram, holding the count that
    /// each corpus gives it.
    pub fn new(corpora: Vec<Vec<(Vec<usize>, u64)>>) -> (r: Self)
        requires
            forall|i: int| 0 <= i < corpora.len() ==> corpus_total(#[trigger] corpora@[i]@) <= u64::MAX,
        ensures
            r.wf(),
            r.count() == corpora.len(),
            forall|a: int, b: int| 0 <= a < b < r.rows_spec().len() ==> r.rows_spec()[a].0@ != r.rows_spec()[b].0@,
            forall|j: int, i: int| 0 <= j < r.rows_spec().len() && 0 <= i < corpora.len() ==> #[trigger] r.rows_spec()[j].1@[i]
                == count_for(corpora@[i]@, r.rows_spec()[j].0@),
            forall|i: int, k: int| 0 <= i < corpora.len() && 0 <= k < corpora@[i].len() ==> exists|j: int|
                0 <= j < r.rows_spec().len() && #[trigger] r.rows_spec()[j].0@ == (#[trigger] corpora@[i]@[k]).0@,
            forall|m: nat, side: nat| corpora_in(corpora@, m, side) ==> #[trigger] rows_in(r.rows_spec(), m, side),
            forall|j: int| 0 <= j < r.rows_spec().len() ==> occurs(corpora@, (#[trigger] r.rows_spec()[j]).0@),
            forall|a: int, b: int| 0 <= a < b < r.rows_spec().len() ==> #[trigger] first_before(
                corpora@,
                r.rows_spec()[a].0@,
                r.rows_spec()[b].0@,
            ),
            forall|i: int| 0 <= i < corpora.len() ==> #[trigger] r.sums()[i] == if corpus_total(corpora@[i]@) < 1 {
                1
            } else {
                corpus_total(corpora@[i]@)
            },
    {
        let c = corpora.len();
        let mut rows: Vec<(Vec<usize>, Vec<u64>)> = Vec::new();
        let mut sums: Vec<u64> = Vec::new();
        let mut i: usize = 0;
        while i < c
            invariant
                c == corpora.len(),
                forall|i: int| 0 <= i < corpora.len() ==> corpus_total(#[trigger] corpora@[i]@) <= u64::MAX,
                i <= c,
                sums.len() == i,
                forall|x: int| 0 <= x < i ==> #[trigger] sums@[x] == if corpus_total(corpora@[x]@) < 1 { 1 } else { corpus_total(corpora@[x]@) },
                forall|j: int| 0 <= j < rows.len() ==> (#[trigger] rows@[j]).1.len() == c,
                forall|m: nat, side: nat| corpora_in(corpora@, m, side) ==> #[trigger] rows_in(rows@, m, side),
                forall|a: int, b: int| 0 <= a < b < rows.len() ==> rows@[a].0@ != rows@[b].0@,
                forall|j: int, x: int| 0 <= j < rows.len() && 0 <= x < i ==> #[trigger] rows@[j].1@[x] == count_for(corpora@[x]@, rows@[j].0@),
                forall|j: int, x: int| 0 <= j < rows.len() && i <= x < c ==> #[trigger] rows@[j].1@[x] == 0,
                forall|x: int, k: int| 0 <= x < i && 0 <= k < corpora@[x].len() ==> exists|j: int|
                    0 <= j < rows.len() && #[trigger] rows@[j].0@ == (#[trigger] corpora@[x]@[k]).0@,
                forall|j: int| 0 <= j < rows.len() ==> #[trigger] occurs_before(corpora@, rows@[j].0@, i as int, 0),
                forall|a: int, b: int| 0 <= a < b < rows.len() ==> #[trigger] first_before(corpora@, rows@[a].0@, rows@[b].0@),
            decreases c - i,
        {
            let corpus = &corpora[i];
            let mut total: u64 = 0;
            let mut k: usize = 0;
            while k < corpus.len()
                invariant
                    c == corpora.len(),
                    i < c,
                    corpus == &corpora@[i as int],
                    corpus_total(corpus@) <= u64::MAX,
                    k <= corpus.len(),
                    total == corpus_total(corpus@.take(k as int)),
                    forall|j: int| 0 <= j < rows.len() ==> (#[trigger] rows@[j]).1.len() == c,
                    forall|m: nat, side: nat| corpora_in(corpora@, m, side) ==> #[trigger] rows_in(rows@, m, side),
                    forall|a: int, b: int| 0 <= a < b < rows.len() ==> rows@[a].0@ != rows@[b].0@,
                    forall|j: int, x: int| 0 <= j < rows.len() && 0 <= x < i ==> #[trigger] rows@[j].1@[x] == count_for(corpora@[x]@, rows@[j].0@),
                    forall|j: int| 0 <= j < rows.len() ==> #[trigger] rows@[j].1@[i as int] == count_for(corpus@.take(k as int), rows@[j].0@),
                    forall|j: int, x: int| 0 <= j < rows.len() && i < x < c ==> #[trigger] rows@[j].1@[x] == 0,
                    forall|x: int, kk: int| 0 <= x < i && 0 <= kk < corpora@[x].len() ==> exists|j: int|
                        0 <= j < rows.len() && #[trigger] rows@[j].0@ == (#[trigger] corpora@[x]@[kk]).0@,
                    forall|kk: int| 0 <= kk < k ==> exists|j: int|
                        0 <= j < rows.len() && #[trigger] rows@[j].0@ == (#[trigger] corpus@[kk]).0@,
                    forall|j: int| 0 <= j < rows.len() ==> #[trigger] occurs_before(corpora@, rows@[j].0@, i as int, k as int),
                    forall|a: int, b: int| 0 <= a < b < rows.len() ==> #[trigger] first_before(corpora@, rows@[a].0@, rows@[b].0@),
                decreases corpus.len() - k,
            {
                proof {
                    lemma_corpus_total_prefix(corpus@, k + 1);
                    assert(corpus@.take(k + 1).drop_last() =~= corpus@.take(k as int));
                }
                let g = &corpus[k].0;
                let cnt = corpus[k].1;
                let ghost before = rows@;
                match find_row(&rows, g) {
                    Some(j) => {
                        let mut counts = copy_counts(&rows[j].1);
                        counts.set(i, cnt);
                        let key = rows[j].0.clone();
                        rows.set(j, (key, counts));
                        proof {
                            assert forall|x: int, kk: int| 0 <= x < i && 0 <= kk < corpora@[x].len() implies exists|jj: int|
                                0 <= jj < rows.len() && #[trigger] rows@[jj].0@ == (#[trigger] corpora@[x]@[kk]).0@ by {
                                let jj = choose|jj: int| 0 <= jj < before.len() && #[trigger] before[jj].0@ == corpora@[x]@[kk].0@;
                                assert(rows@[jj].0@ == before[jj].0@);
                            }
                            assert forall|kk: int| 0 <= kk < k + 1 implies exists|jj: int|
                                0 <= jj < rows.len() && #[trigger] rows@[jj].0@ == (#[trigger] corpus@[kk]).0@ by {
                                if kk < k {
                                    let jj = choose|jj: int| 0 <= jj < before.len() && #[trigger] before[jj].0@ == corpus@[kk].0@;
                                    assert(rows@[jj].0@ == before[jj].0@);
                                } else {
                                    assert(rows@[j as int].0@ == corpus@[kk].0@);
                                }
                            }
                            assert forall|a: int, b: int| 0 <= a < b < rows.len() implies rows@[a].0@ != rows@[b].0@ by {
                                assert(rows@[a].0@ == before[a].0@);
                                assert(rows@[b].0@ == before[b].0@);
                            }
                            assert forall|m: nat, side: nat| corpora_in(corpora@, m, side) implies #[trigger] rows_in(rows@, m, side) by {
                                assert(rows_in(before, m, side));
                                assert forall|jj: int| 0 <= jj < rows.len() implies (#[trigger] rows@[jj]).0.len() == m && crate::indexes::digits_below(rows@[jj].0@, side) by {
                                    assert(rows@[jj].0@ == before[jj].0@);
                                }
                            }
                            assert forall|jj: int| 0 <= jj < rows.len() implies #[trigger] occurs_before(corpora@, rows@[jj].0@, i as int, k + 1) by {
                                assert(rows@[jj].0@ == before[jj].0@);
                                assert(occurs_before(corpora@, before[jj].0@, i as int, k as int));
                                let (x, kk) = choose|x: int, kk: int| #[trigger] occurs_at(corpora@, before[jj].0@, x, kk) && lex_lt(x, kk, i as int, k as int);
                                assert(occurs_at(corpora@, rows@[jj].0@, x, kk));
                            }
                            assert forall|a: int, b: int| 0 <= a < b < rows.len() implies #[trigger] first_before(corpora@, rows@[a].0@, rows@[b].0@) by {
                                assert(rows@[a].0@ == before[a].0@);
                                assert(rows@[b].0@ == before[b].0@);
                                assert(first_before(corpora@, before[a].0@, before[b].0@));
                            }
                        }
                    },
                    None => {
                        let mut counts = zero_counts(c);
                        counts.set(i, cnt);
                        let key = g.clone();
                        rows.push((key, counts));
                        proof {
                            let n = rows.len() - 1;
                            assert forall|x: int| 0 <= x < i implies count_for(corpora@[x]@, g@) == 0 by {
                                assert forall|kk: int| 0 <= kk < corpora@[x].len() implies (#[trigger] corpora@[x]@[kk]).0@ != g@ by {
                                    let jj = choose|jj: int| 0 <= jj < before.len() && #[trigger] before[jj].0@ == corpora@[x]@[kk].0@;
                                }
                                lemma_count_for_absent(corpora@[x]@, g@);
                            }
                            assert forall|kk: int| 0 <= kk < corpus@.take(k as int).len() implies (#[trigger] corpus@.take(k as int)[kk]).0@ != g@ by {
                                assert(corpus@.take(k as int)[kk] == corpus@[kk]);
                                let jj = choose|jj: int| 0 <= jj < before.len() && #[trigger] before[jj].0@ == corpus@[kk].0@;
                            }
                            lemma_count_for_absent(corpus@.take(k as int), g@);
                            assert forall|x: int, kk: int| 0 <= x < i && 0 <= kk < corpora@[x].len() implies exists|jj: int|
                                0 <= jj < rows.len() && #[trigger] rows@[jj].0@ == (#[trigger] corpora@[x]@[kk]).0@ by {
                                let jj = choose|jj: int| 0 <= jj < before.len() && #[trigger] before[jj].0@ == corpora@[x]@[kk].0@;
                                assert(rows@[jj] == before[jj]);
                            }
                            assert forall|kk: int| 0 <= kk < k + 1 implies exists|jj: int|
                                0 <= jj < rows.len() && #[trigger] rows@[jj].0@ == (#[trigger] corpus@[kk]).0@ by {
                                if kk < k {
                                    let jj = choose|jj: int| 0 <= jj < before.len() && #[trigger] before[jj].0@ == corpus@[kk].0@;
                                    assert(rows@[jj] == before[jj]);
                                } else {
                                    assert(rows@[n].0@ == corpus@[kk].0@);
                                }
                            }
                            assert forall|m: nat, side: nat| corpora_in(corpora@, m, side) implies #[trigger] rows_in(rows@, m, side) by {
                                assert(rows_in(before, m, side));
                                assert forall|jj: int| 0 <= jj < rows.len() implies (#[trigger] rows@[jj]).0.len() == m && crate::indexes::digits_below(rows@[jj].0@, side) by {
                                    if jj < n {
                                        assert(rows@[jj] == before[jj]);
                                    } else {
                                        assert(corpora@[i as int]@[k as int] == corpus@[k as int]);
                                    }
                                }
                            }
                            assert(occurs_at(corpora@, g@, i as int, k as int)) by {
                                assert(corpora@[i as int]@[k as int] == corpus@[k as int]);
                            }
                            assert forall|y: int, l: int| #[trigger] occurs_at(corpora@, g@, y, l) implies !lex_lt(y, l, i as int, k as int) by {
                                if lex_lt(y, l, i as int, k as int) {
                                    if y < i {
                                        let jj = choose|jj: int| 0 <= jj < before.len() && #[trigger] before[jj].0@ == corpora@[y]@[l].0@;
                                    } else {
                                        assert(corpora@[y]@[l] == corpus@[l]);
                                        let jj = choose|jj: int| 0 <= jj < before.len() && #[trigger] before[jj].0@ == corpus@[l].0@;
                                    }
                                }
                            }
                            assert forall|jj: int| 0 <= jj < rows.len() implies #[trigger] occurs_before(corpora@, rows@[jj].0@, i as int, k + 1) by {
                                if jj < n {
                                    assert(rows@[jj] == before[jj]);
                                    assert(occurs_before(corpora@, before[jj].0@, i as int, k as int));
                                    let (x, kk) = choose|x: int, kk: int| #[trigger] occurs_at(corpora@, before[jj].0@, x, kk) && lex_lt(x, kk, i as int, k as int);
                                    assert(occurs_at(corpora@, rows@[jj].0@, x, kk));
                                } else {
                                    assert(rows@[jj].0@ == g@);
                                    assert(occurs_at(corpora@, rows@[jj].0@, i as int, k as int));
                                }
                            }
                            assert forall|a: int, b: int| 0 <= a < b < rows.len() implies #[trigger] first_before(corpora@, rows@[a].0@, rows@[b].0@) by {
                                assert(rows@[a] == before[a]);
                                if b < n {
                                    assert(rows@[b] == before[b]);
                                    assert(first_before(corpora@, before[a].0@, before[b].0@));
                                } else {
                                    assert(rows@[b].0@ == g@);
                                    assert(occurs_before(corpora@, before[a].0@, i as int, k as int));
                                    let (x, kk) = choose|x: int, kk: int| #[trigger] occurs_at(corpora@, before[a].0@, x, kk) && lex_lt(x, kk, i as int, k as int);
                                    assert forall|y: int, l: int| #[trigger] occurs_at(corpora@, g@, y, l) implies lex_lt(x, kk, y, l) by {
                                        assert(!lex_lt(y, l, i as int, k as int));
                                    }
                                    assert(occurs_at(corpora@, rows@[a].0@, x, kk));
                                }
                            }
                            assert forall|a: int, b: int| 0 <= a < b < rows.len() implies rows@[a].0@ != rows@[b].0@ by {
                                if b == n {
                                    assert(rows@[a] == before[a]);
                                } else {
                                    assert(rows@[a] == before[a]);
                                    assert(rows@[b] == before[b]);
                                }
                            }
                        }
                    },
                }
                total = total + cnt;
                k += 1;
            }
            proof {
                assert(corpus@.take(corpus.len() as int) =~= corpus@);
                assert forall|jj: int| 0 <= jj < rows.len() implies #[trigger] occurs_before(corpora@, rows@[jj].0@, i + 1, 0) by {
                    assert(occurs_before(corpora@, rows@[jj].0@, i as int, corpus.len() as int));
                    let (x, kk) = choose|x: int, kk: int| #[trigger] occurs_at(corpora@, rows@[jj].0@, x, kk) && lex_lt(x, kk, i as int, corpus.len() as int);
                }
            }
            sums.push(if total < 1 { 1 } else { total });
            i += 1;
        }
        let r = CorpusSet { rows, weight_sums: sums, corpus_count: c };
        proof {
            assert forall|i: int, k: int| 0 <= i < corpora.len() && 0 <= k < corpora@[i].len() implies exists|j: int|
                0 <= j < r.rows_spec().len() && #[trigger] r.rows_spec()[j].0@ == (#[trigger] corpora@[i]@[k]).0@ by {
                let j = choose|j: int| 0 <= j < rows.len() && #[trigger] rows@[j].0@ == corpora@[i]@[k].0@;
                assert(r.rows_spec()[j] == rows@[j]);
            }
            assert forall|j: int| 0 <= j < r.rows_spec().len() implies occurs(corpora@, (#[trigger] r.rows_spec()[j]).0@) by {
                assert(occurs_before(corpora@, rows@[j].0@, c as int, 0));
                let (x, kk) = choose|x: int, kk: int| #[trigger] occurs_at(corpora@, rows@[j].0@, x, kk) && lex_lt(x, kk, c as int, 0);
                assert(occurs_at(corpora@, r.rows_spec()[j].0@, x, kk));
            }
        }
        r
    }

    /// The rows: each distinct n-gram with its count in every corpus.
    pub fn iter(&self) -> (r: &Vec<(Vec<usize>, Vec<u64>)>)
        ensures
            r@ == self.rows_spec(),
    {
        &self.rows
    }

    /// The number of corpora.
    pub fn len(&self) -> (r: usize)
        ensures
            r == self.count(),
    {
        self.corpus_count
    }

    /// The total count of corpus `i` (at least one).
    pub fn total(&self, i: usize) -> (r: u64)
        requires
            self.wf(),
            i < self.count(),
        ensures
            r == self.sums()[i as int],
    {
        self.weight_sums[i]
    }

    /// The largest of the ratios `scores[i] / total(i)`, as that score and
    /// that total.
    pub fn aggregate_scores(&self, scores: &Vec<u128>) -> (r: (u128, u64))
        requires
            self.wf(),
            scores.len() == self.count(),
            self.count() >= 1,
        ensures
            exists|i: int| 0 <= i < scores.len() && r == (#[trigger] scores@[i], self.sums()[i]),
            forall|i: int| 0 <= i < scores.len() ==> !ratio_lt(r.0 as int, r.1 as int, #[trigger] scores@[i] as int, self.sums()[i] as int),
            r.1 >= 1,
    {
        let mut best = (scores[0], self.weight_sums[0]);
        let mut i: usize = 1;
        while i < scores.len()
            invariant
                self.wf(),
                scores.len() == self.count(),
                1 <= i <= scores.len(),
                best.1 >= 1,
                exists|x: int| 0 <= x < i && best == (#[trigger] scores@[x], self.sums()[x]),
                forall|x: int| 0 <= x < i ==> !ratio_lt(best.0 as int, best.1 as int, #[trigger] scores@[x] as int, self.sums()[x] as int),
            decreases scores.len() - i,
        {
            let candidate = (scores[i], self.weight_sums[i]);
            if ratio_less(best.0, best.1, candidate.0, candidate.1) {
                proof {
                    assert forall|x: int| 0 <= x < i + 1 implies !ratio_lt(candidate.0 as int, candidate.1 as int, #[trigger] scores@[x] as int, self.sums()[x] as int) by {
                        if x < i {
                            lemma_ratio_lt_trans(scores@[x] as int, self.sums()[x] as int, best.0 as int, best.1 as int, candidate.0 as int, candidate.1 as int);
                        }
                    }
                }
                best = candidate;
            }
            i += 1;
        }
        best
    }
}

/// `a/b ≥ c/d` and `c/d < e/f` give `a/b < e/f`, for positive denominators.
pub proof fn lemma_ratio_lt_trans(a: int, b: int, c: int, d: int, e: int, f: int)
    requires
        b >= 1,
        d >= 1,
        f >= 1,
        a >= 0,
        c >= 0,
        !ratio_lt(c, d, a, b),
        ratio_lt(c, d, e, f),
    ensures
        !ratio_lt(e, f, a, b),
{
    assert(a * d <= c * b);
    assert(c * f < e * d);
    assert(a * d * f <= c * b * f) by (nonlinear_arith)
        requires
            a * d <= c * b,
            f >= 1,
    ;
    assert(c * f * b < e * d * b) by (nonlinear_arith)
        requires
            c * f < e * d,
            b >= 1,
    ;
    assert(a * f * d < e * b * d) by (nonlinear_arith)
        requires
            a * d * f <= c * b * f,
            c * f * b < e * d * b,
    ;
    assert(a * f < e * b) by (nonlinear_arith)
        requires
            a * f * d < e * b * d,
            d >= 1,
    ;
}

proof fn lemma_corpus_total_prefix(c: Seq<(Vec<usize>, u64)>, k: int)
    requires
        0 <= k <= c.len(),
    ensures
        0 <= corpus_total(c.take(k)) <= corpus_total(c),
    decreases c.len() - k,
{
    if k < c.len() {
        lemma_corpus_total_prefix(c, k + 1);
        assert(c.take(k + 1).drop_last() =~= c.take(k));
        lemma_corpus_total_nonneg(c.take(k));
    } else {
        assert(c.take(k) =~= c);
        lemma_corpus_total_nonneg(c);
    }
}

proof fn lemma_corpus_total_nonneg(c: Seq<(Vec<usize>, u64)>)
    ensures
        corpus_total(c) >= 0,
    decreases c.len(),
{
    if c.len() > 0 {
        lemma_corpus_total_nonneg(c.drop_last());
    }
}

/// The index of the row of n-gram `g`, if any.
fn find_row(rows: &Vec<(Vec<usize>, Vec<u64>)>, g: &Vec<usize>) -> (r: Option<usize>)
    ensures
        r matches Some(j) ==> j < rows.len() && rows@[j as int].0@ == g@,
        r is None ==> forall|j: int| 0 <= j < rows.len() ==> (#[trigger] rows@[j]).0@ != g@,
{
    let mut j: usize = 0;
    while j < rows.len()
        invariant
            j <= rows.len(),
            forall|x: int| 0 <= x < j ==> (#[trigger] rows@[x]).0@ != g@,
        decreases rows.len() - j,
    {
        if same_indices(&rows[j].0, g) {
            return Some(j);
        }
        j += 1;
    }
    None
}

/// Whether two index tuples are equal.
fn same_indices(a: &Vec<usize>, b: &Vec<usize>) -> (r: bool)
    ensures
        r == (a@ == b@),
{
    if a.len() != b.len() {
        return false;
    }
    let mut i: usize = 0;
    while i < a.len()
        invariant
            a.len() == b.len(),
            i <= a.len(),
            forall|j: int| 0 <= j < i ==> a@[j] == b@[j],
        decreases a.len() - i,
    {
        if a[i] != b[i] {
            return false;
        }
        i += 1;
    }
    assert(a@ =~= b@);
    true
}

fn copy_counts(v: &Vec<u64>) -> (r: Vec<u64>)
    ensures
        r@ == v@,
{
    let mut r: Vec<u64> = Vec::new();
    let mut i: usize = 0;
    while i < v.len()
        invariant
            i <= v.len(),
            r@ == v@.take(i as int),
        decreases v.len() - i,
    {
        r.push(v[i]);
        proof {
            assert(v@.take(i + 1) =~= v@.take(i as int).push(v@[i as int]));
        }
        i += 1;
    }
    assert(v@.take(v.len() as int) =~= v@);
    r
}

fn zero_counts(n: usize) -> (r: Vec<u64>)
    ensures
        r.len() == n,
        forall|k: int| 0 <= k < n ==> #[trigger] r@[k] == 0,
{
    let mut r: Vec<u64> = Vec::new();
    while r.len() < n
        invariant
            r.len() <= n,
            forall|k: int| 0 <= k < r.len() ==> #[trigger] r@[k] == 0,
        decreases n - r.len(),
    {
        r.push(0);
    }
    r
}

} // verus!

verus! {

/// `r` is one corpus's score over its total, and no corpus's ratio exceeds it.
pub open spec fn is_largest_ratio(scores: Seq<u128>, sums: Seq<u64>, r: (u128, u64)) -> bool {
    &&& exists|i: int| 0 <= i < scores.len() && r == (#[trigger] scores[i], sums[i])
    &&& forall|i: int| 0 <= i < scores.len() ==> !ratio_lt(r.0 as int, r.1 as int, #[trigger] scores[i] as int, sums[i] as int)
}

/// The aggregate is the maximum of the ratios score / total: any two results
/// that are each a corpus's ratio and exceeded by none are the same ratio.
pub proof fn law_aggregate_normalization(scores: Seq<u128>, sums: Seq<u64>, r: (u128, u64), s: (u128, u64))
    requires
        scores.len() == sums.len(),
        forall|i: int| 0 <= i < sums.len() ==> #[trigger] sums[i] >= 1,
        is_largest_ratio(scores, sums, r),
        is_largest_ratio(scores, sums, s),
    ensures
        r.0 * s.1 == s.0 * r.1,
{
    let i = choose|i: int| 0 <= i < scores.len() && r == (#[trigger] scores[i], sums[i]);
    let j = choose|j: int| 0 <= j < scores.len() && s == (#[trigger] scores[j], sums[j]);
    assert(!ratio_lt(r.0 as int, r.1 as int, scores[j] as int, sums[j] as int));
    assert(!ratio_lt(s.0 as int, s.1 as int, scores[i] as int, sums[i] as int));
}

} // verus!
