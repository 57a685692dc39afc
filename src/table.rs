use vstd::prelude::*;

verus! {

/// A table of n-gram counts: each entry is an n-gram and how often it occurs.
/// Tables built by this crate hold each n-gram at most once.
pub type Table = Vec<(Vec<char>, u64)>;

/// Sum over the entries of `t` of count × `g(n-gram)`.
pub open spec fn weighted(t: Seq<(Vec<char>, u64)>, g: spec_fn(Seq<char>) -> int) -> int
    decreases t.len(),
{
    if t.len() == 0 {
        0
    } else {
        weighted(t.drop_last(), g) + t.last().1 * g(t.last().0@)
    }
}

/// One for `k`, zero for every other n-gram.
pub open spec fn indicator(k: Seq<char>) -> spec_fn(Seq<char>) -> int {
    |w: Seq<char>| if w == k { 1int } else { 0int }
}

/// One for every n-gram.
pub open spec fn one() -> spec_fn(Seq<char>) -> int {
    |w: Seq<char>| 1int
}

/// How often `k` occurs according to `t`.
pub open spec fn count_in(t: Seq<(Vec<char>, u64)>, k: Seq<char>) -> int {
    weighted(t, indicator(k))
}

/// The sum of all counts of `t`.
pub open spec fn total(t: Seq<(Vec<char>, u64)>) -> int {
    weighted(t, one())
}

/// No n-gram stands in two entries.
pub open spec fn keys_unique(t: Seq<(Vec<char>, u64)>) -> bool {
    forall|i: int, j: int| 0 <= i < t.len() && 0 <= j < t.len() && i != j ==> #[trigger] t[i].0@
        != #[trigger] t[j].0@
}

/// Every count of `t` is positive.
pub open spec fn counts_positive(t: Seq<(Vec<char>, u64)>) -> bool {
    forall|i: int| 0 <= i < t.len() ==> (#[trigger] t[i]).1 > 0
}

/// Every n-gram of `t` has length `m`.
pub open spec fn keys_len(t: Seq<(Vec<char>, u64)>, m: nat) -> bool {
    forall|i: int| 0 <= i < t.len() ==> (#[trigger] t[i]).0@.len() == m
}

/// Sum of `g` over the sequence `ws`.
pub open spec fn sum_over(ws: Seq<Seq<char>>, g: spec_fn(Seq<char>) -> int) -> int
    decreases ws.len(),
{
    if ws.len() == 0 {
        0
    } else {
        sum_over(ws.drop_last(), g) + g(ws.last())
    }
}

/// Number of times `k` occurs in `ws`.
pub open spec fn occurrences(ws: Seq<Seq<char>>, k: Seq<char>) -> int {
    sum_over(ws, indicator(k))
}

pub open spec fn views(ws: Seq<Vec<char>>) -> Seq<Seq<char>> {
    ws.map_values(|w: Vec<char>| w@)
}

pub proof fn lemma_sum_over_single(x: Seq<char>, g: spec_fn(Seq<char>) -> int)
    ensures
        sum_over(seq![x], g) == g(x),
{
    assert(seq![x].drop_last() =~= Seq::<Seq<char>>::empty());
    assert(sum_over(Seq::<Seq<char>>::empty(), g) == 0);
}

pub proof fn lemma_sum_over_one(ws: Seq<Seq<char>>)
    ensures
        sum_over(ws, one()) == ws.len(),
    decreases ws.len(),
{
    if ws.len() > 0 {
        lemma_sum_over_one(ws.drop_last());
    }
}

pub proof fn lemma_sum_over_append(a: Seq<Seq<char>>, b: Seq<Seq<char>>, g: spec_fn(Seq<char>) -> int)
    ensures
        sum_over(a + b, g) == sum_over(a, g) + sum_over(b, g),
    decreases b.len(),
{
    if b.len() > 0 {
        assert((a + b).drop_last() =~= a + b.drop_last());
        lemma_sum_over_append(a, b.drop_last(), g);
    } else {
        assert(a + b =~= a);
    }
}

pub proof fn lemma_sum_over_ext(ws: Seq<Seq<char>>, g: spec_fn(Seq<char>) -> int, h: spec_fn(Seq<char>) -> int)
    requires
        forall|i: int| 0 <= i < ws.len() ==> g(#[trigger] ws[i]) == h(ws[i]),
    ensures
        sum_over(ws, g) == sum_over(ws, h),
    decreases ws.len(),
{
    if ws.len() > 0 {
        lemma_sum_over_ext(ws.drop_last(), g, h);
        assert(g(ws[ws.len() - 1]) == h(ws[ws.len() - 1]));
    }
}

pub proof fn lemma_weighted_ext(t: Seq<(Vec<char>, u64)>, g: spec_fn(Seq<char>) -> int, h: spec_fn(Seq<char>) -> int)
    requires
        forall|i: int| 0 <= i < t.len() ==> g((#[trigger] t[i]).0@) == h(t[i].0@),
    ensures
        weighted(t, g) == weighted(t, h),
    decreases t.len(),
{
    if t.len() > 0 {
        lemma_weighted_ext(t.drop_last(), g, h);
        assert(g(t[t.len() - 1].0@) == h(t[t.len() - 1].0@));
    }
}

pub proof fn lemma_weighted_push(t: Seq<(Vec<char>, u64)>, e: (Vec<char>, u64), g: spec_fn(Seq<char>) -> int)
    ensures
        weighted(t.push(e), g) == weighted(t, g) + e.1 * g(e.0@),
{
    assert(t.push(e).drop_last() =~= t);
}

pub proof fn lemma_weighted_update(t: Seq<(Vec<char>, u64)>, j: int, e: (Vec<char>, u64), g: spec_fn(Seq<char>) -> int)
    requires
        0 <= j < t.len(),
        t[j].0@ == e.0@,
    ensures
        weighted(t.update(j, e), g) == weighted(t, g) + (e.1 - t[j].1) * g(e.0@),
    decreases t.len(),
{
    let u = t.update(j, e);
    if j == t.len() - 1 {
        assert(u.drop_last() =~= t.drop_last());
        assert((e.1 - t[j].1) * g(e.0@) == e.1 * g(e.0@) - t[j].1 * g(e.0@)) by (nonlinear_arith);
    } else {
        assert(u.drop_last() =~= t.drop_last().update(j, e));
        lemma_weighted_update(t.drop_last(), j, e, g);
    }
}

pub proof fn lemma_total_bounds_entry(t: Seq<(Vec<char>, u64)>, j: int)
    requires
        0 <= j < t.len(),
    ensures
        t[j].1 <= total(t),
        0 <= total(t),
    decreases t.len(),
{
    lemma_total_nonneg(t.drop_last());
    if j < t.len() - 1 {
        lemma_total_bounds_entry(t.drop_last(), j);
    }
}

pub proof fn lemma_total_nonneg(t: Seq<(Vec<char>, u64)>)
    ensures
        0 <= total(t),
    decreases t.len(),
{
    if t.len() > 0 {
        lemma_total_nonneg(t.drop_last());
    }
}

pub proof fn lemma_count_in_absent(t: Seq<(Vec<char>, u64)>, k: Seq<char>)
    requires
        forall|i: int| 0 <= i < t.len() ==> (#[trigger] t[i]).0@ != k,
    ensures
        count_in(t, k) == 0,
    decreases t.len(),
{
    if t.len() > 0 {
        let p = t.drop_last();
        assert forall|i: int| 0 <= i < p.len() implies (#[trigger] p[i]).0@ != k by {
            assert(p[i] == t[i]);
        }
        lemma_count_in_absent(p, k);
        assert(t[t.len() - 1].0@ != k);
    }
}

/// How often `k` occurs according to `t`, whether or not its n-grams are unique.
pub fn count_any(t: &Table, k: &Vec<char>) -> (r: u128)
    ensures
        r == count_in(t@, k@),
{
    let mut acc: u128 = 0;
    let mut i: usize = 0;
    while i < t.len()
        invariant
            i <= t.len(),
            acc == count_in(t@.take(i as int), k@),
            acc <= i * 0xffff_ffff_ffff_ffff,
        decreases t.len() - i,
    {
        proof {
            assert(t@.take(i + 1).drop_last() =~= t@.take(i as int));
            assert(i * 0xffff_ffff_ffff_ffff + 0xffff_ffff_ffff_ffff == (i + 1) * 0xffff_ffff_ffff_ffff) by (nonlinear_arith);
            assert((i + 1) * 0xffff_ffff_ffff_ffff <= 0x1_0000_0000_0000_0000 * 0xffff_ffff_ffff_ffff) by (nonlinear_arith)
                requires
                    i + 1 <= 0x1_0000_0000_0000_0000,
            ;
        }
        if same_chars(&t[i].0, k) {
            acc = acc + t[i].1 as u128;
        }
        i += 1;
    }
    proof {
        assert(t@.take(t.len() as int) =~= t@);
    }
    acc
}

/// Whether `a` and `b` give every n-gram the same count.
pub fn same_counts(a: &Table, b: &Table) -> (r: bool)
    ensures
        r == (forall|k: Seq<char>| #[trigger] count_in(a@, k) == count_in(b@, k)),
{
    let mut i: usize = 0;
    while i < a.len()
        invariant
            i <= a.len(),
            forall|j: int| 0 <= j < i ==> count_in(a@, (#[trigger] a@[j]).0@) == count_in(b@, a@[j].0@),
        decreases a.len() - i,
    {
        if count_any(a, &a[i].0) != count_any(b, &a[i].0) {
            return false;
        }
        i += 1;
    }
    let mut i: usize = 0;
    while i < b.len()
        invariant
            i <= b.len(),
            forall|j: int| 0 <= j < a.len() ==> count_in(a@, (#[trigger] a@[j]).0@) == count_in(b@, a@[j].0@),
            forall|j: int| 0 <= j < i ==> count_in(a@, (#[trigger] b@[j]).0@) == count_in(b@, b@[j].0@),
        decreases b.len() - i,
    {
        if count_any(a, &b[i].0) != count_any(b, &b[i].0) {
            return false;
        }
        i += 1;
    }
    proof {
        assert forall|k: Seq<char>| #[trigger] count_in(a@, k) == count_in(b@, k) by {
            if exists|j: int| 0 <= j < a.len() && (#[trigger] a@[j]).0@ == k {
                let j = choose|j: int| 0 <= j < a.len() && (#[trigger] a@[j]).0@ == k;
            } else if exists|j: int| 0 <= j < b.len() && (#[trigger] b@[j]).0@ == k {
                let j = choose|j: int| 0 <= j < b.len() && (#[trigger] b@[j]).0@ == k;
            } else {
                lemma_count_in_absent(a@, k);
                lemma_count_in_absent(b@, k);
            }
        }
    }
    true
}

/// Whether every n-gram of `t` has length `m`.
pub fn all_of_length(t: &Table, m: usize) -> (r: bool)
    ensures
        r == keys_len(t@, m as nat),
{
    let mut i: usize = 0;
    while i < t.len()
        invariant
            i <= t.len(),
            forall|j: int| 0 <= j < i ==> (#[trigger] t@[j]).0@.len() == m,
        decreases t.len() - i,
    {
        if t[i].0.len() != m {
            return false;
        }
        i += 1;
    }
    true
}

/// Whether every count of `t` is positive.
pub fn all_positive(t: &Table) -> (r: bool)
    ensures
        r == counts_positive(t@),
{
    let mut i: usize = 0;
    while i < t.len()
        invariant
            i <= t.len(),
            forall|j: int| 0 <= j < i ==> (#[trigger] t@[j]).1 > 0,
        decreases t.len() - i,
    {
        if t[i].1 == 0 {
            return false;
        }
        i += 1;
    }
    true
}

/// Whether no n-gram stands in two entries of `t`.
pub fn unique_keys(t: &Table) -> (r: bool)
    ensures
        r == keys_unique(t@),
{
    let mut i: usize = 0;
    while i < t.len()
        invariant
            i <= t.len(),
            forall|a: int, b: int| 0 <= a < i && 0 <= b < t.len() && a != b ==> #[trigger] t@[a].0@ != #[trigger] t@[b].0@,
        decreases t.len() - i,
    {
        let mut j: usize = 0;
        while j < t.len()
            invariant
                i < t.len(),
                j <= t.len(),
                forall|a: int, b: int| 0 <= a < i && 0 <= b < t.len() && a != b ==> #[trigger] t@[a].0@ != #[trigger] t@[b].0@,
                forall|b: int| 0 <= b < j && b != i ==> t@[i as int].0@ != #[trigger] t@[b].0@,
            decreases t.len() - j,
        {
            if j != i && same_chars(&t[i].0, &t[j].0) {
                return false;
            }
            j += 1;
        }
        i += 1;
    }
    true
}

/// The sum of the counts of `t`, which is below `2^128`.
pub fn table_total(t: &Table) -> (r: u128)
    ensures
        r == total(t@),
{
    let mut acc: u128 = 0;
    let mut i: usize = 0;
    while i < t.len()
        invariant
            i <= t.len(),
            acc == total(t@.take(i as int)),
            acc <= i * 0xffff_ffff_ffff_ffff,
        decreases t.len() - i,
    {
        proof {
            assert(t@.take(i + 1).drop_last() =~= t@.take(i as int));
            assert(one()(t@[i as int].0@) == 1);
            assert(total(t@.take(i + 1)) == total(t@.take(i as int)) + t@[i as int].1);
            assert(i * 0xffff_ffff_ffff_ffff + 0xffff_ffff_ffff_ffff == (i + 1) * 0xffff_ffff_ffff_ffff) by (nonlinear_arith);
            assert((i + 1) * 0xffff_ffff_ffff_ffff <= 0x1_0000_0000_0000_0000 * 0xffff_ffff_ffff_ffff) by (nonlinear_arith)
                requires
                    i + 1 <= 0x1_0000_0000_0000_0000,
            ;
        }
        acc = acc + t[i].1 as u128;
        i += 1;
    }
    proof {
        assert(t@.take(t.len() as int) =~= t@);
    }
    acc
}

/// Whether two n-grams hold the same characters.
pub fn same_chars(a: &Vec<char>, b: &Vec<char>) -> (r: bool)
    ensures
        r == (a@ == b@),
{
    if a.len() != b.len() {
        return false;
    }
    let mut i: usize = 0;
    while i < a.len()
        invariant
            a.len() == b.len(),
            i <= a.len(),
            forall|j: int| 0 <= j < i ==> a@[j] == b@[j],
        decreases a.len() - i,
    {
        if a[i] != b[i] {
            return false;
        }
        i += 1;
    }
    assert(a@ =~= b@);
    true
}

/// The index of the entry that holds `k`, if any.
pub fn find_entry(t: &Table, k: &Vec<char>) -> (r: Option<usize>)
    ensures
        r is Some ==> r->Some_0 < t.len() && t@[r->Some_0 as int].0@ == k@,
        r is None ==> forall|i: int| 0 <= i < t.len() ==> t@[i].0@ != k@,
{
    let mut i: usize = 0;
    while i < t.len()
        invariant
            i <= t.len(),
            forall|j: int| 0 <= j < i ==> t@[j].0@ != k@,
        decreases t.len() - i,
    {
        if same_chars(&t[i].0, k) {
            return Some(i);
        }
        i += 1;
    }
    None
}

/// Adds `c` occurrences of `k` to `t`.
pub fn bump(t: &mut Table, k: Vec<char>, c: u64)
    requires
        keys_unique(old(t)@),
        total(old(t)@) + c <= u64::MAX,
        c > 0,
    ensures
        keys_unique(final(t)@),
        counts_positive(old(t)@) ==> counts_positive(final(t)@),
        forall|m: nat| keys_len(old(t)@, m) && k@.len() == m ==> #[trigger] keys_len(final(t)@, m),
        forall|g: spec_fn(Seq<char>) -> int| #[trigger] weighted(final(t)@, g) == weighted(old(t)@, g) + c * g(k@),
{
    match find_entry(t, &k) {
        Some(j) => {
            proof {
                lemma_total_bounds_entry(t@, j as int);
            }
            let v = t[j].1;
            let ghost before = t@;
            let ghost kv = k@;
            t.set(j, (k, v + c));
            proof {
                assert forall|g: spec_fn(Seq<char>) -> int| #[trigger] weighted(t@, g) == weighted(before, g) + c * g(kv) by {
                    lemma_weighted_update(before, j as int, t@[j as int], g);
                }
                assert forall|a: int, b: int| 0 <= a < t.len() && 0 <= b < t.len() && a != b implies #[trigger] t@[a].0@
                    != #[trigger] t@[b].0@ by {
                    assert(before[a].0@ != before[b].0@);
                }
                assert(counts_positive(before) ==> counts_positive(t@)) by {
                    if counts_positive(before) {
                        assert forall|i: int| 0 <= i < t.len() implies (#[trigger] t@[i]).1 > 0 by {
                            assert(before[i].1 > 0);
                        }
                    }
                }
                assert forall|m: nat| keys_len(before, m) && kv.len() == m implies #[trigger] keys_len(t@, m) by {
                    assert forall|i: int| 0 <= i < t.len() implies (#[trigger] t@[i]).0@.len() == m by {
                        assert(before[i].0@.len() == m);
                    }
                }
            }
        },
        None => {
            let ghost before = t@;
            let ghost e = (k, c);
            t.push((k, c));
            proof {
                assert forall|g: spec_fn(Seq<char>) -> int| #[trigger] weighted(t@, g) == weighted(before, g) + c * g(e.0@) by {
                    lemma_weighted_push(before, e, g);
                }
                assert forall|a: int, b: int| 0 <= a < t.len() && 0 <= b < t.len() && a != b implies #[trigger] t@[a].0@
                    != #[trigger] t@[b].0@ by {
                    if a < before.len() && b < before.len() {
                        assert(before[a].0@ != before[b].0@);
                    }
                }
                assert(counts_positive(before) ==> counts_positive(t@)) by {
                    if counts_positive(before) {
                        assert forall|i: int| 0 <= i < t.len() implies (#[trigger] t@[i]).1 > 0 by {
                            if i < before.len() {
                                assert(before[i].1 > 0);
                            }
                        }
                    }
                }
                assert forall|m: nat| keys_len(before, m) && e.0@.len() == m implies #[trigger] keys_len(t@, m) by {
                    assert forall|i: int| 0 <= i < t.len() implies (#[trigger] t@[i]).0@.len() == m by {
                        if i < before.len() {
                            assert(before[i].0@.len() == m);
                        }
                    }
                }
            }
        },
    }
}

/// Adds `c` occurrences of each of `ws[lo..hi]` to `t`.
pub fn add_windows(t: &mut Table, ws: &Vec<Vec<char>>, lo: usize, hi: usize, c: u64)
    requires
        lo <= hi <= ws.len(),
        keys_unique(old(t)@),
        total(old(t)@) + c * (hi - lo) <= u64::MAX,
        c > 0,
    ensures
        keys_unique(final(t)@),
        counts_positive(old(t)@) ==> counts_positive(final(t)@),
        forall|m: nat|
            keys_len(old(t)@, m) && (forall|j: int| lo <= j < hi ==> (#[trigger] ws@[j])@.len() == m)
                ==> #[trigger] keys_len(final(t)@, m),
        forall|g: spec_fn(Seq<char>) -> int| #[trigger] weighted(final(t)@, g) == weighted(old(t)@, g) + c
            * sum_over(views(ws@).subrange(lo as int, hi as int), g),
{
    let ghost start = t@;
    let mut i: usize = lo;
    while i < hi
        invariant
            lo <= i <= hi <= ws.len(),
            keys_unique(t@),
            c > 0,
            counts_positive(start) ==> counts_positive(t@),
            total(start) + c * (hi - lo) <= u64::MAX,
            forall|m: nat|
                keys_len(start, m) && (forall|j: int| lo <= j < hi ==> (#[trigger] ws@[j])@.len() == m)
                    ==> #[trigger] keys_len(t@, m),
            forall|g: spec_fn(Seq<char>) -> int| #[trigger] weighted(t@, g) == weighted(start, g) + c * sum_over(
                views(ws@).subrange(lo as int, i as int),
                g,
            ),
        decreases hi - i,
    {
        proof {
            lemma_sum_over_one(views(ws@).subrange(lo as int, i as int));
            assert(total(t@) == total(start) + c * (i - lo));
            assert(c * (i - lo) + c <= c * (hi - lo)) by (nonlinear_arith)
                requires
                    i < hi,
            ;
        }
        let ghost before = t@;
        let w = ws[i].clone();
        bump(t, w, c);
        proof {
            assert forall|g: spec_fn(Seq<char>) -> int| #[trigger] weighted(t@, g) == weighted(start, g) + c * sum_over(
                views(ws@).subrange(lo as int, i + 1),
                g,
            ) by {
                let s = views(ws@).subrange(lo as int, i + 1);
                assert(s.drop_last() =~= views(ws@).subrange(lo as int, i as int));
                assert(s.last() == ws@[i as int]@);
                let a = sum_over(s.drop_last(), g);
                let b = g(s.last());
                assert(c * (a + b) == c * a + c * b) by (nonlinear_arith);
            }
        }
        i += 1;
    }
}


pub proof fn lemma_weighted_take_step(t: Seq<(Vec<char>, u64)>, i: int, g: spec_fn(Seq<char>) -> int)
    requires
        0 <= i < t.len(),
    ensures
        weighted(t.take(i + 1), g) == weighted(t.take(i), g) + t[i].1 * g(t[i].0@),
{
    assert(t.take(i + 1).drop_last() =~= t.take(i));
}

pub proof fn lemma_weighted_take_le(t: Seq<(Vec<char>, u64)>, i: int, g: spec_fn(Seq<char>) -> int)
    requires
        0 <= i <= t.len(),
        forall|w: Seq<char>| #[trigger] g(w) >= 0,
    ensures
        weighted(t.take(i), g) <= weighted(t, g),
    decreases t.len() - i,
{
    if i < t.len() {
        lemma_weighted_take_step(t, i, g);
        assert(t[i].1 * g(t[i].0@) >= 0) by (nonlinear_arith)
            requires
                g(t[i].0@) >= 0,
        ;
        lemma_weighted_take_le(t, i + 1, g);
    } else {
        assert(t.take(i) =~= t);
    }
}

pub proof fn lemma_weighted_nonneg(t: Seq<(Vec<char>, u64)>, g: spec_fn(Seq<char>) -> int)
    requires
        forall|w: Seq<char>| #[trigger] g(w) >= 0,
    ensures
        weighted(t, g) >= 0,
    decreases t.len(),
{
    if t.len() > 0 {
        lemma_weighted_nonneg(t.drop_last(), g);
        assert(t.last().1 * g(t.last().0@) >= 0) by (nonlinear_arith)
            requires
                g(t.last().0@) >= 0,
        ;
    }
}

} // verus!
