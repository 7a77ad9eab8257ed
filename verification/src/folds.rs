//! Cutting rows into folds: shuffled by a seed, cut into parts of nearly equal size.

use crate::order::gather;
use crate::order::is_order;
use crate::order::lemma_gather_permutes;
use crate::order::sort_order;
use rand::rngs::StdRng;
use rand::seq::SliceRandom;
use rand::SeedableRng;
use vstd::prelude::*;
use vstd::seq_lib::*;

verus! {

/// The order into which a seed shuffles some rows.
pub uninterp spec fn shuffled(rows: Seq<usize>, seed: u64) -> Seq<usize>;

/// `SliceRandom::shuffle` with a `StdRng` made by `SeedableRng::seed_from_u64`: the rows in an
/// order that the seed and the rows alone decide, each as often as before. Which order it is, is
/// left unsaid.
#[verifier::external_body]
fn shuffle(rows: Vec<usize>, seed: u64) -> (r: Vec<usize>)
    ensures
        r@ == shuffled(rows@, seed),
        r@.to_multiset() == rows@.to_multiset(),
{
    let mut out = rows;
    out.shuffle(&mut StdRng::seed_from_u64(seed));
    out
}

/// The first `n` row numbers.
pub open spec fn first_rows(n: int) -> Seq<usize> {
    Seq::new(n as nat, |i: int| i as usize)
}

fn rows_below(n: usize) -> (r: Vec<usize>)
    ensures
        r@ == first_rows(n as int),
{
    let mut out: Vec<usize> = Vec::new();
    let mut i: usize = 0;
    while i < n
        invariant
            i <= n,
            out@ =~= first_rows(i as int),
        decreases n - i,
    {
        out.push(i);
        i += 1;
    }
    out
}

/// Whether some rows are all below `n`, and each once.
pub open spec fn is_permutation(p: Seq<usize>, n: int) -> bool {
    p.to_multiset() == first_rows(n).to_multiset()
}

/// A permutation of the rows has as many, each of them below their number, and none twice.
pub proof fn lemma_permutation(p: Seq<usize>, n: int)
    requires
        0 <= n <= usize::MAX,
        is_permutation(p, n),
    ensures
        p.len() == n,
        forall|i: int| 0 <= i < p.len() ==> #[trigger] p[i] < n,
        p.no_duplicates(),
        forall|r: usize| r < n ==> #[trigger] p.contains(r),
{
    let f = first_rows(n);
    p.to_multiset_ensures();
    f.to_multiset_ensures();
    assert forall|i: int| 0 <= i < p.len() implies #[trigger] p[i] < n by {
        assert(p.contains(p[i]));
        assert(p.to_multiset().count(p[i]) > 0);
        assert(f.to_multiset().count(p[i]) > 0);
        assert(f.contains(p[i]));
    }
    assert forall|r: usize| r < n implies #[trigger] p.contains(r) by {
        assert(f[r as int] == r);
        assert(f.contains(r));
        assert(f.to_multiset().count(r) > 0);
        assert(p.to_multiset().count(r) > 0);
    }
    assert(f.no_duplicates());
    f.lemma_multiset_has_no_duplicates();
    assert forall|x: usize| p.to_multiset().contains(x) implies p.to_multiset().count(x) == 1 by {
        assert(f.to_multiset().contains(x));
    }
    p.lemma_multiset_has_no_duplicates_conv();
}

// ---------------------------------------------------------------------------
// Cutting
// ---------------------------------------------------------------------------

/// Where the `f`-th of `k` folds of `n` rows begins.
pub open spec fn fold_start(n: int, k: int, f: int) -> int {
    f * n / k
}

/// The rows of the `f`-th of `k` folds.
pub open spec fn fold_rows(p: Seq<usize>, k: int, f: int) -> Seq<usize> {
    p.subrange(fold_start(p.len() as int, k, f), fold_start(p.len() as int, k, f + 1))
}

/// The folds begin at the first row, end at the last, and follow each other; their sizes differ by
/// one at most.
pub proof fn lemma_fold_starts(n: int, k: int, f: int)
    requires
        0 <= n,
        0 <= f < k,
    ensures
        fold_start(n, k, 0) == 0,
        fold_start(n, k, k) == n,
        0 <= fold_start(n, k, f) <= fold_start(n, k, f + 1) <= n,
        n / k <= fold_start(n, k, f + 1) - fold_start(n, k, f) <= n / k + 1,
{
    let a = f * n;
    let b = (f + 1) * n;
    assert(0 * n == 0);
    assert(0int / k == 0) by (nonlinear_arith)
        requires
            k > 0,
    ;
    assert(k * n / k == n) by (nonlinear_arith)
        requires
            k > 0,
    ;
    assert(b == a + n) by (nonlinear_arith)
        requires
            a == f * n,
            b == (f + 1) * n,
    ;
    assert(0 <= a && b <= k * n) by (nonlinear_arith)
        requires
            a == f * n,
            b == (f + 1) * n,
            0 <= f < k,
            0 <= n,
    ;
    let q = n / k;
    let r = n % k;
    let u = a / k;
    let v = a % k;
    let w = b / k;
    let z = b % k;
    assert(n == q * k + r && 0 <= r < k) by (nonlinear_arith)
        requires
            k > 0,
            q == n / k,
            r == n % k,
    ;
    assert(a == u * k + v && 0 <= v < k) by (nonlinear_arith)
        requires
            k > 0,
            u == a / k,
            v == a % k,
    ;
    assert(b == w * k + z && 0 <= z < k) by (nonlinear_arith)
        requires
            k > 0,
            w == b / k,
            z == b % k,
    ;
    assert(q <= w - u <= q + 1) by (nonlinear_arith)
        requires
            k > 0,
            n == q * k + r,
            0 <= r < k,
            a == u * k + v,
            0 <= v < k,
            b == w * k + z,
            0 <= z < k,
            b == a + n,
    ;
    assert(0 <= q) by (nonlinear_arith)
        requires
            n == q * k + r,
            0 <= n,
            r < k,
            k > 0,
    ;
    assert(0 <= u) by (nonlinear_arith)
        requires
            a == u * k + v,
            0 <= a,
            v < k,
            k > 0,
    ;
    assert(w <= n) by (nonlinear_arith)
        requires
            b == w * k + z,
            0 <= z,
            b <= k * n,
            k > 0,
    ;
}

fn start_of(n: usize, k: usize, f: usize) -> (r: usize)
    requires
        k > 0,
        f <= k,
        n * k <= usize::MAX,
    ensures
        r == fold_start(n as int, k as int, f as int),
        r <= n,
{
    proof {
        assert(f * n <= n * k) by (nonlinear_arith)
            requires
                0 <= f <= k,
                0 <= n,
        ;
        if f == k {
            assert(k * n / (k as int) == n) by (nonlinear_arith)
                requires
                    k > 0,
            ;
        } else {
            lemma_fold_starts(n as int, k as int, f as int);
        }
    }
    f * n / k
}

fn part(p: &Vec<usize>, from: usize, to: usize) -> (r: Vec<usize>)
    requires
        from <= to <= p.len(),
    ensures
        r@ == p@.subrange(from as int, to as int),
{
    let mut out: Vec<usize> = Vec::new();
    let mut i: usize = from;
    while i < to
        invariant
            from <= i <= to <= p.len(),
            out@ =~= p@.subrange(from as int, i as int),
        decreases to - i,
    {
        out.push(p[i]);
        i += 1;
    }
    out
}

/// The contents of some lists of rows.
pub open spec fn row_lists(v: Seq<Vec<usize>>) -> Seq<Seq<usize>> {
    v.map_values(|x: Vec<usize>| x@)
}

/// The folds of some rows.
pub open spec fn folds_of(p: Seq<usize>, k: int) -> Seq<Seq<usize>> {
    Seq::new(k as nat, |f: int| fold_rows(p, k, f))
}

/// Cuts rows into `k` folds.
pub fn cut_folds(p: &Vec<usize>, k: usize) -> (r: Vec<Vec<usize>>)
    requires
        k > 0,
        p.len() * k <= usize::MAX,
    ensures
        row_lists(r@) == folds_of(p@, k as int),
{
    let n: usize = p.len();
    let mut out: Vec<Vec<usize>> = Vec::new();
    let mut f: usize = 0;
    while f < k
        invariant
            f <= k,
            k > 0,
            n == p.len(),
            n * k <= usize::MAX,
            row_lists(out@) =~= folds_of(p@, k as int).take(f as int),
        decreases k - f,
    {
        let ghost before = out@;
        let a: usize = start_of(n, k, f);
        let b: usize = start_of(n, k, f + 1);
        proof {
            lemma_fold_starts(n as int, k as int, f as int);
        }
        let rows: Vec<usize> = part(p, a, b);
        out.push(rows);
        proof {
            assert(rows@ == fold_rows(p@, k as int, f as int));
            assert(row_lists(out@) =~= row_lists(before).push(rows@));
            assert(folds_of(p@, k as int).take(f + 1) =~= folds_of(p@, k as int).take(
                f as int,
            ).push(fold_rows(p@, k as int, f as int)));
        }
        f += 1;
    }
    proof {
        assert(folds_of(p@, k as int).take(k as int) =~= folds_of(p@, k as int));
    }
    out
}

/// Lists put one after the other.
pub open spec fn strung(s: Seq<Seq<usize>>) -> Seq<usize>
    decreases s.len(),
{
    if s.len() == 0 {
        Seq::empty()
    } else {
        strung(s.drop_last()) + s.last()
    }
}

/// Folds lose no row and take none twice: put one after the other they are the rows again.
pub proof fn lemma_folds_partition(p: Seq<usize>, k: int, f: int)
    requires
        0 < k,
        0 <= f <= k,
    ensures
        strung(folds_of(p, k).take(f)) == p.take(fold_start(p.len() as int, k, f)),
        f == k ==> strung(folds_of(p, k)) == p,
    decreases f,
{
    let n = p.len() as int;
    let all = folds_of(p, k);
    if f > 0 {
        lemma_folds_partition(p, k, f - 1);
        lemma_fold_starts(n, k, f - 1);
        assert(all.take(f).drop_last() =~= all.take(f - 1));
        assert(all.take(f).last() == fold_rows(p, k, f - 1));
        assert(p.take(fold_start(n, k, f - 1)) + fold_rows(p, k, f - 1) =~= p.take(
            fold_start(n, k, f),
        ));
        if f == k {
            assert(all.take(k) =~= all);
            assert(p.take(n) =~= p);
        }
    } else {
        lemma_fold_starts(n, k, 0);
        assert(all.take(0) =~= Seq::<Seq<usize>>::empty());
        assert(p.take(0) =~= Seq::<usize>::empty());
    }
}

/// The folds of `n` rows, shuffled by a seed.
pub open spec fn seeded_folds(n: int, k: int, seed: u64) -> Seq<Seq<usize>> {
    folds_of(shuffled(first_rows(n), seed), k)
}

/// Cuts `n` rows, shuffled by a seed, into `k` folds.
pub fn permuted_folds(n: usize, k: usize, seed: u64) -> (r: Vec<Vec<usize>>)
    requires
        k > 0,
        n * k <= usize::MAX,
    ensures
        row_lists(r@) == seeded_folds(n as int, k as int, seed),
        is_permutation(strung(row_lists(r@)), n as int),
{
    let p: Vec<usize> = shuffle(rows_below(n), seed);
    proof {
        assert(is_permutation(p@, n as int));
        lemma_permutation(p@, n as int);
        lemma_folds_partition(p@, k as int, k as int);
    }
    cut_folds(&p, k)
}

/// Whether `of` gives each row of the folds the number of its fold.
pub open spec fn folds_assigned(folds: Seq<Seq<usize>>, of: Seq<u32>) -> bool {
    forall|f: int, i: int|
        0 <= f < folds.len() && 0 <= i < folds[f].len() ==> of[#[trigger] folds[f][i] as int] == f
}

/// Whether no row stands in the folds twice.
pub open spec fn folds_distinct(folds: Seq<Seq<usize>>) -> bool {
    forall|f: int, i: int, g: int, j: int|
        0 <= f < folds.len() && 0 <= i < folds[f].len() && 0 <= g < folds.len() && 0 <= j
            < folds[g].len() && #[trigger] folds[f][i] == #[trigger] folds[g][j] ==> f == g && i
            == j
}

/// Gives each row the number of its fold; a row in no fold gets none but zero.
pub fn assign_from(folds: &Vec<Vec<usize>>, n: usize) -> (r: Vec<u32>)
    requires
        folds.len() <= u32::MAX,
        folds_distinct(row_lists(folds@)),
        forall|f: int, i: int|
            0 <= f < folds.len() && 0 <= i < folds[f].len() ==> #[trigger] row_lists(folds@)[f][i]
                < n,
    ensures
        r.len() == n,
        folds_assigned(row_lists(folds@), r@),
        forall|x: int|
            0 <= x < n && (forall|f: int, i: int|
                0 <= f < folds.len() && 0 <= i < folds[f].len()
                    ==> #[trigger] row_lists(folds@)[f][i] != x) ==> #[trigger] r@[x] == 0,
{
    let mut of: Vec<u32> = Vec::new();
    let mut z: usize = 0;
    while z < n
        invariant
            z <= n,
            of.len() == z,
            forall|x: int| 0 <= x < z ==> #[trigger] of@[x] == 0,
        decreases n - z,
    {
        of.push(0);
        z += 1;
    }
    let ghost l = row_lists(folds@);
    let mut f: usize = 0;
    while f < folds.len()
        invariant
            f <= folds.len() <= u32::MAX,
            of.len() == n,
            l == row_lists(folds@),
            folds_distinct(l),
            forall|g: int, i: int|
                0 <= g < folds.len() && 0 <= i < folds[g].len() ==> #[trigger] l[g][i] < n,
            forall|g: int, i: int|
                0 <= g < f && 0 <= i < l[g].len() ==> of@[#[trigger] l[g][i] as int] == g,
            forall|x: int|
                0 <= x < n && (forall|g: int, i: int|
                    0 <= g < folds.len() && 0 <= i < folds[g].len() ==> #[trigger] l[g][i] != x)
                    ==> #[trigger] of@[x] == 0,
        decreases folds.len() - f,
    {
        let mut i: usize = 0;
        while i < folds[f].len()
            invariant
                f < folds.len() <= u32::MAX,
                i <= folds[f as int].len(),
                of.len() == n,
                l == row_lists(folds@),
                folds_distinct(l),
                forall|g: int, j: int|
                    0 <= g < folds.len() && 0 <= j < folds[g].len() ==> #[trigger] l[g][j] < n,
                forall|g: int, j: int|
                    0 <= g < f && 0 <= j < l[g].len() ==> of@[#[trigger] l[g][j] as int] == g,
                forall|j: int| 0 <= j < i ==> of@[#[trigger] l[f as int][j] as int] == f,
                forall|x: int|
                    0 <= x < n && (forall|g: int, j: int|
                        0 <= g < folds.len() && 0 <= j < folds[g].len() ==> #[trigger] l[g][j]
                            != x) ==> #[trigger] of@[x] == 0,
            decreases folds[f as int].len() - i,
        {
            let row: usize = folds[f][i];
            proof {
                assert(l[f as int][i as int] == row);
            }
            let ghost before = of@;
            of.set(row, f as u32);
            proof {
                assert forall|g: int, j: int| 0 <= g < f && 0 <= j < l[g].len() implies of@[
                #[trigger] l[g][j] as int] == g by {
                    assert(l[g][j] != l[f as int][i as int]);
                }
                assert forall|j: int| 0 <= j < i + 1 implies of@[#[trigger] l[f as int][j] as int]
                    == f by {
                    if j < i {
                        assert(l[f as int][j] != l[f as int][i as int]);
                    }
                }
                assert forall|x: int|
                    0 <= x < n && (forall|g: int, j: int|
                        0 <= g < folds.len() && 0 <= j < folds[g].len() ==> #[trigger] l[g][j]
                            != x) implies #[trigger] of@[x] == 0 by {
                    assert(l[f as int][i as int] != x);
                    assert(before[x] == 0);
                }
            }
            i += 1;
        }
        f += 1;
    }
    of
}

/// The folds of a permutation hold no row twice, and only rows there are.
proof fn lemma_cut_distinct(p: Seq<usize>, n: int, k: int)
    requires
        is_permutation(p, n),
        0 <= n <= usize::MAX,
        0 < k,
    ensures
        folds_distinct(folds_of(p, k)),
        forall|f: int, i: int|
            0 <= f < k && 0 <= i < folds_of(p, k)[f].len() ==> #[trigger] folds_of(p, k)[f][i] < n,
{
    lemma_permutation(p, n);
    let l = folds_of(p, k);
    assert forall|f: int, i: int| 0 <= f < k && 0 <= i < l[f].len() implies #[trigger] l[f][i]
        < n by {
        lemma_fold_starts(n, k, f);
        assert(l[f][i] == p[fold_start(n, k, f) + i]);
    }
    assert forall|f: int, i: int, g: int, j: int|
        0 <= f < l.len() && 0 <= i < l[f].len() && 0 <= g < l.len() && 0 <= j < l[g].len()
            && #[trigger] l[f][i] == #[trigger] l[g][j] implies f == g && i == j by {
        lemma_fold_starts(n, k, f);
        lemma_fold_starts(n, k, g);
        let a = fold_start(n, k, f) + i;
        let b = fold_start(n, k, g) + j;
        assert(p[a] == p[b]);
        assert(a == b);
        if f < g {
            lemma_starts_ordered(n, k, f + 1, g);
        } else if g < f {
            lemma_starts_ordered(n, k, g + 1, f);
        }
    }
}

proof fn lemma_starts_ordered(n: int, k: int, f: int, g: int)
    requires
        0 <= n,
        0 <= f <= g < k,
    ensures
        fold_start(n, k, f) <= fold_start(n, k, g),
    decreases g - f,
{
    if f < g {
        lemma_fold_starts(n, k, f);
        lemma_starts_ordered(n, k, f + 1, g);
    }
}

/// Gives each of `n` rows the number of its fold, of `k` folds shuffled by a seed; with one fold
/// every row is in it.
pub fn assign_folds(n: usize, k: usize, seed: u64) -> (r: Vec<u32>)
    requires
        n * k <= usize::MAX,
        k <= u32::MAX,
    ensures
        r.len() == n,
        k > 1 ==> folds_assigned(seeded_folds(n as int, k as int, seed), r@),
        k <= 1 ==> forall|x: int| 0 <= x < n ==> #[trigger] r@[x] == 0,
{
    if k > 1 {
        let p: Vec<usize> = shuffle(rows_below(n), seed);
        proof {
            assert(is_permutation(p@, n as int));
            lemma_permutation(p@, n as int);
            lemma_cut_distinct(p@, n as int, k as int);
        }
        let folds: Vec<Vec<usize>> = cut_folds(&p, k);
        proof {
            let l = row_lists(folds@);
            assert(l.len() == folds.len());
            assert forall|f: int, i: int|
                0 <= f < folds.len() && 0 <= i < folds[f].len() implies #[trigger] l[f][i] < n by {
                assert(l[f] == folds_of(p@, k as int)[f]);
                assert(folds_of(p@, k as int)[f][i] < n);
            }
        }
        assign_from(&folds, n)
    } else {
        let none: Vec<Vec<usize>> = Vec::new();
        proof {
            assert(row_lists(none@) =~= Seq::<Seq<usize>>::empty());
        }
        assign_from(&none, n)
    }
}

/// With several folds every row is in one: what a row gets is the number of the fold that holds
/// it.
pub proof fn lemma_every_row_assigned(p: Seq<usize>, n: int, k: int, of: Seq<u32>, row: usize)
    requires
        is_permutation(p, n),
        0 <= n <= usize::MAX,
        0 < k,
        folds_assigned(folds_of(p, k), of),
        row < n,
    ensures
        of[row as int] < k,
        folds_of(p, k)[of[row as int] as int].contains(row),
{
    lemma_permutation(p, n);
    assert(p.contains(row));
    let i = p.index_of(row);
    let f = lemma_place_in_fold(n, k, i, 0);
    let j = i - fold_start(n, k, f);
    lemma_fold_starts(n, k, f);
    assert(folds_of(p, k)[f][j] == p[i]);
    assert(of[folds_of(p, k)[f][j] as int] == f);
}

proof fn lemma_place_in_fold(n: int, k: int, i: int, f: int) -> (r: int)
    requires
        0 <= i < n,
        0 <= f < k,
        fold_start(n, k, f) <= i,
    ensures
        f <= r < k,
        fold_start(n, k, r) <= i < fold_start(n, k, r + 1),
    decreases k - f,
{
    lemma_fold_starts(n, k, f);
    if i < fold_start(n, k, f + 1) {
        f
    } else {
        lemma_place_in_fold(n, k, i, f + 1)
    }
}

// ---------------------------------------------------------------------------
// Sorted rows
// ---------------------------------------------------------------------------

/// Whether rows do not go down.
pub open spec fn rising(v: Seq<usize>) -> bool {
    forall|i: int, j: int| 0 <= i < j < v.len() ==> #[trigger] v[i] <= #[trigger] v[j]
}

/// Sorts rows.
pub fn sort_rows(v: &Vec<usize>) -> (r: Vec<usize>)
    ensures
        rising(r@),
        r@.to_multiset() == v@.to_multiset(),
{
    let mut keys: Vec<u64> = Vec::new();
    let mut i: usize = 0;
    while i < v.len()
        invariant
            i <= v.len(),
            keys.len() == i,
            forall|k: int| 0 <= k < i ==> #[trigger] keys@[k] == v@[k],
        decreases v.len() - i,
    {
        keys.push(v[i] as u64);
        i += 1;
    }
    let perm: Vec<usize> = sort_order(&keys);
    let mut out: Vec<usize> = Vec::new();
    let mut j: usize = 0;
    while j < perm.len()
        invariant
            j <= perm.len(),
            keys.len() == v.len(),
            forall|k: int| 0 <= k < v.len() ==> #[trigger] keys@[k] == v@[k],
            is_order(keys@, perm@),
            out@ =~= gather(v@, perm@).take(j as int),
        decreases perm.len() - j,
    {
        out.push(v[perm[j]]);
        j += 1;
    }
    proof {
        assert(out@ =~= gather(v@, perm@));
        lemma_gather_permutes(keys@, perm@, v@);
        assert forall|a: int, b: int| 0 <= a < b < out.len() implies #[trigger] out@[a]
            <= #[trigger] out@[b] by {
            assert(crate::order::before(keys@, perm@[a], perm@[b]));
        }
    }
    out
}

/// The first `n_used` rows of an order, sorted.
pub fn sorted_head(p: &Vec<usize>, n_used: usize) -> (r: Vec<usize>)
    requires
        n_used <= p.len(),
    ensures
        rising(r@),
        r@.to_multiset() == p@.take(n_used as int).to_multiset(),
{
    let head: Vec<usize> = part(p, 0, n_used);
    proof {
        assert(p@.subrange(0, n_used as int) =~= p@.take(n_used as int));
    }
    sort_rows(&head)
}

/// Picks `n_used` of `n_pr` rows by a seed, in order.
pub fn build_sel_rows(n_pr: usize, n_used: usize, seed: u64) -> (r: Vec<usize>)
    requires
        n_used <= n_pr,
    ensures
        rising(r@),
        n_used == n_pr ==> r@ == first_rows(n_pr as int),
        n_used < n_pr ==> r@.to_multiset() == shuffled(first_rows(n_pr as int), seed).take(
            n_used as int,
        ).to_multiset(),
        r.len() == n_used,
        r@.no_duplicates(),
        forall|i: int| 0 <= i < r.len() ==> #[trigger] r@[i] < n_pr,
{
    if n_used == n_pr {
        return rows_below(n_pr);
    }
    let p: Vec<usize> = shuffle(rows_below(n_pr), seed);
    proof {
        assert(is_permutation(p@, n_pr as int));
        lemma_permutation(p@, n_pr as int);
    }
    let out: Vec<usize> = sorted_head(&p, n_used);
    proof {
        let head = p@.take(n_used as int);
        assert(head.no_duplicates());
        head.lemma_multiset_has_no_duplicates();
        out@.lemma_multiset_has_no_duplicates_conv();
        head.to_multiset_ensures();
        out@.to_multiset_ensures();
        assert forall|i: int| 0 <= i < out.len() implies #[trigger] out@[i] < n_pr by {
            assert(out@.contains(out@[i]));
            assert(out@.to_multiset().count(out@[i]) > 0);
            assert(head.to_multiset().count(out@[i]) > 0);
            assert(head.contains(out@[i]));
            let j = head.index_of(out@[i]);
            assert(head[j] == p@[j]);
        }
    }
    out
}

/// Whether `r` is a fold of chosen rows, sorted.
pub open spec fn sorted_fold(r: Seq<usize>, sel: Seq<usize>, fold: Seq<usize>) -> bool {
    rising(r) && r.to_multiset() == fold.map_values(|x: usize| sel[x as int]).to_multiset()
}

fn chosen(sel: &Vec<usize>, fold: &Vec<usize>) -> (r: Vec<usize>)
    requires
        forall|i: int| 0 <= i < fold.len() ==> #[trigger] fold@[i] < sel.len(),
    ensures
        r@ == fold@.map_values(|x: usize| sel@[x as int]),
{
    let mut out: Vec<usize> = Vec::new();
    let mut i: usize = 0;
    while i < fold.len()
        invariant
            i <= fold.len(),
            forall|k: int| 0 <= k < fold.len() ==> #[trigger] fold@[k] < sel.len(),
            out@ =~= fold@.map_values(|x: usize| sel@[x as int]).take(i as int),
        decreases fold.len() - i,
    {
        proof {
            assert(fold@[i as int] < sel.len());
        }
        out.push(sel[fold[i]]);
        i += 1;
    }
    out
}

/// Cuts chosen rows into `k` folds by a seed, each of them sorted; with fewer than two folds they
/// all stay together.
pub fn build_folds(sel: &Vec<usize>, k: usize, seed: u64) -> (r: Vec<Vec<usize>>)
    requires
        sel.len() * k <= usize::MAX,
    ensures
        k < 2 ==> row_lists(r@) == seq![sel@],
        k >= 2 ==> r.len() == k && forall|f: int|
            0 <= f < k ==> sorted_fold(
                (#[trigger] row_lists(r@)[f]),
                sel@,
                seeded_folds(sel.len() as int, k as int, seed)[f],
            ),
{
    if k < 2 {
        let mut one: Vec<Vec<usize>> = Vec::new();
        one.push(part(sel, 0, sel.len()));
        proof {
            assert(sel@.subrange(0, sel.len() as int) =~= sel@);
            assert(row_lists(one@) =~= seq![sel@]);
        }
        return one;
    }
    let p: Vec<usize> = shuffle(rows_below(sel.len()), seed);
    let ghost n = sel.len() as int;
    proof {
        assert(is_permutation(p@, n));
        lemma_permutation(p@, n);
        lemma_cut_distinct(p@, n, k as int);
    }
    let folds: Vec<Vec<usize>> = cut_folds(&p, k);
    let ghost l = row_lists(folds@);
    let mut out: Vec<Vec<usize>> = Vec::new();
    let mut f: usize = 0;
    proof {
        assert(l.len() == folds.len());
    }
    while f < folds.len()
        invariant
            f <= folds.len(),
            n == sel.len(),
            l == row_lists(folds@),
            l == folds_of(p@, k as int),
            forall|g: int, i: int| 0 <= g < l.len() && 0 <= i < l[g].len() ==> #[trigger] l[g][i] < n,
            out.len() == f,
            forall|g: int|
                0 <= g < f ==> sorted_fold((#[trigger] row_lists(out@)[g]), sel@, l[g]),
        decreases folds.len() - f,
    {
        proof {
            assert(l[f as int] == folds@[f as int]@);
            assert forall|i: int| 0 <= i < folds[f as int].len() implies (
            #[trigger] folds[f as int]@[i]) < sel.len() by {
                assert(l[f as int][i] < n);
            }
        }
        let picked: Vec<usize> = chosen(sel, &folds[f]);
        let sorted: Vec<usize> = sort_rows(&picked);
        let ghost before = out@;
        out.push(sorted);
        proof {
            assert(row_lists(out@) =~= row_lists(before).push(sorted@));
            assert forall|g: int| 0 <= g < f + 1 implies sorted_fold(
                (#[trigger] row_lists(out@)[g]),
                sel@,
                l[g],
            ) by {
                if g < f {
                    assert(row_lists(before)[g] == row_lists(out@)[g]);
                }
            }
        }
        f += 1;
    }
    out
}

/// A fold starts at its share of the rows, rounded down.
pub proof fn lemma_fold_share(n: int, k: int, f: int)
    requires
        0 <= n,
        0 < k,
        0 <= f,
    ensures
        fold_start(n, k, f) * k <= f * n < (fold_start(n, k, f) + 1) * k,
{
    vstd::arithmetic::div_mod::lemma_fundamental_div_mod(f * n, k);
    vstd::arithmetic::div_mod::lemma_mod_bound(f * n, k);
    let q = fold_start(n, k, f);
    assert(q * k == k * q) by (nonlinear_arith);
    assert((q + 1) * k == q * k + k) by (nonlinear_arith);
}

/// A sorted fold holds, in order, the chosen rows at the places of the fold, each as often as it is
/// there.
pub proof fn lemma_sorted_fold(r: Seq<usize>, sel: Seq<usize>, fold: Seq<usize>)
    requires
        sorted_fold(r, sel, fold),
    ensures
        r.len() == fold.len(),
        forall|i: int, j: int| 0 <= i < j < r.len() ==> #[trigger] r[i] <= #[trigger] r[j],
        forall|x: usize| #[trigger]
            r.contains(x) <==> exists|i: int|
                0 <= i < fold.len() && sel[#[trigger] fold[i] as int] == x,
{
    broadcast use vstd::seq_lib::group_to_multiset_ensures;

    let m = fold.map_values(|x: usize| sel[x as int]);
    assert(m.to_multiset().len() == m.len());
    assert(r.to_multiset().len() == r.len());
    assert forall|x: usize| #[trigger] r.contains(x) <==> exists|i: int|
        0 <= i < fold.len() && sel[#[trigger] fold[i] as int] == x by {
        assert(r.contains(x) <==> r.to_multiset().count(x) > 0);
        assert(m.contains(x) <==> m.to_multiset().count(x) > 0);
        if m.contains(x) {
            let i = m.index_of(x);
            assert(sel[fold[i] as int] == x);
        }
        if exists|i: int| 0 <= i < fold.len() && sel[#[trigger] fold[i] as int] == x {
            let i = choose|i: int| 0 <= i < fold.len() && sel[#[trigger] fold[i] as int] == x;
            assert(m[i] == x);
        }
    }
}

} // verus!
