//! Sorting by integer keys: the order in which rows are to be taken, the distinct values of a
//! list, and look-ups in a sorted list.

use vstd::prelude::*;

verus! {

/// Position `a` is taken before position `b`: its key is smaller, or the keys are equal and it
/// comes first.
pub open spec fn before(keys: Seq<u64>, a: usize, b: usize) -> bool {
    keys[a as int] < keys[b as int] || (keys[a as int] == keys[b as int] && a < b)
}

/// `perm` lists all positions of `keys`, in the order of their keys, earlier positions first
/// among equal keys.
pub open spec fn is_order(keys: Seq<u64>, perm: Seq<usize>) -> bool {
    &&& perm.len() == keys.len()
    &&& forall|i: int| 0 <= i < perm.len() ==> (#[trigger] perm[i]) < keys.len()
    &&& forall|i: int, j: int| 0 <= i < j < perm.len() ==> before(keys, perm[i], perm[j])
}

/// The items of `s` at the listed positions.
pub open spec fn gather<T>(s: Seq<T>, perm: Seq<usize>) -> Seq<T> {
    Seq::new(perm.len(), |i: int| s[perm[i] as int])
}

/// `v` is strictly increasing.
pub open spec fn increasing(v: Seq<u64>) -> bool {
    forall|i: int, j: int| 0 <= i < j < v.len() ==> v[i] < v[j]
}

spec fn sorted_run(keys: Seq<u64>, perm: Seq<usize>, lo: int, hi: int) -> bool {
    &&& perm.len() == hi - lo
    &&& forall|i: int| 0 <= i < perm.len() ==> lo <= (#[trigger] perm[i]) < hi
    &&& forall|i: int, j: int| 0 <= i < j < perm.len() ==> before(keys, perm[i], perm[j])
}

fn merge_runs(keys: &Vec<u64>, a: Vec<usize>, b: Vec<usize>, lo: usize, mid: usize, hi: usize) -> (r: Vec<
    usize,
>)
    requires
        lo <= mid <= hi <= keys.len(),
        sorted_run(keys@, a@, lo as int, mid as int),
        sorted_run(keys@, b@, mid as int, hi as int),
    ensures
        sorted_run(keys@, r@, lo as int, hi as int),
{
    let mut out: Vec<usize> = Vec::with_capacity(hi - lo);
    let mut i: usize = 0;
    let mut j: usize = 0;
    while i < a.len() || j < b.len()
        invariant
            lo <= mid <= hi <= keys.len(),
            sorted_run(keys@, a@, lo as int, mid as int),
            sorted_run(keys@, b@, mid as int, hi as int),
            i <= a.len(),
            j <= b.len(),
            sorted_run(keys@, out@, lo as int, hi as int) || out.len() < hi - lo,
            out.len() == i + j,
            forall|k: int| 0 <= k < out.len() ==> lo <= (#[trigger] out@[k]) < hi,
            forall|k: int, l: int| 0 <= k < l < out.len() ==> before(keys@, out@[k], out@[l]),
            forall|k: int|
                0 <= k < out.len() && i < a.len() ==> before(keys@, #[trigger] out@[k], a@[i as int]),
            forall|k: int|
                0 <= k < out.len() && j < b.len() ==> before(keys@, #[trigger] out@[k], b@[j as int]),
        decreases a.len() - i + (b.len() - j),
    {
        let left: bool = if i >= a.len() {
            false
        } else if j >= b.len() {
            true
        } else {
            keys[a[i]] <= keys[b[j]]
        };
        if left {
            proof {
                if i + 1 < a.len() {
                    assert(before(keys@, a@[i as int], a@[i + 1]));
                }
                if j < b.len() {
                    assert(a@[i as int] < mid <= b@[j as int]);
                }
            }
            out.push(a[i]);
            i += 1;
        } else {
            proof {
                if j + 1 < b.len() {
                    assert(before(keys@, b@[j as int], b@[j + 1]));
                }
                if i < a.len() {
                    assert(a@[i as int] < mid <= b@[j as int]);
                }
            }
            out.push(b[j]);
            j += 1;
        }
    }
    out
}

fn sort_run(keys: &Vec<u64>, lo: usize, hi: usize) -> (r: Vec<usize>)
    requires
        lo <= hi <= keys.len(),
    ensures
        sorted_run(keys@, r@, lo as int, hi as int),
    decreases hi - lo,
{
    if hi - lo <= 1 {
        let mut out: Vec<usize> = Vec::new();
        if lo < hi {
            out.push(lo);
        }
        return out;
    }
    let mid: usize = lo + (hi - lo) / 2;
    let a: Vec<usize> = sort_run(keys, lo, mid);
    let b: Vec<usize> = sort_run(keys, mid, hi);
    merge_runs(keys, a, b, lo, mid, hi)
}

/// The order in which the positions of `keys` are to be taken.
pub fn sort_order(keys: &Vec<u64>) -> (perm: Vec<usize>)
    ensures
        is_order(keys@, perm@),
{
    sort_run(keys, 0, keys.len())
}

/// The distinct values of `values`, increasing.
pub fn distinct_sorted(values: &Vec<u64>) -> (r: Vec<u64>)
    ensures
        increasing(r@),
        forall|x: u64| r@.contains(x) <==> values@.contains(x),
{
    let perm: Vec<usize> = sort_order(values);
    let mut out: Vec<u64> = Vec::new();
    let mut i: usize = 0;
    while i < perm.len()
        invariant
            is_order(values@, perm@),
            i <= perm.len(),
            increasing(out@),
            i > 0 ==> out.len() > 0 && out@.last() == values@[perm@[i - 1] as int],
            i == 0 ==> out.len() == 0,
            forall|k: int| 0 <= k < i ==> out@.contains(values@[#[trigger] perm@[k] as int]),
            forall|k: int| 0 <= k < out.len() ==> values@.contains(#[trigger] out@[k]),
        decreases perm.len() - i,
    {
        let x: u64 = values[perm[i]];
        if i == 0 || out[out.len() - 1] != x {
            let ghost old_out = out@;
            proof {
                if i > 0 {
                    assert(before(values@, perm@[i - 1], perm@[i as int]));
                }
            }
            out.push(x);
            proof {
                assert(out@.last() == x);
                assert(out@[out.len() - 1] == x);
                assert forall|k: int| 0 <= k < i implies out@.contains(
                    values@[#[trigger] perm@[k] as int],
                ) by {
                    let y = values@[perm@[k] as int];
                    let q = choose|q: int| 0 <= q < old_out.len() && old_out[q] == y;
                    assert(out@[q] == y);
                }
                assert(values@[perm@[i as int] as int] == x);
            }
        } else {
            proof {
                assert(out@[out.len() - 1] == values@[perm@[i as int] as int]);
            }
        }
        i += 1;
    }
    proof {
        assert forall|x: u64| out@.contains(x) <==> values@.contains(x) by {
            if values@.contains(x) {
                let p = choose|p: int| 0 <= p < values@.len() && values@[p] == x;
                lemma_order_reaches(values@, perm@, p as usize);
                let k = choose|k: int| 0 <= k < perm@.len() && perm@[k] == p;
                assert(out@.contains(values@[perm@[k] as int]));
            }
            if out@.contains(x) {
                let k = choose|k: int| 0 <= k < out@.len() && out@[k] == x;
                assert(values@.contains(out@[k]));
            }
        }
    }
    out
}

/// The position of `x` in an increasing list.
pub fn search(v: &Vec<u64>, x: u64) -> (r: Option<usize>)
    requires
        increasing(v@),
    ensures
        match r {
            Some(i) => i < v.len() && v@[i as int] == x,
            None => !v@.contains(x),
        },
{
    let mut lo: usize = 0;
    let mut hi: usize = v.len();
    while lo < hi
        invariant
            increasing(v@),
            lo <= hi <= v.len(),
            forall|k: int| 0 <= k < lo ==> v@[k] < x,
            forall|k: int| hi <= k < v.len() ==> v@[k] > x,
        decreases hi - lo,
    {
        let mid: usize = lo + (hi - lo) / 2;
        let y: u64 = v[mid];
        if y == x {
            return Some(mid);
        }
        if y < x {
            lo = mid + 1;
        } else {
            hi = mid;
        }
    }
    None
}

/// The position of `x` in an increasing list is the only one.
pub proof fn lemma_increasing_unique(v: Seq<u64>, i: int, j: int)
    requires
        increasing(v),
        0 <= i < v.len(),
        0 <= j < v.len(),
        v[i] == v[j],
    ensures
        i == j,
{
}

proof fn lemma_order_no_duplicates(keys: Seq<u64>, perm: Seq<usize>)
    requires
        is_order(keys, perm),
    ensures
        perm.no_duplicates(),
{
    assert forall|i: int, j: int| 0 <= i < perm.len() && 0 <= j < perm.len() && i != j implies perm[i]
        != perm[j] by {
        if i < j {
            assert(before(keys, perm[i], perm[j]));
        } else {
            assert(before(keys, perm[j], perm[i]));
        }
    }
}

proof fn lemma_full_range_reaches(perm: Seq<usize>, n: nat, p: usize)
    requires
        perm.len() == n,
        perm.no_duplicates(),
        forall|i: int| 0 <= i < perm.len() ==> (#[trigger] perm[i]) < n,
        p < n,
    ensures
        perm.contains(p),
{
    let ints: Seq<int> = perm.map_values(|x: usize| x as int);
    assert(ints.no_duplicates());
    ints.unique_seq_to_set();
    vstd::set_lib::lemma_int_range(0, n as int);
    let all = vstd::set_lib::set_int_range(0, n as int);
    assert(ints.to_set().subset_of(all)) by {
        assert forall|x: int| ints.to_set().contains(x) implies all.contains(x) by {
            let i = choose|i: int| 0 <= i < ints.len() && ints[i] == x;
            assert(perm[i] < n);
        }
    }
    vstd::set_lib::lemma_subset_equality(ints.to_set(), all);
    assert(all.contains(p as int));
    let i = choose|i: int| 0 <= i < ints.len() && ints[i] == p as int;
    assert(perm[i] == p);
}

/// An order lists every position.
pub proof fn lemma_order_reaches(keys: Seq<u64>, perm: Seq<usize>, p: usize)
    requires
        is_order(keys, perm),
        p < keys.len(),
    ensures
        exists|i: int| 0 <= i < perm.len() && perm[i] == p,
{
    lemma_order_no_duplicates(keys, perm);
    lemma_full_range_reaches(perm, keys.len(), p);
}

proof fn lemma_gather_full_range<T>(s: Seq<T>, perm: Seq<usize>)
    requires
        perm.len() == s.len(),
        s.len() <= usize::MAX,
        perm.no_duplicates(),
        forall|i: int| 0 <= i < perm.len() ==> (#[trigger] perm[i]) < s.len(),
    ensures
        gather(s, perm).to_multiset() == s.to_multiset(),
    decreases s.len(),
{
    if s.len() == 0 {
        assert(gather(s, perm) =~= s);
    } else {
        let n = s.len();
        let last = (n - 1) as usize;
        lemma_full_range_reaches(perm, n, last);
        let p = choose|p: int| 0 <= p < perm.len() && perm[p] == last;
        let rest = perm.remove(p);
        assert forall|i: int| 0 <= i < rest.len() implies (#[trigger] rest[i]) < s.drop_last().len() by {
            let o = if i < p {
                i
            } else {
                i + 1
            };
            assert(rest[i] == perm[o]);
            assert(perm[o] < n);
            assert(perm[o] != perm[p]);
        }
        assert(rest.no_duplicates()) by {
            assert forall|i: int, j: int|
                0 <= i < rest.len() && 0 <= j < rest.len() && i != j implies rest[i] != rest[j] by {
                let a = if i < p {
                    i
                } else {
                    i + 1
                };
                let b = if j < p {
                    j
                } else {
                    j + 1
                };
                assert(perm[a] != perm[b]);
            }
        }
        lemma_gather_full_range(s.drop_last(), rest);
        let g = gather(s, perm);
        let h = gather(s.drop_last(), rest);
        assert forall|i: int| 0 <= i < g.len() implies g[i] == h.insert(p, s.last())[i] by {
            if i < p {
                assert(rest[i] == perm[i]);
                assert(rest[i] < s.drop_last().len());
            } else if i > p {
                assert(rest[i - 1] == perm[i]);
                assert(rest[i - 1] < s.drop_last().len());
            }
        }
        assert(g =~= h.insert(p, s.last()));
        vstd::seq_lib::to_multiset_insert(h, p, s.last());
        vstd::seq_lib::to_multiset_build(s.drop_last(), s.last());
        assert(s.drop_last().push(s.last()) =~= s);
    }
}

/// Taking rows in an order loses no row and repeats none.
pub proof fn lemma_gather_permutes<T>(keys: Seq<u64>, perm: Seq<usize>, rows: Seq<T>)
    requires
        is_order(keys, perm),
        rows.len() == keys.len(),
        keys.len() <= usize::MAX,
    ensures
        gather(rows, perm).to_multiset() == rows.to_multiset(),
{
    lemma_order_no_duplicates(keys, perm);
    lemma_gather_full_range(rows, perm);
}

/// `v` does not go down.
pub open spec fn ascending(v: Seq<u64>) -> bool {
    forall|i: int, j: int| 0 <= i <= j < v.len() ==> #[trigger] v[i] <= #[trigger] v[j]
}

/// The values in order, each as often as before.
pub fn sorted_values(values: &Vec<u64>) -> (r: Vec<u64>)
    ensures
        ascending(r@),
        r@.to_multiset() == values@.to_multiset(),
{
    let perm: Vec<usize> = sort_order(values);
    let mut out: Vec<u64> = Vec::new();
    let mut i: usize = 0;
    while i < perm.len()
        invariant
            is_order(values@, perm@),
            i <= perm.len(),
            out@ =~= gather(values@, perm@).take(i as int),
        decreases perm.len() - i,
    {
        out.push(values[perm[i]]);
        i += 1;
    }
    proof {
        assert(out@ =~= gather(values@, perm@));
        lemma_gather_permutes(values@, perm@, values@);
        assert forall|a: int, b: int| 0 <= a <= b < out.len() implies #[trigger] out@[a]
            <= #[trigger] out@[b] by {
            if a < b {
                assert(before(values@, perm@[a], perm@[b]));
            }
        }
    }
    out
}

/// A position of `x` in an ascending list.
pub fn find_value(v: &Vec<u64>, x: u64) -> (r: Option<usize>)
    requires
        ascending(v@),
    ensures
        match r {
            Some(i) => i < v.len() && v@[i as int] == x,
            None => !v@.contains(x),
        },
{
    let mut lo: usize = 0;
    let mut hi: usize = v.len();
    while lo < hi
        invariant
            ascending(v@),
            lo <= hi <= v.len(),
            forall|k: int| 0 <= k < lo ==> #[trigger] v@[k] < x,
            forall|k: int| hi <= k < v.len() ==> #[trigger] v@[k] > x,
        decreases hi - lo,
    {
        let mid: usize = lo + (hi - lo) / 2;
        let y: u64 = v[mid];
        if y == x {
            return Some(mid);
        }
        if y < x {
            proof {
                assert forall|k: int| 0 <= k < mid + 1 implies #[trigger] v@[k] < x by {
                    assert(v@[k] <= v@[mid as int]);
                }
            }
            lo = mid + 1;
        } else {
            proof {
                assert forall|k: int| mid <= k < v.len() implies #[trigger] v@[k] > x by {
                    assert(v@[mid as int] <= v@[k]);
                }
            }
            hi = mid;
        }
    }
    None
}

/// An order lists every position once, smaller keys first, and earlier positions first among equal
/// keys.
pub proof fn lemma_order_exact(keys: Seq<u64>, perm: Seq<usize>)
    requires
        is_order(keys, perm),
        keys.len() <= usize::MAX,
    ensures
        perm.len() == keys.len(),
        perm.no_duplicates(),
        forall|p: usize| p < keys.len() <==> #[trigger] perm.contains(p),
        forall|i: int, j: int|
            0 <= i < j < perm.len() ==> keys[#[trigger] perm[i] as int]
                <= keys[#[trigger] perm[j] as int],
        forall|i: int, j: int|
            0 <= i < j < perm.len() && keys[perm[i] as int] == keys[perm[j] as int]
                ==> #[trigger] perm[i] < #[trigger] perm[j],
{
    assert forall|i: int, j: int| 0 <= i < j < perm.len() implies keys[#[trigger] perm[i] as int]
        <= keys[#[trigger] perm[j] as int] by {
        assert(before(keys, perm[i], perm[j]));
    }
    assert forall|i: int, j: int|
        0 <= i < j < perm.len() && keys[perm[i] as int] == keys[perm[j] as int] implies (
    #[trigger] perm[i]) < #[trigger] perm[j] by {
        assert(before(keys, perm[i], perm[j]));
    }
    assert forall|i: int, j: int|
        0 <= i < perm.len() && 0 <= j < perm.len() && i != j implies perm[i] != perm[j] by {
        if i < j {
            assert(before(keys, perm[i], perm[j]));
        } else {
            assert(before(keys, perm[j], perm[i]));
        }
    }
    assert forall|p: usize| p < keys.len() <==> #[trigger] perm.contains(p) by {
        if p < keys.len() {
            lemma_order_reaches(keys, perm, p);
        }
        if perm.contains(p) {
            let i = perm.index_of(p);
            assert(perm[i] < keys.len());
        }
    }
}

} // verus!
