//! What each user rated: the tables that the neighbourhood models look up.

use crate::order::ascending;
use crate::order::distinct_sorted;
use crate::order::find_value;
use crate::order::increasing;
use crate::order::sort_order;
use crate::order::sorted_values;
use vstd::prelude::*;
use vstd::seq_lib::*;

verus! {

/// The items of a user among some ratings, in their order.
pub open spec fn items_of(users: Seq<u32>, items: Seq<u64>, u: int) -> Seq<u64>
    decreases users.len(),
{
    if users.len() == 0 {
        Seq::empty()
    } else if users.last() == u {
        items_of(users.drop_last(), items.drop_last(), u).push(items.last())
    } else {
        items_of(users.drop_last(), items.drop_last(), u)
    }
}

fn empty_lists(n: usize) -> (r: Vec<Vec<u64>>)
    ensures
        r.len() == n,
        forall|u: int| 0 <= u < n ==> (#[trigger] r@[u])@ == Seq::<u64>::empty(),
{
    let mut out: Vec<Vec<u64>> = Vec::new();
    let mut i: usize = 0;
    while i < n
        invariant
            i <= n,
            out.len() == i,
            forall|u: int| 0 <= u < i ==> (#[trigger] out@[u])@ == Seq::<u64>::empty(),
        decreases n - i,
    {
        out.push(Vec::new());
        i += 1;
    }
    out
}

/// Parts the items of some ratings by user.
pub fn group_items(users: &Vec<u32>, items: &Vec<u64>, n_users: usize) -> (r: Vec<Vec<u64>>)
    requires
        users.len() == items.len(),
        forall|t: int| 0 <= t < users.len() ==> #[trigger] users@[t] < n_users,
    ensures
        r.len() == n_users,
        forall|u: int| 0 <= u < n_users ==> (#[trigger] r@[u])@ == items_of(users@, items@, u),
{
    let mut out: Vec<Vec<u64>> = empty_lists(n_users);
    let mut t: usize = 0;
    proof {
        assert(users@.take(0) =~= Seq::<u32>::empty());
    }
    while t < users.len()
        invariant
            t <= users.len(),
            users.len() == items.len(),
            forall|k: int| 0 <= k < users.len() ==> #[trigger] users@[k] < n_users,
            out.len() == n_users,
            forall|u: int|
                0 <= u < n_users ==> (#[trigger] out@[u])@ == items_of(
                    users@.take(t as int),
                    items@.take(t as int),
                    u,
                ),
        decreases users.len() - t,
    {
        let ghost before = out@;
        proof {
            assert(users@.take(t + 1).drop_last() =~= users@.take(t as int));
            assert(items@.take(t + 1).drop_last() =~= items@.take(t as int));
            assert(users@.take(t + 1).last() == users@[t as int]);
            assert(items@.take(t + 1).last() == items@[t as int]);
            assert(users@[t as int] < n_users);
        }
        let u: usize = users[t] as usize;
        out[u].push(items[t]);
        proof {
            assert forall|v: int| 0 <= v < n_users implies (#[trigger] out@[v])@ == items_of(
                users@.take(t + 1),
                items@.take(t + 1),
                v,
            ) by {
                assert(before[v]@ == items_of(users@.take(t as int), items@.take(t as int), v));
            }
        }
        t += 1;
    }
    proof {
        assert(users@.take(users.len() as int) =~= users@);
        assert(items@.take(items.len() as int) =~= items@);
    }
    out
}

/// What each user rated, what else they are known to have seen, and both together.
pub struct UserTables {
    /// The items that a user rated, in order.
    pub rated: Vec<Vec<u64>>,
    /// The items of the held-out ratings that the user did not rate, in order, each once.
    pub implicit: Vec<Vec<u64>>,
    /// Both, in order.
    pub all: Vec<Vec<u64>>,
}

/// Whether `r` is a user's rated items in order.
pub open spec fn is_rated_list(r: Seq<u64>, users: Seq<u32>, items: Seq<u64>, u: int) -> bool {
    ascending(r) && r.to_multiset() == items_of(users, items, u).to_multiset()
}

/// Whether `r` is what a user is known to have seen beyond what they rated.
pub open spec fn is_implicit_list(
    r: Seq<u64>,
    rated: Seq<u64>,
    users: Seq<u32>,
    items: Seq<u64>,
    u: int,
) -> bool {
    &&& increasing(r)
    &&& forall|x: u64| #[trigger]
        r.contains(x) <==> items_of(users, items, u).contains(x) && !rated.contains(x)
}

/// Whether `r` is two lists together, in order.
pub open spec fn is_union_list(r: Seq<u64>, a: Seq<u64>, b: Seq<u64>) -> bool {
    ascending(r) && r.to_multiset() == (a + b).to_multiset()
}

fn unrated(seen: &Vec<u64>, rated: &Vec<u64>) -> (r: Vec<u64>)
    requires
        ascending(rated@),
    ensures
        increasing(r@),
        forall|x: u64| #[trigger]
            r@.contains(x) <==> seen@.contains(x) && !rated@.contains(x),
{
    let mut fresh: Vec<u64> = Vec::new();
    let mut i: usize = 0;
    while i < seen.len()
        invariant
            i <= seen.len(),
            ascending(rated@),
            forall|x: u64| #[trigger]
                fresh@.contains(x) <==> seen@.take(i as int).contains(x) && !rated@.contains(x),
        decreases seen.len() - i,
    {
        let ghost before = fresh@;
        let y: u64 = seen[i];
        let found: bool = find_value(rated, y).is_some();
        proof {
            if found {
                assert(rated@.contains(y));
            }
        }
        if !found {
            fresh.push(y);
        }
        proof {
            let a = seen@.take(i as int);
            let b = seen@.take(i + 1);
            assert forall|x: u64| #[trigger]
                fresh@.contains(x) <==> b.contains(x) && !rated@.contains(x) by {
                assert(before.contains(x) <==> a.contains(x) && !rated@.contains(x));
                if a.contains(x) {
                    let k = a.index_of(x);
                    assert(b[k] == x);
                }
                if b.contains(x) {
                    let k = b.index_of(x);
                    if k < i {
                        assert(a[k] == x);
                    }
                }
                if before.contains(x) {
                    let k = before.index_of(x);
                    assert(fresh@[k] == x);
                }
                if fresh@.contains(x) {
                    let k = fresh@.index_of(x);
                    if k < before.len() {
                        assert(before[k] == x);
                    }
                }
                assert(b[i as int] == y);
                if !found {
                    assert(fresh@[before.len() as int] == y);
                }
            }
        }
        i += 1;
    }
    proof {
        assert(seen@.take(seen.len() as int) =~= seen@);
    }
    let out: Vec<u64> = distinct_sorted(&fresh);
    proof {
        assert forall|x: u64| #[trigger]
            out@.contains(x) <==> seen@.contains(x) && !rated@.contains(x) by {
            assert(out@.contains(x) <==> fresh@.contains(x));
        }
    }
    out
}

fn together(a: &Vec<u64>, b: &Vec<u64>) -> (r: Vec<u64>)
    ensures
        is_union_list(r@, a@, b@),
{
    let mut both: Vec<u64> = Vec::new();
    let mut i: usize = 0;
    while i < a.len()
        invariant
            i <= a.len(),
            both@ =~= a@.take(i as int),
        decreases a.len() - i,
    {
        both.push(a[i]);
        i += 1;
    }
    let mut j: usize = 0;
    while j < b.len()
        invariant
            j <= b.len(),
            both@ =~= a@ + b@.take(j as int),
        decreases b.len() - j,
    {
        both.push(b[j]);
        j += 1;
    }
    proof {
        assert(both@ =~= a@ + b@);
    }
    sorted_values(&both)
}

impl UserTables {
    /// Whether the tables are those of some ratings and some held-out ratings.
    pub open spec fn is_of(
        self,
        n_users: int,
        tr_users: Seq<u32>,
        tr_items: Seq<u64>,
        pr_users: Seq<u32>,
        pr_items: Seq<u64>,
    ) -> bool {
        &&& self.rated.len() == n_users
        &&& self.implicit.len() == n_users
        &&& self.all.len() == n_users
        &&& forall|u: int|
            0 <= u < n_users ==> is_rated_list((#[trigger] self.rated@[u])@, tr_users, tr_items, u)
        &&& forall|u: int|
            0 <= u < n_users ==> is_implicit_list(
                (#[trigger] self.implicit@[u])@,
                self.rated@[u]@,
                pr_users,
                pr_items,
                u,
            )
        &&& forall|u: int|
            0 <= u < n_users ==> is_union_list(
                (#[trigger] self.all@[u])@,
                self.rated@[u]@,
                self.implicit@[u]@,
            )
    }

    /// Builds the tables of some ratings and some held-out ratings.
    pub fn new(
        n_users: usize,
        tr_users: &Vec<u32>,
        tr_items: &Vec<u64>,
        pr_users: &Vec<u32>,
        pr_items: &Vec<u64>,
    ) -> (r: UserTables)
        requires
            tr_users.len() == tr_items.len(),
            pr_users.len() == pr_items.len(),
            forall|t: int| 0 <= t < tr_users.len() ==> #[trigger] tr_users@[t] < n_users,
            forall|t: int| 0 <= t < pr_users.len() ==> #[trigger] pr_users@[t] < n_users,
        ensures
            r.is_of(n_users as int, tr_users@, tr_items@, pr_users@, pr_items@),
    {
        let given: Vec<Vec<u64>> = group_items(tr_users, tr_items, n_users);
        let seen: Vec<Vec<u64>> = group_items(pr_users, pr_items, n_users);
        let mut rated: Vec<Vec<u64>> = Vec::new();
        let mut implicit: Vec<Vec<u64>> = Vec::new();
        let mut all: Vec<Vec<u64>> = Vec::new();
        let mut u: usize = 0;
        while u < n_users
            invariant
                u <= n_users,
                given.len() == n_users,
                seen.len() == n_users,
                forall|v: int|
                    0 <= v < n_users ==> (#[trigger] given@[v])@ == items_of(
                        tr_users@,
                        tr_items@,
                        v,
                    ),
                forall|v: int|
                    0 <= v < n_users ==> (#[trigger] seen@[v])@ == items_of(
                        pr_users@,
                        pr_items@,
                        v,
                    ),
                rated.len() == u,
                implicit.len() == u,
                all.len() == u,
                forall|v: int|
                    0 <= v < u ==> is_rated_list((#[trigger] rated@[v])@, tr_users@, tr_items@, v),
                forall|v: int|
                    0 <= v < u ==> is_implicit_list(
                        (#[trigger] implicit@[v])@,
                        rated@[v]@,
                        pr_users@,
                        pr_items@,
                        v,
                    ),
                forall|v: int|
                    0 <= v < u ==> is_union_list(
                        (#[trigger] all@[v])@,
                        rated@[v]@,
                        implicit@[v]@,
                    ),
            decreases n_users - u,
        {
            let a: Vec<u64> = sorted_values(&given[u]);
            let b: Vec<u64> = unrated(&seen[u], &a);
            let c: Vec<u64> = together(&a, &b);
            proof {
                assert(seen@[u as int]@ == items_of(pr_users@, pr_items@, u as int));
                assert(is_implicit_list(b@, a@, pr_users@, pr_items@, u as int));
            }
            rated.push(a);
            implicit.push(b);
            all.push(c);
            u += 1;
        }
        UserTables { rated, implicit, all }
    }
}

/// What a user rated and what else they saw have nothing in common, and both together are
/// everything that they rated or saw.
pub proof fn lemma_tables(
    t: UserTables,
    n_users: int,
    tr_users: Seq<u32>,
    tr_items: Seq<u64>,
    pr_users: Seq<u32>,
    pr_items: Seq<u64>,
    u: int,
    x: u64,
)
    requires
        t.is_of(n_users, tr_users, tr_items, pr_users, pr_items),
        0 <= u < n_users,
    ensures
        t.rated@[u]@.contains(x) == items_of(tr_users, tr_items, u).contains(x),
        !(t.rated@[u]@.contains(x) && t.implicit@[u]@.contains(x)),
        t.all@[u]@.contains(x) == (items_of(tr_users, tr_items, u).contains(x) || items_of(
            pr_users,
            pr_items,
            u,
        ).contains(x)),
{
    let a = t.rated@[u]@;
    let b = t.implicit@[u]@;
    let c = t.all@[u]@;
    let given = items_of(tr_users, tr_items, u);
    assert(is_rated_list(a, tr_users, tr_items, u));
    assert(is_implicit_list(b, a, pr_users, pr_items, u));
    assert(is_union_list(c, a, b));
    lemma_same_members(a, given, x);
    lemma_same_members(c, a + b, x);
    assert((a + b).contains(x) == (a.contains(x) || b.contains(x))) by {
        if a.contains(x) {
            let i = a.index_of(x);
            assert((a + b)[i] == x);
        }
        if b.contains(x) {
            let i = b.index_of(x);
            assert((a + b)[a.len() + i] == x);
        }
        if (a + b).contains(x) {
            let i = (a + b).index_of(x);
            if i < a.len() {
                assert(a[i] == x);
            } else {
                assert(b[i - a.len()] == x);
            }
        }
    }
    assert(b.contains(x) <==> items_of(pr_users, pr_items, u).contains(x) && !a.contains(x));
}

proof fn lemma_same_members(a: Seq<u64>, b: Seq<u64>, x: u64)
    requires
        a.to_multiset() == b.to_multiset(),
    ensures
        a.contains(x) == b.contains(x),
{
    a.to_multiset_ensures();
    b.to_multiset_ensures();
    assert(a.contains(x) <==> a.to_multiset().count(x) > 0);
    assert(b.contains(x) <==> b.to_multiset().count(x) > 0);
}

// ---------------------------------------------------------------------------
// Neighbours
// ---------------------------------------------------------------------------

/// A neighbour that a user knows: its rank, and its place among what the user rated.
#[derive(Clone, Copy, PartialEq, Eq, Structural, Debug)]
pub struct Hit {
    pub rank: usize,
    pub place: Option<usize>,
}

/// The ranks of the neighbours that stand in a list.
pub open spec fn ranks_in(nbrs: Seq<u64>, list: Seq<u64>) -> Seq<usize>
    decreases nbrs.len(),
{
    if nbrs.len() == 0 {
        Seq::empty()
    } else if list.contains(nbrs.last()) {
        ranks_in(nbrs.drop_last(), list).push((nbrs.len() - 1) as usize)
    } else {
        ranks_in(nbrs.drop_last(), list)
    }
}

/// The ranks of some neighbours.
pub open spec fn hit_ranks(hits: Seq<Hit>) -> Seq<usize> {
    hits.map_values(|h: Hit| h.rank)
}

/// Whether a neighbour's place is where it stands among what the user rated.
pub open spec fn is_placed(h: Hit, nbrs: Seq<u64>, rated: Seq<u64>) -> bool {
    match h.place {
        Some(p) => p < rated.len() && rated[p as int] == nbrs[h.rank as int],
        None => !rated.contains(nbrs[h.rank as int]),
    }
}

/// Lists the neighbours of an item that a user knows.
pub fn known_neighbors(nbrs: &Vec<u64>, all: &Vec<u64>, rated: &Vec<u64>) -> (r: Vec<Hit>)
    requires
        ascending(all@),
        ascending(rated@),
    ensures
        hit_ranks(r@) == ranks_in(nbrs@, all@),
        forall|k: int| 0 <= k < r.len() ==> is_placed(#[trigger] r@[k], nbrs@, rated@),
{
    let mut out: Vec<Hit> = Vec::new();
    let mut i: usize = 0;
    proof {
        assert(nbrs@.take(0) =~= Seq::<u64>::empty());
        assert(hit_ranks(out@) =~= Seq::<usize>::empty());
    }
    while i < nbrs.len()
        invariant
            i <= nbrs.len(),
            ascending(all@),
            ascending(rated@),
            hit_ranks(out@) == ranks_in(nbrs@.take(i as int), all@),
            forall|k: int| 0 <= k < out.len() ==> is_placed(#[trigger] out@[k], nbrs@, rated@),
        decreases nbrs.len() - i,
    {
        let j: u64 = nbrs[i];
        let ghost before = out@;
        proof {
            assert(nbrs@.take(i + 1).drop_last() =~= nbrs@.take(i as int));
            assert(nbrs@.take(i + 1).last() == j);
        }
        if find_value(all, j).is_some() {
            proof {
                assert(all@.contains(j));
            }
            let h: Hit = Hit { rank: i, place: find_value(rated, j) };
            out.push(h);
            proof {
                assert(hit_ranks(out@) =~= hit_ranks(before).push(i));
            }
        }
        i += 1;
    }
    proof {
        assert(nbrs@.take(nbrs.len() as int) =~= nbrs@);
    }
    out
}

/// How many of some neighbours the user rated.
pub open spec fn placed_count(hits: Seq<Hit>) -> int
    decreases hits.len(),
{
    if hits.len() == 0 {
        0
    } else if hits.last().place is Some {
        placed_count(hits.drop_last()) + 1
    } else {
        placed_count(hits.drop_last())
    }
}

/// Counts the neighbours that the user rated.
pub fn count_placed(hits: &Vec<Hit>) -> (r: usize)
    ensures
        r == placed_count(hits@),
        r <= hits.len(),
{
    let mut n: usize = 0;
    let mut i: usize = 0;
    proof {
        assert(hits@.take(0) =~= Seq::<Hit>::empty());
    }
    while i < hits.len()
        invariant
            i <= hits.len(),
            n <= i,
            n == placed_count(hits@.take(i as int)),
        decreases hits.len() - i,
    {
        proof {
            assert(hits@.take(i + 1).drop_last() =~= hits@.take(i as int));
            assert(hits@.take(i + 1).last() == hits@[i as int]);
        }
        if hits[i].place.is_some() {
            n += 1;
        }
        i += 1;
    }
    proof {
        assert(hits@.take(hits.len() as int) =~= hits@);
    }
    n
}

/// Whether `r` are the places of the `k` greatest scores, or of all, from the greatest down.
pub open spec fn is_top(scores: Seq<u64>, r: Seq<usize>, k: int) -> bool {
    &&& r.len() == (if scores.len() < k {
        scores.len() as int
    } else {
        k
    })
    &&& r.no_duplicates()
    &&& forall|i: int| 0 <= i < r.len() ==> #[trigger] r[i] < scores.len()
    &&& forall|i: int, j: int|
        0 <= i <= j < r.len() ==> scores[#[trigger] r[i] as int] >= scores[#[trigger] r[j] as int]
    &&& forall|i: int, c: usize|
        0 <= i < r.len() && c < scores.len() && !r.contains(c) ==> scores[#[trigger] r[i] as int]
            >= #[trigger] scores[c as int]
}

/// Finds the `k` greatest scores, from the greatest down.
pub fn top_k(scores: &Vec<u64>, k: usize) -> (r: Vec<usize>)
    ensures
        is_top(scores@, r@, k as int),
{
    let mut keys: Vec<u64> = Vec::new();
    let mut i: usize = 0;
    while i < scores.len()
        invariant
            i <= scores.len(),
            keys.len() == i,
            forall|j: int| 0 <= j < i ==> #[trigger] keys@[j] == u64::MAX - scores@[j],
        decreases scores.len() - i,
    {
        keys.push(u64::MAX - scores[i]);
        i += 1;
    }
    let perm: Vec<usize> = sort_order(&keys);
    let n: usize = if scores.len() < k {
        scores.len()
    } else {
        k
    };
    let mut out: Vec<usize> = Vec::new();
    let mut j: usize = 0;
    while j < n
        invariant
            j <= n <= perm.len(),
            out@ =~= perm@.take(j as int),
        decreases n - j,
    {
        out.push(perm[j]);
        j += 1;
    }
    proof {
        assert(out@ =~= perm@.take(n as int));
        assert forall|a: int, b: int| 0 <= a < out.len() && 0 <= b < out.len() && a != b implies out@[a]
            != out@[b] by {
            if a < b {
                assert(crate::order::before(keys@, perm@[a], perm@[b]));
            } else {
                assert(crate::order::before(keys@, perm@[b], perm@[a]));
            }
        }
        assert forall|a: int, b: int| 0 <= a <= b < out.len() implies scores@[
        #[trigger] out@[a] as int] >= scores@[#[trigger] out@[b] as int] by {
            if a < b {
                assert(crate::order::before(keys@, perm@[a], perm@[b]));
                assert(keys@[perm@[a] as int] <= keys@[perm@[b] as int]);
            }
        }
        assert forall|a: int, c: usize|
            0 <= a < out.len() && c < scores.len() && !out@.contains(c) implies scores@[
        #[trigger] out@[a] as int] >= #[trigger] scores@[c as int] by {
            crate::order::lemma_order_reaches(keys@, perm@, c);
            let b = choose|b: int| 0 <= b < perm.len() && perm@[b] == c;
            if b < n {
                assert(out@[b] == c);
            }
            assert(crate::order::before(keys@, perm@[a], perm@[b]));
            assert(keys@[perm@[a] as int] <= keys@[c as int]);
        }
    }
    out
}

// ---------------------------------------------------------------------------
// Ratings by user and by item
// ---------------------------------------------------------------------------

/// The places of an owner's ratings, in order.
pub open spec fn places_of(owners: Seq<u32>, o: int) -> Seq<usize>
    decreases owners.len(),
{
    if owners.len() == 0 {
        Seq::empty()
    } else if owners.last() == o {
        places_of(owners.drop_last(), o).push((owners.len() - 1) as usize)
    } else {
        places_of(owners.drop_last(), o)
    }
}

fn index_by(owners: &Vec<u32>, n: usize) -> (r: Vec<Vec<usize>>)
    requires
        forall|t: int| 0 <= t < owners.len() ==> #[trigger] owners@[t] < n,
    ensures
        r.len() == n,
        forall|o: int| 0 <= o < n ==> (#[trigger] r@[o])@ == places_of(owners@, o),
{
    let mut out: Vec<Vec<usize>> = Vec::new();
    let mut z: usize = 0;
    while z < n
        invariant
            z <= n,
            out.len() == z,
            forall|o: int| 0 <= o < z ==> (#[trigger] out@[o])@ == Seq::<usize>::empty(),
        decreases n - z,
    {
        out.push(Vec::new());
        z += 1;
    }
    let mut t: usize = 0;
    proof {
        assert(owners@.take(0) =~= Seq::<u32>::empty());
    }
    while t < owners.len()
        invariant
            t <= owners.len(),
            forall|k: int| 0 <= k < owners.len() ==> #[trigger] owners@[k] < n,
            out.len() == n,
            forall|o: int|
                0 <= o < n ==> (#[trigger] out@[o])@ == places_of(owners@.take(t as int), o),
        decreases owners.len() - t,
    {
        let ghost before = out@;
        proof {
            assert(owners@.take(t + 1).drop_last() =~= owners@.take(t as int));
            assert(owners@.take(t + 1).last() == owners@[t as int]);
            assert(owners@[t as int] < n);
        }
        let o: usize = owners[t] as usize;
        out[o].push(t);
        proof {
            assert forall|v: int| 0 <= v < n implies (#[trigger] out@[v])@ == places_of(
                owners@.take(t + 1),
                v,
            ) by {
                assert(before[v]@ == places_of(owners@.take(t as int), v));
            }
        }
        t += 1;
    }
    proof {
        assert(owners@.take(owners.len() as int) =~= owners@);
    }
    out
}

/// Lists the ratings of each user, and those of each item, by their places.
pub fn build_indices(users: &Vec<u32>, items: &Vec<u32>, n_users: usize, n_items: usize) -> (r: (
    Vec<Vec<usize>>,
    Vec<Vec<usize>>,
))
    requires
        forall|t: int| 0 <= t < users.len() ==> #[trigger] users@[t] < n_users,
        forall|t: int| 0 <= t < items.len() ==> #[trigger] items@[t] < n_items,
    ensures
        r.0.len() == n_users,
        r.1.len() == n_items,
        forall|u: int| 0 <= u < n_users ==> (#[trigger] r.0@[u])@ == places_of(users@, u),
        forall|i: int| 0 <= i < n_items ==> (#[trigger] r.1@[i])@ == places_of(items@, i),
{
    (index_by(users, n_users), index_by(items, n_items))
}

/// A rating stands in its owner's list, in no other, and once.
pub proof fn lemma_places_of(owners: Seq<u32>, o: int, t: usize)
    requires
        owners.len() <= usize::MAX,
    ensures
        places_of(owners, o).contains(t) <==> t < owners.len() && owners[t as int] == o,
        places_of(owners, o).no_duplicates(),
        forall|k: int|
            0 <= k < places_of(owners, o).len() ==> #[trigger] places_of(owners, o)[k]
                < owners.len(),
    decreases owners.len(),
{
    if owners.len() > 0 {
        let h = owners.drop_last();
        let a = places_of(h, o);
        let b = places_of(owners, o);
        let last = (owners.len() - 1) as usize;
        lemma_places_of(h, o, t);
        if a.contains(t) {
            let k = a.index_of(t);
            assert(b[k] == t);
        }
        if b.contains(t) {
            let k = b.index_of(t);
            if k < a.len() {
                assert(a[k] == t);
            }
        }
        if owners[owners.len() - 1] == o {
            assert(b[a.len() as int] == last);
        }
    }
}

// ---------------------------------------------------------------------------
// One place to a rating of an item
// ---------------------------------------------------------------------------

/// The row of an item's rating from one to five.
pub open spec fn rating_row_spec(item: int, rating: int) -> int {
    item * 5 + rating - 1
}

/// The row of an item's rating.
pub fn rating_row(item: usize, rating: u8) -> (r: usize)
    requires
        1 <= rating <= 5,
        item * 5 + 4 <= usize::MAX,
    ensures
        r == rating_row_spec(item as int, rating as int),
{
    item * 5 + (rating as usize - 1)
}

/// Two ratings share a row only if they are the same rating of the same item, and `n` items need
/// five rows each.
pub proof fn lemma_rating_rows(n: int, i: int, a: int, j: int, b: int)
    requires
        0 <= i < n,
        0 <= j < n,
        1 <= a <= 5,
        1 <= b <= 5,
    ensures
        0 <= rating_row_spec(i, a) < n * 5,
        rating_row_spec(i, a) == rating_row_spec(j, b) ==> i == j && a == b,
{
}

/// A user's items come in the order of the ratings: those of two lists are those of the first, then
/// those of the second.
pub proof fn lemma_items_of(
    a: Seq<u32>,
    ai: Seq<u64>,
    b: Seq<u32>,
    bi: Seq<u64>,
    x: u32,
    y: u64,
    u: int,
)
    requires
        a.len() == ai.len(),
        b.len() == bi.len(),
    ensures
        items_of(a + b, ai + bi, u) == items_of(a, ai, u) + items_of(b, bi, u),
        items_of(seq![x], seq![y], u) == (if x == u {
            seq![y]
        } else {
            Seq::empty()
        }),
    decreases b.len(),
{
    reveal_with_fuel(items_of, 2);
    assert(seq![x].drop_last() =~= Seq::empty());
    assert(seq![y].drop_last() =~= Seq::empty());
    if b.len() == 0 {
        assert(a + b =~= a);
        assert(ai + bi =~= ai);
        assert(items_of(a, ai, u) + items_of(b, bi, u) =~= items_of(a, ai, u));
    } else {
        lemma_items_of(a, ai, b.drop_last(), bi.drop_last(), x, y, u);
        assert((a + b).drop_last() =~= a + b.drop_last());
        assert((ai + bi).drop_last() =~= ai + bi.drop_last());
        assert((a + b).last() == b.last());
        assert((ai + bi).last() == bi.last());
        assert(items_of(a + b, ai + bi, u) =~= items_of(a, ai, u) + items_of(b, bi, u));
    }
}

/// The lists of a user are in order; an item is as often among the rated ones as it was rated, and
/// at most once among the implicit ones.
pub proof fn lemma_tables_in_order(
    t: UserTables,
    n_users: int,
    tr_users: Seq<u32>,
    tr_items: Seq<u64>,
    pr_users: Seq<u32>,
    pr_items: Seq<u64>,
    u: int,
    x: u64,
)
    requires
        t.is_of(n_users, tr_users, tr_items, pr_users, pr_items),
        0 <= u < n_users,
    ensures
        forall|i: int, j: int|
            0 <= i < j < t.rated@[u].len() ==> #[trigger] t.rated@[u]@[i]
                <= #[trigger] t.rated@[u]@[j],
        forall|i: int, j: int|
            0 <= i < j < t.implicit@[u].len() ==> #[trigger] t.implicit@[u]@[i]
                < #[trigger] t.implicit@[u]@[j],
        forall|i: int, j: int|
            0 <= i < j < t.all@[u].len() ==> #[trigger] t.all@[u]@[i] <= #[trigger] t.all@[u]@[j],
        t.rated@[u]@.to_multiset().count(x) == items_of(
            tr_users,
            tr_items,
            u,
        ).to_multiset().count(x),
        t.implicit@[u]@.contains(x) <==> items_of(pr_users, pr_items, u).contains(x) && !items_of(
            tr_users,
            tr_items,
            u,
        ).contains(x),
        t.all@[u].len() == t.rated@[u].len() + t.implicit@[u].len(),
{
    broadcast use vstd::seq_lib::group_to_multiset_ensures;

    lemma_tables(t, n_users, tr_users, tr_items, pr_users, pr_items, u, x);
    assert(is_rated_list(t.rated@[u]@, tr_users, tr_items, u));
    assert(is_implicit_list(t.implicit@[u]@, t.rated@[u]@, pr_users, pr_items, u));
    assert(is_union_list(t.all@[u]@, t.rated@[u]@, t.implicit@[u]@));
    assert(t.all@[u]@.to_multiset().len() == t.all@[u].len());
    assert((t.rated@[u]@ + t.implicit@[u]@).to_multiset().len() == t.rated@[u].len()
        + t.implicit@[u].len());
}

/// The ranks of the known neighbors go up, and a rank is among them if and only if its neighbor is in
/// the list.
pub proof fn lemma_ranks(nbrs: Seq<u64>, list: Seq<u64>, t: usize)
    requires
        nbrs.len() <= usize::MAX,
    ensures
        ranks_in(nbrs, list).contains(t) <==> t < nbrs.len() && list.contains(nbrs[t as int]),
        forall|k: int| 0 <= k < ranks_in(nbrs, list).len() ==> #[trigger] ranks_in(nbrs, list)[k] < nbrs.len(),
        forall|i: int, j: int|
            0 <= i < j < ranks_in(nbrs, list).len() ==> #[trigger] ranks_in(nbrs, list)[i]
                < #[trigger] ranks_in(nbrs, list)[j],
    decreases nbrs.len(),
{
    if nbrs.len() > 0 {
        let h = nbrs.drop_last();
        let n = nbrs.len() - 1;
        lemma_ranks(h, list, t);
        let before = ranks_in(h, list);
        let all = ranks_in(nbrs, list);
        if list.contains(nbrs.last()) {
            assert(all == before.push(n as usize));
            assert(all[before.len() as int] == n);
            if before.contains(t) {
                assert(all[before.index_of(t)] == t);
            }
            if all.contains(t) && t != n {
                assert(before[all.index_of(t)] == t);
            }
        }
        if t < n {
            assert(h[t as int] == nbrs[t as int]);
        }
    }
}

/// The placed hits are those with a place.
pub proof fn lemma_placed(hits: Seq<Hit>)
    ensures
        placed_count(hits) == hits.filter(|h: Hit| h.place is Some).len(),
    decreases hits.len(),
{
    reveal(Seq::filter);
    if hits.len() > 0 {
        lemma_placed(hits.drop_last());
    }
}

/// The top scores: as many as are asked for or all of them, each place once, none lower than one
/// that is left out, and the highest first.
pub proof fn lemma_top(scores: Seq<u64>, r: Seq<usize>, k: int, i: int, j: int, c: usize)
    requires
        is_top(scores, r, k),
        0 <= k,
        0 <= i < j < r.len(),
        c < scores.len(),
    ensures
        r.len() <= k && r.len() <= scores.len() && (r.len() == k || r.len() == scores.len()),
        r[i] != r[j],
        r[i] < scores.len() && r[j] < scores.len(),
        scores[r[i] as int] >= scores[r[j] as int],
        r.contains(c) || scores[r[j] as int] >= scores[c as int],
{
}

/// The places of an owner's ratings come in order.
pub proof fn lemma_places_in_order(owners: Seq<u32>, o: int)
    requires
        owners.len() <= usize::MAX,
    ensures
        forall|i: int, j: int|
            0 <= i < j < places_of(owners, o).len() ==> #[trigger] places_of(owners, o)[i]
                < #[trigger] places_of(owners, o)[j],
    decreases owners.len(),
{
    if owners.len() > 0 {
        let h = owners.drop_last();
        lemma_places_in_order(h, o);
        lemma_places_of(h, o, 0);
    }
}

/// The rows go by item, then by rating.
pub proof fn lemma_rating_row_order(item: int, rating: int)
    ensures
        rating_row_spec(0, 1) == 0,
        rating_row_spec(item, rating + 1) == rating_row_spec(item, rating) + 1,
        rating_row_spec(item + 1, 1) == rating_row_spec(item, 5) + 1,
{
}

/// A hit's place is that of its neighbor among the rated items, and it has none if and only if the
/// neighbor is not rated.
pub proof fn lemma_hit_placed(h: Hit, nbrs: Seq<u64>, rated: Seq<u64>)
    requires
        is_placed(h, nbrs, rated),
    ensures
        h.place is None <==> !rated.contains(nbrs[h.rank as int]),
        h.place matches Some(p) ==> p < rated.len() && rated[p as int] == nbrs[h.rank as int],
{
    if h.place is Some {
        let p = h.place->Some_0 as int;
        assert(rated[p] == nbrs[h.rank as int]);
    }
}

} // verus!
