//! The ratings of each user that attention looks at: a sample that spans their whole history.

use vstd::prelude::*;

verus! {

/// Up to so many ratings of each user, by their places.
pub struct Pool {
    /// Where each user's picks begin, and where the last one's end.
    pub off: Vec<u32>,
    pub picks: Vec<usize>,
}

/// How many ratings are picked of `n`.
pub open spec fn pool_size(n: int, most: int) -> int {
    if n < most {
        n
    } else {
        most
    }
}

/// The `s`-th of `take` picks among `n` ratings from `lo` on.
pub open spec fn pick(lo: int, n: int, take: int, s: int) -> int {
    lo + s * n / take
}

/// Picks lie among the user's ratings, and each after the one before it; the first is the first
/// rating.
pub proof fn lemma_picks_spread(lo: int, n: int, take: int, s: int, t: int)
    requires
        0 < take <= n,
        0 <= s < t < take,
    ensures
        lo <= pick(lo, n, take, s) < pick(lo, n, take, t) < lo + n,
        pick(lo, n, take, 0) == lo,
{
    let a = s * n;
    let b = t * n;
    assert(b >= a + take && a >= 0 && b < take * n) by (nonlinear_arith)
        requires
            a == s * n,
            b == t * n,
            0 <= s < t < take,
            0 < take <= n,
    ;
    let q = a / take;
    let r = b / take;
    assert(a == q * take + a % take && 0 <= a % take < take) by (nonlinear_arith)
        requires
            take > 0,
            q == a / take,
    ;
    assert(b == r * take + b % take && 0 <= b % take < take) by (nonlinear_arith)
        requires
            take > 0,
            r == b / take,
    ;
    let x = a % take;
    let y = b % take;
    assert(q < r) by (nonlinear_arith)
        requires
            b >= a + take,
            a == q * take + x,
            b == r * take + y,
            0 <= x < take,
            0 <= y < take,
    ;
    assert(r < n) by (nonlinear_arith)
        requires
            b == r * take + y,
            0 <= y,
            b < take * n,
            0 < take,
    ;
    assert(q >= 0) by (nonlinear_arith)
        requires
            a == q * take + x,
            x < take,
            a >= 0,
            0 < take,
    ;
    assert(0 * n == 0);
    assert(0int / take == 0) by (nonlinear_arith)
        requires
            take > 0,
    ;
}

/// A pick lies among the user's ratings.
pub proof fn lemma_pick_in_range(lo: int, n: int, take: int, s: int)
    requires
        0 < take <= n,
        0 <= s < take,
    ensures
        lo <= pick(lo, n, take, s) < lo + n,
{
    let a = s * n;
    assert(0 <= a < take * n) by (nonlinear_arith)
        requires
            a == s * n,
            0 <= s < take,
            0 < n,
    ;
    assert(0 <= a / take < n) by (nonlinear_arith)
        requires
            0 <= a < take * n,
            0 < take,
    ;
}

/// Whether every user's ratings lie after those of the user before.
pub open spec fn are_offsets(uoff: Seq<usize>) -> bool {
    &&& uoff.len() > 0
    &&& forall|u: int, v: int|
        0 <= u <= v < uoff.len() ==> #[trigger] uoff[u] <= #[trigger] uoff[v]
}

/// How many ratings the first `n` users have in the pool.
pub open spec fn pooled(uoff: Seq<usize>, most: int, n: int) -> int
    decreases n,
{
    if n <= 0 {
        0
    } else {
        pooled(uoff, most, n - 1) + pool_size(uoff[n] - uoff[n - 1], most)
    }
}

proof fn lemma_pooled_monotone(uoff: Seq<usize>, most: int, a: int, b: int)
    requires
        are_offsets(uoff),
        0 <= most,
        0 <= a <= b < uoff.len(),
    ensures
        0 <= pooled(uoff, most, a) <= pooled(uoff, most, b),
    decreases b,
{
    if b > 0 {
        assert(uoff[b - 1] <= uoff[b]);
        if a < b {
            lemma_pooled_monotone(uoff, most, a, b - 1);
        } else {
            lemma_pooled_monotone(uoff, most, a - 1, b - 1);
        }
    }
}

impl Pool {
    /// Whether the pool is that of users whose ratings begin at the given places.
    pub open spec fn is_of(self, uoff: Seq<usize>, most: int) -> bool {
        &&& self.off.len() == uoff.len()
        &&& forall|u: int|
            0 <= u < uoff.len() ==> #[trigger] self.off@[u] == pooled(uoff, most, u)
        &&& self.picks.len() == pooled(uoff, most, uoff.len() - 1)
        &&& forall|u: int, s: int|
            0 <= u < uoff.len() - 1 && 0 <= s < pool_size(uoff[u + 1] - uoff[u], most)
                ==> self.picks@[pooled(uoff, most, u) + s] == #[trigger] pick(
                uoff[u] as int,
                uoff[u + 1] - uoff[u],
                pool_size(uoff[u + 1] - uoff[u], most),
                s,
            )
    }

    /// Picks up to `most` ratings of each user, evenly over their history.
    pub fn new(uoff: &Vec<usize>, most: usize) -> (r: Pool)
        requires
            are_offsets(uoff@),
            pooled(uoff@, most as int, uoff.len() - 1) <= u32::MAX,
            uoff@.last() * most <= usize::MAX,
        ensures
            r.is_of(uoff@, most as int),
    {
        let n_users: usize = uoff.len() - 1;
        let mut off: Vec<u32> = Vec::new();
        let mut picks: Vec<usize> = Vec::new();
        off.push(0);
        let mut u: usize = 0;
        while u < n_users
            invariant
                u <= n_users,
                n_users == uoff.len() - 1,
                are_offsets(uoff@),
                pooled(uoff@, most as int, uoff.len() - 1) <= u32::MAX,
                uoff@.last() * most <= usize::MAX,
                off.len() == u + 1,
                forall|v: int| 0 <= v <= u ==> #[trigger] off@[v] == pooled(uoff@, most as int, v),
                picks.len() == pooled(uoff@, most as int, u as int),
                forall|v: int, s: int|
                    0 <= v < u && 0 <= s < pool_size(uoff@[v + 1] - uoff@[v], most as int)
                        ==> picks@[pooled(uoff@, most as int, v) + s] == #[trigger] pick(
                        uoff@[v] as int,
                        uoff@[v + 1] - uoff@[v],
                        pool_size(uoff@[v + 1] - uoff@[v], most as int),
                        s,
                    ),
            decreases n_users - u,
        {
            proof {
                assert(uoff@[u as int] <= uoff@[u + 1]);
                assert(uoff@[u + 1] <= uoff@[uoff.len() - 1]);
                lemma_pooled_monotone(uoff@, most as int, u + 1, uoff.len() - 1);
                lemma_pooled_monotone(uoff@, most as int, 0, u as int);
            }
            let lo: usize = uoff[u];
            let n: usize = uoff[u + 1] - lo;
            let take: usize = if n < most {
                n
            } else {
                most
            };
            let ghost base = picks.len() as int;
            let mut s: usize = 0;
            while s < take
                invariant
                    s <= take,
                    take <= n,
                    take <= most,
                    u < n_users,
                    n_users == uoff.len() - 1,
                    lo == uoff@[u as int],
                    n == uoff@[u + 1] - uoff@[u as int],
                    take == pool_size(n as int, most as int),
                    n <= uoff@.last(),
                    uoff@.last() * most <= usize::MAX,
                    lo + n <= usize::MAX,
                    are_offsets(uoff@),
                    base == pooled(uoff@, most as int, u as int),
                    0 <= base,
                    picks.len() == base + s,
                    forall|x: int|
                        0 <= x < s ==> picks@[base + x] == #[trigger] pick(
                            lo as int,
                            n as int,
                            take as int,
                            x,
                        ),
                    forall|v: int, x: int|
                        0 <= v < u && 0 <= x < pool_size(uoff@[v + 1] - uoff@[v], most as int)
                            ==> picks@[pooled(uoff@, most as int, v) + x] == #[trigger] pick(
                            uoff@[v] as int,
                            uoff@[v + 1] - uoff@[v],
                            pool_size(uoff@[v + 1] - uoff@[v], most as int),
                            x,
                        ),
                decreases take - s,
            {
                proof {
                    lemma_pick_in_range(lo as int, n as int, take as int, s as int);
                    assert(s * n <= uoff@.last() * most) by (nonlinear_arith)
                        requires
                            0 <= s <= most,
                            0 <= n <= uoff@.last(),
                    ;
                }
                let ghost before = picks@;
                picks.push(lo + s * n / take);
                proof {
                    assert forall|x: int| 0 <= x < s + 1 implies picks@[base + x]
                        == #[trigger] pick(lo as int, n as int, take as int, x) by {
                        if x < s {
                            assert(picks@[base + x] == before[base + x]);
                        }
                    }
                    assert forall|v: int, x: int|
                        0 <= v < u && 0 <= x < pool_size(
                            uoff@[v + 1] - uoff@[v],
                            most as int,
                        ) implies picks@[pooled(uoff@, most as int, v) + x] == #[trigger] pick(
                        uoff@[v] as int,
                        uoff@[v + 1] - uoff@[v],
                        pool_size(uoff@[v + 1] - uoff@[v], most as int),
                        x,
                    ) by {
                        lemma_pooled_monotone(uoff@, most as int, v + 1, u as int);
                        lemma_pooled_monotone(uoff@, most as int, 0, v);
                        assert(picks@[pooled(uoff@, most as int, v) + x] == before[pooled(
                            uoff@,
                            most as int,
                            v,
                        ) + x]);
                    }
                }
                s += 1;
            }
            let next: u32 = off[u] + take as u32;
            off.push(next);
            u += 1;
        }
        Pool { off, picks }
    }
}

/// The pool of each user: as many picks as the user has places, but no more than the most; all of
/// them places of the user, in order, the first one first, and all of the places where there are
/// no more than the most.
pub proof fn lemma_pool(p: Pool, uoff: Seq<usize>, most: int, u: int)
    requires
        p.is_of(uoff, most),
        are_offsets(uoff),
        0 <= u < uoff.len() - 1,
        0 <= most,
    ensures
        p.off@[0] == 0,
        p.off@.last() == p.picks.len(),
        p.off@[u] <= p.off@[u + 1],
        ({
            let n = uoff[u + 1] - uoff[u];
            let take = p.off@[u + 1] - p.off@[u];
            &&& take <= n && take <= most && (take == n || take == most)
            &&& forall|s: int|
                0 <= s < take ==> uoff[u] <= #[trigger] p.picks@[p.off@[u] + s] < uoff[u + 1]
            &&& forall|s: int, t: int|
                0 <= s < t < take ==> #[trigger] p.picks@[p.off@[u] + s]
                    < #[trigger] p.picks@[p.off@[u] + t]
            &&& take > 0 ==> p.picks@[p.off@[u] as int] == uoff[u]
            &&& take == n ==> forall|s: int|
                0 <= s < take ==> #[trigger] p.picks@[p.off@[u] + s] == uoff[u] + s
        }),
{
    let n = uoff[u + 1] - uoff[u];
    assert(uoff[u] <= uoff[u + 1]);
    let take = pool_size(n, most);
    let lo = uoff[u] as int;
    assert(pooled(uoff, most, u + 1) == pooled(uoff, most, u) + take);
    let at = p.off@[u] as int;
    assert forall|s: int| 0 <= s < take implies #[trigger] p.picks@[at + s] == pick(lo, n, take, s) by {
        assert(p.picks@[pooled(uoff, most, u) + s] == pick(lo, n, take, s));
    }
    assert forall|s: int| 0 <= s < take implies lo <= #[trigger] p.picks@[at + s] < uoff[u + 1] by {
        lemma_pick_in_range(lo, n, take, s);
    }
    assert forall|s: int, t: int| 0 <= s < t < take implies #[trigger] p.picks@[at + s]
        < #[trigger] p.picks@[at + t] by {
        lemma_picks_spread(lo, n, take, s, t);
    }
    if take > 0 {
        assert(p.picks@[at + 0] == pick(lo, n, take, 0));
        assert(0 * n / take == 0) by (nonlinear_arith)
            requires
                take > 0,
        ;
    }
    if take == n {
        assert forall|s: int| 0 <= s < take implies #[trigger] p.picks@[at + s] == lo + s by {
            assert(s * n / take == s) by (nonlinear_arith)
                requires
                    take == n,
                    take > 0,
                    s >= 0,
            ;
        }
    }
    lemma_last_off(p, uoff, most);
}

proof fn lemma_last_off(p: Pool, uoff: Seq<usize>, most: int)
    requires
        p.is_of(uoff, most),
        uoff.len() > 0,
    ensures
        p.off@[0] == 0,
        p.off@.last() == p.picks.len(),
{
    assert(p.off@[0] == pooled(uoff, most, 0));
    assert(p.off@[uoff.len() - 1] == pooled(uoff, most, uoff.len() - 1));
}

} // verus!
