//! Days of users and of items: when each was first seen, how often on a day, and how often in all.

use crate::freq::day_key;
use crate::freq::ratings_on;
use std::collections::HashMap;
use vstd::prelude::*;
use vstd::std_specs::hash::*;

verus! {

broadcast use vstd::std_specs::hash::group_hash_axioms;

/// The first day of an owner, or the last day that can be written where there is none.
pub open spec fn first_seen(ids: Seq<u32>, days: Seq<i16>, o: int) -> i16
    decreases ids.len(),
{
    if ids.len() == 0 {
        i16::MAX
    } else if ids.last() == o && days.last() < first_seen(ids.drop_last(), days.drop_last(), o) {
        days.last()
    } else {
        first_seen(ids.drop_last(), days.drop_last(), o)
    }
}

/// How many of the ratings an owner has.
pub open spec fn owned(ids: Seq<u32>, o: int) -> int
    decreases ids.len(),
{
    if ids.len() == 0 {
        0
    } else if ids.last() == o {
        owned(ids.drop_last(), o) + 1
    } else {
        owned(ids.drop_last(), o)
    }
}

/// The number under the key of an owner's day, or zero.
pub open spec fn stored_count(m: Map<u64, i32>, o: int, d: int) -> int {
    let k = day_key(o, d) as u64;
    if m.contains_key(k) {
        m[k] as int
    } else {
        0
    }
}

/// The days of the users, or of the items.
pub struct DayCache {
    pub first_day: Vec<i16>,
    pub totals: Vec<i32>,
    pub counts: HashMap<u64, i32>,
}

impl DayCache {
    /// Whether the cache is that of some ratings.
    pub open spec fn is_of(self, n: int, ids: Seq<u32>, days: Seq<i16>) -> bool {
        &&& ids.len() == days.len()
        &&& ids.len() <= i32::MAX
        &&& n <= u32::MAX
        &&& self.first_day.len() == n
        &&& self.totals.len() == n
        &&& forall|o: int|
            0 <= o < n ==> #[trigger] self.first_day@[o] == first_seen(ids, days, o)
        &&& forall|o: int| 0 <= o < n ==> #[trigger] self.totals@[o] == owned(ids, o)
        &&& forall|o: int, d: i16|
            0 <= o < n ==> #[trigger] stored_count(self.counts@, o, d as int) == ratings_on(
                ids,
                days,
                o,
                d as int,
            )
    }

    /// The cache of no ratings.
    pub fn new(n: usize) -> (r: DayCache)
        requires
            n <= u32::MAX,
        ensures
            r.is_of(n as int, Seq::empty(), Seq::empty()),
    {
        let mut first_day: Vec<i16> = Vec::new();
        let mut totals: Vec<i32> = Vec::new();
        let mut i: usize = 0;
        while i < n
            invariant
                i <= n,
                first_day.len() == i,
                totals.len() == i,
                forall|o: int| 0 <= o < i ==> #[trigger] first_day@[o] == i16::MAX,
                forall|o: int| 0 <= o < i ==> #[trigger] totals@[o] == 0,
            decreases n - i,
        {
            first_day.push(i16::MAX);
            totals.push(0);
            i += 1;
        }
        let counts: HashMap<u64, i32> = HashMap::new();
        DayCache { first_day, totals, counts }
    }

    fn note(&mut self, o: u32, d: i16, Ghost(ids): Ghost<Seq<u32>>, Ghost(days): Ghost<Seq<i16>>)
        requires
            old(self).is_of(old(self).totals.len() as int, ids, days),
            o < old(self).totals.len(),
            ids.len() < i32::MAX,
        ensures
            final(self).totals.len() == old(self).totals.len(),
            final(self).is_of(old(self).totals.len() as int, ids.push(o), days.push(d)),
    {
        let ghost n = self.totals.len() as int;
        let ghost before = *self;
        let k: usize = o as usize;
        proof {
            lemma_counts_bounded(ids, days, o as int, d as int);
            assert(self.totals@[k as int] == owned(ids, o as int));
            assert(self.first_day@[k as int] == first_seen(ids, days, o as int));
            assert(stored_count(self.counts@, o as int, d as int) == ratings_on(
                ids,
                days,
                o as int,
                d as int,
            ));
            assert(ids.push(o).drop_last() =~= ids);
            assert(days.push(d).drop_last() =~= days);
        }
        if d < self.first_day[k] {
            self.first_day.set(k, d);
        }
        let key: u64 = o as u64 * 65536 + (d as i32 + 32768) as u64;
        let c: i32 = match self.counts.get(&key) {
            Some(x) => *x,
            None => 0,
        };
        self.counts.insert(key, c + 1);
        let t: i32 = self.totals[k];
        self.totals.set(k, t + 1);
        proof {
            assert forall|p: int| 0 <= p < n implies #[trigger] self.first_day@[p] == first_seen(
                ids.push(o),
                days.push(d),
                p,
            ) by {
                assert(before.first_day@[p] == first_seen(ids, days, p));
            }
            assert forall|p: int| 0 <= p < n implies #[trigger] self.totals@[p] == owned(
                ids.push(o),
                p,
            ) by {
                assert(before.totals@[p] == owned(ids, p));
            }
            assert forall|p: int, e: i16| 0 <= p < n implies #[trigger] stored_count(
                self.counts@,
                p,
                e as int,
            ) == ratings_on(ids.push(o), days.push(d), p, e as int) by {
                assert(stored_count(before.counts@, p, e as int) == ratings_on(
                    ids,
                    days,
                    p,
                    e as int,
                ));
                assert(key == day_key(o as int, d as int));
                assert(day_key(p, e as int) == day_key(o as int, d as int) ==> p == o && e == d);
            }
        }
    }

    /// Notes more ratings: the cache of some becomes that of those and these.
    pub fn update(&mut self, ids: &Vec<u32>, days: &Vec<i16>)
        requires
            ids.len() == days.len(),
            forall|t: int| 0 <= t < ids.len() ==> #[trigger] ids@[t] < old(self).totals.len(),
            exists|a: Seq<u32>, b: Seq<i16>| #[trigger]
                old(self).is_of(old(self).totals.len() as int, a, b) && a.len() + ids.len()
                    <= i32::MAX,
        ensures
            final(self).totals.len() == old(self).totals.len(),
            forall|a: Seq<u32>, b: Seq<i16>| #[trigger]
                old(self).is_of(old(self).totals.len() as int, a, b) && a.len() + ids.len()
                    <= i32::MAX ==> final(self).is_of(
                    old(self).totals.len() as int,
                    a + ids@,
                    b + days@,
                ),
    {
        let ghost n = self.totals.len() as int;
        let ghost (a, b) = choose|a: Seq<u32>, b: Seq<i16>| #[trigger]
            self.is_of(n, a, b) && a.len() + ids.len() <= i32::MAX;
        let ghost start = *self;
        let mut t: usize = 0;
        proof {
            assert(a + ids@.take(0) =~= a);
            assert(b + days@.take(0) =~= b);
        }
        while t < ids.len()
            invariant
                t <= ids.len(),
                ids.len() == days.len(),
                n == self.totals.len(),
                a.len() + ids.len() <= i32::MAX,
                forall|k: int| 0 <= k < ids.len() ==> #[trigger] ids@[k] < n,
                self.is_of(n, a + ids@.take(t as int), b + days@.take(t as int)),
            decreases ids.len() - t,
        {
            proof {
                assert(ids@[t as int] < n);
            }
            self.note(
                ids[t],
                days[t],
                Ghost(a + ids@.take(t as int)),
                Ghost(b + days@.take(t as int)),
            );
            proof {
                assert((a + ids@.take(t as int)).push(ids@[t as int]) =~= a + ids@.take(t + 1));
                assert((b + days@.take(t as int)).push(days@[t as int]) =~= b + days@.take(t + 1));
            }
            t += 1;
        }
        proof {
            assert(ids@.take(ids.len() as int) =~= ids@);
            assert(days@.take(days.len() as int) =~= days@);
            assert forall|c: Seq<u32>, e: Seq<i16>| #[trigger]
                start.is_of(n, c, e) && c.len() + ids.len() <= i32::MAX implies self.is_of(
                n,
                c + ids@,
                e + days@,
            ) by {
                lemma_caches_agree(start, *self, n, a, b, c, e, ids@, days@);
            }
        }
    }

    /// How often an owner was seen on a day.
    pub fn on_day(&self, o: u32, d: i16) -> (r: i32)
        ensures
            r == stored_count(self.counts@, o as int, d as int),
    {
        let key: u64 = o as u64 * 65536 + (d as i32 + 32768) as u64;
        match self.counts.get(&key) {
            Some(x) => *x,
            None => 0,
        }
    }

    /// The first day of an owner, and day zero where there is none.
    pub fn start_of(&self, o: usize) -> (r: i16)
        requires
            o < self.first_day.len(),
        ensures
            r == (if self.first_day@[o as int] == i16::MAX {
                0
            } else {
                self.first_day@[o as int] as int
            }),
    {
        let d: i16 = self.first_day[o];
        if d == i16::MAX {
            0
        } else {
            d
        }
    }
}

proof fn lemma_counts_bounded(ids: Seq<u32>, days: Seq<i16>, o: int, d: int)
    requires
        ids.len() == days.len(),
    ensures
        0 <= ratings_on(ids, days, o, d) <= owned(ids, o) <= ids.len(),
    decreases ids.len(),
{
    if ids.len() > 0 {
        lemma_counts_bounded(ids.drop_last(), days.drop_last(), o, d);
    }
}

/// What an owner has in two lists of ratings together is what they have in each.
pub proof fn lemma_union_counts(
    a: Seq<u32>,
    b: Seq<i16>,
    ids: Seq<u32>,
    days: Seq<i16>,
    o: int,
    d: int,
)
    requires
        a.len() == b.len(),
        ids.len() == days.len(),
    ensures
        owned(a + ids, o) == owned(a, o) + owned(ids, o),
        ratings_on(a + ids, b + days, o, d) == ratings_on(a, b, o, d) + ratings_on(ids, days, o, d),
        first_seen(a + ids, b + days, o) == (if first_seen(ids, days, o) < first_seen(a, b, o) {
            first_seen(ids, days, o)
        } else {
            first_seen(a, b, o)
        }),
    decreases ids.len(),
{
    if ids.len() > 0 {
        lemma_union_counts(a, b, ids.drop_last(), days.drop_last(), o, d);
        assert((a + ids).drop_last() =~= a + ids.drop_last());
        assert((b + days).drop_last() =~= b + days.drop_last());
    } else {
        assert(a + ids =~= a);
        assert(b + days =~= b);
        lemma_first_seen_most(a, b, o);
    }
}

proof fn lemma_first_seen_most(a: Seq<u32>, b: Seq<i16>, o: int)
    ensures
        first_seen(a, b, o) <= i16::MAX,
{
}

/// A cache of two lists of ratings at once goes on in the same way from either.
proof fn lemma_caches_agree(
    start: DayCache,
    end: DayCache,
    n: int,
    a: Seq<u32>,
    b: Seq<i16>,
    c: Seq<u32>,
    e: Seq<i16>,
    ids: Seq<u32>,
    days: Seq<i16>,
)
    requires
        start.is_of(n, a, b),
        start.is_of(n, c, e),
        end.is_of(n, a + ids, b + days),
        ids.len() == days.len(),
        c.len() + ids.len() <= i32::MAX,
    ensures
        end.is_of(n, c + ids, e + days),
{
    assert forall|o: int| 0 <= o < n implies #[trigger] end.first_day@[o] == first_seen(
        c + ids,
        e + days,
        o,
    ) by {
        lemma_union_counts(a, b, ids, days, o, 0);
        lemma_union_counts(c, e, ids, days, o, 0);
        assert(start.first_day@[o] == first_seen(a, b, o));
        assert(start.first_day@[o] == first_seen(c, e, o));
    }
    assert forall|o: int| 0 <= o < n implies #[trigger] end.totals@[o] == owned(c + ids, o) by {
        lemma_union_counts(a, b, ids, days, o, 0);
        lemma_union_counts(c, e, ids, days, o, 0);
        assert(start.totals@[o] == owned(a, o));
        assert(start.totals@[o] == owned(c, o));
    }
    assert forall|o: int, d: i16| 0 <= o < n implies #[trigger] stored_count(
        end.counts@,
        o,
        d as int,
    ) == ratings_on(c + ids, e + days, o, d as int) by {
        lemma_union_counts(a, b, ids, days, o, d as int);
        lemma_union_counts(c, e, ids, days, o, d as int);
        assert(stored_count(start.counts@, o, d as int) == ratings_on(a, b, o, d as int));
        assert(stored_count(start.counts@, o, d as int) == ratings_on(c, e, o, d as int));
    }
}

/// The caches of the users and of the items.
pub struct UnionCaches {
    pub users: DayCache,
    pub items: DayCache,
}

/// Notes ratings for their users and for their items.
pub fn update_union_caches(
    caches: &mut UnionCaches,
    users: &Vec<u32>,
    items: &Vec<u32>,
    days: &Vec<i16>,
)
    requires
        users.len() == days.len(),
        items.len() == days.len(),
        forall|t: int| 0 <= t < users.len() ==> #[trigger] users@[t] < old(caches).users.totals.len(),
        forall|t: int| 0 <= t < items.len() ==> #[trigger] items@[t] < old(caches).items.totals.len(),
        exists|a: Seq<u32>, b: Seq<i16>| #[trigger]
            old(caches).users.is_of(old(caches).users.totals.len() as int, a, b) && a.len()
                + users.len() <= i32::MAX,
        exists|a: Seq<u32>, b: Seq<i16>| #[trigger]
            old(caches).items.is_of(old(caches).items.totals.len() as int, a, b) && a.len()
                + items.len() <= i32::MAX,
    ensures
        final(caches).users.totals.len() == old(caches).users.totals.len(),
        final(caches).items.totals.len() == old(caches).items.totals.len(),
        forall|a: Seq<u32>, b: Seq<i16>| #[trigger]
            old(caches).users.is_of(old(caches).users.totals.len() as int, a, b) && a.len()
                + users.len() <= i32::MAX ==> final(caches).users.is_of(
                old(caches).users.totals.len() as int,
                a + users@,
                b + days@,
            ),
        forall|a: Seq<u32>, b: Seq<i16>| #[trigger]
            old(caches).items.is_of(old(caches).items.totals.len() as int, a, b) && a.len()
                + items.len() <= i32::MAX ==> final(caches).items.is_of(
                old(caches).items.totals.len() as int,
                a + items@,
                b + days@,
            ),
{
    caches.users.update(users, days);
    caches.items.update(items, days);
}

/// Ratings without their values.
pub struct Events {
    pub users: Vec<u32>,
    pub items: Vec<u32>,
    pub days: Vec<i16>,
}

impl Events {
    /// Every rating has a user and an item that there are, and a day.
    pub open spec fn wf(self, n_users: int, n_items: int) -> bool {
        &&& self.users.len() == self.days.len()
        &&& self.items.len() == self.days.len()
        &&& forall|t: int| 0 <= t < self.users.len() ==> #[trigger] self.users@[t] < n_users
        &&& forall|t: int| 0 <= t < self.items.len() ==> #[trigger] self.items@[t] < n_items
    }
}

/// Builds the caches of the ratings, and with `use_probe` of the held-out ratings too.
pub fn build_caches(n_users: usize, n_items: usize, tr: &Events, pr: &Events, use_probe: bool) -> (r:
    UnionCaches)
    requires
        n_users <= u32::MAX,
        n_items <= u32::MAX,
        tr.wf(n_users as int, n_items as int),
        pr.wf(n_users as int, n_items as int),
        tr.users.len() + pr.users.len() <= i32::MAX,
    ensures
        use_probe ==> r.users.is_of(
            n_users as int,
            tr.users@ + pr.users@,
            tr.days@ + pr.days@,
        ) && r.items.is_of(n_items as int, tr.items@ + pr.items@, tr.days@ + pr.days@),
        !use_probe ==> r.users.is_of(n_users as int, tr.users@, tr.days@) && r.items.is_of(
            n_items as int,
            tr.items@,
            tr.days@,
        ),
{
    let mut c: UnionCaches = UnionCaches {
        users: DayCache::new(n_users),
        items: DayCache::new(n_items),
    };
    proof {
        let none = Seq::<u32>::empty();
        let never = Seq::<i16>::empty();
        assert(c.users.is_of(c.users.totals.len() as int, none, never) && none.len()
            + tr.users.len() <= i32::MAX);
        assert(c.items.is_of(c.items.totals.len() as int, none, never) && none.len()
            + tr.items.len() <= i32::MAX);
        assert(Seq::<u32>::empty() + tr.users@ =~= tr.users@);
        assert(Seq::<u32>::empty() + tr.items@ =~= tr.items@);
        assert(Seq::<i16>::empty() + tr.days@ =~= tr.days@);
    }
    update_union_caches(&mut c, &tr.users, &tr.items, &tr.days);
    proof {
        assert(c.users.is_of(n_users as int, tr.users@, tr.days@));
        assert(c.items.is_of(n_items as int, tr.items@, tr.days@));
    }
    if use_probe {
        update_union_caches(&mut c, &pr.users, &pr.items, &pr.days);
    }
    c
}

/// What the bias features of a rating are roots of.
#[derive(Clone, Copy, PartialEq, Eq, Structural, Debug)]
pub struct DayFeatures {
    /// The days since the user, and since the item, was first seen.
    pub user_age: i32,
    pub item_age: i32,
    /// How often the user, and the item, was seen on the day.
    pub user_on_day: i32,
    pub item_on_day: i32,
    /// How often the user, and the item, was seen in all.
    pub user_total: i32,
    pub item_total: i32,
}

/// What the bias features of a user's rating of an item on a day are roots of.
pub fn day_features(c: &UnionCaches, u: u32, i: u32, d: i16) -> (r: DayFeatures)
    requires
        u < c.users.totals.len(),
        u < c.users.first_day.len(),
        i < c.items.totals.len(),
        i < c.items.first_day.len(),
    ensures
        r.user_age == d - (if c.users.first_day@[u as int] == i16::MAX {
            0
        } else {
            c.users.first_day@[u as int] as int
        }),
        r.item_age == d - (if c.items.first_day@[i as int] == i16::MAX {
            0
        } else {
            c.items.first_day@[i as int] as int
        }),
        r.user_on_day == stored_count(c.users.counts@, u as int, d as int),
        r.item_on_day == stored_count(c.items.counts@, i as int, d as int),
        r.user_total == c.users.totals@[u as int],
        r.item_total == c.items.totals@[i as int],
{
    DayFeatures {
        user_age: d as i32 - c.users.start_of(u as usize) as i32,
        item_age: d as i32 - c.items.start_of(i as usize) as i32,
        user_on_day: c.users.on_day(u, d),
        item_on_day: c.items.on_day(i, d),
        user_total: c.users.totals[u as usize],
        item_total: c.items.totals[i as usize],
    }
}

/// The first day of an owner is the earliest of its days: none is earlier, and it is one of them
/// unless the owner has none.
pub proof fn lemma_first_seen(ids: Seq<u32>, days: Seq<i16>, o: int)
    requires
        ids.len() == days.len(),
    ensures
        forall|t: int|
            0 <= t < ids.len() && #[trigger] ids[t] == o ==> first_seen(ids, days, o) <= days[t],
        first_seen(ids, days, o) == i16::MAX || exists|t: int|
            0 <= t < ids.len() && #[trigger] ids[t] == o && days[t] == first_seen(ids, days, o),
        owned(ids, o) == 0 ==> first_seen(ids, days, o) == i16::MAX,
    decreases ids.len(),
{
    if ids.len() > 0 {
        let h = ids.drop_last();
        let g = days.drop_last();
        let n = ids.len() - 1;
        lemma_first_seen(h, g, o);
        lemma_counts_bounded(h, g, o, 0);
        assert forall|t: int| 0 <= t < ids.len() && #[trigger] ids[t] == o implies first_seen(
            ids,
            days,
            o,
        ) <= days[t] by {
            if t < n {
                assert(h[t] == o);
                assert(g[t] == days[t]);
            }
        }
        if first_seen(ids, days, o) != i16::MAX {
            if first_seen(ids, days, o) == first_seen(h, g, o) {
                let t = choose|t: int|
                    0 <= t < h.len() && #[trigger] h[t] == o && g[t] == first_seen(h, g, o);
                assert(ids[t] == o && days[t] == first_seen(ids, days, o));
            } else {
                assert(ids[n] == o && days[n] == first_seen(ids, days, o));
            }
        }
    }
}

/// One rating counts once for its owner, on its own day and in all.
pub proof fn lemma_one_rating(x: u32, y: i16, o: int, d: int)
    ensures
        owned(seq![x], o) == (if x == o {
            1int
        } else {
            0
        }),
        ratings_on(seq![x], seq![y], o, d) == (if x == o && y == d {
            1int
        } else {
            0
        }),
        owned(Seq::empty(), o) == 0,
        ratings_on(Seq::empty(), Seq::empty(), o, d) == 0,
{
    reveal_with_fuel(owned, 2);
    reveal_with_fuel(ratings_on, 2);
    assert(seq![x].drop_last() =~= Seq::empty());
}

/// What a cache knows of an owner: the first day, the number of ratings in all and on each day.
pub proof fn lemma_day_cache(
    c: DayCache,
    n: int,
    ids: Seq<u32>,
    days: Seq<i16>,
    o: int,
    d: i16,
)
    requires
        c.is_of(n, ids, days),
        0 <= o < n,
    ensures
        c.first_day@[o] == first_seen(ids, days, o),
        c.totals@[o] == owned(ids, o),
        stored_count(c.counts@, o, d as int) == ratings_on(ids, days, o, d as int),
{
}

} // verus!
