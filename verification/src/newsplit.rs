//! The second split: for each user with more than one probe rating, one randomly chosen probe
//! rating on a day on which the user rates nothing in `train` moves to `train`, with a probability
//! of nine in ten.

use crate::ingest::are_counts;
use crate::ingest::count_of;
use crate::ingest::count_rows;
use crate::ingest::counts_of;
use crate::ingest::item_column;
use crate::ingest::rows_in_range;
use crate::ingest::tally;
use crate::ingest::user_column;
use crate::ingest::Counts;
use crate::ingest::Sizes;
use crate::numpy_rng::Pcg64;
use crate::numpy_rng::PcgState;
use crate::order::distinct_sorted;
use crate::order::gather;
use crate::order::increasing;
use crate::order::is_order;
use crate::order::lemma_gather_permutes;
use crate::order::search;
use crate::order::sort_order;
use crate::records::Rating;
use vstd::prelude::*;

verus! {

/// The seed of the split.
pub const SEED: u64 = 42;

/// Nine tenths in units of `2^-53`, rounded to the nearest.
pub const MOVE_PROB: u64 = 8_106_479_329_266_893;

// ---------------------------------------------------------------------------
// Days
// ---------------------------------------------------------------------------

/// A user and a day in one number.
spec fn day_key(user: i32, date: i16) -> int {
    user * 0x1_0000 + date + 0x8000
}

/// A rating of a user and an item of the data.
pub open spec fn valid_row(r: Rating, n_users: int, n_items: int) -> bool {
    &&& 0 <= r.user < n_users
    &&& 0 <= r.item < n_items
}

pub open spec fn valid_rows(rows: Seq<Rating>, n_users: int, n_items: int) -> bool {
    forall|k: int| 0 <= k < rows.len() ==> valid_row(#[trigger] rows[k], n_users, n_items)
}

/// Whether all rows are of users and items of the data.
pub fn check_rows(rows: &Vec<Rating>, n_users: usize, n_items: usize) -> (r: bool)
    ensures
        r == valid_rows(rows@, n_users as int, n_items as int),
{
    let mut i: usize = 0;
    while i < rows.len()
        invariant
            i <= rows.len(),
            forall|k: int|
                0 <= k < i ==> valid_row(#[trigger] rows@[k], n_users as int, n_items as int),
        decreases rows.len() - i,
    {
        let row: Rating = rows[i];
        let ok: bool = row.user >= 0 && (row.user as usize) < n_users && row.item >= 0 && (
        row.item as usize) < n_items;
        if !ok {
            assert(!valid_row(rows@[i as int], n_users as int, n_items as int));
            return false;
        }
        i += 1;
    }
    true
}

/// The user rates something on the day.
pub open spec fn day_taken(train: Seq<Rating>, user: i32, date: i16) -> bool {
    exists|k: int|
        0 <= k < train.len() && (#[trigger] train[k]).user == user && train[k].date == date
}

/// The users and days of `rows`, increasing.
fn day_table(rows: &Vec<Rating>, n_users: usize, n_items: usize) -> (r: Vec<u64>)
    requires
        valid_rows(rows@, n_users as int, n_items as int),
    ensures
        increasing(r@),
        forall|u: i32, d: i16|
            0 <= u ==> (r@.contains(#[trigger] day_key(u, d) as u64) <==> day_taken(
                rows@,
                u,
                d,
            )),
{
    let mut keys: Vec<u64> = Vec::with_capacity(rows.len());
    let mut i: usize = 0;
    while i < rows.len()
        invariant
            valid_rows(rows@, n_users as int, n_items as int),
            i <= rows.len(),
            keys@ == Seq::new(i as nat, |k: int| day_key(rows@[k].user, rows@[k].date) as u64),
        decreases rows.len() - i,
    {
        let row: Rating = rows[i];
        assert(valid_row(rows@[i as int], n_users as int, n_items as int));
        keys.push(row.user as u64 * 0x1_0000 + (row.date as i32 + 0x8000) as u64);
        i += 1;
    }
    let table: Vec<u64> = distinct_sorted(&keys);
    proof {
        assert forall|u: i32, d: i16| 0 <= u implies (table@.contains(
            #[trigger] day_key(u, d) as u64,
        ) <==> day_taken(rows@, u, d)) by {
            let key = day_key(u, d) as u64;
            if table@.contains(key) {
                assert(keys@.contains(key));
                let k = choose|k: int| 0 <= k < keys@.len() && keys@[k] == key;
                assert(valid_row(rows@[k], n_users as int, n_items as int));
                assert(day_key(rows@[k].user, rows@[k].date) == day_key(u, d));
            }
            if day_taken(rows@, u, d) {
                let k = choose|k: int|
                    0 <= k < rows@.len() && (#[trigger] rows@[k]).user == u && rows@[k].date == d;
                assert(keys@[k] == key);
                assert(keys@.contains(key));
            }
        }
    }
    table
}

// ---------------------------------------------------------------------------
// Candidates
// ---------------------------------------------------------------------------

/// The places of a user's ratings.
pub open spec fn positions_of(rows: Seq<Rating>, user: int) -> Seq<usize>
    decreases rows.len(),
{
    if rows.len() == 0 {
        Seq::empty()
    } else if rows.last().user == user {
        positions_of(rows.drop_last(), user).push((rows.len() - 1) as usize)
    } else {
        positions_of(rows.drop_last(), user)
    }
}

/// The users with more than one rating, in the order in which they are first met among the first
/// `k` ratings.
pub open spec fn multi_users(rows: Seq<Rating>, k: nat) -> Seq<i32>
    decreases k,
{
    if k == 0 {
        Seq::empty()
    } else {
        let met = multi_users(rows, (k - 1) as nat);
        let u = rows[k - 1].user;
        if count_of(user_column(rows), u as int) > 1 && !met.contains(u) {
            met.push(u)
        } else {
            met
        }
    }
}

pub open spec fn on_new_day(train: Seq<Rating>, probe: Seq<Rating>) -> spec_fn(usize) -> bool {
    |p: usize| !day_taken(train, probe[p as int].user, probe[p as int].date)
}

/// The places of a user's probe ratings on days on which the user rates nothing in `train`.
pub open spec fn candidates(train: Seq<Rating>, probe: Seq<Rating>, user: int) -> Seq<usize> {
    positions_of(probe, user).filter(on_new_day(train, probe))
}

/// Which probe ratings move, and the generator, after the first `k` of the users.
pub open spec fn moves(
    train: Seq<Rating>,
    probe: Seq<Rating>,
    users: Seq<i32>,
    k: nat,
    rng: PcgState,
) -> (Seq<bool>, PcgState)
    decreases k,
{
    if k == 0 {
        (Seq::new(probe.len(), |i: int| false), rng)
    } else {
        let (mask, p) = moves(train, probe, users, (k - 1) as nat, rng);
        let c = candidates(train, probe, users[k - 1] as int);
        if c.len() == 0 {
            (mask, p)
        } else {
            let n = c.len() as u32;
            let chosen = c[p.choice_value(n) as int] as int;
            let after = p.after_choice(n);
            if after.draw_fraction() < MOVE_PROB {
                (mask.update(chosen, true), after.after64())
            } else {
                (mask, after.after64())
            }
        }
    }
}

/// How many of the first `k` users have no candidate.
pub open spec fn users_skipped(train: Seq<Rating>, probe: Seq<Rating>, users: Seq<i32>, k: nat) -> nat
    decreases k,
{
    if k == 0 {
        0
    } else {
        users_skipped(train, probe, users, (k - 1) as nat) + (if candidates(
            train,
            probe,
            users[k - 1] as int,
        ).len() == 0 {
            1nat
        } else {
            0
        })
    }
}

/// Which probe ratings move under a seed.
pub open spec fn moved_mask(train: Seq<Rating>, probe: Seq<Rating>, seed: u64) -> Seq<bool> {
    let users = multi_users(probe, probe.len());
    moves(train, probe, users, users.len(), PcgState::seeded(seed)).0
}

/// The rows that a mask marks, or leaves unmarked.
pub open spec fn masked(rows: Seq<Rating>, mask: Seq<bool>, keep: bool) -> Seq<Rating>
    decreases rows.len(),
{
    if rows.len() == 0 {
        Seq::empty()
    } else {
        let rest = masked(rows.drop_last(), mask, keep);
        if mask[rows.len() - 1] == keep {
            rest.push(rows.last())
        } else {
            rest
        }
    }
}

proof fn lemma_positions(rows: Seq<Rating>, user: int)
    requires
        rows.len() <= usize::MAX,
    ensures
        positions_of(rows, user).len() == count_of(user_column(rows), user),
        forall|i: int|
            0 <= i < positions_of(rows, user).len() ==> (#[trigger] positions_of(rows, user)[i])
                < rows.len() && rows[positions_of(rows, user)[i] as int].user == user,
    decreases rows.len(),
{
    if rows.len() > 0 {
        lemma_positions(rows.drop_last(), user);
        assert(user_column(rows).drop_last() =~= user_column(rows.drop_last()));
        let here = positions_of(rows, user);
        let rest = positions_of(rows.drop_last(), user);
        assert forall|i: int| 0 <= i < here.len() implies (#[trigger] here[i]) < rows.len()
            && rows[here[i] as int].user == user by {
            if i < rest.len() {
                assert(here[i] == rest[i]);
                assert(rows.drop_last()[rest[i] as int] == rows[rest[i] as int]);
            }
        }
    }
}

proof fn lemma_candidates(train: Seq<Rating>, probe: Seq<Rating>, user: int, i: int)
    requires
        probe.len() <= usize::MAX,
        0 <= i < candidates(train, probe, user).len(),
    ensures
        candidates(train, probe, user)[i] < probe.len(),
        probe[candidates(train, probe, user)[i] as int].user == user,
        !day_taken(
            train,
            probe[candidates(train, probe, user)[i] as int].user,
            probe[candidates(train, probe, user)[i] as int].date,
        ),
{
    let c = candidates(train, probe, user);
    let all = positions_of(probe, user);
    let pred = on_new_day(train, probe);
    assert(c.contains(c[i]));
    all.lemma_filter_contains_rev(pred, c[i]);
    all.lemma_filter_pred(pred, i);
    lemma_positions(probe, user);
    let j = choose|j: int| 0 <= j < all.len() && all[j] == c[i];
    assert(all[j] < probe.len());
}

proof fn lemma_candidates_len(train: Seq<Rating>, probe: Seq<Rating>, user: int)
    requires
        probe.len() <= usize::MAX,
    ensures
        candidates(train, probe, user).len() <= probe.len(),
{
    lemma_positions(probe, user);
    positions_of(probe, user).lemma_filter_len(on_new_day(train, probe));
    lemma_count_le(user_column(probe), user);
}

proof fn lemma_count_le(s: Seq<i32>, x: int)
    ensures
        count_of(s, x) <= s.len(),
    decreases s.len(),
{
    if s.len() > 0 {
        lemma_count_le(s.drop_last(), x);
    }
}

// ---------------------------------------------------------------------------
// Choosing
// ---------------------------------------------------------------------------

/// The users with more than one probe rating as they are met, and the places of each user's
/// ratings where there is more than one.
fn group_probe(probe: &Vec<Rating>, n_users: usize, n_items: usize) -> (r: (
    Vec<i32>,
    Vec<Vec<usize>>,
))
    requires
        valid_rows(probe@, n_users as int, n_items as int),
        n_users <= i32::MAX,
        probe.len() <= i32::MAX,
    ensures
        r.0@ == multi_users(probe@, probe.len() as nat),
        r.1.len() == n_users,
        forall|u: int|
            0 <= u < n_users && count_of(user_column(probe@), u) > 1 ==> (#[trigger] r.1@[u])@
                == positions_of(probe@, u),
        forall|j: int|
            0 <= j < r.0.len() ==> 0 <= #[trigger] r.0@[j] < n_users && count_of(
                user_column(probe@),
                r.0@[j] as int,
            ) > 1,
{
    let mut col: Vec<i32> = Vec::with_capacity(probe.len());
    let mut c: usize = 0;
    while c < probe.len()
        invariant
            c <= probe.len(),
            col@ == user_column(probe@).take(c as int),
        decreases probe.len() - c,
    {
        col.push(probe[c].user);
        proof {
            assert(user_column(probe@).take(c + 1) =~= user_column(probe@).take(c as int).push(
                probe@[c as int].user,
            ));
        }
        c += 1;
    }
    proof {
        assert(user_column(probe@).take(probe.len() as int) =~= user_column(probe@));
        assert forall|k: int| 0 <= k < col@.len() implies 0 <= #[trigger] col@[k] < n_users by {
            assert(valid_row(probe@[k], n_users as int, n_items as int));
        }
    }
    let counts: Vec<i32> = match tally(&col, n_users) {
        Some(v) => v,
        None => {
            assert(false);
            Vec::new()
        },
    };
    let mut seen: Vec<bool> = Vec::with_capacity(n_users);
    let mut groups: Vec<Vec<usize>> = Vec::with_capacity(n_users);
    let mut k: usize = 0;
    while k < n_users
        invariant
            k <= n_users,
            seen@ == Seq::new(k as nat, |i: int| false),
            groups.len() == k,
            forall|u: int| 0 <= u < k ==> (#[trigger] groups@[u])@ == Seq::<usize>::empty(),
        decreases n_users - k,
    {
        seen.push(false);
        groups.push(Vec::new());
        k += 1;
    }
    let mut order: Vec<i32> = Vec::new();
    let mut i: usize = 0;
    proof {
        assert(probe@.take(0) =~= Seq::empty());
    }
    while i < probe.len()
        invariant
            valid_rows(probe@, n_users as int, n_items as int),
            n_users <= i32::MAX,
            probe.len() <= i32::MAX,
            are_counts(user_column(probe@), n_users as int, counts@),
            i <= probe.len(),
            seen.len() == n_users,
            groups.len() == n_users,
            order@ == multi_users(probe@, i as nat),
            forall|u: int|
                0 <= u < n_users ==> #[trigger] seen@[u] == order@.contains(u as i32),
            forall|u: int|
                0 <= u < n_users && count_of(user_column(probe@), u) > 1 ==> (#[trigger] groups@[u])@
                    == positions_of(probe@.take(i as int), u),
            forall|j: int|
                0 <= j < order.len() ==> 0 <= #[trigger] order@[j] < n_users && count_of(
                    user_column(probe@),
                    order@[j] as int,
                ) > 1,
        decreases probe.len() - i,
    {
        assert(valid_row(probe@[i as int], n_users as int, n_items as int));
        let user: i32 = probe[i].user;
        let u: usize = user as usize;
        let ghost groups_before = groups@;
        let ghost order_before = order@;
        proof {
            let upto = probe@.take(i + 1);
            assert(upto.drop_last() =~= probe@.take(i as int));
            assert(upto.last() == probe@[i as int]);
            assert(counts@[u as int] == count_of(user_column(probe@), u as int));
        }
        if counts[u] > 1 {
            if !seen[u] {
                seen.set(u, true);
                order.push(user);
                proof {
                    assert forall|w: int| 0 <= w < n_users implies #[trigger] seen@[w]
                        == order@.contains(w as i32) by {
                        if w == u {
                            assert(order@[order.len() - 1] == w as i32);
                        } else if order@.contains(w as i32) {
                            let q = choose|q: int| 0 <= q < order@.len() && order@[q] == w as i32;
                            assert(order_before[q] == w as i32);
                        } else if order_before.contains(w as i32) {
                            let q = choose|q: int|
                                0 <= q < order_before.len() && order_before[q] == w as i32;
                            assert(order@[q] == w as i32);
                        }
                    }
                }
            }
            groups[u].push(i);
        }
        proof {
            assert forall|w: int|
                0 <= w < n_users && count_of(user_column(probe@), w) > 1 implies (
            #[trigger] groups@[w])@ == positions_of(probe@.take(i + 1), w) by {
                assert(groups_before[w]@ == positions_of(probe@.take(i as int), w));
            }
        }
        i += 1;
    }
    proof {
        assert(probe@.take(probe.len() as int) =~= probe@);
    }
    (order, groups)
}

/// The probe ratings that move: the mask, how many there are, and how many users had none to
/// offer.
pub struct Moves {
    pub mask: Vec<bool>,
    pub moved: usize,
    pub skipped: usize,
}

/// How many entries of a mask are set.
pub open spec fn marks(mask: Seq<bool>) -> nat
    decreases mask.len(),
{
    if mask.len() == 0 {
        0
    } else {
        marks(mask.drop_last()) + (if mask.last() {
            1nat
        } else {
            0
        })
    }
}

fn new_day_positions(
    train: Ghost<Seq<Rating>>,
    probe: &Vec<Rating>,
    places: &Vec<usize>,
    days: &Vec<u64>,
    n_users: usize,
    n_items: usize,
) -> (r: Vec<usize>)
    requires
        valid_rows(probe@, n_users as int, n_items as int),
        increasing(days@),
        forall|u: i32, d: i16|
            0 <= u ==> (days@.contains(#[trigger] day_key(u, d) as u64) <==> day_taken(
                train@,
                u,
                d,
            )),
        forall|i: int| 0 <= i < places.len() ==> (#[trigger] places@[i]) < probe.len(),
    ensures
        r@ == places@.filter(on_new_day(train@, probe@)),
{
    let mut out: Vec<usize> = Vec::new();
    let mut i: usize = 0;
    let ghost pred = on_new_day(train@, probe@);
    proof {
        assert(places@.take(0) =~= Seq::empty());
        reveal(Seq::filter);
    }
    while i < places.len()
        invariant
            valid_rows(probe@, n_users as int, n_items as int),
            increasing(days@),
            pred == on_new_day(train@, probe@),
            forall|u: i32, d: i16|
                0 <= u ==> (days@.contains(#[trigger] day_key(u, d) as u64)
                    <==> day_taken(train@, u, d)),
            forall|i: int| 0 <= i < places.len() ==> (#[trigger] places@[i]) < probe.len(),
            i <= places.len(),
            out@ == places@.take(i as int).filter(pred),
        decreases places.len() - i,
    {
        let p: usize = places[i];
        assert(places@[i as int] < probe.len());
        let row: Rating = probe[p];
        assert(valid_row(probe@[p as int], n_users as int, n_items as int));
        let key: u64 = row.user as u64 * 0x1_0000 + (row.date as i32 + 0x8000) as u64;
        assert(key == day_key(row.user, row.date) as u64);
        proof {
            assert(places@.take(i + 1) =~= places@.take(i as int).push(p));
            places@.take(i as int).lemma_filter_push(p, pred);
        }
        if search(days, key).is_none() {
            out.push(p);
        } else {
            proof {
                let at = choose|at: int| 0 <= at < days@.len() && days@[at] == key;
                assert(days@.contains(key));
            }
        }
        i += 1;
    }
    proof {
        assert(places@.take(places.len() as int) =~= places@);
    }
    out
}

/// Chooses the probe ratings that move.
pub fn choose_moves(
    train: &Vec<Rating>,
    probe: &Vec<Rating>,
    n_users: usize,
    n_items: usize,
    seed: u64,
) -> (r: Moves)
    requires
        valid_rows(train@, n_users as int, n_items as int),
        valid_rows(probe@, n_users as int, n_items as int),
        n_users <= i32::MAX,
        probe.len() <= i32::MAX,
    ensures
        r.mask@ == moved_mask(train@, probe@, seed),
        r.mask.len() == probe.len(),
        r.moved == marks(r.mask@),
        r.skipped == ({
            let users = multi_users(probe@, probe.len() as nat);
            users_skipped(train@, probe@, users, users.len())
        }),
{
    let days: Vec<u64> = day_table(train, n_users, n_items);
    let (users, groups) = group_probe(probe, n_users, n_items);
    let mut rng: Pcg64 = Pcg64::new(seed);
    let ghost start = rng@;
    let mut mask: Vec<bool> = Vec::with_capacity(probe.len());
    let mut k: usize = 0;
    while k < probe.len()
        invariant
            k <= probe.len(),
            mask@ == Seq::new(k as nat, |i: int| false),
        decreases probe.len() - k,
    {
        mask.push(false);
        k += 1;
    }
    proof {
        lemma_marks_none(mask@);
    }
    let mut moved: usize = 0;
    let mut skipped: usize = 0;
    let mut i: usize = 0;
    while i < users.len()
        invariant
            valid_rows(probe@, n_users as int, n_items as int),
            probe.len() <= i32::MAX,
            increasing(days@),
            forall|u: i32, d: i16|
                0 <= u ==> (days@.contains(#[trigger] day_key(u, d) as u64)
                    <==> day_taken(train@, u, d)),
            users@ == multi_users(probe@, probe.len() as nat),
            groups.len() == n_users,
            forall|u: int|
                0 <= u < n_users && count_of(user_column(probe@), u) > 1 ==> (#[trigger] groups@[u])@
                    == positions_of(probe@, u),
            forall|j: int|
                0 <= j < users.len() ==> 0 <= #[trigger] users@[j] < n_users && count_of(
                    user_column(probe@),
                    users@[j] as int,
                ) > 1,
            i <= users.len(),
            mask.len() == probe.len(),
            moved <= i,
            skipped <= i,
            moved == marks(mask@),
            (mask@, rng@) == moves(train@, probe@, users@, i as nat, start),
            skipped == users_skipped(train@, probe@, users@, i as nat),
        decreases users.len() - i,
    {
        let u: i32 = users[i];
        assert(0 <= users@[i as int] < n_users);
        proof {
            lemma_positions(probe@, u as int);
            lemma_candidates_len(train@, probe@, u as int);
        }
        let fresh: Vec<usize> = new_day_positions(
            Ghost(train@),
            probe,
            &groups[u as usize],
            &days,
            n_users,
            n_items,
        );
        assert(fresh@ == candidates(train@, probe@, u as int));
        if fresh.len() > 0 {
            let pick: u32 = rng.choice(fresh.len() as u32);
            let chosen: usize = fresh[pick as usize];
            proof {
                lemma_candidates(train@, probe@, u as int, pick as int);
            }
            let f: u64 = rng.random();
            if f < MOVE_PROB {
                proof {
                    lemma_fresh_mark(
                        train@,
                        probe@,
                        users@,
                        i as nat,
                        start,
                        u,
                        chosen as int,
                    );
                    lemma_marks_update(mask@, chosen as int);
                }
                mask.set(chosen, true);
                moved += 1;
            }
        } else {
            skipped += 1;
        }
        i += 1;
    }
    Moves { mask, moved, skipped }
}

proof fn lemma_marks_none(mask: Seq<bool>)
    requires
        forall|i: int| 0 <= i < mask.len() ==> !mask[i],
    ensures
        marks(mask) == 0,
    decreases mask.len(),
{
    if mask.len() > 0 {
        lemma_marks_none(mask.drop_last());
    }
}

proof fn lemma_marks_update(mask: Seq<bool>, at: int)
    requires
        0 <= at < mask.len(),
        !mask[at],
    ensures
        marks(mask.update(at, true)) == marks(mask) + 1,
    decreases mask.len(),
{
    if at == mask.len() - 1 {
        assert(mask.update(at, true).drop_last() =~= mask.drop_last());
    } else {
        assert(mask.update(at, true).drop_last() =~= mask.drop_last().update(at, true));
        lemma_marks_update(mask.drop_last(), at);
    }
}

proof fn lemma_multi_users_distinct(rows: Seq<Rating>, k: nat)
    ensures
        multi_users(rows, k).no_duplicates(),
        forall|j: int|
            0 <= j < multi_users(rows, k).len() ==> count_of(
                user_column(rows),
                #[trigger] multi_users(rows, k)[j] as int,
            ) > 1,
    decreases k,
{
    if k > 0 {
        lemma_multi_users_distinct(rows, (k - 1) as nat);
        let met = multi_users(rows, (k - 1) as nat);
        let now = multi_users(rows, k);
        assert forall|j: int| 0 <= j < now.len() implies count_of(
            user_column(rows),
            #[trigger] now[j] as int,
        ) > 1 by {
            if j < met.len() {
                assert(now[j] == met[j]);
            }
        }
    }
}

/// What is known of the ratings that move for the first `k` users.
proof fn lemma_moves(
    train: Seq<Rating>,
    probe: Seq<Rating>,
    users: Seq<i32>,
    k: nat,
    rng: PcgState,
)
    requires
        probe.len() <= u32::MAX,
        k <= users.len(),
        users.no_duplicates(),
    ensures
        moves(train, probe, users, k, rng).0.len() == probe.len(),
        forall|i: int|
            0 <= i < probe.len() && #[trigger] moves(train, probe, users, k, rng).0[i]
                ==> users.take(k as int).contains(probe[i].user) && !day_taken(
                train,
                probe[i].user,
                probe[i].date,
            ),
        forall|i: int, j: int|
            0 <= i < j < probe.len() && #[trigger] moves(train, probe, users, k, rng).0[i]
                && #[trigger] moves(train, probe, users, k, rng).0[j] ==> probe[i].user
                != probe[j].user,
    decreases k,
{
    if k > 0 {
        let h = (k - 1) as nat;
        lemma_moves(train, probe, users, h, rng);
        let (m0, p) = moves(train, probe, users, h, rng);
        let m1 = moves(train, probe, users, k, rng).0;
        let u = users[k - 1];
        let c = candidates(train, probe, u as int);
        lemma_candidates_len(train, probe, u as int);
        let before = users.take(h as int);
        let now = users.take(k as int);
        assert(now =~= before.push(u));
        assert forall|x: i32| before.contains(x) implies now.contains(x) by {
            let q = choose|q: int| 0 <= q < before.len() && before[q] == x;
            assert(now[q] == x);
        }
        assert(now[k - 1] == u);
        assert(!before.contains(u)) by {
            if before.contains(u) {
                let q = choose|q: int| 0 <= q < before.len() && before[q] == u;
                assert(users[q] == users[k - 1]);
            }
        }
        if c.len() > 0 {
            let pick = p.choice_value(c.len() as u32);
            lemma_choice_below(p, c.len() as u32);
            lemma_candidates(train, probe, u as int, pick as int);
            let chosen = c[pick as int] as int;
            assert forall|i: int| 0 <= i < probe.len() && #[trigger] m1[i] implies now.contains(
                probe[i].user,
            ) && !day_taken(train, probe[i].user, probe[i].date) by {
                if i != chosen {
                    assert(m0[i]);
                }
            }
            assert forall|i: int, j: int|
                0 <= i < j < probe.len() && #[trigger] m1[i] && #[trigger] m1[j] implies probe[i].user
                != probe[j].user by {
                if i != chosen {
                    assert(m0[i]);
                }
                if j != chosen {
                    assert(m0[j]);
                }
            }
        } else {
            assert forall|i: int| 0 <= i < probe.len() && #[trigger] m1[i] implies now.contains(
                probe[i].user,
            ) && !day_taken(train, probe[i].user, probe[i].date) by {
                assert(m0[i]);
            }
        }
    }
}

proof fn lemma_fresh_mark(
    train: Seq<Rating>,
    probe: Seq<Rating>,
    users: Seq<i32>,
    k: nat,
    rng: PcgState,
    u: i32,
    chosen: int,
)
    requires
        probe.len() <= i32::MAX,
        users == multi_users(probe, probe.len()),
        k < users.len(),
        users[k as int] == u,
        0 <= chosen < probe.len(),
        probe[chosen].user == u,
    ensures
        !moves(train, probe, users, k, rng).0[chosen],
{
    lemma_multi_users_distinct(probe, probe.len());
    lemma_moves(train, probe, users, k, rng);
    if moves(train, probe, users, k, rng).0[chosen] {
        let q = choose|q: int| 0 <= q < k && users.take(k as int)[q] == u;
        assert(users[q] == users[k as int]);
    }
}

proof fn lemma_choice_below(p: PcgState, n: u32)
    requires
        n > 0,
    ensures
        p.choice_value(n) < n,
{
    if n > 1 {
        let x = p.nth_draw32(p.rejections(n));
        assert((x as int) * (n as int) < 0x1_0000_0000 * (n as int)) by (nonlinear_arith)
            requires
                x <= 0xFFFF_FFFFu32,
                n > 0,
        ;
        assert(0 <= (x as int) * (n as int)) by (nonlinear_arith);
    }
}

/// A rating that moves is of a user with more than one probe rating, on a day on which the user
/// rates nothing in `train`; and no user has two that move.
pub proof fn lemma_moves_at_most_one(train: Seq<Rating>, probe: Seq<Rating>, seed: u64)
    requires
        probe.len() <= i32::MAX,
    ensures
        moved_mask(train, probe, seed).len() == probe.len(),
        forall|i: int|
            0 <= i < probe.len() && #[trigger] moved_mask(train, probe, seed)[i] ==> count_of(
                user_column(probe),
                probe[i].user as int,
            ) > 1 && !day_taken(train, probe[i].user, probe[i].date),
        forall|i: int, j: int|
            0 <= i < j < probe.len() && #[trigger] moved_mask(train, probe, seed)[i]
                && #[trigger] moved_mask(train, probe, seed)[j] ==> probe[i].user != probe[j].user,
{
    let users = multi_users(probe, probe.len());
    lemma_multi_users_distinct(probe, probe.len());
    lemma_moves(train, probe, users, users.len(), PcgState::seeded(seed));
    assert(users.take(users.len() as int) =~= users);
    let m = moved_mask(train, probe, seed);
    assert forall|i: int| 0 <= i < probe.len() && #[trigger] m[i] implies count_of(
        user_column(probe),
        probe[i].user as int,
    ) > 1 && !day_taken(train, probe[i].user, probe[i].date) by {
        assert(users.contains(probe[i].user));
    }
}

proof fn lemma_positions_all(rows: Seq<Rating>, user: int)
    requires
        rows.len() <= usize::MAX,
    ensures
        forall|p: usize| #[trigger]
            positions_of(rows, user).contains(p) <==> p < rows.len() && rows[p as int].user == user,
        forall|i: int, j: int|
            0 <= i < j < positions_of(rows, user).len() ==> #[trigger] positions_of(rows, user)[i]
                < #[trigger] positions_of(rows, user)[j],
    decreases rows.len(),
{
    if rows.len() > 0 {
        let h = rows.drop_last();
        let last = (rows.len() - 1) as usize;
        lemma_positions_all(h, user);
        let a = positions_of(h, user);
        let b = positions_of(rows, user);
        assert forall|p: usize| #[trigger] b.contains(p) <==> p < rows.len() && rows[p as int].user
            == user by {
            assert(a.contains(p) <==> p < h.len() && h[p as int].user == user);
            if a.contains(p) {
                let k = a.index_of(p);
                assert(b[k] == p);
            }
            if b.contains(p) {
                let k = b.index_of(p);
                if k < a.len() {
                    assert(a[k] == p);
                    assert(a.contains(p));
                }
            }
            if p == last && rows[p as int].user == user {
                assert(b[b.len() - 1] == p);
            }
        }
        assert forall|i: int, j: int| 0 <= i < j < b.len() implies #[trigger] b[i] < #[trigger] b[j] by {
            assert(b[i] == a[i]);
            assert(a.contains(a[i]));
            if j < a.len() {
                assert(b[j] == a[j]);
            }
        }
    }
}

proof fn lemma_filter_goes_up(s: Seq<usize>, pred: spec_fn(usize) -> bool)
    requires
        forall|i: int, j: int| 0 <= i < j < s.len() ==> #[trigger] s[i] < #[trigger] s[j],
    ensures
        forall|i: int, j: int|
            0 <= i < j < s.filter(pred).len() ==> #[trigger] s.filter(pred)[i] < #[trigger] s.filter(
                pred,
            )[j],
    decreases s.len(),
{
    reveal(Seq::filter);
    if s.len() > 0 {
        let h = s.drop_last();
        assert forall|i: int, j: int| 0 <= i < j < h.len() implies #[trigger] h[i] < #[trigger] h[j] by {
            assert(h[i] == s[i] && h[j] == s[j]);
        }
        lemma_filter_goes_up(h, pred);
        let a = h.filter(pred);
        let b = s.filter(pred);
        assert forall|i: int, j: int| 0 <= i < j < b.len() implies #[trigger] b[i] < #[trigger] b[j] by {
            assert(b[i] == a[i]);
            if j < a.len() {
                assert(b[j] == a[j]);
            } else {
                assert(a.contains(a[i]));
                h.lemma_filter_contains_rev(pred, a[i]);
                let k = choose|k: int| 0 <= k < h.len() && h[k] == a[i];
                assert(s[k] < s[s.len() - 1]);
            }
        }
    }
}

/// The candidates of a user are the places of all their probe ratings on days on which they have no
/// rating in `train`, in order.
pub proof fn lemma_candidates_exact(train: Seq<Rating>, probe: Seq<Rating>, user: i32)
    requires
        probe.len() <= usize::MAX,
    ensures
        forall|p: usize| #[trigger]
            candidates(train, probe, user as int).contains(p) <==> p < probe.len()
                && probe[p as int].user == user && forall|t: int|
                0 <= t < train.len() ==> (#[trigger] train[t]).user != user || train[t].date
                    != probe[p as int].date,
        forall|i: int, j: int|
            0 <= i < j < candidates(train, probe, user as int).len() ==> #[trigger] candidates(
                train,
                probe,
                user as int,
            )[i] < #[trigger] candidates(train, probe, user as int)[j],
{
    let all = positions_of(probe, user as int);
    let pred = on_new_day(train, probe);
    let c = candidates(train, probe, user as int);
    lemma_positions_all(probe, user as int);
    lemma_filter_goes_up(all, pred);
    assert forall|p: usize| #[trigger] c.contains(p) <==> p < probe.len() && probe[p as int].user
        == user && forall|t: int|
        0 <= t < train.len() ==> (#[trigger] train[t]).user != user || train[t].date
            != probe[p as int].date by {
        if c.contains(p) {
            let i = c.index_of(p);
            all.lemma_filter_contains_rev(pred, p);
            all.lemma_filter_pred(pred, i);
            assert(all.contains(p));
            assert(!day_taken(train, probe[p as int].user, probe[p as int].date));
            assert forall|t: int| 0 <= t < train.len() implies (#[trigger] train[t]).user != user
                || train[t].date != probe[p as int].date by {
                if train[t].user == user && train[t].date == probe[p as int].date {
                    assert(day_taken(train, probe[p as int].user, probe[p as int].date));
                }
            }
        }
        if p < probe.len() && probe[p as int].user == user && forall|t: int|
            0 <= t < train.len() ==> (#[trigger] train[t]).user != user || train[t].date
                != probe[p as int].date {
            assert(all.contains(p));
            let i = all.index_of(p);
            assert(pred(p));
            all.lemma_filter_contains(pred, i);
        }
    }
}

proof fn lemma_count_twice(rows: Seq<Rating>, u: i32)
    ensures
        count_of(user_column(rows), u as int) >= 0,
        count_of(user_column(rows), u as int) > 0 <==> exists|i: int|
            0 <= i < rows.len() && #[trigger] rows[i].user == u,
        count_of(user_column(rows), u as int) > 1 <==> exists|i: int, j: int|
            0 <= i < j < rows.len() && #[trigger] rows[i].user == u && #[trigger] rows[j].user == u,
    decreases rows.len(),
{
    let c = user_column(rows);
    if rows.len() > 0 {
        let h = rows.drop_last();
        let n = rows.len() - 1;
        lemma_count_twice(h, u);
        assert(c.drop_last() =~= user_column(h));
        assert(c.last() == rows[n].user);
        if exists|i: int| 0 <= i < h.len() && #[trigger] h[i].user == u {
            let i = choose|i: int| 0 <= i < h.len() && #[trigger] h[i].user == u;
            assert(rows[i].user == u);
            if rows[n].user == u {
                assert(rows[i].user == u && rows[n].user == u);
            }
        }
        if exists|i: int, j: int|
            0 <= i < j < h.len() && #[trigger] h[i].user == u && #[trigger] h[j].user == u {
            let (i, j) = choose|i: int, j: int|
                0 <= i < j < h.len() && #[trigger] h[i].user == u && #[trigger] h[j].user == u;
            assert(rows[i].user == u && rows[j].user == u);
        }
        if exists|i: int| 0 <= i < rows.len() && #[trigger] rows[i].user == u {
            let i = choose|i: int| 0 <= i < rows.len() && #[trigger] rows[i].user == u;
            if i < n {
                assert(h[i].user == u);
            }
        }
        if exists|i: int, j: int|
            0 <= i < j < rows.len() && #[trigger] rows[i].user == u && #[trigger] rows[j].user == u {
            let (i, j) = choose|i: int, j: int|
                0 <= i < j < rows.len() && #[trigger] rows[i].user == u && #[trigger] rows[j].user
                    == u;
            assert(h[i].user == u);
            if j < n {
                assert(h[j].user == u);
            }
        }
    }
}

proof fn lemma_multi_users_met(rows: Seq<Rating>, k: nat)
    requires
        k <= rows.len(),
    ensures
        forall|u: i32| #[trigger]
            multi_users(rows, k).contains(u) <==> count_of(user_column(rows), u as int) > 1
                && exists|i: int| 0 <= i < k && #[trigger] rows[i].user == u,
        forall|a: int, b: int|
            0 <= a < b < multi_users(rows, k).len() ==> met_before(
                rows,
                #[trigger] multi_users(rows, k)[a],
                #[trigger] multi_users(rows, k)[b],
            ),
    decreases k,
{
    if k > 0 {
        let h = (k - 1) as nat;
        lemma_multi_users_met(rows, h);
        lemma_multi_users_distinct(rows, k);
        let a = multi_users(rows, h);
        let b = multi_users(rows, k);
        let v = rows[h as int].user;
        assert forall|u: i32| #[trigger] b.contains(u) <==> count_of(user_column(rows), u as int) > 1
            && exists|i: int| 0 <= i < k && #[trigger] rows[i].user == u by {
            assert(a.contains(u) <==> count_of(user_column(rows), u as int) > 1 && exists|i: int|
                0 <= i < h && #[trigger] rows[i].user == u);
            if a.contains(u) {
                let i = a.index_of(u);
                assert(b[i] == u);
            }
            if b.contains(u) {
                let i = b.index_of(u);
                if i < a.len() {
                    assert(a[i] == u);
                    assert(a.contains(u));
                } else {
                    assert(rows[h as int].user == u);
                }
            }
            if count_of(user_column(rows), u as int) > 1 && exists|i: int|
                0 <= i < k && #[trigger] rows[i].user == u {
                let i = choose|i: int| 0 <= i < k && #[trigger] rows[i].user == u;
                if i == h && !a.contains(u) {
                    assert(b[b.len() - 1] == u);
                }
            }
        }
        assert forall|x: int, y: int| 0 <= x < y < b.len() implies met_before(
            rows,
            #[trigger] b[x],
            #[trigger] b[y],
        ) by {
            assert(b[x] == a[x]);
            if y < a.len() {
                assert(b[y] == a[y]);
            } else {
                assert(a.contains(a[x]));
                let i = choose|i: int| 0 <= i < h && #[trigger] rows[i].user == a[x];
                assert(!a.contains(v));
                assert forall|j: int| 0 <= j <= i implies #[trigger] rows[j].user != v by {
                    if rows[j].user == v {
                        assert(a.contains(v));
                    }
                }
                assert(rows[i].user == b[x]);
            }
        }
    }
}

/// Whether a user is met before another is met for the first time.
pub open spec fn met_before(rows: Seq<Rating>, u: i32, v: i32) -> bool {
    exists|i: int|
        0 <= i < rows.len() && #[trigger] rows[i].user == u && forall|j: int|
            0 <= j <= i ==> #[trigger] rows[j].user != v
}

/// The users whose turn comes are those with two ratings or more, each once, in the order in which
/// they are first met.
pub proof fn lemma_multi_users_exact(rows: Seq<Rating>)
    ensures
        forall|u: i32| #[trigger]
            multi_users(rows, rows.len()).contains(u) <==> exists|i: int, j: int|
                0 <= i < j < rows.len() && #[trigger] rows[i].user == u && #[trigger] rows[j].user
                    == u,
        multi_users(rows, rows.len()).no_duplicates(),
        forall|a: int, b: int|
            0 <= a < b < multi_users(rows, rows.len()).len() ==> met_before(
                rows,
                #[trigger] multi_users(rows, rows.len())[a],
                #[trigger] multi_users(rows, rows.len())[b],
            ),
{
    let m = multi_users(rows, rows.len());
    lemma_multi_users_distinct(rows, rows.len());
    lemma_multi_users_met(rows, rows.len());
    assert forall|u: i32| #[trigger] m.contains(u) <==> exists|i: int, j: int|
        0 <= i < j < rows.len() && #[trigger] rows[i].user == u && #[trigger] rows[j].user == u by {
        lemma_count_twice(rows, u);
    }
}

/// How the choice goes, turn by turn: the generator starts from the seed; a user with candidates
/// draws one of them by a choice among all of them, and then a fraction, below nine tenths of which
/// that candidate and no other moves; a user without candidates draws nothing. Nothing else moves.
/// Hands back the generators before each turn and after the last.
pub proof fn lemma_turns(train: Seq<Rating>, probe: Seq<Rating>, seed: u64) -> (g: Seq<PcgState>)
    requires
        probe.len() <= i32::MAX,
    ensures
        ({
            let users = multi_users(probe, probe.len());
            let mask = moved_mask(train, probe, seed);
            &&& g.len() == users.len() + 1
            &&& g[0] == PcgState::seeded(seed)
            &&& forall|k: int|
                0 <= k < users.len() ==> ({
                    let c = candidates(train, probe, #[trigger] users[k] as int);
                    let n = c.len() as u32;
                    &&& n == c.len()
                    &&& c.len() == 0 ==> g[k + 1] == g[k]
                    &&& c.len() > 0 ==> g[k + 1] == g[k].after_choice(n).after64()
                    &&& forall|q: int|
                        0 <= q < c.len() ==> (mask[#[trigger] c[q] as int] <==> g[k].choice_value(n)
                            == q && g[k].after_choice(n).draw_fraction() < MOVE_PROB)
                })
            &&& forall|i: int|
                0 <= i < probe.len() && #[trigger] mask[i] ==> users.contains(probe[i].user)
                    && candidates(train, probe, probe[i].user as int).contains(i as usize)
        }),
{
    let users = multi_users(probe, probe.len());
    let start = PcgState::seeded(seed);
    let g = Seq::new(users.len() + 1, |k: int| moves(train, probe, users, k as nat, start).1);
    let mask = moved_mask(train, probe, seed);
    lemma_multi_users_distinct(probe, probe.len());
    assert forall|k: int| 0 <= k < users.len() implies ({
        let c = candidates(train, probe, #[trigger] users[k] as int);
        let n = c.len() as u32;
        &&& n == c.len()
        &&& c.len() == 0 ==> g[k + 1] == g[k]
        &&& c.len() > 0 ==> g[k + 1] == g[k].after_choice(n).after64()
        &&& forall|q: int|
            0 <= q < c.len() ==> (mask[#[trigger] c[q] as int] <==> g[k].choice_value(n) == q
                && g[k].after_choice(n).draw_fraction() < MOVE_PROB)
    }) by {
        let u = users[k];
        let c = candidates(train, probe, u as int);
        let n = c.len() as u32;
        lemma_candidates_len(train, probe, u as int);
        lemma_candidates_exact(train, probe, u);
        let (m0, p0) = moves(train, probe, users, k as nat, start);
        let (m1, p1) = moves(train, probe, users, (k + 1) as nat, start);
        lemma_moves(train, probe, users, k as nat, start);
        assert forall|q: int| 0 <= q < c.len() implies (mask[#[trigger] c[q] as int]
            <==> g[k].choice_value(n) == q && g[k].after_choice(n).draw_fraction() < MOVE_PROB) by {
            lemma_candidates(train, probe, u as int, q);
            let at = c[q] as int;
            lemma_mark_stays(train, probe, users, (k + 1) as nat, users.len(), start, at);
            lemma_fresh_mark(train, probe, users, k as nat, start, u, at);
            lemma_choice_below(p0, n);
            let pick = p0.choice_value(n) as int;
            lemma_candidates(train, probe, u as int, pick);
            if pick != q {
                assert(c[pick] != c[q]);
            }
        }
    }
    lemma_moves(train, probe, users, users.len(), start);
    assert(users.take(users.len() as int) =~= users);
    assert forall|i: int| 0 <= i < probe.len() && #[trigger] mask[i] implies users.contains(
        probe[i].user,
    ) && candidates(train, probe, probe[i].user as int).contains(i as usize) by {
        lemma_candidates_exact(train, probe, probe[i].user);
        assert(!day_taken(train, probe[i].user, probe[i].date));
        let c = candidates(train, probe, probe[i].user as int);
        assert forall|t: int| 0 <= t < train.len() implies (#[trigger] train[t]).user
            != probe[i].user || train[t].date != probe[i].date by {
            if train[t].user == probe[i].user && train[t].date == probe[i].date {
                assert(day_taken(train, probe[i].user, probe[i].date));
            }
        }
        assert(c.contains(i as usize));
    }
    g
}

/// The turns of other users leave the marks of a user's ratings as they are.
proof fn lemma_mark_stays(
    train: Seq<Rating>,
    probe: Seq<Rating>,
    users: Seq<i32>,
    k: nat,
    n: nat,
    rng: PcgState,
    at: int,
)
    requires
        probe.len() <= i32::MAX,
        users.no_duplicates(),
        0 < k <= n <= users.len(),
        0 <= at < probe.len(),
        users[k - 1] == probe[at].user,
    ensures
        moves(train, probe, users, n, rng).0[at] == moves(train, probe, users, k, rng).0[at],
    decreases n - k,
{
    if k < n {
        let h = (n - 1) as nat;
        lemma_mark_stays(train, probe, users, k, h, rng, at);
        lemma_moves(train, probe, users, h, rng);
        let p = moves(train, probe, users, h, rng).1;
        let u = users[h as int];
        let c = candidates(train, probe, u as int);
        if c.len() > 0 {
            lemma_candidates_len(train, probe, u as int);
            lemma_choice_below(p, c.len() as u32);
            lemma_candidates(train, probe, u as int, p.choice_value(c.len() as u32) as int);
            assert(users[h as int] != users[k - 1]);
        }
    }
}

/// The users that are passed over are those whose turn comes and who have no candidate.
pub proof fn lemma_skipped(train: Seq<Rating>, probe: Seq<Rating>, users: Seq<i32>)
    ensures
        users_skipped(train, probe, users, users.len()) == users.filter(
            |u: i32| candidates(train, probe, u as int).len() == 0,
        ).len(),
{
    lemma_skipped_upto(train, probe, users, users.len());
    assert(users.take(users.len() as int) =~= users);
}

proof fn lemma_skipped_upto(train: Seq<Rating>, probe: Seq<Rating>, users: Seq<i32>, k: nat)
    requires
        k <= users.len(),
    ensures
        users_skipped(train, probe, users, k) == users.take(k as int).filter(
            |u: i32| candidates(train, probe, u as int).len() == 0,
        ).len(),
    decreases k,
{
    let pred = |u: i32| candidates(train, probe, u as int).len() == 0;
    reveal(Seq::filter);
    if k > 0 {
        lemma_skipped_upto(train, probe, users, (k - 1) as nat);
        assert(users.take(k as int) =~= users.take(k - 1).push(users[k - 1]));
        users.take(k - 1).lemma_filter_push(users[k - 1], pred);
    } else {
        assert(users.take(0) =~= Seq::empty());
    }
}

// ---------------------------------------------------------------------------
// The new data sets
// ---------------------------------------------------------------------------

/// Orders ratings by user, then item.
pub open spec fn user_item_keys(rows: Seq<Rating>) -> Seq<u64> {
    rows.map_values(|r: Rating| (r.user * 0x1_0000 + r.item) as u64)
}

/// Orders ratings by item, then user.
pub open spec fn item_user_keys(rows: Seq<Rating>) -> Seq<u64> {
    rows.map_values(|r: Rating| (r.item * 0x1_0000_0000 + r.user) as u64)
}

/// The data sets `trainx` and `probex` and their counts.
pub struct NewSplit {
    pub trainx: Vec<Rating>,
    pub probex: Vec<Rating>,
    pub trainx_counts: Counts,
    pub probex_counts: Counts,
    pub moved: usize,
    pub skipped: usize,
}

/// `trainx` is `train` with the moved ratings after it, by user and item; `probex` is what is
/// left of `probe`, by item and user.
pub open spec fn is_new_split(
    train: Seq<Rating>,
    probe: Seq<Rating>,
    mask: Seq<bool>,
    trainx: Seq<Rating>,
    probex: Seq<Rating>,
) -> bool {
    let grown = train + masked(probe, mask, true);
    let left = masked(probe, mask, false);
    &&& exists|perm: Seq<usize>| #[trigger]
        is_order(user_item_keys(grown), perm) && trainx == gather(grown, perm)
    &&& exists|perm: Seq<usize>| #[trigger]
        is_order(item_user_keys(left), perm) && probex == gather(left, perm)
}

proof fn lemma_masked_step(rows: Seq<Rating>, mask: Seq<bool>, keep: bool, i: int)
    requires
        0 <= i < rows.len(),
    ensures
        masked(rows.take(i + 1), mask, keep) == (if mask[i] == keep {
            masked(rows.take(i), mask, keep).push(rows[i])
        } else {
            masked(rows.take(i), mask, keep)
        }),
{
    assert(rows.take(i + 1).drop_last() =~= rows.take(i));
    assert(rows.take(i + 1).last() == rows[i]);
}

/// The rows of `rows` that `mask` marks as `keep`.
pub fn take_masked(rows: &Vec<Rating>, mask: &Vec<bool>, keep: bool, out: &mut Vec<Rating>)
    requires
        rows.len() == mask.len(),
    ensures
        final(out)@ == old(out)@ + masked(rows@, mask@, keep),
{
    let ghost start = out@;
    let mut i: usize = 0;
    proof {
        assert(rows@.take(0) =~= Seq::empty());
        assert(start + Seq::<Rating>::empty() =~= start);
    }
    while i < rows.len()
        invariant
            rows.len() == mask.len(),
            i <= rows.len(),
            out@ == start + masked(rows@.take(i as int), mask@, keep),
        decreases rows.len() - i,
    {
        proof {
            lemma_masked_step(rows@, mask@, keep, i as int);
            let part = masked(rows@.take(i as int), mask@, keep);
            assert((start + part).push(rows@[i as int]) =~= start + part.push(rows@[i as int]));
        }
        if mask[i] == keep {
            out.push(rows[i]);
        }
        i += 1;
    }
    proof {
        assert(rows@.take(rows.len() as int) =~= rows@);
    }
}

proof fn lemma_masked_valid(
    rows: Seq<Rating>,
    mask: Seq<bool>,
    keep: bool,
    n_users: int,
    n_items: int,
)
    requires
        valid_rows(rows, n_users, n_items),
    ensures
        valid_rows(masked(rows, mask, keep), n_users, n_items),
        masked(rows, mask, keep).len() <= rows.len(),
    decreases rows.len(),
{
    if rows.len() > 0 {
        assert(valid_rows(rows.drop_last(), n_users, n_items));
        lemma_masked_valid(rows.drop_last(), mask, keep, n_users, n_items);
        assert(valid_row(rows[rows.len() - 1], n_users, n_items));
    }
}

proof fn lemma_valid_in_range(rows: Seq<Rating>, sizes: Sizes)
    requires
        valid_rows(rows, sizes.users as int, sizes.items as int),
    ensures
        rows_in_range(rows, sizes),
{
    assert forall|k: int| 0 <= k < rows.len() implies 0 <= #[trigger] user_column(rows)[k]
        < sizes.users by {
        assert(valid_row(rows[k], sizes.users as int, sizes.items as int));
    }
    assert forall|k: int| 0 <= k < rows.len() implies 0 <= #[trigger] item_column(rows)[k]
        < sizes.items by {
        assert(valid_row(rows[k], sizes.users as int, sizes.items as int));
    }
}

fn take_in_order(rows: &Vec<Rating>, keys: &Vec<u64>, sizes: &Sizes) -> (r: Vec<Rating>)
    requires
        keys.len() == rows.len(),
        valid_rows(rows@, sizes.users as int, sizes.items as int),
    ensures
        exists|perm: Seq<usize>| #[trigger] is_order(keys@, perm) && r@ == gather(rows@, perm),
        valid_rows(r@, sizes.users as int, sizes.items as int),
        r.len() == rows.len(),
{
    let perm: Vec<usize> = sort_order(keys);
    let mut out: Vec<Rating> = Vec::with_capacity(rows.len());
    let mut i: usize = 0;
    while i < perm.len()
        invariant
            keys.len() == rows.len(),
            is_order(keys@, perm@),
            valid_rows(rows@, sizes.users as int, sizes.items as int),
            i <= perm.len(),
            out@ == gather(rows@, perm@).take(i as int),
        decreases perm.len() - i,
    {
        assert(perm@[i as int] < rows.len());
        let row: Rating = rows[perm[i]];
        out.push(row);
        proof {
            assert(gather(rows@, perm@).take(i + 1) =~= gather(rows@, perm@).take(i as int).push(
                row,
            ));
        }
        i += 1;
    }
    proof {
        let g = gather(rows@, perm@);
        assert(g.take(perm.len() as int) =~= g);
        assert forall|k: int| 0 <= k < g.len() implies valid_row(
            #[trigger] g[k],
            sizes.users as int,
            sizes.items as int,
        ) by {
            assert(perm@[k] < rows.len());
            assert(valid_row(rows@[perm@[k] as int], sizes.users as int, sizes.items as int));
        }
        assert(is_order(keys@, perm@));
    }
    out
}

/// Derives the second split from the first; `None` where a row is not of a user, an item and a
/// day of the data.
pub fn new_split(train: &Vec<Rating>, probe: &Vec<Rating>, sizes: &Sizes, seed: u64) -> (r: Option<
    NewSplit,
>)
    requires
        sizes.users <= i32::MAX,
        sizes.items <= i16::MAX,
        train.len() + probe.len() <= i32::MAX,
    ensures
        r is Some <==> valid_rows(train@, sizes.users as int, sizes.items as int) && valid_rows(
            probe@,
            sizes.users as int,
            sizes.items as int,
        ),
        r matches Some(s) ==> {
            let mask = moved_mask(train@, probe@, seed);
            let users = multi_users(probe@, probe.len() as nat);
            &&& is_new_split(train@, probe@, mask, s.trainx@, s.probex@)
            &&& counts_of(s.trainx@, *sizes, s.trainx_counts)
            &&& counts_of(s.probex@, *sizes, s.probex_counts)
            &&& s.moved == marks(mask)
            &&& s.skipped == users_skipped(train@, probe@, users, users.len())
        },
{
    if !check_rows(train, sizes.users, sizes.items) || !check_rows(
        probe,
        sizes.users,
        sizes.items,
    ) {
        return None;
    }
    let ghost nu = sizes.users as int;
    let ghost ni = sizes.items as int;
    let m: Moves = choose_moves(train, probe, sizes.users, sizes.items, seed);
    let mut grown: Vec<Rating> = Vec::with_capacity(train.len());
    let mut k: usize = 0;
    while k < train.len()
        invariant
            k <= train.len(),
            grown@ == train@.take(k as int),
        decreases train.len() - k,
    {
        grown.push(train[k]);
        proof {
            assert(train@.take(k + 1) =~= train@.take(k as int).push(train@[k as int]));
        }
        k += 1;
    }
    proof {
        assert(train@.take(train.len() as int) =~= train@);
    }
    take_masked(probe, &m.mask, true, &mut grown);
    let mut left: Vec<Rating> = Vec::new();
    take_masked(probe, &m.mask, false, &mut left);
    proof {
        assert(Seq::<Rating>::empty() + masked(probe@, m.mask@, false) =~= masked(
            probe@,
            m.mask@,
            false,
        ));
        lemma_masked_valid(probe@, m.mask@, true, nu, ni);
        lemma_masked_valid(probe@, m.mask@, false, nu, ni);
        let moved = masked(probe@, m.mask@, true);
        assert forall|i: int| 0 <= i < grown@.len() implies valid_row(#[trigger] grown@[i], nu, ni) by {
            if i < train@.len() {
                assert(grown@[i] == train@[i]);
            } else {
                assert(grown@[i] == moved[i - train@.len()]);
            }
        }
    }
    let mut tkeys: Vec<u64> = Vec::with_capacity(grown.len());
    let mut i: usize = 0;
    while i < grown.len()
        invariant
            nu == sizes.users,
            ni == sizes.items,
            valid_rows(grown@, nu, ni),
            i <= grown.len(),
            tkeys@ == user_item_keys(grown@).take(i as int),
        decreases grown.len() - i,
    {
        assert(valid_row(grown@[i as int], nu, ni));
        let key: u64 = grown[i].user as u64 * 0x1_0000 + grown[i].item as u64;
        tkeys.push(key);
        proof {
            assert(user_item_keys(grown@).take(i + 1) =~= user_item_keys(grown@).take(
                i as int,
            ).push(key));
        }
        i += 1;
    }
    let mut pkeys: Vec<u64> = Vec::with_capacity(left.len());
    let mut j: usize = 0;
    while j < left.len()
        invariant
            nu == sizes.users,
            ni == sizes.items,
            valid_rows(left@, nu, ni),
            j <= left.len(),
            pkeys@ == item_user_keys(left@).take(j as int),
        decreases left.len() - j,
    {
        assert(valid_row(left@[j as int], nu, ni));
        let key: u64 = left[j].item as u64 * 0x1_0000_0000 + left[j].user as u64;
        pkeys.push(key);
        proof {
            assert(item_user_keys(left@).take(j + 1) =~= item_user_keys(left@).take(j as int).push(
                key,
            ));
        }
        j += 1;
    }
    proof {
        assert(user_item_keys(grown@).take(grown.len() as int) =~= user_item_keys(grown@));
        assert(item_user_keys(left@).take(left.len() as int) =~= item_user_keys(left@));
    }
    let trainx: Vec<Rating> = take_in_order(&grown, &tkeys, sizes);
    let probex: Vec<Rating> = take_in_order(&left, &pkeys, sizes);
    proof {
        lemma_valid_in_range(trainx@, *sizes);
        lemma_valid_in_range(probex@, *sizes);
        assert(trainx@.take(trainx.len() as int) =~= trainx@);
        assert(probex@.take(probex.len() as int) =~= probex@);
    }
    match (
        count_rows(&trainx, trainx.len(), sizes),
        count_rows(&probex, probex.len(), sizes),
    ) {
        (Some(trainx_counts), Some(probex_counts)) => Some(
            NewSplit {
                trainx,
                probex,
                trainx_counts,
                probex_counts,
                moved: m.moved,
                skipped: m.skipped,
            },
        ),
        _ => {
            assert(false);
            None
        },
    }
}

/// What a mask marks and what it leaves are together all rows.
proof fn lemma_masked_partition(rows: Seq<Rating>, mask: Seq<bool>)
    ensures
        masked(rows, mask, true).to_multiset().add(masked(rows, mask, false).to_multiset())
            == rows.to_multiset(),
        mask.len() == rows.len() ==> masked(rows, mask, true).len() == marks(mask),
    decreases rows.len(),
{
    broadcast use vstd::multiset::group_multiset_axioms;

    if rows.len() == 0 {
        let none = Seq::<Rating>::empty();
        assert(rows =~= none);
        assert forall|x: Rating| none.to_multiset().count(x) == 0 by {
            vstd::seq_lib::to_multiset_contains(none, x);
        }
        assert(masked(rows, mask, true).to_multiset().add(masked(rows, mask, false).to_multiset())
            =~= rows.to_multiset());
    } else {
        let rest = rows.drop_last();
        let x = rows.last();
        lemma_masked_partition(rest, mask);
        if mask.len() == rows.len() {
            lemma_masked_prefix(rest, mask, true);
            lemma_masked_partition(rest, mask.drop_last());
        }
        vstd::seq_lib::to_multiset_build(rest, x);
        assert(rest.push(x) =~= rows);
        vstd::seq_lib::to_multiset_build(masked(rest, mask, true), x);
        vstd::seq_lib::to_multiset_build(masked(rest, mask, false), x);
        assert(masked(rows, mask, true).to_multiset().add(masked(rows, mask, false).to_multiset())
            =~= rows.to_multiset());
    }
}

proof fn lemma_masked_prefix(rows: Seq<Rating>, mask: Seq<bool>, keep: bool)
    requires
        rows.len() < mask.len(),
    ensures
        masked(rows, mask, keep) == masked(rows, mask.drop_last(), keep),
    decreases rows.len(),
{
    if rows.len() > 0 {
        lemma_masked_prefix(rows.drop_last(), mask, keep);
    }
}

/// The second split holds the ratings of the first, no more and no fewer: `trainx` and `probex`
/// together are `train` and `probe` together, and `trainx` has grown by the moved ratings.
pub proof fn lemma_new_split_keeps_ratings(
    train: Seq<Rating>,
    probe: Seq<Rating>,
    seed: u64,
    trainx: Seq<Rating>,
    probex: Seq<Rating>,
)
    requires
        train.len() + probe.len() <= i32::MAX,
        is_new_split(train, probe, moved_mask(train, probe, seed), trainx, probex),
    ensures
        trainx.to_multiset().add(probex.to_multiset()) == train.to_multiset().add(
            probe.to_multiset(),
        ),
        trainx.len() == train.len() + marks(moved_mask(train, probe, seed)),
{
    broadcast use vstd::multiset::group_multiset_axioms;

    let mask = moved_mask(train, probe, seed);
    lemma_moves_at_most_one(train, probe, seed);
    let up = masked(probe, mask, true);
    let left = masked(probe, mask, false);
    let grown = train + up;
    lemma_masked_partition(probe, mask);
    lemma_masked_len(probe, mask, true);
    lemma_masked_len(probe, mask, false);
    let p1 = choose|perm: Seq<usize>| #[trigger]
        is_order(user_item_keys(grown), perm) && trainx == gather(grown, perm);
    let p2 = choose|perm: Seq<usize>| #[trigger]
        is_order(item_user_keys(left), perm) && probex == gather(left, perm);
    lemma_gather_permutes(user_item_keys(grown), p1, grown);
    lemma_gather_permutes(item_user_keys(left), p2, left);
    vstd::seq_lib::lemma_multiset_commutative(train, up);
    assert(trainx.to_multiset().add(probex.to_multiset()) =~= train.to_multiset().add(
        probe.to_multiset(),
    ));
}

proof fn lemma_masked_len(rows: Seq<Rating>, mask: Seq<bool>, keep: bool)
    ensures
        masked(rows, mask, keep).len() <= rows.len(),
    decreases rows.len(),
{
    if rows.len() > 0 {
        lemma_masked_len(rows.drop_last(), mask, keep);
    }
}

/// The rows are parted by their marks, each part in its order: those of two lists are those of the
/// first, then those of the second, and a row alone is taken if and only if its mark is as asked.
pub proof fn lemma_masked(
    a: Seq<Rating>,
    am: Seq<bool>,
    b: Seq<Rating>,
    bm: Seq<bool>,
    x: Rating,
    m: bool,
    keep: bool,
)
    requires
        a.len() == am.len(),
        b.len() == bm.len(),
    ensures
        masked(a + b, am + bm, keep) == masked(a, am, keep) + masked(b, bm, keep),
        masked(seq![x], seq![m], keep) == (if m == keep {
            seq![x]
        } else {
            Seq::empty()
        }),
    decreases b.len(),
{
    reveal_with_fuel(masked, 2);
    assert(seq![x].drop_last() =~= Seq::empty());
    if b.len() == 0 {
        assert(a + b =~= a);
        assert(am + bm =~= am);
        assert(masked(a, am, keep) + masked(b, bm, keep) =~= masked(a, am, keep));
    } else {
        let n = b.len() - 1;
        lemma_masked(a, am, b.drop_last(), bm.drop_last(), x, m, keep);
        assert((a + b).drop_last() =~= a + b.drop_last());
        assert((a + b).last() == b.last());
        lemma_masked_same((a + b).drop_last(), am + bm, am + bm.drop_last(), keep);
        lemma_masked_same(b.drop_last(), bm, bm.drop_last(), keep);
        assert((am + bm)[a.len() + n] == bm[n]);
        assert(masked(a + b, am + bm, keep) =~= masked(a, am, keep) + masked(b, bm, keep));
    }
}

proof fn lemma_masked_same(rows: Seq<Rating>, s: Seq<bool>, t: Seq<bool>, keep: bool)
    requires
        forall|k: int| 0 <= k < rows.len() ==> s[k] == t[k],
    ensures
        masked(rows, s, keep) == masked(rows, t, keep),
    decreases rows.len(),
{
    if rows.len() > 0 {
        lemma_masked_same(rows.drop_last(), s, t, keep);
    }
}

/// The marks are counted.
pub proof fn lemma_marks(mask: Seq<bool>)
    ensures
        marks(mask) == mask.filter(|m: bool| m).len(),
    decreases mask.len(),
{
    reveal(Seq::filter);
    if mask.len() > 0 {
        lemma_marks(mask.drop_last());
    }
}

/// The new training set is in the order of users and items, the new probe set in that of items and
/// users.
pub proof fn lemma_new_split_sorted(
    train: Seq<Rating>,
    probe: Seq<Rating>,
    mask: Seq<bool>,
    trainx: Seq<Rating>,
    probex: Seq<Rating>,
    n_users: int,
    n_items: int,
    i: int,
    j: int,
)
    requires
        is_new_split(train, probe, mask, trainx, probex),
        mask.len() == probe.len(),
        forall|k: int|
            0 <= k < train.len() ==> 0 <= (#[trigger] train[k]).user < n_users && 0
                <= train[k].item < n_items,
        forall|k: int|
            0 <= k < probe.len() ==> 0 <= (#[trigger] probe[k]).user < n_users && 0
                <= probe[k].item < n_items,
        n_users <= i32::MAX,
        n_items <= i16::MAX,
        0 <= i < j,
    ensures
        j < trainx.len() ==> trainx[i].user < trainx[j].user || (trainx[i].user == trainx[j].user
            && trainx[i].item <= trainx[j].item),
        j < probex.len() ==> probex[i].item < probex[j].item || (probex[i].item == probex[j].item
            && probex[i].user <= probex[j].user),
{
    let grown = train + masked(probe, mask, true);
    let left = masked(probe, mask, false);
    lemma_masked_from(probe, mask, true);
    lemma_masked_from(probe, mask, false);
    assert forall|k: int| 0 <= k < grown.len() implies 0 <= (#[trigger] grown[k]).user && 0
        <= grown[k].item by {
        if k >= train.len() {
            let t = k - train.len();
            assert(grown[k] == masked(probe, mask, true)[t]);
            assert(probe.contains(masked(probe, mask, true)[t]));
            let q = probe.index_of(masked(probe, mask, true)[t]);
            assert(0 <= probe[q].user);
        }
    }
    assert forall|k: int| 0 <= k < left.len() implies 0 <= (#[trigger] left[k]).user && 0
        <= left[k].item by {
        assert(probe.contains(left[k]));
        let q = probe.index_of(left[k]);
        assert(0 <= probe[q].user);
    }
    if j < trainx.len() {
        let keys = user_item_keys(grown);
        let perm = choose|perm: Seq<usize>| #[trigger]
            is_order(keys, perm) && trainx == gather(grown, perm);
        assert(crate::order::before(keys, perm[i], perm[j]));
        let (a, b) = (grown[perm[i] as int], grown[perm[j] as int]);
        assert(keys[perm[i] as int] == a.user * 0x1_0000 + a.item);
        assert(keys[perm[j] as int] == b.user * 0x1_0000 + b.item);
    }
    if j < probex.len() {
        let keys = item_user_keys(left);
        let perm = choose|perm: Seq<usize>| #[trigger]
            is_order(keys, perm) && probex == gather(left, perm);
        assert(crate::order::before(keys, perm[i], perm[j]));
        let (a, b) = (left[perm[i] as int], left[perm[j] as int]);
        assert(keys[perm[i] as int] == a.item * 0x1_0000_0000 + a.user);
        assert(keys[perm[j] as int] == b.item * 0x1_0000_0000 + b.user);
    }
}

proof fn lemma_masked_from(rows: Seq<Rating>, mask: Seq<bool>, keep: bool)
    ensures
        forall|k: int|
            0 <= k < masked(rows, mask, keep).len() ==> rows.contains(
                #[trigger] masked(rows, mask, keep)[k],
            ),
    decreases rows.len(),
{
    if rows.len() > 0 {
        let h = rows.drop_last();
        lemma_masked_from(h, mask, keep);
        let all = masked(rows, mask, keep);
        let before = masked(h, mask, keep);
        assert forall|k: int| 0 <= k < all.len() implies rows.contains(#[trigger] all[k]) by {
            if k < before.len() {
                assert(h.contains(before[k]));
                assert(rows[h.index_of(before[k])] == all[k]);
            } else {
                assert(rows[rows.len() - 1] == all[k]);
            }
        }
    }
}

/// The chance of a move is nine in ten.
pub proof fn lemma_move_chance()
    ensures
        9 * 0x20_0000_0000_0000 <= 10 * MOVE_PROB < 9 * 0x20_0000_0000_0000 + 10,
{
}

/// Rows are valid if and only if every user and every item is one of those there are.
pub proof fn lemma_valid_rows(rows: Seq<Rating>, n_users: int, n_items: int)
    ensures
        valid_rows(rows, n_users, n_items) <==> forall|k: int|
            0 <= k < rows.len() ==> 0 <= (#[trigger] rows[k]).user < n_users && 0 <= rows[k].item
                < n_items,
{
    if valid_rows(rows, n_users, n_items) {
        assert forall|k: int| 0 <= k < rows.len() implies 0 <= (#[trigger] rows[k]).user < n_users
            && 0 <= rows[k].item < n_items by {
            assert(valid_row(rows[k], n_users, n_items));
        }
    }
}

} // verus!
