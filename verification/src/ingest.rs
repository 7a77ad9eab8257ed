//! Building the four data sets `train`, `probe`, `fulltrain` and `qual` from the records of the
//! original files.

use crate::lines::byte_views;
use crate::order::gather;
use crate::order::increasing;
use crate::order::is_order;
use crate::order::lemma_gather_permutes;
use crate::order::sort_order;
use crate::records::fix_years;
use crate::records::fixed_years;
use crate::records::has_index;
use crate::records::index_rows;
use crate::records::indexed_row;
use crate::records::is_user_table;
use crate::records::lemma_increasing_same;
use crate::records::probe_pairs;
use crate::records::qual_rating;
use crate::records::qual_rows;
use crate::records::read_probe;
use crate::records::read_qual_ratings;
use crate::records::read_qualifying;
use crate::records::read_title_years;
use crate::records::title_years;
use crate::records::user_index;
use crate::records::Pair;
use crate::records::QualRating;
use crate::records::QualRow;
use crate::records::Rating;
use crate::records::RawRow;
use crate::records::UserTable;
use std::collections::HashMap;
use std::collections::HashSet;
use vstd::prelude::*;

verus! {

pub const N_USERS: usize = 480_189;

pub const N_ITEMS: usize = 17_770;

pub const N_TOTAL: usize = 100_480_507;

pub const N_PROBE: usize = 1_408_395;

pub const N_QUAL: usize = 2_817_131;

// ---------------------------------------------------------------------------
// Packed keys
// ---------------------------------------------------------------------------

/// A user and an item in one word: the item in the low sixteen bits, the user above it, both in
/// two's complement.
pub open spec fn packed(uidx: i32, iidx: i16) -> u64 {
    ((if uidx >= 0 {
        uidx as int
    } else {
        uidx + 0x1_0000_0000_0000
    }) * 0x1_0000 + (if iidx >= 0 {
        iidx as int
    } else {
        iidx + 0x1_0000
    })) as u64
}

/// Packs a user and an item into one word.
pub fn pack_key(uidx: i32, iidx: i16) -> (r: u64)
    ensures
        r == packed(uidx, iidx),
{
    proof {
        lemma_pack_bits(uidx, iidx);
    }
    ((uidx as u64) << 16) | (iidx as u64 & 0xFFFF)
}

proof fn lemma_pack_bits(u: i32, i: i16)
    ensures
        ((u as u64) << 16u32) | (i as u64 & 0xFFFF) == packed(u, i),
{
    let lo: u64 = if i >= 0 {
        i as u64
    } else {
        (i + 0x1_0000) as u64
    };
    let hi: u64 = if u >= 0 {
        u as u64
    } else {
        (u + 0x1_0000_0000_0000) as u64
    };
    assert((i >= 0 ==> (i as u64 & 0xFFFF) == i as u64) && (i < 0 ==> (i as u64 & 0xFFFF) == (i
        + 0x1_0000) as u64)) by (bit_vector);
    assert((u >= 0 ==> ((u as u64) << 16u32) == (u as u64) * 0x1_0000) && (u < 0 ==> ((u as u64)
        << 16u32) == ((u + 0x1_0000_0000_0000) as u64) * 0x1_0000)) by (bit_vector);
    let a: u64 = (u as u64) << 16u32;
    let b: u64 = i as u64 & 0xFFFF;
    assert(a == hi * 0x1_0000);
    assert(b == lo);
    assert(((u as u64) << 16u32) & 0xFFFF == 0 && (i as u64 & 0xFFFF) <= 0xFFFF) by (bit_vector);
    assert((a | b) == a + b) by (bit_vector)
        requires
            a & 0xFFFF == 0,
            b <= 0xFFFF,
    ;
}

/// No two pairs of a user and an item share a packed key.
pub proof fn lemma_packed_injective(u1: i32, i1: i16, u2: i32, i2: i16)
    requires
        packed(u1, i1) == packed(u2, i2),
    ensures
        u1 == u2,
        i1 == i2,
{
}

// ---------------------------------------------------------------------------
// Counts
// ---------------------------------------------------------------------------

/// How often `x` occurs in `s`.
pub open spec fn count_of(s: Seq<i32>, x: int) -> nat
    decreases s.len(),
{
    if s.len() == 0 {
        0
    } else {
        count_of(s.drop_last(), x) + (if s.last() == x {
            1nat
        } else {
            0
        })
    }
}

/// `counts` says of each index below `n` how often it occurs in `values`.
pub open spec fn are_counts(values: Seq<i32>, n: int, counts: Seq<i32>) -> bool {
    &&& counts.len() == n
    &&& forall|x: int| 0 <= x < n ==> #[trigger] counts[x] == count_of(values, x)
}

pub open spec fn all_below(values: Seq<i32>, n: int) -> bool {
    forall|k: int| 0 <= k < values.len() ==> 0 <= #[trigger] values[k] < n
}

proof fn lemma_count_bound(s: Seq<i32>, x: int)
    ensures
        count_of(s, x) <= s.len(),
    decreases s.len(),
{
    if s.len() > 0 {
        lemma_count_bound(s.drop_last(), x);
    }
}

/// Counts how often each index below `n` occurs; `None` where a value is no such index.
pub fn tally(values: &Vec<i32>, n: usize) -> (r: Option<Vec<i32>>)
    requires
        values.len() <= i32::MAX,
    ensures
        r is Some <==> all_below(values@, n as int),
        r matches Some(counts) ==> are_counts(values@, n as int, counts@),
{
    let mut counts: Vec<i32> = Vec::with_capacity(n);
    let mut k: usize = 0;
    while k < n
        invariant
            k <= n,
            counts@ == Seq::new(k as nat, |i: int| 0i32),
        decreases n - k,
    {
        counts.push(0);
        k += 1;
    }
    let mut i: usize = 0;
    proof {
        assert(values@.take(0) =~= Seq::empty());
    }
    while i < values.len()
        invariant
            values.len() <= i32::MAX,
            i <= values.len(),
            all_below(values@.take(i as int), n as int),
            are_counts(values@.take(i as int), n as int, counts@),
        decreases values.len() - i,
    {
        let v: i32 = values[i];
        let ghost upto = values@.take(i + 1);
        proof {
            assert(upto.drop_last() =~= values@.take(i as int));
            assert(upto.last() == v);
        }
        if v < 0 || v as usize >= n {
            assert(!(0 <= values@[i as int] < n));
            return None;
        }
        let c: i32 = counts[v as usize];
        proof {
            lemma_count_bound(values@.take(i as int), v as int);
        }
        counts.set(v as usize, c + 1);
        proof {
            assert forall|k: int| 0 <= k < upto.len() implies 0 <= #[trigger] upto[k] < n by {
                if k < i {
                    assert(upto[k] == values@.take(i as int)[k]);
                }
            }
        }
        i += 1;
    }
    proof {
        assert(values@.take(values.len() as int) =~= values@);
    }
    Some(counts)
}

/// The sum of a list.
pub open spec fn sum_of(s: Seq<i32>) -> int
    decreases s.len(),
{
    if s.len() == 0 {
        0
    } else {
        sum_of(s.drop_last()) + s.last()
    }
}

proof fn lemma_sum_update(s: Seq<i32>, i: int, v: i32)
    requires
        0 <= i < s.len(),
    ensures
        sum_of(s.update(i, v)) == sum_of(s) - s[i] + v,
    decreases s.len(),
{
    if i == s.len() - 1 {
        assert(s.update(i, v).drop_last() =~= s.drop_last());
    } else {
        assert(s.update(i, v).drop_last() =~= s.drop_last().update(i, v));
        lemma_sum_update(s.drop_last(), i, v);
    }
}

proof fn lemma_sum_zeros(s: Seq<i32>)
    requires
        forall|i: int| 0 <= i < s.len() ==> s[i] == 0,
    ensures
        sum_of(s) == 0,
    decreases s.len(),
{
    if s.len() > 0 {
        lemma_sum_zeros(s.drop_last());
    }
}

/// The counts of a list of indices add up to its length.
pub proof fn lemma_counts_total(values: Seq<i32>, n: int, counts: Seq<i32>)
    requires
        all_below(values, n),
        are_counts(values, n, counts),
    ensures
        sum_of(counts) == values.len(),
    decreases values.len(),
{
    if values.len() == 0 {
        lemma_sum_zeros(counts);
    } else {
        let v = values.last() as int;
        let before = counts.update(v, (counts[v] - 1) as i32);
        assert(values[values.len() - 1] == v);
        assert forall|x: int| 0 <= x < n implies #[trigger] before[x] == count_of(
            values.drop_last(),
            x,
        ) by {
            assert(counts[x] == count_of(values, x));
        }
        assert(all_below(values.drop_last(), n));
        lemma_counts_total(values.drop_last(), n, before);
        lemma_sum_update(counts, v, (counts[v] - 1) as i32);
    }
}

// ---------------------------------------------------------------------------
// Splitting
// ---------------------------------------------------------------------------

/// Orders ratings by user, then date, then item.
pub open spec fn date_order_key(r: Rating) -> u64 {
    ((r.user + 0x8000_0000) * 0x1_0000_0000 + (r.date + 0x8000) * 0x1_0000 + (r.item
        + 0x8000)) as u64
}

pub open spec fn date_order_keys(rows: Seq<Rating>) -> Seq<u64> {
    rows.map_values(|r: Rating| date_order_key(r))
}

/// Orders pairs by item.
pub open spec fn item_keys(pairs: Seq<Pair>) -> Seq<u64> {
    pairs.map_values(|p: Pair| (p.item + 0x8000) as u64)
}

pub open spec fn pair_of(r: Rating) -> Pair {
    Pair { user: r.user, item: r.item }
}

/// The last of the rows of a pair.
pub open spec fn last_row(rows: Seq<Rating>, p: Pair) -> Option<int>
    decreases rows.len(),
{
    if rows.len() == 0 {
        None
    } else if pair_of(rows.last()) == p {
        Some(rows.len() - 1)
    } else {
        last_row(rows.drop_last(), p)
    }
}

proof fn lemma_last_row(rows: Seq<Rating>, p: Pair)
    ensures
        match last_row(rows, p) {
            Some(k) => 0 <= k < rows.len() && pair_of(rows[k]) == p && forall|j: int|
                k < j < rows.len() ==> pair_of(#[trigger] rows[j]) != p,
            None => forall|j: int| 0 <= j < rows.len() ==> pair_of(#[trigger] rows[j]) != p,
        },
    decreases rows.len(),
{
    if rows.len() > 0 && pair_of(rows.last()) != p {
        lemma_last_row(rows.drop_last(), p);
        match last_row(rows.drop_last(), p) {
            Some(k) => {
                assert forall|j: int| k < j < rows.len() implies pair_of(#[trigger] rows[j]) != p by {
                    if j < rows.len() - 1 {
                        assert(rows.drop_last()[j] == rows[j]);
                    }
                }
            },
            None => {
                assert forall|j: int| 0 <= j < rows.len() implies pair_of(#[trigger] rows[j]) != p by {
                    if j < rows.len() - 1 {
                        assert(rows.drop_last()[j] == rows[j]);
                    }
                }
            },
        }
    }
}

/// The three parts of the rated data: everything, everything outside the probe list, and the
/// probe list.
pub struct Split {
    pub fulltrain: Vec<Rating>,
    pub train: Vec<Rating>,
    pub probe: Vec<Rating>,
}

/// Every pair of the probe list is rated.
pub open spec fn probe_is_rated(rows: Seq<Rating>, probe: Seq<Pair>) -> bool {
    forall|k: int| 0 <= k < probe.len() ==> last_row(rows, #[trigger] probe[k]) is Some
}

pub open spec fn outside_probe(probe: Seq<Pair>) -> spec_fn(Rating) -> bool {
    |r: Rating| !probe.contains(pair_of(r))
}

/// The rating of each pair: the last row that rates it.
pub open spec fn probe_ratings(rows: Seq<Rating>, pairs: Seq<Pair>) -> Seq<Rating> {
    pairs.map_values(|p: Pair| rows[last_row(rows, p)->Some_0])
}

/// What a split of `rows` by a probe list holds: all rows by user, date and item; of these, in
/// the same order, those outside the probe list; and the ratings of the probe list by item, in
/// list order under each item.
pub open spec fn is_split(
    rows: Seq<Rating>,
    probe: Seq<Pair>,
    full: Seq<Rating>,
    train: Seq<Rating>,
    held: Seq<Rating>,
) -> bool {
    &&& exists|perm: Seq<usize>| #[trigger] is_order(date_order_keys(rows), perm) && full == gather(rows, perm)
    &&& train == full.filter(outside_probe(probe))
    &&& exists|perm: Seq<usize>| #[trigger] is_order(item_keys(probe), perm) && held == probe_ratings(rows, gather(probe, perm))
}

/// The packed keys of a probe list, and how many different pairs it holds.
fn probe_keys(probe: &Vec<Pair>) -> (r: (HashSet<u64>, usize))
    ensures
        forall|p: Pair| #[trigger] r.0@.contains(packed(p.user, p.item)) <==> probe@.contains(p),
        r.1 == probe@.to_set().len(),
{
    let mut set: HashSet<u64> = HashSet::new();
    let mut n: usize = 0;
    let mut i: usize = 0;
    proof {
        assert(probe@.take(0) =~= Seq::empty());
        assert(probe@.take(0).to_set() =~= Set::empty());
        assert forall|p: Pair| !(#[trigger] set@.contains(packed(p.user, p.item))) by {}
    }
    while i < probe.len()
        invariant
            i <= probe.len(),
            n <= i,
            forall|p: Pair| #[trigger]
                set@.contains(packed(p.user, p.item)) <==> probe@.take(i as int).contains(p),
            n == probe@.take(i as int).to_set().len(),
        decreases probe.len() - i,
    {
        let q: Pair = probe[i];
        let key: u64 = pack_key(q.user, q.item);
        let ghost seen = probe@.take(i as int);
        let ghost upto = probe@.take(i + 1);
        let ghost set_before = set@;
        let fresh: bool = set.insert(key);
        proof {
            assert(upto =~= seen.push(q));
            assert forall|p: Pair| #[trigger]
                set@.contains(packed(p.user, p.item)) <==> upto.contains(p) by {
                if packed(p.user, p.item) == key {
                    lemma_packed_injective(p.user, p.item, q.user, q.item);
                    assert(p == q);
                    assert(upto[i as int] == q);
                }
                if upto.contains(p) {
                    let k = choose|k: int| 0 <= k < upto.len() && upto[k] == p;
                    if k < i {
                        assert(seen[k] == p);
                        assert(seen.contains(p));
                    }
                }
                if seen.contains(p) {
                    let k = choose|k: int| 0 <= k < seen.len() && seen[k] == p;
                    assert(upto[k] == p);
                }
            }
            seen.lemma_push_to_set_commute(q);
            vstd::seq_lib::seq_to_set_is_finite(seen);
            assert(fresh == !seen.contains(q));
            if !fresh {
                assert(upto.to_set() =~= seen.to_set());
            }
        }
        if fresh {
            n += 1;
        }
        i += 1;
    }
    proof {
        assert(probe@.take(probe.len() as int) =~= probe@);
    }
    (set, n)
}

/// The number of different pairs of a list.
pub fn distinct_pairs(probe: &Vec<Pair>) -> (r: usize)
    ensures
        r == probe@.to_set().len(),
{
    probe_keys(probe).1
}

proof fn lemma_filter_push(s: Seq<Rating>, x: Rating, pred: spec_fn(Rating) -> bool)
    ensures
        s.push(x).filter(pred) == (if pred(x) {
            s.filter(pred).push(x)
        } else {
            s.filter(pred)
        }),
{
    s.lemma_filter_push(x, pred);
}

/// Splits the rated data by a probe list; `None` where a pair of the list is not rated.
pub fn split_ratings(rows: &Vec<Rating>, probe: &Vec<Pair>) -> (r: Option<Split>)
    ensures
        r is Some <==> probe_is_rated(rows@, probe@),
        r matches Some(s) ==> is_split(rows@, probe@, s.fulltrain@, s.train@, s.probe@),
{
    let (in_probe, _) = probe_keys(probe);
    // The last row of each pair of the probe list.
    let mut last: HashMap<u64, usize> = HashMap::new();
    let mut keys: Vec<u64> = Vec::with_capacity(rows.len());
    let mut k: usize = 0;
    proof {
        assert(rows@.take(0) =~= Seq::empty());
    }
    while k < rows.len()
        invariant
            forall|p: Pair| #[trigger]
                in_probe@.contains(packed(p.user, p.item)) <==> probe@.contains(p),
            k <= rows.len(),
            keys@ == date_order_keys(rows@.take(k as int)),
            forall|p: Pair|
                probe@.contains(p) ==> (match #[trigger] last_row(rows@.take(k as int), p) {
                    Some(j) => last@.contains_key(packed(p.user, p.item)) && last@[packed(
                        p.user,
                        p.item,
                    )] == j,
                    None => !last@.contains_key(packed(p.user, p.item)),
                }),
        decreases rows.len() - k,
    {
        let row: Rating = rows[k];
        let ghost seen = rows@.take(k as int);
        let ghost upto = rows@.take(k + 1);
        let ghost last_before = last@;
        proof {
            assert(upto.drop_last() =~= seen);
            assert(upto.last() == row);
            assert(upto =~= seen.push(row));
            assert(date_order_keys(upto) =~= date_order_keys(seen).push(date_order_key(row)));
        }
        let order_key: u64 = ((row.user as i64 + 0x8000_0000) as u64) * 0x1_0000_0000 + ((row.date as i64
            + 0x8000) as u64) * 0x1_0000 + ((row.item as i64 + 0x8000) as u64);
        keys.push(order_key);
        let key: u64 = pack_key(row.user, row.item);
        if in_probe.contains(&key) {
            last.insert(key, k);
        }
        proof {
            let own = pair_of(row);
            assert(in_probe@.contains(packed(own.user, own.item)) <==> probe@.contains(own));
            assert forall|p: Pair| probe@.contains(p) implies (match #[trigger] last_row(upto, p) {
                Some(j) => last@.contains_key(packed(p.user, p.item)) && last@[packed(
                    p.user,
                    p.item,
                )] == j,
                None => !last@.contains_key(packed(p.user, p.item)),
            }) by {
                if packed(p.user, p.item) == key {
                    lemma_packed_injective(p.user, p.item, row.user, row.item);
                    assert(p == own);
                }
                assert(last_row(seen, p) == last_row(upto.drop_last(), p));
            }
        }
        k += 1;
    }
    proof {
        assert(rows@.take(rows.len() as int) =~= rows@);
    }
    let perm: Vec<usize> = sort_order(&keys);
    let mut fulltrain: Vec<Rating> = Vec::with_capacity(rows.len());
    let mut train: Vec<Rating> = Vec::with_capacity(rows.len());
    let mut i: usize = 0;
    let ghost keep = outside_probe(probe@);
    let ghost full = gather(rows@, perm@);
    proof {
        assert(full.take(0) =~= Seq::empty());
    }
    while i < perm.len()
        invariant
            forall|p: Pair| #[trigger]
                in_probe@.contains(packed(p.user, p.item)) <==> probe@.contains(p),
            keep == outside_probe(probe@),
            full == gather(rows@, perm@),
            is_order(date_order_keys(rows@), perm@),
            i <= perm.len(),
            fulltrain@ == full.take(i as int),
            train@ == full.take(i as int).filter(keep),
        decreases perm.len() - i,
    {
        assert(perm@[i as int] < rows.len());
        let row: Rating = rows[perm[i]];
        fulltrain.push(row);
        let key: u64 = pack_key(row.user, row.item);
        let held: bool = in_probe.contains(&key);
        proof {
            assert(full.take(i + 1) =~= full.take(i as int).push(row));
            lemma_filter_push(full.take(i as int), row, keep);
            let own = pair_of(row);
            assert(in_probe@.contains(packed(own.user, own.item)) <==> probe@.contains(own));
        }
        if !held {
            train.push(row);
        }
        i += 1;
    }
    proof {
        assert(full.take(perm.len() as int) =~= full);
    }
    // The probe list by item.
    let mut pkeys: Vec<u64> = Vec::with_capacity(probe.len());
    let mut j: usize = 0;
    while j < probe.len()
        invariant
            j <= probe.len(),
            pkeys@ == item_keys(probe@).take(j as int),
        decreases probe.len() - j,
    {
        let pk: u64 = (probe[j].item as i64 + 0x8000) as u64;
        pkeys.push(pk);
        proof {
            assert(item_keys(probe@).take(j + 1) =~= item_keys(probe@).take(j as int).push(pk));
        }
        j += 1;
    }
    proof {
        assert(item_keys(probe@).take(probe.len() as int) =~= item_keys(probe@));
    }
    let pperm: Vec<usize> = sort_order(&pkeys);
    let ghost pairs = gather(probe@, pperm@);
    let mut held: Vec<Rating> = Vec::with_capacity(probe.len());
    let mut q: usize = 0;
    while q < pperm.len()
        invariant
            is_order(item_keys(probe@), pperm@),
            pairs == gather(probe@, pperm@),
            q <= pperm.len(),
            held@ == probe_ratings(rows@, pairs).take(q as int),
            forall|p: Pair|
                probe@.contains(p) ==> (match #[trigger] last_row(rows@, p) {
                    Some(j) => last@.contains_key(packed(p.user, p.item)) && last@[packed(
                        p.user,
                        p.item,
                    )] == j,
                    None => !last@.contains_key(packed(p.user, p.item)),
                }),
            forall|s: int| 0 <= s < q ==> last_row(rows@, #[trigger] pairs[s]) is Some,
        decreases pperm.len() - q,
    {
        assert(pperm@[q as int] < probe.len());
        let p: Pair = probe[pperm[q]];
        proof {
            assert(probe@.contains(p));
            assert(pairs[q as int] == p);
            lemma_last_row(rows@, p);
        }
        let key: u64 = pack_key(p.user, p.item);
        match last.get(&key) {
            Some(at) => {
                let row: Rating = rows[*at];
                held.push(row);
                proof {
                    let all = probe_ratings(rows@, pairs);
                    assert(all[q as int] == row);
                    assert(all.take(q + 1) =~= all.take(q as int).push(row));
                }
            },
            None => {
                proof {
                    assert(last_row(rows@, p) is None);
                    let w = pperm@[q as int] as int;
                    assert(probe@[w] == p);
                    assert(!probe_is_rated(rows@, probe@));
                }
                return None;
            },
        }
        q += 1;
    }
    proof {
        let all = probe_ratings(rows@, pairs);
        assert(all.take(pperm.len() as int) =~= all);
        assert forall|s: int| 0 <= s < probe@.len() implies last_row(rows@, #[trigger] probe@[s]) is Some by {
            crate::order::lemma_order_reaches(item_keys(probe@), pperm@, s as usize);
            let w = choose|w: int| 0 <= w < pperm@.len() && pperm@[w] == s;
            assert(pairs[w] == probe@[s]);
        }
    }
    Some(Split { fulltrain, train, probe: held })
}

/// A row occurs among the kept rows as often as among all, if it is kept, and else never.
pub proof fn lemma_filter_count(s: Seq<Rating>, pred: spec_fn(Rating) -> bool, x: Rating)
    ensures
        s.filter(pred).to_multiset().count(x) == (if pred(x) {
            s.to_multiset().count(x)
        } else {
            0
        }),
    decreases s.len(),
{
    broadcast use vstd::multiset::group_multiset_axioms;

    reveal(Seq::filter);
    if s.len() == 0 {
        vstd::seq_lib::to_multiset_contains(s, x);
        assert(s.to_multiset().count(x) == 0);
    } else {
        lemma_filter_count(s.drop_last(), pred, x);
        vstd::seq_lib::to_multiset_build(s.drop_last(), s.last());
        vstd::seq_lib::to_multiset_build(s.drop_last().filter(pred), s.last());
        assert(s.drop_last().push(s.last()) =~= s);
    }
}

/// All rows are rated once.
pub open spec fn rated_once(rows: Seq<Rating>) -> bool {
    forall|i: int, j: int|
        0 <= i < j < rows.len() ==> pair_of(#[trigger] rows[i]) != pair_of(#[trigger] rows[j])
}

proof fn lemma_count_of_distinct(s: Seq<Rating>, x: Rating)
    requires
        s.no_duplicates(),
    ensures
        s.to_multiset().count(x) == (if s.contains(x) {
            1nat
        } else {
            0
        }),
{
    s.lemma_multiset_has_no_duplicates();
    vstd::seq_lib::to_multiset_contains(s, x);
    if s.contains(x) {
        assert(s.to_multiset().contains(x));
    }
}

/// Where nothing is rated twice and the probe list names no pair twice, `train` and `probe`
/// together are `fulltrain`, and `fulltrain` is all the data.
pub proof fn lemma_split_partitions(
    rows: Seq<Rating>,
    probe: Seq<Pair>,
    full: Seq<Rating>,
    train: Seq<Rating>,
    held: Seq<Rating>,
)
    requires
        rows.len() <= usize::MAX,
        probe.len() <= usize::MAX,
        probe_is_rated(rows, probe),
        is_split(rows, probe, full, train, held),
        rated_once(rows),
        probe.no_duplicates(),
    ensures
        full.to_multiset() == rows.to_multiset(),
        train.to_multiset().add(held.to_multiset()) == full.to_multiset(),
{
    broadcast use vstd::multiset::group_multiset_axioms;

    let perm = choose|perm: Seq<usize>| #[trigger]
        is_order(date_order_keys(rows), perm) && full == gather(rows, perm);
    lemma_gather_permutes(date_order_keys(rows), perm, rows);
    let pperm = choose|perm: Seq<usize>| #[trigger]
        is_order(item_keys(probe), perm) && held == probe_ratings(rows, gather(probe, perm));
    let pairs = gather(probe, pperm);
    lemma_gather_permutes(item_keys(probe), pperm, probe);
    assert(rows.no_duplicates()) by {
        assert forall|i: int, j: int| 0 <= i < rows.len() && 0 <= j < rows.len() && i != j implies rows[i]
            != rows[j] by {
            if i < j {
                assert(pair_of(rows[i]) != pair_of(rows[j]));
            } else {
                assert(pair_of(rows[j]) != pair_of(rows[i]));
            }
        }
    }
    // The pairs of the probe list, taken by item, are still different.
    probe.lemma_multiset_has_no_duplicates();
    assert(pairs.no_duplicates()) by {
        pairs.lemma_multiset_has_no_duplicates_conv();
    }
    assert forall|s: int| 0 <= s < held.len() implies {
        &&& rows.contains(#[trigger] held[s])
        &&& pair_of(held[s]) == pairs[s]
        &&& probe.contains(pairs[s])
    } by {
        let w = pperm[s] as int;
        assert(pperm[s] < item_keys(probe).len());
        assert(probe[w] == pairs[s]);
        assert(last_row(rows, probe[w]) is Some);
        lemma_last_row(rows, pairs[s]);
    }
    assert(held.no_duplicates()) by {
        assert forall|i: int, j: int| 0 <= i < held.len() && 0 <= j < held.len() && i != j implies held[i]
            != held[j] by {
            assert(pairs[i] != pairs[j]);
            assert(pair_of(held[i]) == pairs[i]);
            assert(pair_of(held[j]) == pairs[j]);
        }
    }
    assert forall|x: Rating| train.to_multiset().add(held.to_multiset()).count(x)
        == full.to_multiset().count(x) by {
        lemma_filter_count(full, outside_probe(probe), x);
        lemma_count_of_distinct(rows, x);
        lemma_count_of_distinct(held, x);
        if held.contains(x) {
            let s = choose|s: int| 0 <= s < held.len() && held[s] == x;
            assert(rows.contains(held[s]));
            assert(probe.contains(pair_of(x)));
        }
        if rows.contains(x) && probe.contains(pair_of(x)) {
            let p = pair_of(x);
            let w = choose|w: int| 0 <= w < probe.len() && probe[w] == p;
            crate::order::lemma_order_reaches(item_keys(probe), pperm, w as usize);
            let s = choose|s: int| 0 <= s < pperm.len() && pperm[s] == w;
            assert(pairs[s] == p);
            let k = choose|k: int| 0 <= k < rows.len() && rows[k] == x;
            lemma_last_row(rows, p);
            assert(last_row(rows, probe[w]) is Some);
            let l = last_row(rows, p)->Some_0;
            if l < k {
                assert(pair_of(rows[l]) != pair_of(rows[k]));
            } else if k < l {
                assert(pair_of(rows[k]) != pair_of(rows[l]));
            }
            assert(held[s] == x);
            assert(held.contains(x));
        }
    }
    assert(train.to_multiset().add(held.to_multiset()) =~= full.to_multiset());
}

// ---------------------------------------------------------------------------
// The whole conversion
// ---------------------------------------------------------------------------

/// How many users, items, ratings, probe pairs and qualifying entries there are to be.
#[derive(Clone, Copy, PartialEq, Eq, Structural, Debug)]
pub struct Sizes {
    pub users: usize,
    pub items: usize,
    pub total: usize,
    pub probe: usize,
    pub qual: usize,
}

impl Sizes {
    /// The sizes of the prize data.
    pub fn netflix() -> (r: Sizes)
        ensures
            r == (Sizes {
                users: N_USERS,
                items: N_ITEMS,
                total: N_TOTAL,
                probe: N_PROBE,
                qual: N_QUAL,
            }),
            r.wf(),
    {
        Sizes { users: N_USERS, items: N_ITEMS, total: N_TOTAL, probe: N_PROBE, qual: N_QUAL }
    }

    /// Indices and counts fit in the data's 32-bit columns, and the probe list is part of the
    /// rated data.
    pub open spec fn wf(&self) -> bool {
        &&& self.users <= i32::MAX
        &&& self.total <= i32::MAX
        &&& self.qual <= i32::MAX
        &&& self.probe <= self.total
    }
}

/// What is wrong with the original files.
#[derive(Clone, Copy, PartialEq, Eq, Structural, Debug)]
pub enum IngestError {
    TotalCount,
    UserCount,
    ItemId,
    ProbeLine,
    ProbeCount,
    QualLine,
    QualCount,
    ProbeUnrated,
    QualRatingLine,
    QualRatingCount,
    TrainCount,
    IndexRange,
    TitleLine,
    TitleCount,
}

/// The users and items of a data set and how often each occurs.
pub struct Counts {
    pub users: Vec<i32>,
    pub items: Vec<i32>,
}

/// The converted data.
pub struct Ingested {
    pub uids: Vec<u64>,
    pub split: Split,
    pub qual: Vec<QualRow>,
    pub qual_ratings: Vec<QualRating>,
    pub train_counts: Counts,
    pub probe_counts: Counts,
    pub fulltrain_counts: Counts,
    pub qual_counts: Counts,
    pub item_years: Vec<i32>,
}

pub open spec fn user_column(rows: Seq<Rating>) -> Seq<i32> {
    rows.map_values(|r: Rating| r.user)
}

pub open spec fn item_column(rows: Seq<Rating>) -> Seq<i32> {
    rows.map_values(|r: Rating| r.item as i32)
}

pub open spec fn qual_user_column(rows: Seq<QualRow>) -> Seq<i32> {
    rows.map_values(|r: QualRow| r.user)
}

pub open spec fn qual_item_column(rows: Seq<QualRow>) -> Seq<i32> {
    rows.map_values(|r: QualRow| r.item as i32)
}

pub open spec fn rows_in_range(rows: Seq<Rating>, sizes: Sizes) -> bool {
    all_below(user_column(rows), sizes.users as int) && all_below(
        item_column(rows),
        sizes.items as int,
    )
}

pub open spec fn qual_in_range(rows: Seq<QualRow>, sizes: Sizes) -> bool {
    all_below(qual_user_column(rows), sizes.users as int) && all_below(
        qual_item_column(rows),
        sizes.items as int,
    )
}

pub open spec fn counts_of(rows: Seq<Rating>, sizes: Sizes, c: Counts) -> bool {
    are_counts(user_column(rows), sizes.users as int, c.users@) && are_counts(
        item_column(rows),
        sizes.items as int,
        c.items@,
    )
}

pub open spec fn qual_counts_of(rows: Seq<QualRow>, sizes: Sizes, c: Counts) -> bool {
    are_counts(qual_user_column(rows), sizes.users as int, c.users@) && are_counts(
        qual_item_column(rows),
        sizes.items as int,
        c.items@,
    )
}

/// Counts the users and items of the first `n` rows.
pub fn count_rows(rows: &Vec<Rating>, n: usize, sizes: &Sizes) -> (r: Option<Counts>)
    requires
        n <= rows.len(),
        n <= i32::MAX,
    ensures
        r is Some <==> rows_in_range(rows@.take(n as int), *sizes),
        r matches Some(c) ==> counts_of(rows@.take(n as int), *sizes, c),
{
    let mut users: Vec<i32> = Vec::with_capacity(n);
    let mut items: Vec<i32> = Vec::with_capacity(n);
    let mut i: usize = 0;
    while i < n
        invariant
            i <= n <= rows.len(),
            users@ == user_column(rows@.take(i as int)),
            items@ == item_column(rows@.take(i as int)),
        decreases n - i,
    {
        users.push(rows[i].user);
        items.push(rows[i].item as i32);
        proof {
            assert(user_column(rows@.take(i + 1)) =~= user_column(rows@.take(i as int)).push(
                rows@[i as int].user,
            ));
            assert(item_column(rows@.take(i + 1)) =~= item_column(rows@.take(i as int)).push(
                rows@[i as int].item as i32,
            ));
        }
        i += 1;
    }
    match (tally(&users, sizes.users), tally(&items, sizes.items)) {
        (Some(users), Some(items)) => Some(Counts { users, items }),
        _ => None,
    }
}

/// Counts the users and items of the qualifying list.
pub fn count_qual(rows: &Vec<QualRow>, sizes: &Sizes) -> (r: Option<Counts>)
    requires
        rows.len() <= i32::MAX,
    ensures
        r is Some <==> qual_in_range(rows@, *sizes),
        r matches Some(c) ==> qual_counts_of(rows@, *sizes, c),
{
    let mut users: Vec<i32> = Vec::with_capacity(rows.len());
    let mut items: Vec<i32> = Vec::with_capacity(rows.len());
    let mut i: usize = 0;
    while i < rows.len()
        invariant
            i <= rows.len(),
            users@ == qual_user_column(rows@).take(i as int),
            items@ == qual_item_column(rows@).take(i as int),
        decreases rows.len() - i,
    {
        users.push(rows[i].user);
        items.push(rows[i].item as i32);
        proof {
            assert(qual_user_column(rows@).take(i + 1) =~= qual_user_column(rows@).take(
                i as int,
            ).push(rows@[i as int].user));
            assert(qual_item_column(rows@).take(i + 1) =~= qual_item_column(rows@).take(
                i as int,
            ).push(rows@[i as int].item as i32));
        }
        i += 1;
    }
    proof {
        assert(qual_user_column(rows@).take(rows.len() as int) =~= qual_user_column(rows@));
        assert(qual_item_column(rows@).take(rows.len() as int) =~= qual_item_column(rows@));
    }
    match (tally(&users, sizes.users), tally(&items, sizes.items)) {
        (Some(users), Some(items)) => Some(Counts { users, items }),
        _ => None,
    }
}

/// The user ids of the training rows, increasing.
pub open spec fn ids_of(raw: Seq<RawRow>) -> Seq<u64> {
    choose|ids: Seq<u64>| is_user_table(ids, raw)
}

/// The training rows under dense indices.
pub open spec fn rows_of(raw: Seq<RawRow>) -> Seq<Rating> {
    raw.map_values(
        |w: RawRow|
            Rating {
                user: user_index(ids_of(raw), w.uid)->Some_0,
                item: ((w.item as i16) - 1) as i16,
                rating: w.rating,
                date: w.date,
            },
    )
}

/// Every line of the qualifying ratings after the first is an entry.
pub open spec fn ratings_readable(lines: Seq<Vec<u8>>) -> bool {
    forall|k: int| 1 <= k < lines.len() ==> qual_rating(#[trigger] lines[k]@) is Some
}

pub open spec fn entries_below_header(lines: Seq<Vec<u8>>) -> int {
    if lines.len() == 0 {
        0
    } else {
        lines.len() - 1
    }
}

/// The first thing that is wrong with the original files, in the order in which they are read.
pub open spec fn ingest_error(
    raw: Seq<RawRow>,
    probe: Seq<Vec<u8>>,
    qual: Seq<Vec<u8>>,
    ratings: Seq<Vec<u8>>,
    titles: Seq<Vec<u8>>,
    sizes: Sizes,
) -> Option<IngestError> {
    let ids = ids_of(raw);
    let rows = rows_of(raw);
    let pairs = probe_pairs(byte_views(probe), ids, sizes.items as int);
    let entries = qual_rows(byte_views(qual), ids);
    if raw.len() != sizes.total {
        Some(IngestError::TotalCount)
    } else if ids.len() != sizes.users {
        Some(IngestError::UserCount)
    } else if !(forall|k: int| 0 <= k < raw.len() ==> has_index(#[trigger] raw[k].item)) {
        Some(IngestError::ItemId)
    } else if pairs is None {
        Some(IngestError::ProbeLine)
    } else if pairs->Some_0.0.to_set().len() != sizes.probe {
        Some(IngestError::ProbeCount)
    } else if entries is None {
        Some(IngestError::QualLine)
    } else if entries->Some_0.0.len() != sizes.qual {
        Some(IngestError::QualCount)
    } else if !probe_is_rated(rows, pairs->Some_0.0) {
        Some(IngestError::ProbeUnrated)
    } else if !ratings_readable(ratings) {
        Some(IngestError::QualRatingLine)
    } else if entries_below_header(ratings) != sizes.qual {
        Some(IngestError::QualRatingCount)
    } else if rows.filter(outside_probe(pairs->Some_0.0)).len() != sizes.total - sizes.probe {
        Some(IngestError::TrainCount)
    } else if !rows_in_range(rows, sizes) || !qual_in_range(entries->Some_0.0, sizes) {
        Some(IngestError::IndexRange)
    } else if title_years(byte_views(titles), sizes.items as int) is None {
        Some(IngestError::TitleLine)
    } else if sizes.items <= 17666 {
        Some(IngestError::TitleCount)
    } else {
        None
    }
}

/// What the converted data is.
pub open spec fn is_ingested(
    raw: Seq<RawRow>,
    probe: Seq<Vec<u8>>,
    qual: Seq<Vec<u8>>,
    ratings: Seq<Vec<u8>>,
    titles: Seq<Vec<u8>>,
    sizes: Sizes,
    d: Ingested,
) -> bool {
    let ids = ids_of(raw);
    let pairs = probe_pairs(byte_views(probe), ids, sizes.items as int)->Some_0.0;
    &&& d.uids@ == ids
    &&& is_split(rows_of(raw), pairs, d.split.fulltrain@, d.split.train@, d.split.probe@)
    &&& d.qual@ == qual_rows(byte_views(qual), ids)->Some_0.0
    &&& d.qual_ratings.len() == sizes.qual
    &&& forall|k: int|
        0 <= k < d.qual_ratings.len() ==> Some(#[trigger] d.qual_ratings@[k]) == qual_rating(
            ratings[k + 1]@,
        )
    &&& counts_of(d.split.train@, sizes, d.train_counts)
    &&& counts_of(d.split.probe@.take(sizes.probe as int), sizes, d.probe_counts)
    &&& counts_of(d.split.fulltrain@, sizes, d.fulltrain_counts)
    &&& qual_counts_of(d.qual@, sizes, d.qual_counts)
    &&& d.item_years@ == fixed_years(title_years(byte_views(titles), sizes.items as int)->Some_0)
}

proof fn lemma_ids_unique(raw: Seq<RawRow>, ids: Seq<u64>)
    requires
        is_user_table(ids, raw),
    ensures
        ids_of(raw) == ids,
{
    lemma_increasing_same(ids_of(raw), ids);
}

proof fn lemma_rows_indexed(raw: Seq<RawRow>, ids: Seq<u64>, rows: Seq<Rating>)
    requires
        is_user_table(ids, raw),
        ids.len() <= i32::MAX,
        rows.len() == raw.len(),
        forall|k: int| 0 <= k < raw.len() ==> has_index(#[trigger] raw[k].item),
        forall|k: int| 0 <= k < rows.len() ==> indexed_row(ids, raw[k], #[trigger] rows[k]),
    ensures
        rows == rows_of(raw),
{
    lemma_ids_unique(raw, ids);
    assert forall|k: int| 0 <= k < rows.len() implies rows[k] == rows_of(raw)[k] by {
        assert(indexed_row(ids, raw[k], rows[k]));
        let w = raw[k];
        let u = rows[k].user as int;
        assert(has_index(raw[k].item));
        assert(ids[u] == w.uid as u64);
        assert(ids.contains(w.uid as u64));
        let j = ids.index_of(w.uid as u64);
        crate::order::lemma_increasing_unique(ids, u, j);
    }
    assert(rows =~= rows_of(raw));
}

proof fn lemma_filter_len_permuted(a: Seq<Rating>, b: Seq<Rating>, pred: spec_fn(Rating) -> bool)
    requires
        a.to_multiset() == b.to_multiset(),
    ensures
        a.filter(pred).len() == b.filter(pred).len(),
{
    let fa = a.filter(pred);
    let fb = b.filter(pred);
    assert forall|x: Rating| fa.to_multiset().count(x) == fb.to_multiset().count(x) by {
        lemma_filter_count(a, pred, x);
        lemma_filter_count(b, pred, x);
    }
    assert(fa.to_multiset() =~= fb.to_multiset());
    vstd::seq_lib::to_multiset_len(fa);
    vstd::seq_lib::to_multiset_len(fb);
}

/// Rows taken from rows in range are in range.
proof fn lemma_range_inherited(rows: Seq<Rating>, part: Seq<Rating>, sizes: Sizes)
    requires
        rows_in_range(rows, sizes),
        forall|k: int| 0 <= k < part.len() ==> rows.contains(#[trigger] part[k]),
    ensures
        rows_in_range(part, sizes),
{
    assert forall|k: int| 0 <= k < part.len() implies 0 <= #[trigger] user_column(part)[k]
        < sizes.users by {
        assert(rows.contains(part[k]));
        let j = choose|j: int| 0 <= j < rows.len() && rows[j] == part[k];
        assert(user_column(rows)[j] == part[k].user);
    }
    assert forall|k: int| 0 <= k < part.len() implies 0 <= #[trigger] item_column(part)[k]
        < sizes.items by {
        assert(rows.contains(part[k]));
        let j = choose|j: int| 0 <= j < rows.len() && rows[j] == part[k];
        assert(item_column(rows)[j] == part[k].item as i32);
    }
}

proof fn lemma_range_permuted(a: Seq<Rating>, b: Seq<Rating>, sizes: Sizes)
    requires
        a.to_multiset() == b.to_multiset(),
        rows_in_range(a, sizes),
    ensures
        rows_in_range(b, sizes),
{
    assert forall|k: int| 0 <= k < b.len() implies a.contains(#[trigger] b[k]) by {
        vstd::seq_lib::to_multiset_contains(a, b[k]);
        vstd::seq_lib::to_multiset_contains(b, b[k]);
        assert(b.contains(b[k]));
    }
    lemma_range_inherited(a, b, sizes);
}

/// What a split says of lengths and ranges.
proof fn lemma_split_shape(
    rows: Seq<Rating>,
    pairs: Seq<Pair>,
    full: Seq<Rating>,
    train: Seq<Rating>,
    held: Seq<Rating>,
    sizes: Sizes,
)
    requires
        rows.len() <= usize::MAX,
        pairs.len() <= usize::MAX,
        probe_is_rated(rows, pairs),
        is_split(rows, pairs, full, train, held),
    ensures
        full.len() == rows.len(),
        train.len() == rows.filter(outside_probe(pairs)).len(),
        train.len() <= rows.len(),
        held.len() == pairs.len(),
        pairs.to_set().len() <= held.len(),
        rows_in_range(rows, sizes) <==> rows_in_range(full, sizes),
        rows_in_range(rows, sizes) ==> rows_in_range(train, sizes),
        rows_in_range(rows, sizes) ==> forall|n: int|
            0 <= n <= held.len() ==> rows_in_range(#[trigger] held.take(n), sizes),
{
    let perm = choose|perm: Seq<usize>| #[trigger]
        is_order(date_order_keys(rows), perm) && full == gather(rows, perm);
    lemma_gather_permutes(date_order_keys(rows), perm, rows);
    lemma_filter_len_permuted(full, rows, outside_probe(pairs));
    full.lemma_filter_len(outside_probe(pairs));
    let pperm = choose|perm: Seq<usize>| #[trigger]
        is_order(item_keys(pairs), perm) && held == probe_ratings(rows, gather(pairs, perm));
    pairs.lemma_cardinality_of_set();
    if rows_in_range(full, sizes) {
        lemma_range_permuted(full, rows, sizes);
    }
    if rows_in_range(rows, sizes) {
        lemma_range_permuted(rows, full, sizes);
        assert forall|k: int| 0 <= k < train.len() implies full.contains(#[trigger] train[k]) by {
            assert(train.contains(train[k]));
            full.lemma_filter_contains_rev(outside_probe(pairs), train[k]);
        }
        lemma_range_inherited(full, train, sizes);
        assert forall|n: int| 0 <= n <= held.len() implies rows_in_range(
            #[trigger] held.take(n),
            sizes,
        ) by {
            let part = held.take(n);
            assert forall|k: int| 0 <= k < part.len() implies rows.contains(#[trigger] part[k]) by {
                let w = pperm[k] as int;
                assert(pperm[k] < item_keys(pairs).len());
                assert(last_row(rows, pairs[w]) is Some);
                lemma_last_row(rows, pairs[w]);
                assert(part[k] == rows[last_row(rows, pairs[w])->Some_0]);
            }
            lemma_range_inherited(rows, part, sizes);
        }
    }
}

/// Converts the records of the original files.
pub fn ingest(
    raw: &Vec<RawRow>,
    probe_lines: &Vec<Vec<u8>>,
    qual_lines: &Vec<Vec<u8>>,
    rating_lines: &Vec<Vec<u8>>,
    title_lines: &Vec<Vec<u8>>,
    sizes: &Sizes,
) -> (r: Result<Ingested, IngestError>)
    requires
        sizes.wf(),
    ensures
        match ingest_error(
            raw@,
            probe_lines@,
            qual_lines@,
            rating_lines@,
            title_lines@,
            *sizes,
        ) {
            Some(e) => r == Err::<Ingested, IngestError>(e),
            None => r matches Ok(d) && is_ingested(
                raw@,
                probe_lines@,
                qual_lines@,
                rating_lines@,
                title_lines@,
                *sizes,
                d,
            ),
        },
{
    if raw.len() != sizes.total {
        return Err(IngestError::TotalCount);
    }
    let table: UserTable = match UserTable::build(raw, sizes.users) {
        Some(t) => t,
        None => {
            proof {
                lemma_table_exists(raw@);
            }
            return Err(IngestError::UserCount);
        },
    };
    proof {
        lemma_ids_unique(raw@, table.ids@);
    }
    let rows: Vec<Rating> = match index_rows(raw, &table) {
        Some(v) => v,
        None => {
            return Err(IngestError::ItemId);
        },
    };
    proof {
        lemma_rows_indexed(raw@, table.ids@, rows@);
    }
    let pairs: Vec<Pair> = match read_probe(probe_lines, &table, sizes.items) {
        Some(v) => v,
        None => {
            return Err(IngestError::ProbeLine);
        },
    };
    if distinct_pairs(&pairs) != sizes.probe {
        return Err(IngestError::ProbeCount);
    }
    let qual: Vec<QualRow> = match read_qualifying(qual_lines, &table) {
        Some(v) => v,
        None => {
            return Err(IngestError::QualLine);
        },
    };
    if qual.len() != sizes.qual {
        return Err(IngestError::QualCount);
    }
    let split: Split = match split_ratings(&rows, &pairs) {
        Some(s) => s,
        None => {
            return Err(IngestError::ProbeUnrated);
        },
    };
    proof {
        assert(rows.len() <= usize::MAX && pairs.len() <= usize::MAX);
        lemma_split_shape(
            rows@,
            pairs@,
            split.fulltrain@,
            split.train@,
            split.probe@,
            *sizes,
        );
    }
    let qual_ratings: Vec<QualRating> = match read_qual_ratings(rating_lines) {
        Some(v) => v,
        None => {
            return Err(IngestError::QualRatingLine);
        },
    };
    if qual_ratings.len() != sizes.qual {
        return Err(IngestError::QualRatingCount);
    }
    if split.train.len() != sizes.total - sizes.probe {
        return Err(IngestError::TrainCount);
    }
    proof {
        assert(split.train@.take(split.train.len() as int) =~= split.train@);
        assert(split.fulltrain@.take(split.fulltrain.len() as int) =~= split.fulltrain@);
    }
    let train_counts: Counts = match count_rows(&split.train, split.train.len(), sizes) {
        Some(c) => c,
        None => {
            return Err(IngestError::IndexRange);
        },
    };
    let probe_counts: Counts = match count_rows(&split.probe, sizes.probe, sizes) {
        Some(c) => c,
        None => {
            return Err(IngestError::IndexRange);
        },
    };
    let fulltrain_counts: Counts = match count_rows(
        &split.fulltrain,
        split.fulltrain.len(),
        sizes,
    ) {
        Some(c) => c,
        None => {
            return Err(IngestError::IndexRange);
        },
    };
    let qual_counts: Counts = match count_qual(&qual, sizes) {
        Some(c) => c,
        None => {
            return Err(IngestError::IndexRange);
        },
    };
    let mut item_years: Vec<i32> = match read_title_years(title_lines, sizes.items) {
        Some(v) => v,
        None => {
            return Err(IngestError::TitleLine);
        },
    };
    if !fix_years(&mut item_years) {
        return Err(IngestError::TitleCount);
    }
    Ok(
        Ingested {
            uids: table.ids,
            split,
            qual,
            qual_ratings,
            train_counts,
            probe_counts,
            fulltrain_counts,
            qual_counts,
            item_years,
        },
    )
}

/// There is a table of the users of any rows.
proof fn lemma_table_exists(raw: Seq<RawRow>)
    ensures
        is_user_table(ids_of(raw), raw),
    decreases raw.len(),
{
    if raw.len() == 0 {
        let none = Seq::<u64>::empty();
        assert(is_user_table(none, raw));
    } else {
        let rest = raw.drop_last();
        lemma_table_exists(rest);
        let ids = ids_of(rest);
        let id = raw.last().uid as u64;
        assert forall|x: u64|
            (exists|k: int| 0 <= k < raw.len() && #[trigger] raw[k].uid == x) <==> (ids.contains(x)
                || x == id) by {
            if ids.contains(x) {
                let k = choose|k: int| 0 <= k < rest.len() && #[trigger] rest[k].uid == x;
                assert(raw[k].uid == x);
            }
            if x == id {
                assert(raw[raw.len() - 1].uid == x);
            }
            if exists|k: int| 0 <= k < raw.len() && #[trigger] raw[k].uid == x {
                let k = choose|k: int| 0 <= k < raw.len() && #[trigger] raw[k].uid == x;
                if k < rest.len() {
                    assert(rest[k].uid == x);
                }
            }
        }
        if ids.contains(id) {
            assert(is_user_table(ids, raw));
        } else {
            let p = lemma_place(ids, id);
            let more = ids.insert(p, id);
            assert forall|x: u64| more.contains(x) <==> (ids.contains(x) || x == id) by {
                if ids.contains(x) {
                    let k = choose|k: int| 0 <= k < ids.len() && ids[k] == x;
                    if k < p {
                        assert(more[k] == x);
                    } else {
                        assert(more[k + 1] == x);
                    }
                }
                if x == id {
                    assert(more[p] == x);
                }
                if more.contains(x) {
                    let k = choose|k: int| 0 <= k < more.len() && more[k] == x;
                    if k < p {
                        assert(ids[k] == x);
                    } else if k > p {
                        assert(ids[k - 1] == x);
                    }
                }
            }
            assert(is_user_table(more, raw));
        }
    }
}

/// The place of a new id in an increasing list.
proof fn lemma_place(ids: Seq<u64>, id: u64) -> (p: int)
    requires
        increasing(ids),
        !ids.contains(id),
    ensures
        0 <= p <= ids.len(),
        forall|k: int| 0 <= k < p ==> ids[k] < id,
        forall|k: int| p <= k < ids.len() ==> ids[k] > id,
    decreases ids.len(),
{
    if ids.len() == 0 {
        0
    } else if ids.last() < id {
        assert forall|k: int| 0 <= k < ids.len() implies ids[k] < id by {
            assert(k == ids.len() - 1 || ids[k] < ids[ids.len() - 1]);
        }
        ids.len() as int
    } else {
        assert(ids.contains(ids.last()));
        let rest = ids.drop_last();
        assert forall|x: u64| rest.contains(x) implies ids.contains(x) by {
            let k = choose|k: int| 0 <= k < rest.len() && rest[k] == x;
            assert(ids[k] == x);
        }
        let p = lemma_place(rest, id);
        assert forall|k: int| 0 <= k < p implies ids[k] < id by {
            assert(rest[k] < id);
        }
        assert forall|k: int| p <= k < ids.len() implies ids[k] > id by {
            if k < rest.len() {
                assert(rest[k] > id);
            }
        }
        p
    }
}

/// A count is that of the occurrences.
pub proof fn lemma_count_of(s: Seq<i32>, x: i32)
    ensures
        count_of(s, x as int) == s.to_multiset().count(x),
    decreases s.len(),
{
    broadcast use vstd::multiset::group_multiset_axioms;
    broadcast use vstd::seq_lib::group_to_multiset_ensures;

    if s.len() > 0 {
        lemma_count_of(s.drop_last(), x);
        assert(s =~= s.drop_last().push(s.last()));
        vstd::seq_lib::to_multiset_build(s.drop_last(), s.last());
    }
}

/// The keys order ratings by user, then by date, then by item.
pub proof fn lemma_date_order(a: Rating, b: Rating)
    ensures
        date_order_key(a) < date_order_key(b) <==> a.user < b.user || (a.user == b.user && (a.date
            < b.date || (a.date == b.date && a.item < b.item))),
        date_order_key(a) == date_order_key(b) <==> a.user == b.user && a.date == b.date && a.item
            == b.item,
{
    assert(date_order_key(a) == (a.user + 0x8000_0000) * 0x1_0000_0000 + (a.date + 0x8000) * 0x1_0000
        + (a.item + 0x8000));
    assert(date_order_key(b) == (b.user + 0x8000_0000) * 0x1_0000_0000 + (b.date + 0x8000) * 0x1_0000
        + (b.item + 0x8000));
}

/// The full training set holds every rating as often as it was read, in the order of users, dates
/// and items.
pub proof fn lemma_full_sorted(
    rows: Seq<Rating>,
    probe: Seq<Pair>,
    full: Seq<Rating>,
    train: Seq<Rating>,
    held: Seq<Rating>,
    i: int,
    j: int,
)
    requires
        rows.len() <= usize::MAX,
        is_split(rows, probe, full, train, held),
        0 <= i < j < rows.len(),
    ensures
        full.len() == rows.len(),
        full.to_multiset() == rows.to_multiset(),
        full[i].user < full[j].user || (full[i].user == full[j].user && (full[i].date
            < full[j].date || (full[i].date == full[j].date && full[i].item <= full[j].item))),
{
    let keys = date_order_keys(rows);
    let perm = choose|perm: Seq<usize>| #[trigger]
        is_order(keys, perm) && full == gather(rows, perm);
    lemma_gather_permutes(keys, perm, rows);
    crate::order::lemma_order_exact(keys, perm);
    assert(keys[perm[i] as int] <= keys[perm[j] as int]);
    lemma_date_order(full[i], full[j]);
}

/// The training set holds, in their order, the ratings whose pair is not in the probe set.
pub proof fn lemma_train_exact(
    rows: Seq<Rating>,
    probe: Seq<Pair>,
    full: Seq<Rating>,
    train: Seq<Rating>,
    held: Seq<Rating>,
    x: Rating,
)
    requires
        rows.len() <= usize::MAX,
        is_split(rows, probe, full, train, held),
    ensures
        train == full.filter(
            |r: Rating| !probe.contains(Pair { user: r.user, item: r.item }),
        ),
        probe.contains(Pair { user: x.user, item: x.item }) ==> !train.contains(x),
        !probe.contains(Pair { user: x.user, item: x.item }) ==> train.to_multiset().count(x)
            == rows.to_multiset().count(x),
{
    broadcast use vstd::seq_lib::group_to_multiset_ensures;

    let keys = date_order_keys(rows);
    let perm = choose|perm: Seq<usize>| #[trigger]
        is_order(keys, perm) && full == gather(rows, perm);
    lemma_gather_permutes(keys, perm, rows);
    let pred = outside_probe(probe);
    assert(pred =~= (|r: Rating| !probe.contains(Pair { user: r.user, item: r.item })));
    lemma_filter_count(full, pred, x);
    assert(train.contains(x) <==> train.to_multiset().count(x) > 0);
}

/// The probe set has one rating for each of its pairs, in the order of the items: the last one that
/// was read of the pair.
pub proof fn lemma_held_exact(
    rows: Seq<Rating>,
    probe: Seq<Pair>,
    full: Seq<Rating>,
    train: Seq<Rating>,
    held: Seq<Rating>,
    i: int,
) -> (r: (int, int))
    requires
        rows.len() <= usize::MAX,
        probe.len() <= usize::MAX,
        probe_is_rated(rows, probe),
        is_split(rows, probe, full, train, held),
        0 <= i < probe.len(),
    ensures
        held.len() == probe.len(),
        0 <= r.0 < probe.len(),
        0 <= r.1 < rows.len(),
        held[i] == rows[r.1],
        rows[r.1].user == probe[r.0].user && rows[r.1].item == probe[r.0].item,
        forall|k: int|
            r.1 < k < rows.len() ==> !((#[trigger] rows[k]).user == probe[r.0].user && rows[k].item
                == probe[r.0].item),
        forall|j: int| i < j < held.len() ==> held[i].item <= (#[trigger] held[j]).item,
{
    let keys = item_keys(probe);
    let perm = choose|perm: Seq<usize>| #[trigger]
        is_order(keys, perm) && held == probe_ratings(rows, gather(probe, perm));
    crate::order::lemma_order_exact(keys, perm);
    assert forall|k: int| 0 <= k < held.len() implies last_row(rows, probe[perm[k] as int]) is Some
        && 0 <= last_row(rows, probe[perm[k] as int])->Some_0 < rows.len() && #[trigger] held[k]
        == rows[last_row(rows, probe[perm[k] as int])->Some_0] && held[k].item
        == probe[perm[k] as int].item by {
        lemma_last_row(rows, probe[perm[k] as int]);
        assert(last_row(rows, probe[perm[k] as int]) is Some);
    }
    let p = perm[i] as int;
    lemma_last_row(rows, probe[p]);
    let at = last_row(rows, probe[p])->Some_0;
    assert(held[i] == rows[at]);
    assert(pair_of(rows[at]) == probe[p]);
    assert forall|k: int| at < k < rows.len() implies !((#[trigger] rows[k]).user == probe[p].user
        && rows[k].item == probe[p].item) by {
        assert(pair_of(rows[k]) != probe[p]);
    }
    assert forall|j: int| i < j < held.len() implies held[i].item <= (#[trigger] held[j]).item by {
        assert(keys[perm[i] as int] <= keys[perm[j] as int]);
    }
    (p, at)
}

/// What is ingested has the sizes that it was told to have, and every line of every list could be
/// read.
pub proof fn lemma_ingest_accepts(
    raw: Seq<RawRow>,
    probe: Seq<Vec<u8>>,
    qual: Seq<Vec<u8>>,
    ratings: Seq<Vec<u8>>,
    titles: Seq<Vec<u8>>,
    sizes: Sizes,
)
    ensures
        ({
            let ids = ids_of(raw);
            let pairs = probe_pairs(byte_views(probe), ids, sizes.items as int);
            let entries = qual_rows(byte_views(qual), ids);
            ingest_error(raw, probe, qual, ratings, titles, sizes) is None <==> {
                &&& raw.len() == sizes.total
                &&& ids.len() == sizes.users
                &&& forall|k: int| 0 <= k < raw.len() ==> #[trigger] raw[k].item as i16 != i16::MIN
                &&& pairs is Some
                &&& pairs->Some_0.0.to_set().len() == sizes.probe
                &&& entries is Some
                &&& entries->Some_0.0.len() == sizes.qual
                &&& probe_is_rated(rows_of(raw), pairs->Some_0.0)
                &&& forall|k: int|
                    1 <= k < ratings.len() ==> qual_rating(#[trigger] ratings[k]@) is Some
                &&& (if ratings.len() == 0 {
                    sizes.qual == 0
                } else {
                    ratings.len() == sizes.qual + 1
                })
                &&& rows_of(raw).filter(
                    |r: Rating|
                        !pairs->Some_0.0.contains(Pair { user: r.user, item: r.item }),
                ).len() == sizes.total - sizes.probe
                &&& forall|k: int|
                    0 <= k < rows_of(raw).len() ==> 0 <= (#[trigger] rows_of(raw)[k]).user
                        < sizes.users && 0 <= rows_of(raw)[k].item < sizes.items
                &&& forall|k: int|
                    0 <= k < entries->Some_0.0.len() ==> 0 <= (#[trigger] entries->Some_0.0[k]).user
                        < sizes.users && 0 <= entries->Some_0.0[k].item < sizes.items
                &&& title_years(byte_views(titles), sizes.items as int) is Some
                &&& 17666 < sizes.items
            }
        }),
        raw.len() != sizes.total <==> ingest_error(raw, probe, qual, ratings, titles, sizes)
            == Some(IngestError::TotalCount),
{
    let ids = ids_of(raw);
    let pairs = probe_pairs(byte_views(probe), ids, sizes.items as int);
    let entries = qual_rows(byte_views(qual), ids);
    let pred = outside_probe(pairs->Some_0.0);
    assert(pred =~= (|r: Rating|
        !pairs->Some_0.0.contains(Pair { user: r.user, item: r.item })));
    lemma_rows_in_range(rows_of(raw), sizes);
    lemma_qual_in_range(entries->Some_0.0, sizes);
    assert(forall|k: int| 0 <= k < raw.len() ==> (has_index(#[trigger] raw[k].item) <==> raw[k].item
        as i16 != i16::MIN));
}

proof fn lemma_rows_in_range(rows: Seq<Rating>, sizes: Sizes)
    ensures
        rows_in_range(rows, sizes) <==> forall|k: int|
            0 <= k < rows.len() ==> 0 <= (#[trigger] rows[k]).user < sizes.users && 0
                <= rows[k].item < sizes.items,
{
    let u = user_column(rows);
    let i = item_column(rows);
    if rows_in_range(rows, sizes) {
        assert forall|k: int| 0 <= k < rows.len() implies 0 <= (#[trigger] rows[k]).user
            < sizes.users && 0 <= rows[k].item < sizes.items by {
            assert(0 <= u[k] < sizes.users);
            assert(0 <= i[k] < sizes.items);
        }
    }
}

proof fn lemma_qual_in_range(rows: Seq<QualRow>, sizes: Sizes)
    ensures
        qual_in_range(rows, sizes) <==> forall|k: int|
            0 <= k < rows.len() ==> 0 <= (#[trigger] rows[k]).user < sizes.users && 0
                <= rows[k].item < sizes.items,
{
    let u = qual_user_column(rows);
    let i = qual_item_column(rows);
    if qual_in_range(rows, sizes) {
        assert forall|k: int| 0 <= k < rows.len() implies 0 <= (#[trigger] rows[k]).user
            < sizes.users && 0 <= rows[k].item < sizes.items by {
            assert(0 <= u[k] < sizes.users);
            assert(0 <= i[k] < sizes.items);
        }
    }
}

/// A rating is read from its own row: its user by the place of the row's id, its item by the row's
/// movie, its number and its date as they are.
pub proof fn lemma_row_of(raw: Seq<RawRow>, k: int)
    requires
        0 <= k < raw.len(),
        ids_of(raw).len() <= i32::MAX,
        raw[k].item as i16 != i16::MIN,
    ensures
        rows_of(raw).len() == raw.len(),
        0 <= rows_of(raw)[k].user < ids_of(raw).len(),
        ids_of(raw)[rows_of(raw)[k].user as int] == raw[k].uid,
        rows_of(raw)[k].item == (raw[k].item as i16) - 1,
        rows_of(raw)[k].rating == raw[k].rating,
        rows_of(raw)[k].date == raw[k].date,
        forall|i: int, j: int|
            0 <= i < j < ids_of(raw).len() ==> #[trigger] ids_of(raw)[i] < #[trigger] ids_of(
                raw,
            )[j],
        forall|i: int|
            0 <= i < ids_of(raw).len() ==> exists|t: int|
                0 <= t < raw.len() && #[trigger] raw[t].uid == #[trigger] ids_of(raw)[i],
{
    lemma_table_exists(raw);
    let ids = ids_of(raw);
    assert(is_user_table(ids, raw));
    assert(ids.contains(raw[k].uid as u64));
    let u = ids.index_of(raw[k].uid as u64);
    assert(ids[u] == raw[k].uid);
    assert forall|i: int| 0 <= i < ids.len() implies exists|t: int|
        0 <= t < raw.len() && #[trigger] raw[t].uid == #[trigger] ids[i] by {
        assert(ids.contains(ids[i]));
    }
}

/// Some rating is of the user and the item.
pub open spec fn has_rated(rows: Seq<Rating>, user: i32, item: i16) -> bool {
    exists|i: int| 0 <= i < rows.len() && (#[trigger] rows[i]).user == user && rows[i].item == item
}

/// Every pair of the probe set is rated if and only if some rating was read of it.
pub proof fn lemma_probe_rated(rows: Seq<Rating>, probe: Seq<Pair>)
    ensures
        probe_is_rated(rows, probe) <==> forall|k: int|
            0 <= k < probe.len() ==> has_rated(rows, (#[trigger] probe[k]).user, probe[k].item),
{
    assert forall|k: int| 0 <= k < probe.len() implies (last_row(rows, #[trigger] probe[k]) is Some
        <==> has_rated(rows, probe[k].user, probe[k].item)) by {
        lemma_last_row(rows, probe[k]);
        if last_row(rows, probe[k]) is Some {
            let i = last_row(rows, probe[k])->Some_0;
            assert(pair_of(rows[i]) == probe[k]);
        } else if has_rated(rows, probe[k].user, probe[k].item) {
            let i = choose|i: int|
                0 <= i < rows.len() && (#[trigger] rows[i]).user == probe[k].user && rows[i].item
                    == probe[k].item;
            assert(pair_of(rows[i]) != probe[k]);
        }
    }
}

/// The counts of ratings: for each user and each item, how many of them are its own.
pub proof fn lemma_rows_counted(rows: Seq<Rating>, sizes: Sizes, c: Counts, u: int, i: int)
    requires
        counts_of(rows, sizes, c),
        0 <= u < sizes.users,
        0 <= i < sizes.items,
    ensures
        c.users.len() == sizes.users,
        c.items.len() == sizes.items,
        c.users@[u] == rows.filter(|r: Rating| r.user == u).len(),
        c.items@[i] == rows.filter(|r: Rating| r.item == i).len(),
{
    lemma_users_counted(rows, u);
    lemma_items_counted(rows, i);
}

proof fn lemma_users_counted(rows: Seq<Rating>, u: int)
    ensures
        count_of(user_column(rows), u) == rows.filter(|r: Rating| r.user == u).len(),
    decreases rows.len(),
{
    reveal(Seq::filter);
    if rows.len() > 0 {
        lemma_users_counted(rows.drop_last(), u);
        assert(user_column(rows).drop_last() =~= user_column(rows.drop_last()));
    }
}

proof fn lemma_items_counted(rows: Seq<Rating>, i: int)
    ensures
        count_of(item_column(rows), i) == rows.filter(|r: Rating| r.item == i).len(),
    decreases rows.len(),
{
    reveal(Seq::filter);
    if rows.len() > 0 {
        lemma_items_counted(rows.drop_last(), i);
        assert(item_column(rows).drop_last() =~= item_column(rows.drop_last()));
    }
}

/// The counts of the qualifying set: for each user and each item, how many entries are its own.
pub proof fn lemma_qual_counted(rows: Seq<QualRow>, sizes: Sizes, c: Counts, u: int, i: int)
    requires
        qual_counts_of(rows, sizes, c),
        0 <= u < sizes.users,
        0 <= i < sizes.items,
    ensures
        c.users.len() == sizes.users,
        c.items.len() == sizes.items,
        c.users@[u] == rows.filter(|r: QualRow| r.user == u).len(),
        c.items@[i] == rows.filter(|r: QualRow| r.item == i).len(),
{
    lemma_qual_users_counted(rows, u);
    lemma_qual_items_counted(rows, i);
}

proof fn lemma_qual_users_counted(rows: Seq<QualRow>, u: int)
    ensures
        count_of(qual_user_column(rows), u) == rows.filter(|r: QualRow| r.user == u).len(),
    decreases rows.len(),
{
    reveal(Seq::filter);
    if rows.len() > 0 {
        lemma_qual_users_counted(rows.drop_last(), u);
        assert(qual_user_column(rows).drop_last() =~= qual_user_column(rows.drop_last()));
    }
}

proof fn lemma_qual_items_counted(rows: Seq<QualRow>, i: int)
    ensures
        count_of(qual_item_column(rows), i) == rows.filter(|r: QualRow| r.item == i).len(),
    decreases rows.len(),
{
    reveal(Seq::filter);
    if rows.len() > 0 {
        lemma_qual_items_counted(rows.drop_last(), i);
        assert(qual_item_column(rows).drop_last() =~= qual_item_column(rows.drop_last()));
    }
}

/// What is ingested: the users' ids, the split of all ratings by the probe set, the entries of the
/// qualifying set and their ratings line by line, the years of the titles, and of each part its own
/// counts.
pub proof fn lemma_ingested(
    raw: Seq<RawRow>,
    probe: Seq<Vec<u8>>,
    qual: Seq<Vec<u8>>,
    ratings: Seq<Vec<u8>>,
    titles: Seq<Vec<u8>>,
    sizes: Sizes,
    d: Ingested,
    u: int,
    k: int,
)
    requires
        is_ingested(raw, probe, qual, ratings, titles, sizes, d),
        0 <= u < sizes.users,
        0 <= k < sizes.qual,
        d.split.probe.len() >= sizes.probe,
        0 < sizes.items,
    ensures
        d.uids@ == ids_of(raw),
        is_split(
            rows_of(raw),
            probe_pairs(byte_views(probe), ids_of(raw), sizes.items as int)->Some_0.0,
            d.split.fulltrain@,
            d.split.train@,
            d.split.probe@,
        ),
        d.qual@ == qual_rows(byte_views(qual), ids_of(raw))->Some_0.0,
        d.qual_ratings.len() == sizes.qual,
        Some(d.qual_ratings@[k]) == qual_rating(ratings[k + 1]@),
        d.item_years@ == fixed_years(
            title_years(byte_views(titles), sizes.items as int)->Some_0,
        ),
        d.train_counts.users@[u] == d.split.train@.filter(|r: Rating| r.user == u).len(),
        d.fulltrain_counts.users@[u] == d.split.fulltrain@.filter(|r: Rating| r.user == u).len(),
        d.probe_counts.users@[u] == d.split.probe@.take(sizes.probe as int).filter(
            |r: Rating| r.user == u,
        ).len(),
        d.qual_counts.users@[u] == d.qual@.filter(|r: QualRow| r.user == u).len(),
{
    lemma_rows_counted(d.split.train@, sizes, d.train_counts, u, 0);
    lemma_rows_counted(d.split.fulltrain@, sizes, d.fulltrain_counts, u, 0);
    lemma_rows_counted(d.split.probe@.take(sizes.probe as int), sizes, d.probe_counts, u, 0);
    lemma_qual_counted(d.qual@, sizes, d.qual_counts, u, 0);
}

} // verus!
