//! How often users rate on a day, in bins that hold about equally many ratings, and the bins of
//! time.

use crate::order::distinct_sorted;
use crate::order::gather;
use crate::order::increasing;
use crate::order::is_order;
use crate::order::lemma_gather_permutes;
use crate::order::search;
use crate::order::sort_order;
use vstd::prelude::*;
use vstd::seq_lib::*;

verus! {

/// Who rated on which day, rating by rating.
pub struct UserDays {
    pub n_users: usize,
    pub users: Vec<u32>,
    pub days: Vec<i16>,
}

impl UserDays {
    /// Every rating has a user there is, and a day.
    pub open spec fn wf(self) -> bool {
        &&& self.users.len() == self.days.len()
        &&& self.users.len() <= u32::MAX
        &&& self.n_users < u32::MAX
        &&& forall|t: int| 0 <= t < self.users.len() ==> #[trigger] self.users@[t] < self.n_users
    }
}

// ---------------------------------------------------------------------------
// Time
// ---------------------------------------------------------------------------

/// The number of days up to the last one.
pub open spec fn range_spec(days: Seq<i16>) -> int
    decreases days.len(),
{
    if days.len() == 0 {
        0
    } else if days.last() + 1 > range_spec(days.drop_last()) {
        days.last() + 1
    } else {
        range_spec(days.drop_last())
    }
}

/// The number of days up to the last one, none before the first.
pub fn day_range(days: &Vec<i16>) -> (r: i32)
    ensures
        r == range_spec(days@),
        0 <= r <= 32768,
{
    let mut best: i32 = 0;
    let mut i: usize = 0;
    proof {
        assert(days@.take(0) =~= Seq::<i16>::empty());
    }
    while i < days.len()
        invariant
            i <= days.len(),
            best == range_spec(days@.take(i as int)),
            0 <= best <= 32768,
        decreases days.len() - i,
    {
        proof {
            assert(days@.take(i + 1).drop_last() =~= days@.take(i as int));
            assert(days@.take(i + 1).last() == days@[i as int]);
        }
        let next: i32 = days[i] as i32 + 1;
        if next > best {
            best = next;
        }
        i += 1;
    }
    proof {
        assert(days@.take(days.len() as int) =~= days@);
    }
    best
}

/// The bin of a day, of `n` bins of equal width over `range` days: days after the last fall into
/// the last bin, and so do those that lie more than a bin's width before the first.
pub open spec fn time_bin_spec(day: int, n: int, range: int) -> int {
    if day >= 0 {
        if day * n / range < n {
            day * n / range
        } else {
            n - 1
        }
    } else if (-day) * n / range == 0 {
        0
    } else {
        n - 1
    }
}

/// The bin of a day.
pub fn time_bin(day: i32, n: usize, range: i32) -> (r: usize)
    requires
        0 < n <= 0x7fff_ffff,
        0 < range,
    ensures
        r == time_bin_spec(day as int, n as int, range as int),
        r < n,
{
    let width: u64 = range as u64;
    let far: u64 = if day >= 0 {
        day as u64
    } else {
        (-(day as i64)) as u64
    };
    proof {
        assert(0 <= far * n <= 0x8000_0000 * 0x7fff_ffff) by (nonlinear_arith)
            requires
                0 <= far <= 0x8000_0000,
                0 < n <= 0x7fff_ffff,
        ;
    }
    let q: u64 = far * (n as u64) / width;
    if day >= 0 {
        if q < n as u64 {
            q as usize
        } else {
            n - 1
        }
    } else if q == 0 {
        0
    } else {
        n - 1
    }
}

/// Later days fall into later bins, or the same.
pub proof fn lemma_time_bin_monotone(a: int, b: int, n: int, range: int)
    requires
        0 <= a <= b,
        0 < n,
        0 < range,
    ensures
        time_bin_spec(a, n, range) <= time_bin_spec(b, n, range),
{
    assert(a * n <= b * n) by (nonlinear_arith)
        requires
            a <= b,
            0 < n,
    ;
    assert(a * n / range <= b * n / range) by (nonlinear_arith)
        requires
            a * n <= b * n,
            0 < range,
    ;
}

// ---------------------------------------------------------------------------
// Bins by boundaries
// ---------------------------------------------------------------------------

/// Whether numbers do not go down.
pub open spec fn rises(v: Seq<u32>) -> bool {
    forall|i: int, j: int| 0 <= i <= j < v.len() ==> #[trigger] v[i] <= #[trigger] v[j]
}

/// How many boundaries lie below a frequency.
pub open spec fn below(bounds: Seq<u32>, freq: int) -> int
    decreases bounds.len(),
{
    if bounds.len() == 0 {
        0
    } else if bounds.last() < freq {
        below(bounds.drop_last(), freq) + 1
    } else {
        below(bounds.drop_last(), freq)
    }
}

/// Whether the boundaries before `k` lie below a frequency, and those from `k` on do not.
pub open spec fn parts_at(bounds: Seq<u32>, freq: int, k: int) -> bool {
    &&& 0 <= k <= bounds.len()
    &&& forall|i: int| 0 <= i < k ==> #[trigger] bounds[i] < freq
    &&& forall|i: int| k <= i < bounds.len() ==> #[trigger] bounds[i] >= freq
}

/// The number of boundaries below a frequency is the place where they part.
pub proof fn lemma_below(bounds: Seq<u32>, freq: int, k: int)
    requires
        parts_at(bounds, freq, k),
    ensures
        below(bounds, freq) == k,
    decreases bounds.len(),
{
    if bounds.len() > 0 {
        let h = bounds.drop_last();
        let last = bounds[bounds.len() - 1];
        let j = if k == bounds.len() {
            k - 1
        } else {
            k
        };
        assert forall|i: int| 0 <= i < j implies #[trigger] h[i] < freq by {
            assert(h[i] == bounds[i]);
        }
        assert forall|i: int| j <= i < h.len() implies #[trigger] h[i] >= freq by {
            assert(h[i] == bounds[i]);
        }
        lemma_below(h, freq, j);
    }
}

/// The bin of a frequency: how many boundaries lie below it.
pub fn freq_bin(freq: u32, boundaries: &[u32]) -> (r: usize)
    requires
        rises(boundaries@),
    ensures
        parts_at(boundaries@, freq as int, r as int),
        r == below(boundaries@, freq as int),
{
    let mut lo: usize = 0;
    let mut hi: usize = boundaries.len();
    while lo < hi
        invariant
            lo <= hi <= boundaries.len(),
            rises(boundaries@),
            forall|i: int| 0 <= i < lo ==> #[trigger] boundaries@[i] < freq,
            forall|i: int| hi <= i < boundaries.len() ==> #[trigger] boundaries@[i] >= freq,
        decreases hi - lo,
    {
        let mid: usize = lo + (hi - lo) / 2;
        if boundaries[mid] < freq {
            proof {
                assert forall|i: int| 0 <= i < mid + 1 implies #[trigger] boundaries@[i] < freq by {
                    assert(boundaries@[i] <= boundaries@[mid as int]);
                }
            }
            lo = mid + 1;
        } else {
            proof {
                assert forall|i: int| mid <= i < boundaries.len() implies #[trigger] boundaries@[i]
                    >= freq by {
                    assert(boundaries@[mid as int] <= boundaries@[i]);
                }
            }
            hi = mid;
        }
    }
    proof {
        lemma_below(boundaries@, freq as int, lo as int);
    }
    lo
}

/// Higher frequencies fall into higher bins, or the same, and no bin is past the last.
pub proof fn lemma_freq_bin_monotone(bounds: Seq<u32>, a: int, b: int)
    requires
        a <= b,
    ensures
        0 <= below(bounds, a) <= below(bounds, b) <= bounds.len(),
    decreases bounds.len(),
{
    if bounds.len() > 0 {
        lemma_freq_bin_monotone(bounds.drop_last(), a, b);
    }
}

// ---------------------------------------------------------------------------
// Ratings on a day
// ---------------------------------------------------------------------------

/// How many of some keys are `x`.
pub open spec fn count_key(keys: Seq<u64>, x: u64) -> int
    decreases keys.len(),
{
    if keys.len() == 0 {
        0
    } else if keys.last() == x {
        count_key(keys.drop_last(), x) + 1
    } else {
        count_key(keys.drop_last(), x)
    }
}

/// A user and a day as one number, ordered by user and then by day.
pub open spec fn day_key(u: int, d: int) -> int {
    u * 65536 + d + 32768
}

/// The ratings as numbers.
pub open spec fn day_keys(users: Seq<u32>, days: Seq<i16>) -> Seq<u64> {
    Seq::new(users.len(), |t: int| day_key(users[t] as int, days[t] as int) as u64)
}

/// How many ratings a user gave on a day.
pub open spec fn ratings_on(users: Seq<u32>, days: Seq<i16>, u: int, d: int) -> int
    decreases users.len(),
{
    if users.len() == 0 {
        0
    } else if users.last() == u && days.last() == d {
        ratings_on(users.drop_last(), days.drop_last(), u, d) + 1
    } else {
        ratings_on(users.drop_last(), days.drop_last(), u, d)
    }
}

/// The days that users rated on, each with its user.
pub open spec fn rated_days(users: Seq<u32>, days: Seq<i16>) -> Set<(u32, i16)> {
    Seq::new(users.len(), |t: int| (users[t], days[t])).to_set()
}

proof fn lemma_ratings_on(users: Seq<u32>, days: Seq<i16>, u: int, d: int)
    requires
        users.len() == days.len(),
        0 <= u <= u32::MAX,
        -32768 <= d <= 32767,
    ensures
        ratings_on(users, days, u, d) == count_key(day_keys(users, days), day_key(u, d) as u64),
    decreases users.len(),
{
    if users.len() > 0 {
        lemma_ratings_on(users.drop_last(), days.drop_last(), u, d);
        let k = day_keys(users, days);
        assert(k.drop_last() =~= day_keys(users.drop_last(), days.drop_last()));
        let a = users[users.len() - 1];
        let b = days[days.len() - 1];
        assert(k.last() == day_key(a as int, b as int) as u64);
    } else {
        assert(day_keys(users, days) =~= Seq::<u64>::empty());
    }
}

proof fn lemma_count_key(keys: Seq<u64>, x: u64)
    ensures
        0 <= count_key(keys, x) <= keys.len(),
        count_key(keys, x) > 0 <==> keys.contains(x),
    decreases keys.len(),
{
    if keys.len() > 0 {
        let h = keys.drop_last();
        lemma_count_key(h, x);
        if h.contains(x) {
            let i = h.index_of(x);
            assert(keys[i] == x);
        }
        if keys.contains(x) {
            let i = keys.index_of(x);
            if i < h.len() {
                assert(h[i] == x);
            }
        }
        if keys.last() == x {
            assert(keys[keys.len() - 1] == x);
        }
    }
}

/// For each rating, how many ratings its user gave on its day.
pub open spec fn frequencies(users: Seq<u32>, days: Seq<i16>) -> Seq<u32> {
    Seq::new(
        users.len(),
        |t: int| ratings_on(users, days, users[t] as int, days[t] as int) as u32,
    )
}

/// Whether `s` is `f` sorted.
pub open spec fn is_sorted_of(s: Seq<u32>, f: Seq<u32>) -> bool {
    rises(s) && s.to_multiset() == f.to_multiset()
}

/// Whether boundaries cut sorted frequencies into `n` parts of about equal size.
pub open spec fn are_quantiles(bounds: Seq<u32>, s: Seq<u32>, n: int) -> bool {
    &&& bounds.len() == (if n > 1 {
        n - 1
    } else {
        0
    })
    &&& forall|i: int|
        0 <= i < bounds.len() ==> #[trigger] bounds[i] == s[(i + 1) * s.len() as int / n]
}

proof fn lemma_quantile_place(i: int, len: int, n: int)
    requires
        0 <= i < n - 1,
        0 < len,
    ensures
        0 <= (i + 1) * len / n < len,
{
    assert(0 <= (i + 1) * len && (i + 1) * len < n * len) by (nonlinear_arith)
        requires
            0 <= i < n - 1,
            0 < len,
    ;
    assert(0 <= (i + 1) * len / n && (i + 1) * len / n < len) by (nonlinear_arith)
        requires
            0 <= (i + 1) * len < n * len,
            0 < n,
    ;
}

proof fn lemma_quantiles_rise(bounds: Seq<u32>, s: Seq<u32>, n: int)
    requires
        rises(s),
        s.len() > 0 || n <= 1,
        are_quantiles(bounds, s, n),
    ensures
        rises(bounds),
{
    assert forall|i: int, j: int| 0 <= i <= j < bounds.len() implies #[trigger] bounds[i]
        <= #[trigger] bounds[j] by {
        let len = s.len() as int;
        lemma_quantile_place(i, len, n);
        lemma_quantile_place(j, len, n);
        assert((i + 1) * len <= (j + 1) * len) by (nonlinear_arith)
            requires
                i <= j,
                0 < len,
        ;
        assert((i + 1) * len / n <= (j + 1) * len / n) by (nonlinear_arith)
            requires
                (i + 1) * len <= (j + 1) * len,
                0 < n,
        ;
        assert(s[(i + 1) * len / n] <= s[(j + 1) * len / n]);
    }
}

fn quantiles(s: &Vec<u32>, n: usize) -> (r: Vec<u32>)
    requires
        rises(s@),
        s.len() > 0 || n <= 1,
        s.len() * n <= usize::MAX,
    ensures
        are_quantiles(r@, s@, n as int),
        rises(r@),
{
    let mut out: Vec<u32> = Vec::new();
    let mut i: usize = 1;
    while i < n
        invariant
            1 <= i,
            n >= 1 ==> i <= n,
            n == 0 ==> i == 1,
            s.len() > 0 || n <= 1,
            s.len() * n <= usize::MAX,
            out.len() == i - 1,
            forall|k: int|
                0 <= k < out.len() ==> #[trigger] out@[k] == s@[(k + 1) * s.len() as int
                    / n as int],
        decreases n - i,
    {
        proof {
            lemma_quantile_place(i - 1, s.len() as int, n as int);
            assert(i * s.len() <= s.len() * n) by (nonlinear_arith)
                requires
                    i < n,
                    0 <= s.len(),
            ;
            assert((i - 1 + 1) * s.len() == i * s.len());
        }
        out.push(s[i * s.len() / n]);
        i += 1;
    }
    proof {
        lemma_quantiles_rise(out@, s@, n as int);
    }
    out
}

fn sort_numbers(f: &Vec<u32>) -> (r: Vec<u32>)
    ensures
        is_sorted_of(r@, f@),
        r.len() == f.len(),
{
    let mut keys: Vec<u64> = Vec::new();
    let mut i: usize = 0;
    while i < f.len()
        invariant
            i <= f.len(),
            keys.len() == i,
            forall|k: int| 0 <= k < i ==> #[trigger] keys@[k] == f@[k],
        decreases f.len() - i,
    {
        keys.push(f[i] as u64);
        i += 1;
    }
    let perm: Vec<usize> = sort_order(&keys);
    let mut out: Vec<u32> = Vec::new();
    let mut j: usize = 0;
    while j < perm.len()
        invariant
            j <= perm.len(),
            keys.len() == f.len(),
            forall|k: int| 0 <= k < f.len() ==> #[trigger] keys@[k] == f@[k],
            is_order(keys@, perm@),
            out@ =~= gather(f@, perm@).take(j as int),
        decreases perm.len() - j,
    {
        out.push(f[perm[j]]);
        j += 1;
    }
    proof {
        assert(out@ =~= gather(f@, perm@));
        lemma_gather_permutes(keys@, perm@, f@);
        assert forall|a: int, b: int| 0 <= a <= b < out.len() implies #[trigger] out@[a]
            <= #[trigger] out@[b] by {
            if a < b {
                assert(crate::order::before(keys@, perm@[a], perm@[b]));
            }
        }
    }
    out
}

// ---------------------------------------------------------------------------
// The table
// ---------------------------------------------------------------------------

/// For each user and each day on which they rated, the bins of how often they rated on it.
pub struct SparseUFreq {
    /// Where each user's days begin, and where the last one's end.
    pub starts: Vec<usize>,
    pub days: Vec<i16>,
    pub fbin_bias: Vec<u8>,
    pub fbin_fact: Vec<u8>,
    /// The boundaries of the bins.
    pub bounds_bias: Vec<u32>,
    pub bounds_fact: Vec<u32>,
}

/// The bins of a user's day: those of its frequency, or the first ones where the user did not
/// rate.
pub open spec fn expected_bins(
    tr: UserDays,
    bias: Seq<u32>,
    fact: Seq<u32>,
    u: int,
    d: i16,
) -> (u8, u8) {
    let n = ratings_on(tr.users@, tr.days@, u, d as int);
    if n == 0 {
        (0u8, 0u8)
    } else {
        (below(bias, n) as u8, below(fact, n) as u8)
    }
}

impl SparseUFreq {
    /// The users' days follow each other, and each user's days go up.
    pub open spec fn wf(self) -> bool {
        &&& self.starts.len() > 0
        &&& self.fbin_bias.len() == self.days.len()
        &&& self.fbin_fact.len() == self.days.len()
        &&& forall|u: int, v: int|
            0 <= u <= v < self.starts.len() ==> #[trigger] self.starts@[u]
                <= #[trigger] self.starts@[v]
        &&& forall|u: int|
            0 <= u < self.starts.len() ==> #[trigger] self.starts@[u] <= self.days.len()
        &&& forall|u: int, i: int, j: int|
            0 <= u < self.starts.len() - 1 && #[trigger] self.starts@[u] <= i < j
                < self.starts@[u + 1] ==> #[trigger] self.days@[i] < #[trigger] self.days@[j]
    }

    /// Whether the `i`-th entry is that of a user's day.
    pub open spec fn is_entry(self, u: int, d: i16, i: int) -> bool {
        self.starts@[u] <= i < self.starts@[u + 1] && self.days@[i] == d
    }

    /// The bins of a user's day.
    pub open spec fn bins(self, u: int, d: i16) -> (u8, u8) {
        if exists|i: int| #[trigger] self.is_entry(u, d, i) {
            let i = choose|i: int| #[trigger] self.is_entry(u, d, i);
            (self.fbin_bias@[i], self.fbin_fact@[i])
        } else {
            (0u8, 0u8)
        }
    }

    /// Finds the entry of a user's day, if the user rated on it.
    pub fn place(&self, u: usize, day: i16) -> (r: Option<usize>)
        requires
            self.wf(),
            u < self.starts.len() - 1,
        ensures
            match r {
                Some(i) => self.is_entry(u as int, day, i as int) && i < self.days.len(),
                None => forall|i: int| !#[trigger] self.is_entry(u as int, day, i),
            },
    {
        let mut lo: usize = self.starts[u];
        let mut hi: usize = self.starts[u + 1];
        proof {
            assert(self.starts@[u as int] <= self.starts@[u + 1]);
        }
        while lo < hi
            invariant
                self.wf(),
                u < self.starts.len() - 1,
                self.starts@[u as int] <= lo <= hi <= self.starts@[u + 1],
                self.starts@[u + 1] <= self.days.len(),
                forall|i: int| self.starts@[u as int] <= i < lo ==> #[trigger] self.days@[i] < day,
                forall|i: int| hi <= i < self.starts@[u + 1] ==> #[trigger] self.days@[i] > day,
            decreases hi - lo,
        {
            let mid: usize = lo + (hi - lo) / 2;
            let d: i16 = self.days[mid];
            if d == day {
                assert(self.is_entry(u as int, day, mid as int));
                return Some(mid);
            }
            if d < day {
                proof {
                    assert forall|i: int| self.starts@[u as int] <= i < mid + 1 implies (
                    #[trigger] self.days@[i]) < day by {
                        if i < mid {
                            assert(self.days@[i] < self.days@[mid as int]);
                        }
                    }
                }
                lo = mid + 1;
            } else {
                proof {
                    assert forall|i: int| mid <= i < self.starts@[u + 1] implies (
                    #[trigger] self.days@[i]) > day by {
                        if mid < i {
                            assert(self.days@[mid as int] < self.days@[i]);
                        }
                    }
                }
                hi = mid;
            }
        }
        proof {
            assert forall|i: int| !#[trigger] self.is_entry(u as int, day, i) by {
                if self.is_entry(u as int, day, i) {
                    if i < lo {
                        assert(self.days@[i] < day);
                    } else {
                        assert(self.days@[i] > day);
                    }
                }
            }
        }
        None
    }

    /// Looks up the bins of a user's day: the first ones where the user did not rate on it.
    pub fn get(&self, u: usize, day: i16) -> (r: (u8, u8))
        requires
            self.wf(),
            u < self.starts.len() - 1,
        ensures
            r == self.bins(u as int, day),
    {
        match self.place(u, day) {
            Some(k) => {
                proof {
                    let i = choose|i: int| #[trigger] self.is_entry(u as int, day, i);
                    if i < k {
                        assert(self.days@[i] < self.days@[k as int]);
                    } else if k < i {
                        assert(self.days@[k as int] < self.days@[i]);
                    }
                }
                (self.fbin_bias[k], self.fbin_fact[k])
            },
            None => (0, 0),
        }
    }

    /// Counts the ratings of each user on each day, and puts the counts into bins that hold about
    /// equally many ratings.
    pub fn new(tr: &UserDays, n_bins_bias: usize, n_bins_fact: usize) -> (r: SparseUFreq)
        requires
            tr.wf(),
            tr.users.len() > 0 || (n_bins_bias <= 1 && n_bins_fact <= 1),
            tr.users.len() * n_bins_bias <= usize::MAX,
            tr.users.len() * n_bins_fact <= usize::MAX,
        ensures
            r.wf(),
            r.starts.len() == tr.n_users + 1,
            r.starts@[0] == 0,
            r.starts@[tr.n_users as int] == r.days.len(),
            r.days.len() == rated_days(tr.users@, tr.days@).len(),
            forall|u: int, d: i16|
                0 <= u < tr.n_users ==> ((exists|i: int| #[trigger] r.is_entry(u, d, i))
                    <==> #[trigger] ratings_on(tr.users@, tr.days@, u, d as int) > 0),
            forall|u: int, d: i16, i: int|
                0 <= u < tr.n_users && #[trigger] r.is_entry(u, d, i) ==> (
                r.fbin_bias@[i], r.fbin_fact@[i]) == expected_bins(
                    *tr,
                    r.bounds_bias@,
                    r.bounds_fact@,
                    u,
                    d,
                ),
            n_bins_bias > 0 ==> forall|i: int|
                0 <= i < r.fbin_bias.len() ==> #[trigger] r.fbin_bias@[i] < n_bins_bias,
            n_bins_fact > 0 ==> forall|i: int|
                0 <= i < r.fbin_fact.len() ==> #[trigger] r.fbin_fact@[i] < n_bins_fact,
            exists|s: Seq<u32>| #[trigger]
                is_sorted_of(s, frequencies(tr.users@, tr.days@)) && are_quantiles(
                    r.bounds_bias@,
                    s,
                    n_bins_bias as int,
                ) && are_quantiles(r.bounds_fact@, s, n_bins_fact as int),
            forall|u: int, d: i16|
                0 <= u < tr.n_users ==> #[trigger] r.bins(u, d) == expected_bins(
                    *tr,
                    r.bounds_bias@,
                    r.bounds_fact@,
                    u,
                    d,
                ),
    {
        let keys: Vec<u64> = rating_keys(tr);
        let distinct: Vec<u64> = distinct_sorted(&keys);
        let counts: Vec<u32> = count_keys(&keys, &distinct);
        let freqs: Vec<u32> = rating_counts(tr, &keys, &distinct, &counts);
        let sorted: Vec<u32> = sort_numbers(&freqs);
        let bounds_bias: Vec<u32> = quantiles(&sorted, n_bins_bias);
        let bounds_fact: Vec<u32> = quantiles(&sorted, n_bins_fact);
        let starts: Vec<usize> = user_starts(tr.n_users, &distinct);
        let mut days: Vec<i16> = Vec::new();
        let mut fbin_bias: Vec<u8> = Vec::new();
        let mut fbin_fact: Vec<u8> = Vec::new();
        let mut i: usize = 0;
        while i < distinct.len()
            invariant
                i <= distinct.len(),
                counts.len() == distinct.len(),
                rises(bounds_bias@),
                rises(bounds_fact@),
                days.len() == i,
                fbin_bias.len() == i,
                fbin_fact.len() == i,
                forall|k: int| 0 <= k < i ==> #[trigger] days@[k] == distinct@[k] % 65536 - 32768,
                forall|k: int|
                    0 <= k < i ==> #[trigger] fbin_bias@[k] == below(
                        bounds_bias@,
                        counts@[k] as int,
                    ) as u8,
                forall|k: int|
                    0 <= k < i ==> #[trigger] fbin_fact@[k] == below(
                        bounds_fact@,
                        counts@[k] as int,
                    ) as u8,
            decreases distinct.len() - i,
        {
            let low: i32 = (distinct[i] % 65536) as i32;
            days.push((low - 32768) as i16);
            fbin_bias.push(freq_bin(counts[i], bounds_bias.as_slice()) as u8);
            fbin_fact.push(freq_bin(counts[i], bounds_fact.as_slice()) as u8);
            i += 1;
        }
        let r: SparseUFreq = SparseUFreq {
            starts,
            days,
            fbin_bias,
            fbin_fact,
            bounds_bias,
            bounds_fact,
        };
        proof {
            assert(is_sorted_of(sorted@, frequencies(tr.users@, tr.days@)));
            lemma_table(*tr, keys@, distinct@, counts@, r);
            lemma_rated_days(tr.users@, tr.days@, distinct@);
            assert forall|k: int| 0 <= k < r.days.len() && n_bins_bias > 0 implies (
            #[trigger] r.fbin_bias@[k]) < n_bins_bias by {
                lemma_freq_bin_monotone(r.bounds_bias@, counts@[k] as int, counts@[k] as int);
            }
            assert forall|k: int| 0 <= k < r.days.len() && n_bins_fact > 0 implies (
            #[trigger] r.fbin_fact@[k]) < n_bins_fact by {
                lemma_freq_bin_monotone(r.bounds_fact@, counts@[k] as int, counts@[k] as int);
            }
        }
        r
    }
}

fn rating_keys(tr: &UserDays) -> (r: Vec<u64>)
    requires
        tr.wf(),
    ensures
        r@ == day_keys(tr.users@, tr.days@),
{
    let mut out: Vec<u64> = Vec::new();
    let mut t: usize = 0;
    while t < tr.users.len()
        invariant
            t <= tr.users.len(),
            tr.wf(),
            out@ =~= day_keys(tr.users@, tr.days@).take(t as int),
        decreases tr.users.len() - t,
    {
        let d: u64 = (tr.days[t] as i32 + 32768) as u64;
        out.push(tr.users[t] as u64 * 65536 + d);
        t += 1;
    }
    out
}

fn count_keys(keys: &Vec<u64>, distinct: &Vec<u64>) -> (r: Vec<u32>)
    requires
        increasing(distinct@),
        forall|x: u64| distinct@.contains(x) <==> keys@.contains(x),
        keys.len() <= u32::MAX,
    ensures
        r.len() == distinct.len(),
        forall|i: int|
            0 <= i < r.len() ==> #[trigger] r@[i] == count_key(keys@, distinct@[i]),
{
    let mut counts: Vec<u32> = Vec::new();
    let mut z: usize = 0;
    while z < distinct.len()
        invariant
            z <= distinct.len(),
            counts.len() == z,
            forall|i: int| 0 <= i < z ==> #[trigger] counts@[i] == 0,
        decreases distinct.len() - z,
    {
        counts.push(0);
        z += 1;
    }
    let mut t: usize = 0;
    proof {
        assert(keys@.take(0) =~= Seq::<u64>::empty());
    }
    while t < keys.len()
        invariant
            t <= keys.len() <= u32::MAX,
            increasing(distinct@),
            forall|x: u64| distinct@.contains(x) <==> keys@.contains(x),
            counts.len() == distinct.len(),
            forall|i: int|
                0 <= i < counts.len() ==> #[trigger] counts@[i] == count_key(
                    keys@.take(t as int),
                    distinct@[i],
                ),
        decreases keys.len() - t,
    {
        let ghost before = counts@;
        proof {
            assert(keys@.take(t + 1).drop_last() =~= keys@.take(t as int));
            assert(keys@.take(t + 1).last() == keys@[t as int]);
            assert(keys@.contains(keys@[t as int]));
        }
        match search(distinct, keys[t]) {
            Some(k) => {
                proof {
                    lemma_count_key(keys@.take(t as int), distinct@[k as int]);
                }
                let c: u32 = counts[k];
                counts.set(k, c + 1);
                proof {
                    assert forall|i: int| 0 <= i < counts.len() implies #[trigger] counts@[i]
                        == count_key(keys@.take(t + 1), distinct@[i]) by {
                        assert(before[i] == count_key(keys@.take(t as int), distinct@[i]));
                        if i < k {
                            assert(distinct@[i] < distinct@[k as int]);
                        } else if k < i {
                            assert(distinct@[k as int] < distinct@[i]);
                        }
                    }
                }
            },
            None => {},
        }
        t += 1;
    }
    proof {
        assert(keys@.take(keys.len() as int) =~= keys@);
    }
    counts
}

fn rating_counts(tr: &UserDays, keys: &Vec<u64>, distinct: &Vec<u64>, counts: &Vec<u32>) -> (r: Vec<
    u32,
>)
    requires
        tr.wf(),
        keys@ == day_keys(tr.users@, tr.days@),
        increasing(distinct@),
        forall|x: u64| distinct@.contains(x) <==> keys@.contains(x),
        counts.len() == distinct.len(),
        forall|i: int|
            0 <= i < counts.len() ==> #[trigger] counts@[i] == count_key(keys@, distinct@[i]),
    ensures
        r@ == frequencies(tr.users@, tr.days@),
{
    let mut out: Vec<u32> = Vec::new();
    let mut t: usize = 0;
    while t < keys.len()
        invariant
            t <= keys.len(),
            tr.wf(),
            keys@ == day_keys(tr.users@, tr.days@),
            increasing(distinct@),
            forall|x: u64| distinct@.contains(x) <==> keys@.contains(x),
            counts.len() == distinct.len(),
            forall|i: int|
                0 <= i < counts.len() ==> #[trigger] counts@[i] == count_key(keys@, distinct@[i]),
            out@ =~= frequencies(tr.users@, tr.days@).take(t as int),
        decreases keys.len() - t,
    {
        proof {
            assert(keys@.contains(keys@[t as int]));
            assert(keys@.len() == tr.users.len());
            let u = tr.users@[t as int];
            let d = tr.days@[t as int];
            lemma_ratings_on(tr.users@, tr.days@, u as int, d as int);
            assert(keys@[t as int] == day_key(u as int, d as int) as u64);
        }
        match search(distinct, keys[t]) {
            Some(k) => {
                proof {
                    assert(counts@[k as int] == count_key(keys@, distinct@[k as int]));
                }
                out.push(counts[k]);
            },
            None => {},
        }
        t += 1;
    }
    out
}

/// Where each user's keys begin among increasing keys.
fn user_starts(n_users: usize, distinct: &Vec<u64>) -> (r: Vec<usize>)
    requires
        increasing(distinct@),
        n_users < u32::MAX,
    ensures
        r.len() == n_users + 1,
        forall|u: int| 0 <= u < r.len() ==> #[trigger] r@[u] <= distinct.len(),
        forall|u: int, i: int|
            0 <= u < r.len() && 0 <= i < distinct.len() ==> (#[trigger] distinct@[i] < u * 65536
                <==> i < #[trigger] r@[u]),
{
    let mut out: Vec<usize> = Vec::new();
    let mut at: usize = 0;
    let mut u: usize = 0;
    while u <= n_users
        invariant
            u <= n_users + 1,
            n_users < u32::MAX,
            increasing(distinct@),
            at <= distinct.len(),
            forall|i: int| 0 <= i < at ==> #[trigger] distinct@[i] < u * 65536,
            out.len() == u,
            forall|v: int| 0 <= v < u ==> #[trigger] out@[v] <= distinct.len(),
            forall|v: int, i: int|
                0 <= v < u && 0 <= i < distinct.len() ==> (#[trigger] distinct@[i] < v * 65536
                    <==> i < #[trigger] out@[v]),
        decreases n_users + 1 - u,
    {
        let bound: u64 = u as u64 * 65536;
        while at < distinct.len() && distinct[at] < bound
            invariant
                at <= distinct.len(),
                bound == u * 65536,
                forall|i: int| 0 <= i < at ==> #[trigger] distinct@[i] < bound,
            decreases distinct.len() - at,
        {
            at += 1;
        }
        let ghost before = out@;
        out.push(at);
        proof {
            assert forall|v: int, i: int| 0 <= v < u + 1 && 0 <= i < distinct.len() implies (
            #[trigger] distinct@[i] < v * 65536 <==> i < #[trigger] out@[v]) by {
                if v < u {
                    assert(out@[v] == before[v]);
                } else if i >= at {
                    if at < i {
                        assert(distinct@[at as int] < distinct@[i]);
                    }
                }
            }
            assert forall|i: int| 0 <= i < at implies #[trigger] distinct@[i] < (u + 1) * 65536 by {
                assert(distinct@[i] < u * 65536);
            }
        }
        u += 1;
    }
    out
}

proof fn lemma_table(
    tr: UserDays,
    keys: Seq<u64>,
    distinct: Seq<u64>,
    counts: Seq<u32>,
    r: SparseUFreq,
)
    requires
        tr.wf(),
        keys == day_keys(tr.users@, tr.days@),
        increasing(distinct),
        forall|x: u64| distinct.contains(x) <==> keys.contains(x),
        counts.len() == distinct.len(),
        forall|i: int|
            0 <= i < counts.len() ==> #[trigger] counts[i] == count_key(keys, distinct[i]),
        r.starts.len() == tr.n_users + 1,
        forall|u: int| 0 <= u < r.starts.len() ==> #[trigger] r.starts@[u] <= distinct.len(),
        forall|u: int, i: int|
            0 <= u < r.starts.len() && 0 <= i < distinct.len() ==> (#[trigger] distinct[i] < u
                * 65536 <==> i < #[trigger] r.starts@[u]),
        r.days.len() == distinct.len(),
        r.fbin_bias.len() == distinct.len(),
        r.fbin_fact.len() == distinct.len(),
        forall|k: int|
            0 <= k < distinct.len() ==> #[trigger] r.days@[k] == distinct[k] % 65536 - 32768,
        forall|k: int|
            0 <= k < distinct.len() ==> #[trigger] r.fbin_bias@[k] == below(
                r.bounds_bias@,
                counts[k] as int,
            ) as u8,
        forall|k: int|
            0 <= k < distinct.len() ==> #[trigger] r.fbin_fact@[k] == below(
                r.bounds_fact@,
                counts[k] as int,
            ) as u8,
    ensures
        r.wf(),
        r.starts@[0] == 0,
        r.starts@[tr.n_users as int] == r.days.len(),
        forall|u: int, d: i16|
            0 <= u < tr.n_users ==> ((exists|i: int| #[trigger] r.is_entry(u, d, i))
                <==> #[trigger] ratings_on(tr.users@, tr.days@, u, d as int) > 0),
        forall|u: int, d: i16, i: int|
            0 <= u < tr.n_users && #[trigger] r.is_entry(u, d, i) ==> (
            r.fbin_bias@[i], r.fbin_fact@[i]) == expected_bins(
                tr,
                r.bounds_bias@,
                r.bounds_fact@,
                u,
                d,
            ),
        forall|u: int, d: i16|
            0 <= u < tr.n_users ==> #[trigger] r.bins(u, d) == expected_bins(
                tr,
                r.bounds_bias@,
                r.bounds_fact@,
                u,
                d,
            ),
{
    assert forall|u: int, v: int| 0 <= u <= v < r.starts.len() implies #[trigger] r.starts@[u]
        <= #[trigger] r.starts@[v] by {
        if r.starts@[v] < r.starts@[u] {
            let i = r.starts@[v] as int;
            assert(distinct[i] < u * 65536);
            assert(!(distinct[i] < v * 65536));
        }
    }
    assert forall|u: int, i: int, j: int|
        0 <= u < r.starts.len() - 1 && #[trigger] r.starts@[u] <= i < j < r.starts@[u + 1]
            implies #[trigger] r.days@[i] < #[trigger] r.days@[j] by {
        assert(distinct[i] < distinct[j]);
        lemma_key_parts(distinct[i], u, r.starts@, distinct, i);
        lemma_key_parts(distinct[j], u, r.starts@, distinct, j);
    }
    if r.starts@[0] > 0 {
        assert(distinct[0] < 0 * 65536);
    }
    if r.starts@[tr.n_users as int] < distinct.len() {
        let i = r.starts@[tr.n_users as int] as int;
        assert(distinct.contains(distinct[i]));
        let t = keys.index_of(distinct[i]);
        assert(keys[t] == day_key(tr.users@[t] as int, tr.days@[t] as int) as u64);
        assert(tr.users@[t] < tr.n_users);
        assert(distinct[i] < tr.n_users * 65536);
    }
    assert forall|u: int, d: i16, i: int|
        0 <= u < tr.n_users && #[trigger] r.is_entry(u, d, i) implies (
        r.fbin_bias@[i], r.fbin_fact@[i]) == expected_bins(
        tr,
        r.bounds_bias@,
        r.bounds_fact@,
        u,
        d,
    ) && ratings_on(tr.users@, tr.days@, u, d as int) > 0 by {
        let x = day_key(u, d as int) as u64;
        lemma_ratings_on(tr.users@, tr.days@, u, d as int);
        lemma_count_key(keys, x);
        lemma_key_parts(distinct[i], u, r.starts@, distinct, i);
        assert(r.days@[i] == distinct[i] % 65536 - 32768);
        assert(distinct[i] == x);
        assert(distinct.contains(x));
        assert(counts[i] == count_key(keys, distinct[i]));
    }
    assert forall|u: int, d: i16|
        0 <= u < tr.n_users && #[trigger] ratings_on(
            tr.users@,
            tr.days@,
            u,
            d as int,
        ) > 0 implies exists|i: int| #[trigger] r.is_entry(u, d, i) by {
        let x = day_key(u, d as int) as u64;
        lemma_ratings_on(tr.users@, tr.days@, u, d as int);
        lemma_count_key(keys, x);
        assert(distinct.contains(x));
        let i = distinct.index_of(x);
        assert(distinct[i] == x);
        assert(!(distinct[i] < u * 65536));
        assert(distinct[i] < (u + 1) * 65536);
        assert(r.starts@[u] <= i < r.starts@[u + 1]);
        assert(r.days@[i] == distinct[i] % 65536 - 32768);
        assert(x % 65536 == d + 32768);
        assert(r.is_entry(u, d, i));
    }
    assert forall|u: int, d: i16| 0 <= u < tr.n_users implies #[trigger] r.bins(u, d)
        == expected_bins(tr, r.bounds_bias@, r.bounds_fact@, u, d) by {
        lemma_ratings_on(tr.users@, tr.days@, u, d as int);
        lemma_count_key(keys, day_key(u, d as int) as u64);
        assert(ratings_on(tr.users@, tr.days@, u, d as int) >= 0);
    }
}

/// The user and the day that a number stands for.
spec fn key_day(x: u64) -> (u32, i16) {
    ((x / 65536) as u32, (x % 65536 - 32768) as i16)
}

/// There are as many distinct numbers as there are days that users rated on.
proof fn lemma_rated_days(users: Seq<u32>, days: Seq<i16>, distinct: Seq<u64>)
    requires
        users.len() == days.len(),
        increasing(distinct),
        forall|x: u64| distinct.contains(x) <==> day_keys(users, days).contains(x),
    ensures
        distinct.len() == rated_days(users, days).len(),
{
    let keys = day_keys(users, days);
    let pairs = Seq::new(users.len(), |t: int| (users[t], days[t]));
    let found = Seq::new(distinct.len(), |i: int| key_day(distinct[i]));
    assert forall|t: int| 0 <= t < keys.len() implies key_day(#[trigger] keys[t]) == pairs[t] by {
        let u = users[t];
        let d = days[t];
        assert(keys[t] == day_key(u as int, d as int));
    }
    assert forall|i: int| 0 <= i < distinct.len() implies #[trigger] distinct[i] == day_key(
        found[i].0 as int,
        found[i].1 as int,
    ) && pairs.contains(found[i]) by {
        assert(distinct.contains(distinct[i]));
        let t = keys.index_of(distinct[i]);
        assert(keys[t] == distinct[i]);
        assert(found[i] == pairs[t]);
    }
    assert(found.no_duplicates()) by {
        assert forall|i: int, j: int|
            0 <= i < found.len() && 0 <= j < found.len() && i != j implies found[i] != found[j] by {
            assert(distinct[i] != distinct[j]);
        }
    }
    assert forall|p: (u32, i16)| pairs.contains(p) implies found.contains(p) by {
        let t = pairs.index_of(p);
        assert(keys.contains(keys[t]));
        assert(distinct.contains(keys[t]));
        let i = distinct.index_of(keys[t]);
        assert(distinct[i] == keys[t]);
        assert(found[i] == p);
    }
    assert forall|p: (u32, i16)| found.contains(p) implies pairs.contains(p) by {
        let i = found.index_of(p);
        assert(distinct[i] == day_key(found[i].0 as int, found[i].1 as int));
    }
    assert(found.to_set() =~= pairs.to_set());
    found.unique_seq_to_set();
}

proof fn lemma_key_parts(x: u64, u: int, starts: Seq<usize>, distinct: Seq<u64>, i: int)
    requires
        0 <= u < starts.len() - 1,
        0 <= i < distinct.len(),
        x == distinct[i],
        starts[u] <= i < starts[u + 1],
        forall|v: int, k: int|
            0 <= v < starts.len() && 0 <= k < distinct.len() ==> (#[trigger] distinct[k] < v * 65536
                <==> k < #[trigger] starts[v]),
    ensures
        u * 65536 <= x < (u + 1) * 65536,
        x == u * 65536 + x % 65536,
{
    assert(distinct[i] < (u + 1) * 65536 <==> i < starts[u + 1]);
    assert(distinct[i] < u * 65536 <==> i < starts[u]);
}

/// The range of days is past every day that is not before the first, and no further than needed.
pub proof fn lemma_day_range(days: Seq<i16>)
    ensures
        range_spec(days) >= 0,
        forall|t: int| 0 <= t < days.len() ==> #[trigger] days[t] < range_spec(days),
        range_spec(days) == 0 || exists|t: int|
            0 <= t < days.len() && #[trigger] days[t] + 1 == range_spec(days),
    decreases days.len(),
{
    if days.len() > 0 {
        let h = days.drop_last();
        let n = days.len() - 1;
        lemma_day_range(h);
        assert forall|t: int| 0 <= t < days.len() implies #[trigger] days[t] < range_spec(days) by {
            if t < n {
                assert(h[t] == days[t]);
            }
        }
        if range_spec(days) == range_spec(h) && range_spec(h) != 0 {
            let t = choose|t: int| 0 <= t < h.len() && #[trigger] h[t] + 1 == range_spec(h);
            assert(days[t] + 1 == range_spec(days));
        } else if range_spec(days) != 0 {
            assert(days[n] + 1 == range_spec(days));
        }
    }
}

/// The bins cut the range into equal parts: a day in the range is in the bin of its share, rounded
/// down, and a day past the range in the last bin. A day before the first is in the first bin if it
/// is less than a bin's width before it, and else in the last.
pub proof fn lemma_time_bin(day: int, n: int, range: int)
    requires
        0 < n,
        0 < range,
    ensures
        0 <= day < range ==> time_bin_spec(day, n, range) * range <= day * n < (time_bin_spec(
            day,
            n,
            range,
        ) + 1) * range,
        day >= range ==> time_bin_spec(day, n, range) == n - 1,
        day < 0 && (-day) * n < range ==> time_bin_spec(day, n, range) == 0,
        day < 0 && (-day) * n >= range ==> time_bin_spec(day, n, range) == n - 1,
{
    let x = if day >= 0 {
        day * n
    } else {
        (-day) * n
    };
    let q = x / range;
    vstd::arithmetic::div_mod::lemma_fundamental_div_mod(x, range);
    vstd::arithmetic::div_mod::lemma_mod_bound(x, range);
    assert(x == q * range + x % range) by (nonlinear_arith)
        requires
            x == range * q + x % range,
    ;
    assert((q + 1) * range == q * range + range) by (nonlinear_arith);
    if 0 <= day < range {
        assert(q < n) by (nonlinear_arith)
            requires
                q * range <= day * n,
                0 <= day < range,
                0 < n,
                0 < range,
        ;
    } else if day >= range {
        assert(q >= n) by (nonlinear_arith)
            requires
                day * n < (q + 1) * range,
                day >= range,
                0 < n,
                0 < range,
        ;
    } else if x < range {
        assert(x >= 0) by (nonlinear_arith)
            requires
                x == (-day) * n,
                day < 0,
                0 < n,
        ;
        vstd::arithmetic::div_mod::lemma_basic_div(x, range);
    } else {
        assert(q >= 1) by (nonlinear_arith)
            requires
                x < (q + 1) * range,
                x >= range,
                0 < range,
        ;
    }
}

/// Keys go by user, then by day.
pub proof fn lemma_day_keys_in_order(u: int, d: i16, v: int, e: i16)
    requires
        0 <= u,
        0 <= v,
    ensures
        day_key(u, d as int) < day_key(v, e as int) <==> u < v || (u == v && d < e),
{
}

/// A boundary is the frequency at its share of the ratings in order, rounded down.
pub proof fn lemma_quantile_share(bounds: Seq<u32>, s: Seq<u32>, n: int, i: int) -> (p: int)
    requires
        are_quantiles(bounds, s, n),
        s.len() > 0,
        0 <= i < n - 1,
    ensures
        bounds.len() == n - 1,
        0 <= p < s.len(),
        p * n <= (i + 1) * s.len() < (p + 1) * n,
        bounds[i] == s[p],
{
    let x = (i + 1) * s.len();
    let p = x / n;
    vstd::arithmetic::div_mod::lemma_fundamental_div_mod(x, n);
    vstd::arithmetic::div_mod::lemma_mod_bound(x, n);
    assert(x == p * n + x % n) by (nonlinear_arith)
        requires
            x == n * p + x % n,
    ;
    assert((p + 1) * n == p * n + n) by (nonlinear_arith);
    lemma_quantile_place(i, s.len() as int, n);
    p
}

/// A user's day has in each table the bin that its number of ratings parts the boundaries at, and
/// the first bin where there are none.
pub proof fn lemma_expected_bins(
    tr: UserDays,
    bias: Seq<u32>,
    fact: Seq<u32>,
    u: int,
    d: i16,
    i: int,
    j: int,
)
    requires
        parts_at(bias, ratings_on(tr.users@, tr.days@, u, d as int), i),
        parts_at(fact, ratings_on(tr.users@, tr.days@, u, d as int), j),
        i <= u8::MAX,
        j <= u8::MAX,
    ensures
        ratings_on(tr.users@, tr.days@, u, d as int) > 0 ==> expected_bins(tr, bias, fact, u, d)
            == (i as u8, j as u8),
        ratings_on(tr.users@, tr.days@, u, d as int) == 0 ==> expected_bins(tr, bias, fact, u, d)
            == (0u8, 0u8),
{
    lemma_below(bias, ratings_on(tr.users@, tr.days@, u, d as int), i);
    lemma_below(fact, ratings_on(tr.users@, tr.days@, u, d as int), j);
}

/// A rating's frequency is the number of its user's ratings on its day.
pub proof fn lemma_frequency(users: Seq<u32>, days: Seq<i16>, t: int, u: u32, d: i16)
    requires
        users.len() == days.len(),
        users.len() <= u32::MAX,
        0 <= t < users.len(),
        users[t] == u,
        days[t] == d,
    ensures
        frequencies(users, days).len() == users.len(),
        frequencies(users, days)[t] == Seq::new(users.len(), |k: int| (users[k], days[k])).filter(
            |p: (u32, i16)| p.0 == u && p.1 == d,
        ).len(),
{
    lemma_on_day(users, days, u, d);
    let all = Seq::new(users.len(), |k: int| (users[k], days[k]));
    all.lemma_filter_len(|p: (u32, i16)| p.0 == u && p.1 == d);
}

proof fn lemma_on_day(users: Seq<u32>, days: Seq<i16>, u: u32, d: i16)
    requires
        users.len() == days.len(),
    ensures
        ratings_on(users, days, u as int, d as int) == Seq::new(
            users.len(),
            |k: int| (users[k], days[k]),
        ).filter(|p: (u32, i16)| p.0 == u && p.1 == d).len(),
    decreases users.len(),
{
    reveal(Seq::filter);
    let all = Seq::new(users.len(), |k: int| (users[k], days[k]));
    if users.len() > 0 {
        let us = users.drop_last();
        let ds = days.drop_last();
        lemma_on_day(us, ds, u, d);
        assert(all.drop_last() =~= Seq::new(us.len(), |k: int| (us[k], ds[k])));
    }
}

/// The bins of a user's day are those of its one entry, and the first ones where it has none.
pub proof fn lemma_bins(f: SparseUFreq, u: int, d: i16, i: int)
    requires
        f.wf(),
        0 <= u < f.starts.len() - 1,
    ensures
        f.starts@[u] <= i < f.starts@[u + 1] && f.days@[i] == d ==> f.bins(u, d) == (
            f.fbin_bias@[i],
            f.fbin_fact@[i],
        ),
        (forall|j: int| f.starts@[u] <= j < f.starts@[u + 1] ==> #[trigger] f.days@[j] != d)
            ==> f.bins(u, d) == (0u8, 0u8),
{
    if f.starts@[u] <= i < f.starts@[u + 1] && f.days@[i] == d {
        assert(f.is_entry(u, d, i));
        let j = choose|j: int| #[trigger] f.is_entry(u, d, j);
        if i < j {
            assert(f.days@[i] < f.days@[j]);
        } else if j < i {
            assert(f.days@[j] < f.days@[i]);
        }
    }
    if forall|j: int| f.starts@[u] <= j < f.starts@[u + 1] ==> #[trigger] f.days@[j] != d {
        assert forall|j: int| !#[trigger] f.is_entry(u, d, j) by {}
    }
}

/// The frequencies in order: none is above a later one, and each is there as often as before.
pub proof fn lemma_sorted_frequencies(s: Seq<u32>, f: Seq<u32>, i: int, j: int, x: u32)
    requires
        is_sorted_of(s, f),
        0 <= i <= j < s.len(),
    ensures
        s.len() == f.len(),
        s[i] <= s[j],
        s.contains(x) <==> f.contains(x),
        s.to_multiset().count(x) == f.to_multiset().count(x),
{
    broadcast use vstd::seq_lib::group_to_multiset_ensures;

    assert(s.to_multiset().len() == s.len());
    assert(f.to_multiset().len() == f.len());
    assert(s.contains(x) <==> s.to_multiset().count(x) > 0);
    assert(f.contains(x) <==> f.to_multiset().count(x) > 0);
}

} // verus!
