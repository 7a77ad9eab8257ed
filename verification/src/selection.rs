//! Choosing columns one step at a time. Scores come as numbers that stand in the same order as the
//! errors they stand for, the smallest the best.

use crate::fs_args::SelectMode;
use crate::fwls::colindex;
use crate::fwls::lemma_pairs;
use crate::fwls::lemma_triangle_step;
use crate::fwls::pair_at;
use crate::fwls::triangle;
use crate::groups::copy_numbers;
use vstd::prelude::*;

verus! {

/// The score of a set of columns that cannot be fitted.
pub const SINGULAR: u64 = 0x7ff0_0000_0000_0000;

/// Whether `k` is the place of the first of the smallest scores.
pub open spec fn is_first_min(scores: Seq<u64>, k: int) -> bool {
    &&& 0 <= k < scores.len()
    &&& forall|i: int| 0 <= i < k ==> #[trigger] scores[i] > scores[k]
    &&& forall|i: int| k <= i < scores.len() ==> #[trigger] scores[i] >= scores[k]
}

/// Finds the first of the smallest scores.
pub fn first_min(scores: &Vec<u64>) -> (r: usize)
    requires
        scores.len() > 0,
    ensures
        is_first_min(scores@, r as int),
        r < scores.len(),
        forall|i: int| 0 <= i < scores.len() ==> #[trigger] scores@[i] >= scores@[r as int],
        forall|i: int| 0 <= i < r ==> #[trigger] scores@[i] != scores@[r as int],
{
    let mut k: usize = 0;
    let mut i: usize = 1;
    while i < scores.len()
        invariant
            k < i <= scores.len(),
            forall|j: int| 0 <= j < k ==> #[trigger] scores@[j] > scores@[k as int],
            forall|j: int| k <= j < i ==> #[trigger] scores@[j] >= scores@[k as int],
        decreases scores.len() - i,
    {
        if scores[i] < scores[k] {
            k = i;
        }
        i += 1;
    }
    k
}

// ---------------------------------------------------------------------------
// Patience
// ---------------------------------------------------------------------------

/// The best score so far, the step it was seen at, and how many steps ago that was.
#[derive(Clone, Copy, PartialEq, Eq, Structural, Debug)]
pub struct Patience {
    pub best: u64,
    pub best_step: usize,
    pub since_best: u64,
}

/// What is known after one more score.
pub open spec fn noted(p: Patience, score: u64, step: usize) -> Patience {
    if score < p.best {
        Patience { best: score, best_step: step, since_best: 0 }
    } else {
        Patience { since_best: (p.since_best + 1) as u64, ..p }
    }
}

/// Whether the wait has been long enough.
pub open spec fn is_over(p: Patience, limit: Option<u64>) -> bool {
    match limit {
        Some(n) => p.since_best >= n,
        None => false,
    }
}

impl Patience {
    /// Before any score.
    pub fn new() -> (r: Patience)
        ensures
            r == (Patience { best: SINGULAR, best_step: 0, since_best: 0 }),
    {
        Patience { best: SINGULAR, best_step: 0, since_best: 0 }
    }

    /// Notes a score, and tells whether the wait has been long enough.
    pub fn note(&mut self, score: u64, step: usize, limit: Option<u64>) -> (r: bool)
        requires
            old(self).since_best < u64::MAX,
        ensures
            *final(self) == noted(*old(self), score, step),
            r == is_over(*final(self), limit),
            score < old(self).best ==> final(self).best == score && final(self).best_step == step
                && final(self).since_best == 0,
            score >= old(self).best ==> final(self).best == old(self).best
                && final(self).best_step == old(self).best_step && final(self).since_best
                == old(self).since_best + 1,
            match limit {
                Some(p) => r <==> final(self).since_best >= p,
                None => !r,
            },
    {
        if score < self.best {
            self.best = score;
            self.best_step = step;
            self.since_best = 0;
        } else {
            self.since_best += 1;
        }
        match limit {
            Some(n) => self.since_best >= n,
            None => false,
        }
    }

    /// Starts the wait anew.
    pub fn restart(&mut self)
        ensures
            *final(self) == (Patience { since_best: 0, ..*old(self) }),
    {
        self.since_best = 0;
    }
}

/// What is known after some scores, the first noted as that of step zero.
pub open spec fn after_scores(scores: Seq<u64>) -> Patience
    decreases scores.len(),
{
    if scores.len() == 0 {
        Patience { best: SINGULAR, best_step: 0, since_best: 0 }
    } else {
        noted(after_scores(scores.drop_last()), scores.last(), (scores.len() - 1) as usize)
    }
}

/// The best score is the smallest of those noted, and it was first seen at its step; the wait is
/// the number of steps since.
pub proof fn lemma_patience(scores: Seq<u64>)
    requires
        scores.len() <= u64::MAX,
        scores.len() <= usize::MAX,
        exists|i: int| 0 <= i < scores.len() && #[trigger] scores[i] < SINGULAR,
    ensures
        is_first_min(scores, after_scores(scores).best_step as int),
        after_scores(scores).best == scores[after_scores(scores).best_step as int],
        after_scores(scores).since_best == scores.len() - 1 - after_scores(scores).best_step,
    decreases scores.len(),
{
    lemma_wait_bounded(scores.drop_last());
    let h = scores.drop_last();
    if exists|i: int| 0 <= i < h.len() && #[trigger] h[i] < SINGULAR {
        lemma_patience(h);
        let p = after_scores(h);
        let q = after_scores(scores);
        assert forall|i: int| 0 <= i < q.best_step implies #[trigger] scores[i]
            > scores[q.best_step as int] by {
            assert(scores[i] == h[i]);
        }
        assert forall|i: int| q.best_step <= i < scores.len() implies #[trigger] scores[i]
            >= scores[q.best_step as int] by {
            if i < h.len() {
                assert(scores[i] == h[i]);
            }
        }
    } else {
        lemma_nothing_yet(h);
        let i = choose|i: int| 0 <= i < scores.len() && #[trigger] scores[i] < SINGULAR;
        if i < h.len() {
            assert(h[i] == scores[i]);
        }
        let q = after_scores(scores);
        assert(q.best_step == h.len());
        assert forall|k: int| 0 <= k < q.best_step implies #[trigger] scores[k]
            > scores[q.best_step as int] by {
            assert(scores[k] == h[k]);
        }
    }
}

proof fn lemma_wait_bounded(scores: Seq<u64>)
    ensures
        scores.len() < u64::MAX ==> after_scores(scores).since_best <= scores.len(),
    decreases scores.len(),
{
    if scores.len() > 0 {
        lemma_wait_bounded(scores.drop_last());
    }
}

proof fn lemma_nothing_yet(scores: Seq<u64>)
    requires
        forall|i: int| 0 <= i < scores.len() ==> !(#[trigger] scores[i] < SINGULAR),
    ensures
        after_scores(scores).best == SINGULAR,
    decreases scores.len(),
{
    if scores.len() > 0 {
        let h = scores.drop_last();
        assert forall|i: int| 0 <= i < h.len() implies !(#[trigger] h[i] < SINGULAR) by {
            assert(h[i] == scores[i]);
        }
        lemma_nothing_yet(h);
        assert(!(scores[scores.len() - 1] < SINGULAR));
    }
}

/// After some scores, the first of the smallest of which was the one at `b`, a wait of `limit` is
/// over if and only if at least `limit` scores came after that one; without a limit it never is.
pub proof fn lemma_wait_over(scores: Seq<u64>, b: int, limit: u64)
    requires
        scores.len() <= u64::MAX,
        scores.len() <= usize::MAX,
        0 <= b < scores.len(),
        scores[b] < SINGULAR,
        forall|i: int| 0 <= i < scores.len() ==> #[trigger] scores[i] >= scores[b],
        forall|i: int| 0 <= i < b ==> #[trigger] scores[i] != scores[b],
    ensures
        is_over(after_scores(scores), Some(limit)) <==> scores.len() - 1 - b >= limit,
        !is_over(after_scores(scores), None),
        after_scores(scores).best == scores[b],
        after_scores(scores).best_step == b,
{
    lemma_patience(scores);
    let k = after_scores(scores).best_step as int;
    assert(scores[k] >= scores[b] && scores[b] >= scores[k]);
    if k < b {
        assert(scores[k] != scores[b]);
    } else if b < k {
        assert(scores[b] > scores[k]);
    }
}

/// What is known after some more scores, the first of them that of step `step`.
pub open spec fn noted_all(p: Patience, scores: Seq<u64>, step: int) -> Patience
    decreases scores.len(),
{
    if scores.len() == 0 {
        p
    } else {
        noted(
            noted_all(p, scores.drop_last(), step),
            scores.last(),
            (step + scores.len() - 1) as usize,
        )
    }
}

/// As long as no score beats the best one, the wait grows by one with each, and it is over as soon
/// as it comes up to the limit and no sooner; a score that beats it ends the wait.
pub proof fn lemma_wait_goes_on(p: Patience, scores: Seq<u64>, step: int, limit: u64, better: u64)
    requires
        forall|i: int| 0 <= i < scores.len() ==> #[trigger] scores[i] >= p.best,
        p.since_best + scores.len() <= u64::MAX,
        0 <= step,
        step + scores.len() <= usize::MAX,
        better < p.best,
        limit > 0,
    ensures
        noted_all(p, scores, step).best == p.best,
        noted_all(p, scores, step).best_step == p.best_step,
        is_over(noted_all(p, scores, step), Some(limit)) <==> p.since_best + scores.len() >= limit,
        !is_over(noted_all(p, scores.push(better), step), Some(limit)),
        noted_all(p, scores.push(better), step).best == better,
        noted_all(p, scores.push(better), step).best_step == step + scores.len(),
    decreases scores.len(),
{
    lemma_wait_counts(p, scores, step);
    assert(scores.push(better).drop_last() =~= scores);
    assert(scores.push(better).last() == better);
}

proof fn lemma_wait_counts(p: Patience, scores: Seq<u64>, step: int)
    requires
        forall|i: int| 0 <= i < scores.len() ==> #[trigger] scores[i] >= p.best,
        p.since_best + scores.len() <= u64::MAX,
    ensures
        noted_all(p, scores, step) == (Patience {
            since_best: (p.since_best + scores.len()) as u64,
            ..p
        }),
    decreases scores.len(),
{
    if scores.len() > 0 {
        assert forall|i: int| 0 <= i < scores.drop_last().len() implies #[trigger] scores.drop_last()[i]
            >= p.best by {
            assert(scores.drop_last()[i] == scores[i]);
        }
        lemma_wait_counts(p, scores.drop_last(), step);
        assert(scores[scores.len() - 1] >= p.best);
    }
}

/// Counts the epochs without a gain: one that falls short of the best loss by less than the
/// tolerance counts, any other starts anew. Tells whether there are more of them than allowed.
pub fn after_epoch(no_improve: u64, short: bool, allowed: u64) -> (r: (u64, bool))
    requires
        no_improve < u64::MAX,
    ensures
        r.0 == (if short {
            no_improve + 1
        } else {
            0
        }),
        r.1 == (r.0 > allowed),
{
    let n: u64 = if short {
        no_improve + 1
    } else {
        0
    };
    (n, n > allowed)
}

// ---------------------------------------------------------------------------
// Forward selection of columns
// ---------------------------------------------------------------------------

/// A forward selection among `m` columns.
pub struct Forward {
    pub m: usize,
    pub selected: Vec<usize>,
    pub remaining: Vec<usize>,
    pub target: usize,
    pub patience: Patience,
    pub steps: u64,
}

/// The columns below `n` that are not among some.
pub open spec fn others(some: Seq<usize>, n: int) -> Seq<usize>
    decreases n,
{
    if n <= 0 {
        Seq::empty()
    } else if some.contains((n - 1) as usize) {
        others(some, n - 1)
    } else {
        others(some, n - 1).push((n - 1) as usize)
    }
}

/// The columns that are not among some, in order.
pub proof fn lemma_others(some: Seq<usize>, n: int)
    requires
        0 <= n <= usize::MAX,
    ensures
        forall|c: usize|
            #[trigger] others(some, n).contains(c) <==> c < n && !some.contains(c),
        others(some, n).no_duplicates(),
        others(some, n).len() <= n,
        forall|i: int, j: int|
            0 <= i < j < others(some, n).len() ==> #[trigger] others(some, n)[i] < #[trigger] others(
                some,
                n,
            )[j],
    decreases n,
{
    if n > 0 {
        lemma_others(some, n - 1);
        let a = others(some, n - 1);
        let b = others(some, n);
        let last = (n - 1) as usize;
        assert forall|c: usize| #[trigger] b.contains(c) <==> c < n && !some.contains(c) by {
            assert(a.contains(c) <==> c < n - 1 && !some.contains(c));
            if a.contains(c) {
                let i = a.index_of(c);
                assert(b[i] == c);
            }
            if b.contains(c) {
                let i = b.index_of(c);
                if i < a.len() {
                    assert(a[i] == c);
                    assert(a.contains(c));
                }
            }
            if c == last && !some.contains(c) {
                assert(b[b.len() - 1] == c);
            }
        }
        assert(b.no_duplicates()) by {
            assert(!a.contains(last));
        }
        assert forall|i: int, j: int| 0 <= i < j < b.len() implies #[trigger] b[i] < #[trigger] b[j] by {
            assert(b[i] == a[i]);
            assert(a.contains(a[i]));
            if j < a.len() {
                assert(b[j] == a[j]);
            }
        }
    }
}

impl Forward {
    /// Every column is either selected or remaining, and none remains twice.
    pub open spec fn wf(self) -> bool {
        &&& self.target <= self.m
        &&& self.remaining@.no_duplicates()
        &&& forall|c: usize| #[trigger]
            self.remaining@.contains(c) <==> c < self.m && !self.selected@.contains(c)
        &&& forall|i: int| 0 <= i < self.selected.len() ==> #[trigger] self.selected@[i] < self.m
        &&& self.patience.since_best <= self.steps
    }

    /// Starts with the fixed columns selected.
    pub fn new(m: usize, fixed: &Vec<usize>, max_features: Option<u64>) -> (r: Forward)
        requires
            forall|i: int| 0 <= i < fixed.len() ==> #[trigger] fixed@[i] < m,
        ensures
            r.wf(),
            r.m == m,
            r.selected@ == fixed@,
            r.remaining@ == others(fixed@, m as int),
            forall|i: int, j: int|
                0 <= i < j < r.remaining.len() ==> #[trigger] r.remaining@[i]
                    < #[trigger] r.remaining@[j],
            forall|c: usize| #[trigger]
                r.remaining@.contains(c) <==> c < m && !fixed@.contains(c),
            r.target == (match max_features {
                Some(k) => if k < m {
                    k as int
                } else {
                    m as int
                },
                None => m as int,
            }),
            r.patience == (Patience { best: SINGULAR, best_step: 0, since_best: 0 }),
            r.steps == 0,
    {
        let mut marks: Vec<bool> = Vec::new();
        let mut i: usize = 0;
        while i < m
            invariant
                i <= m,
                marks.len() == i,
                forall|k: int| 0 <= k < i ==> !#[trigger] marks@[k],
            decreases m - i,
        {
            marks.push(false);
            i += 1;
        }
        let mut j: usize = 0;
        while j < fixed.len()
            invariant
                j <= fixed.len(),
                marks.len() == m,
                forall|k: int| 0 <= k < fixed.len() ==> #[trigger] fixed@[k] < m,
                forall|k: int|
                    0 <= k < m ==> #[trigger] marks@[k] == fixed@.take(j as int).contains(
                        k as usize,
                    ),
            decreases fixed.len() - j,
        {
            let c: usize = fixed[j];
            let ghost before = marks@;
            marks.set(c, true);
            proof {
                let a = fixed@.take(j as int);
                let b = fixed@.take(j + 1);
                assert forall|k: int| 0 <= k < m implies #[trigger] marks@[k] == b.contains(
                    k as usize,
                ) by {
                    if a.contains(k as usize) {
                        let x = a.index_of(k as usize);
                        assert(b[x] == k as usize);
                    }
                    if b.contains(k as usize) {
                        let x = b.index_of(k as usize);
                        if x < j {
                            assert(a[x] == k as usize);
                        }
                    }
                    assert(b[j as int] == c);
                    assert(before[k] == a.contains(k as usize));
                }
            }
            j += 1;
        }
        let mut remaining: Vec<usize> = Vec::new();
        let mut c: usize = 0;
        proof {
            assert(fixed@.take(fixed.len() as int) =~= fixed@);
        }
        while c < m
            invariant
                c <= m,
                marks.len() == m,
                forall|k: int| 0 <= k < m ==> #[trigger] marks@[k] == fixed@.contains(k as usize),
                remaining@ == others(fixed@, c as int),
            decreases m - c,
        {
            if !marks[c] {
                remaining.push(c);
            }
            c += 1;
        }
        let target: usize = match max_features {
            Some(k) => if k < m as u64 {
                k as usize
            } else {
                m
            },
            None => m,
        };
        let selected: Vec<usize> = copy_numbers(fixed);
        proof {
            lemma_others(fixed@, m as int);
            assert forall|i: int| 0 <= i < selected.len() implies #[trigger] selected@[i] < m by {
                assert(fixed@[i] < m);
            }
        }
        Forward {
            m,
            selected,
            remaining,
            target,
            patience: Patience::new(),
            steps: 0,
        }
    }

    /// Whether another column is to be added.
    pub fn more(&self) -> (r: bool)
        ensures
            r == (self.remaining.len() > 0 && self.selected.len() < self.target),
    {
        self.remaining.len() > 0 && self.selected.len() < self.target
    }

    /// Notes the score of the fixed columns.
    pub fn note_baseline(&mut self, score: u64)
        requires
            old(self).wf(),
            old(self).steps < u64::MAX,
        ensures
            final(self).wf(),
            final(self).patience == noted(old(self).patience, score, 0),
            final(self).steps == old(self).steps + 1,
            final(self).m == old(self).m,
            final(self).selected@ == old(self).selected@,
            final(self).remaining@ == old(self).remaining@,
            final(self).target == old(self).target,
    {
        let _ = self.patience.note(score, 0, None);
        self.steps += 1;
    }

    /// Adds the column with the best score, given one score to each remaining column. Hands back
    /// its place among them, and whether the wait has been long enough.
    pub fn step(&mut self, scores: &Vec<u64>, limit: Option<u64>) -> (r: (usize, bool))
        requires
            old(self).wf(),
            old(self).remaining.len() > 0,
            scores.len() == old(self).remaining.len(),
            old(self).steps < u64::MAX,
            old(self).steps < usize::MAX,
        ensures
            final(self).wf(),
            is_first_min(scores@, r.0 as int),
            r.0 < scores.len(),
            forall|i: int| 0 <= i < scores.len() ==> #[trigger] scores@[i] >= scores@[r.0 as int],
            match limit {
                Some(p) => r.1 <==> final(self).patience.since_best >= p,
                None => !r.1,
            },
            scores@[r.0 as int] < old(self).patience.best ==> final(self).patience.since_best == 0
                && final(self).patience.best_step == old(self).steps,
            scores@[r.0 as int] >= old(self).patience.best ==> final(self).patience.since_best
                == old(self).patience.since_best + 1,
            final(self).selected@ == old(self).selected@.push(old(self).remaining@[r.0 as int]),
            final(self).remaining@ == old(self).remaining@.remove(r.0 as int),
            final(self).patience == noted(
                old(self).patience,
                scores@[r.0 as int],
                old(self).steps as usize,
            ),
            r.1 == is_over(final(self).patience, limit),
            final(self).steps == old(self).steps + 1,
            final(self).m == old(self).m,
            final(self).target == old(self).target,
    {
        let k: usize = first_min(scores);
        let ghost sel = self.selected@;
        let ghost rem = self.remaining@;
        proof {
            assert(rem.contains(rem[k as int]));
        }
        let c: usize = self.remaining.remove(k);
        self.selected.push(c);
        let stop: bool = self.patience.note(scores[k], self.steps as usize, limit);
        self.steps += 1;
        proof {
            let s2 = self.selected@;
            let r2 = self.remaining@;
            assert(r2 == rem.remove(k as int));
            assert forall|x: usize| #[trigger]
                r2.contains(x) <==> x < self.m && !s2.contains(x) by {
                assert(rem.contains(x) <==> x < self.m && !sel.contains(x));
                if r2.contains(x) {
                    let i = r2.index_of(x);
                    let j = if i < k {
                        i
                    } else {
                        i + 1
                    };
                    assert(rem[j] == x);
                    assert(rem.contains(x));
                    assert(x != c);
                    if s2.contains(x) {
                        let y = s2.index_of(x);
                        assert(y < sel.len());
                        assert(sel[y] == x);
                        assert(sel.contains(x));
                    }
                }
                if x < self.m && !s2.contains(x) {
                    if sel.contains(x) {
                        let y = sel.index_of(x);
                        assert(s2[y] == x);
                    }
                    assert(s2[sel.len() as int] == c);
                    assert(rem.contains(x));
                    let j = rem.index_of(x);
                    assert(j != k);
                    if j < k {
                        assert(r2[j] == x);
                    } else {
                        assert(r2[j - 1] == x);
                    }
                }
            }
            assert forall|i: int| 0 <= i < s2.len() implies #[trigger] s2[i] < self.m by {
                if i < sel.len() {
                    assert(s2[i] == sel[i]);
                } else {
                    assert(rem.contains(c));
                }
            }
        }
        (k, stop)
    }
}

/// A step keeps what was selected, in its order, and adds a column that was not: a selection
/// without doubles stays without doubles.
pub proof fn lemma_step_grows(before: Forward, after: Forward, k: int)
    requires
        before.wf(),
        0 <= k < before.remaining.len(),
        after.selected@ == before.selected@.push(before.remaining@[k]),
        before.selected@.no_duplicates(),
    ensures
        after.selected@.no_duplicates(),
        after.selected@.len() == before.selected@.len() + 1,
        before.selected@.is_prefix_of(after.selected@),
{
    let c = before.remaining@[k];
    assert(before.remaining@.contains(c));
    assert(!before.selected@.contains(c));
}

// ---------------------------------------------------------------------------
// Selection of interactions
// ---------------------------------------------------------------------------

/// A selection of interactions among `nu` columns, of which the first `n_models` are models and the
/// last is the constant.
pub struct Interactions {
    pub nu: usize,
    pub n_models: usize,
    /// For each pair, whether it is selected.
    pub in_sel: Vec<bool>,
    pub selected: Vec<usize>,
    /// For each column, whether it is chosen as a model, or as a feature.
    pub m_sel: Vec<bool>,
    pub f_sel: Vec<bool>,
}

/// A column taken as a model or as a feature, with the interactions that it brings.
pub struct ColumnStep {
    pub column: usize,
    pub as_model: bool,
    pub block: Vec<usize>,
}

/// The place of the constant's interaction with itself.
pub open spec fn bias_at(nu: int) -> int {
    pair_at(nu - 1, nu - 1)
}

/// The models whose plain terms are not selected, as those terms.
pub open spec fn plain_terms(in_sel: Seq<bool>, nu: int, n: int) -> Seq<usize>
    decreases n,
{
    if n <= 0 {
        Seq::empty()
    } else if in_sel[pair_at(n - 1, nu - 1)] {
        plain_terms(in_sel, nu, n - 1)
    } else {
        plain_terms(in_sel, nu, n - 1).push(pair_at(n - 1, nu - 1) as usize)
    }
}

/// The pairs below `n` that are not selected.
pub open spec fn free_pairs(in_sel: Seq<bool>, n: int) -> Seq<usize>
    decreases n,
{
    if n <= 0 {
        Seq::empty()
    } else if in_sel[n - 1] {
        free_pairs(in_sel, n - 1)
    } else {
        free_pairs(in_sel, n - 1).push((n - 1) as usize)
    }
}

/// The interactions of a column with the chosen columns below `n` that are not selected yet.
pub open spec fn fresh_block(in_sel: Seq<bool>, chosen: Seq<bool>, c: int, n: int) -> Seq<usize>
    decreases n,
{
    if n <= 0 {
        Seq::empty()
    } else if chosen[n - 1] && !in_sel[pair_at(c, n - 1)] {
        fresh_block(in_sel, chosen, c, n - 1).push(pair_at(c, n - 1) as usize)
    } else {
        fresh_block(in_sel, chosen, c, n - 1)
    }
}

/// A column's step, as what it is.
pub open spec fn step_view(s: ColumnStep) -> (usize, bool, Seq<usize>) {
    (s.column, s.as_model, s.block@)
}

pub open spec fn step_views(s: Seq<ColumnStep>) -> Seq<(usize, bool, Seq<usize>)> {
    s.map_values(|x: ColumnStep| step_view(x))
}

/// The steps that a column still offers: as a model, then as a feature, where it brings anything.
pub open spec fn offers(s: Interactions, c: int) -> Seq<(usize, bool, Seq<usize>)> {
    let model = fresh_block(s.in_sel@, s.f_sel@, c, s.nu as int);
    let feature = fresh_block(s.in_sel@, s.m_sel@, c, s.nu as int);
    let first = if !s.m_sel@[c] && model.len() > 0 {
        seq![(c as usize, true, model)]
    } else {
        Seq::empty()
    };
    if !s.f_sel@[c] && feature.len() > 0 {
        first.push((c as usize, false, feature))
    } else {
        first
    }
}

/// The steps that the columns below `n` still offer.
pub open spec fn all_offers(s: Interactions, n: int) -> Seq<(usize, bool, Seq<usize>)>
    decreases n,
{
    if n <= 0 {
        Seq::empty()
    } else {
        all_offers(s, n - 1) + offers(s, n - 1)
    }
}

proof fn lemma_pair_in_range(nu: int, i: int, j: int)
    requires
        0 <= i < nu,
        0 <= j < nu,
    ensures
        0 <= pair_at(i, j) < triangle(nu),
        i * (i + 1) + j <= nu * (nu + 1),
        j * (j + 1) + i <= nu * (nu + 1),
{
    if i <= j {
        lemma_pairs(nu, i, j, i, j);
    } else {
        lemma_pairs(nu, j, i, j, i);
    }
    assert(i * (i + 1) + j <= nu * (nu + 1)) by (nonlinear_arith)
        requires
            0 <= i < nu,
            0 <= j < nu,
    ;
    assert(j * (j + 1) + i <= nu * (nu + 1)) by (nonlinear_arith)
        requires
            0 <= i < nu,
            0 <= j < nu,
    ;
}

/// Whether a place is that of a column and one of the chosen columns below `n`.
pub open spec fn pairs_with(chosen: Seq<bool>, c: int, n: int, x: int) -> bool {
    exists|f: int| 0 <= f < n && chosen[f] && #[trigger] pair_at(c, f) == x
}

/// What a block brings are pairs that are not selected, none of them twice.
pub proof fn lemma_fresh_block(in_sel: Seq<bool>, chosen: Seq<bool>, c: int, nu: int, n: int)
    requires
        0 <= c < nu,
        0 <= n <= nu,
        in_sel.len() == triangle(nu),
        triangle(nu) <= usize::MAX,
    ensures
        forall|i: int|
            0 <= i < fresh_block(in_sel, chosen, c, n).len() ==> (#[trigger] fresh_block(
                in_sel,
                chosen,
                c,
                n,
            )[i]) < in_sel.len() && !in_sel[fresh_block(in_sel, chosen, c, n)[i] as int],
        forall|i: int|
            0 <= i < fresh_block(in_sel, chosen, c, n).len() ==> pairs_with(
                chosen,
                c,
                n,
                #[trigger] fresh_block(in_sel, chosen, c, n)[i] as int,
            ),
        fresh_block(in_sel, chosen, c, n).no_duplicates(),
        forall|f: int|
            0 <= f < n && chosen[f] && !in_sel[pair_at(c, f)] ==> fresh_block(
                in_sel,
                chosen,
                c,
                n,
            ).contains(#[trigger] pair_at(c, f) as usize),
    decreases n,
{
    if n > 0 {
        lemma_fresh_block(in_sel, chosen, c, nu, n - 1);
        lemma_pair_in_range(nu, c, n - 1);
        let a = fresh_block(in_sel, chosen, c, n - 1);
        let b = fresh_block(in_sel, chosen, c, n);
        let x = pair_at(c, n - 1) as usize;
        let grown = chosen[n - 1] && !in_sel[pair_at(c, n - 1)];
        if grown {
            assert(b == a.push(x));
            if a.contains(x) {
                let i = a.index_of(x);
                assert(pairs_with(chosen, c, n - 1, a[i] as int));
                let f = choose|f: int|
                    0 <= f < n - 1 && chosen[f] && #[trigger] pair_at(c, f) == a[i];
                lemma_pair_differs(nu, c, f, n - 1);
            }
        } else {
            assert(b == a);
        }
        assert forall|i: int| 0 <= i < b.len() implies (#[trigger] b[i]) < in_sel.len()
            && !in_sel[b[i] as int] by {
            if i < a.len() {
                assert(b[i] == a[i]);
            }
        }
        assert forall|i: int| 0 <= i < b.len() implies pairs_with(
            chosen,
            c,
            n,
            #[trigger] b[i] as int,
        ) by {
            if i < a.len() {
                assert(b[i] == a[i]);
                assert(pairs_with(chosen, c, n - 1, a[i] as int));
                let f = choose|f: int|
                    0 <= f < n - 1 && chosen[f] && #[trigger] pair_at(c, f) == a[i];
                assert(0 <= f < n && chosen[f] && pair_at(c, f) == b[i]);
            } else {
                assert(pair_at(c, n - 1) == b[i]);
            }
        }
        assert forall|f: int| 0 <= f < n && chosen[f] && !in_sel[pair_at(c, f)] implies b.contains(
            #[trigger] pair_at(c, f) as usize,
        ) by {
            if f < n - 1 {
                let y = pair_at(c, f) as usize;
                assert(a.contains(y));
                let i = a.index_of(y);
                assert(b[i] == y);
            } else {
                assert(b[a.len() as int] == x);
            }
        }
    }
}

proof fn lemma_pair_differs(nu: int, c: int, f: int, g: int)
    requires
        0 <= c < nu,
        0 <= f < nu,
        0 <= g < nu,
        f != g,
    ensures
        pair_at(c, f) != pair_at(c, g),
{
    let (a, b) = if c <= f {
        (c, f)
    } else {
        (f, c)
    };
    let (d, e) = if c <= g {
        (c, g)
    } else {
        (g, c)
    };
    lemma_pairs(nu, a, b, d, e);
}

impl Interactions {
    /// The marks are those of what is selected, nothing is selected twice, and the constant's
    /// interaction with itself is selected first.
    pub open spec fn wf(self) -> bool {
        &&& 0 < self.nu
        &&& self.n_models < self.nu
        &&& self.nu * (self.nu + 1) <= usize::MAX
        &&& self.in_sel.len() == triangle(self.nu as int)
        &&& self.m_sel.len() == self.nu
        &&& self.f_sel.len() == self.nu
        &&& self.selected.len() > 0
        &&& self.selected@[0] == bias_at(self.nu as int)
        &&& self.selected@.no_duplicates()
        &&& forall|i: int|
            0 <= i < self.selected.len() ==> #[trigger] self.selected@[i] < self.in_sel.len()
        &&& forall|c: int|
            0 <= c < self.in_sel.len() ==> (#[trigger] self.in_sel@[c]) == self.selected@.contains(
                c as usize,
            )
    }

    /// Whether the selected interactions are, the constant's with itself aside, those of the
    /// columns chosen as models with the columns chosen as features.
    pub open spec fn is_product(self) -> bool {
        &&& forall|m: int, f: int|
            0 <= m < self.nu && 0 <= f < self.nu && #[trigger] self.m_sel@[m]
                && #[trigger] self.f_sel@[f] ==> self.in_sel@[pair_at(m, f)]
        &&& forall|i: int|
            1 <= i < self.selected.len() ==> self.is_chosen_pair(#[trigger] self.selected@[i] as int)
    }

    /// Whether a place is that of a chosen model and a chosen feature.
    pub open spec fn is_chosen_pair(self, c: int) -> bool {
        exists|m: int, f: int|
            0 <= m < self.nu && 0 <= f < self.nu && self.m_sel@[m] && self.f_sel@[f]
                && #[trigger] pair_at(m, f) == c
    }

    /// Starts with the constant's interaction with itself, and the constant as the only feature.
    pub fn new(nu: usize, n_models: usize) -> (r: Interactions)
        requires
            0 < nu,
            n_models < nu,
            nu * (nu + 1) <= usize::MAX,
        ensures
            r.wf(),
            r.is_product(),
            r.nu == nu,
            r.n_models == n_models,
            r.selected@ == seq![bias_at(nu as int) as usize],
            forall|c: int| 0 <= c < nu ==> !#[trigger] r.m_sel@[c],
            forall|c: int| 0 <= c < nu ==> #[trigger] r.f_sel@[c] == (c == nu - 1),
    {
        proof {
            lemma_pair_in_range(nu as int, nu - 1, nu - 1);
            lemma_triangle_step(nu as int);
        }
        let bias: usize = colindex(nu - 1, nu - 1);
        let dpair: usize = pair_count(nu);
        let mut in_sel: Vec<bool> = Vec::new();
        let mut i: usize = 0;
        while i < dpair
            invariant
                i <= dpair,
                in_sel.len() == i,
                forall|c: int| 0 <= c < i ==> #[trigger] in_sel@[c] == (c == bias),
            decreases dpair - i,
        {
            in_sel.push(i == bias);
            i += 1;
        }
        let mut m_sel: Vec<bool> = Vec::new();
        let mut f_sel: Vec<bool> = Vec::new();
        let mut j: usize = 0;
        while j < nu
            invariant
                j <= nu,
                m_sel.len() == j,
                f_sel.len() == j,
                forall|c: int| 0 <= c < j ==> !#[trigger] m_sel@[c],
                forall|c: int| 0 <= c < j ==> #[trigger] f_sel@[c] == (c == nu - 1),
            decreases nu - j,
        {
            m_sel.push(false);
            f_sel.push(j == nu - 1);
            j += 1;
        }
        let mut selected: Vec<usize> = Vec::new();
        selected.push(bias);
        proof {
            assert(selected@ =~= seq![bias]);
            assert forall|c: int| 0 <= c < in_sel.len() implies (#[trigger] in_sel@[c])
                == selected@.contains(c as usize) by {
                assert(selected@[0] == bias);
            }
        }
        Interactions { nu, n_models, in_sel, selected, m_sel, f_sel }
    }

    /// The plain terms of the models that are not selected.
    pub fn forced_candidates(&self) -> (r: Vec<usize>)
        requires
            self.wf(),
        ensures
            r@ == plain_terms(self.in_sel@, self.nu as int, self.n_models as int),
            forall|i: int|
                0 <= i < r.len() ==> !self.selected@.contains(#[trigger] r@[i]) && is_plain_term(
                    r@[i] as int,
                    self.nu as int,
                    self.n_models as int,
                ),
            forall|m: int|
                0 <= m < self.n_models && !self.selected@.contains(
                    (#[trigger] pair_at(m, self.nu - 1)) as usize,
                ) ==> r@.contains(pair_at(m, self.nu - 1) as usize),
    {
        proof {
            lemma_plain_terms(*self, self.n_models as int);
        }
        let mut out: Vec<usize> = Vec::new();
        let mut m: usize = 0;
        while m < self.n_models
            invariant
                m <= self.n_models,
                self.wf(),
                out@ == plain_terms(self.in_sel@, self.nu as int, m as int),
            decreases self.n_models - m,
        {
            proof {
                lemma_pair_in_range(self.nu as int, m as int, self.nu - 1);
            }
            let c: usize = colindex(m, self.nu - 1);
            if !self.in_sel[c] {
                out.push(c);
            }
            m += 1;
        }
        out
    }

    /// The pairs that are not selected.
    pub fn free_candidates(&self) -> (r: Vec<usize>)
        requires
            self.wf(),
        ensures
            r@ == free_pairs(self.in_sel@, self.in_sel.len() as int),
            forall|c: usize| #[trigger]
                r@.contains(c) <==> c < self.in_sel.len() && !self.selected@.contains(c),
            forall|i: int, j: int| 0 <= i < j < r.len() ==> #[trigger] r@[i] < #[trigger] r@[j],
    {
        proof {
            lemma_free_pairs(*self, self.in_sel.len() as int);
        }
        let mut out: Vec<usize> = Vec::new();
        let mut c: usize = 0;
        while c < self.in_sel.len()
            invariant
                c <= self.in_sel.len(),
                out@ == free_pairs(self.in_sel@, c as int),
            decreases self.in_sel.len() - c,
        {
            if !self.in_sel[c] {
                out.push(c);
            }
            c += 1;
        }
        out
    }

    fn block_of(&self, chosen: &Vec<bool>, c: usize) -> (r: Vec<usize>)
        requires
            self.wf(),
            chosen.len() == self.nu,
            c < self.nu,
        ensures
            r@ == fresh_block(self.in_sel@, chosen@, c as int, self.nu as int),
    {
        let mut out: Vec<usize> = Vec::new();
        let mut f: usize = 0;
        while f < self.nu
            invariant
                f <= self.nu,
                self.wf(),
                chosen.len() == self.nu,
                c < self.nu,
                out@ == fresh_block(self.in_sel@, chosen@, c as int, f as int),
            decreases self.nu - f,
        {
            proof {
                lemma_pair_in_range(self.nu as int, c as int, f as int);
            }
            let x: usize = colindex(c, f);
            if chosen[f] && !self.in_sel[x] {
                out.push(x);
            }
            f += 1;
        }
        out
    }

    /// The steps that the columns still offer: each as a model, then as a feature, where it brings
    /// any interaction.
    pub fn column_candidates(&self) -> (r: Vec<ColumnStep>)
        requires
            self.wf(),
        ensures
            step_views(r@) == all_offers(*self, self.nu as int),
            forall|i: int| 0 <= i < r.len() ==> is_offer(*self, #[trigger] r@[i]),
            forall|c: int, f: int|
                0 <= c < self.nu && 0 <= f < self.nu && !#[trigger] self.m_sel@[c]
                    && #[trigger] self.f_sel@[f] && !self.in_sel@[pair_at(c, f)] ==> is_offered(
                    r@,
                    c,
                    true,
                ),
            forall|c: int, m: int|
                0 <= c < self.nu && 0 <= m < self.nu && !#[trigger] self.f_sel@[c]
                    && #[trigger] self.m_sel@[m] && !self.in_sel@[pair_at(c, m)] ==> is_offered(
                    r@,
                    c,
                    false,
                ),
    {
        let mut out: Vec<ColumnStep> = Vec::new();
        let mut c: usize = 0;
        proof {
            assert(step_views(out@) =~= Seq::<(usize, bool, Seq<usize>)>::empty());
        }
        while c < self.nu
            invariant
                c <= self.nu,
                self.wf(),
                step_views(out@) == all_offers(*self, c as int),
            decreases self.nu - c,
        {
            let ghost start = step_views(out@);
            let ghost before = out@;
            let model: Vec<usize> = self.block_of(&self.f_sel, c);
            let feature: Vec<usize> = self.block_of(&self.m_sel, c);
            if !self.m_sel[c] && model.len() > 0 {
                let s: ColumnStep = ColumnStep { column: c, as_model: true, block: model };
                out.push(s);
                proof {
                    assert(step_views(out@) =~= start.push(step_view(s)));
                }
            }
            let ghost middle = out@;
            if !self.f_sel[c] && feature.len() > 0 {
                let s: ColumnStep = ColumnStep { column: c, as_model: false, block: feature };
                out.push(s);
                proof {
                    assert(step_views(out@) =~= step_views(middle).push(step_view(s)));
                }
            }
            proof {
                assert(step_views(out@) =~= start + offers(*self, c as int));
            }
            c += 1;
        }
        proof {
            lemma_all_offers(*self, self.nu as int);
            let v = all_offers(*self, self.nu as int);
            assert forall|i: int| 0 <= i < out.len() implies is_offer(*self, #[trigger] out@[i]) by {
                assert(v[i] == step_view(out@[i]));
                assert(offer_holds(*self, v[i]));
            }
            assert forall|c: int, f: int|
                0 <= c < self.nu && 0 <= f < self.nu && !#[trigger] self.m_sel@[c]
                    && #[trigger] self.f_sel@[f] && !self.in_sel@[pair_at(c, f)] implies is_offered(
                out@,
                c,
                true,
            ) by {
                assert(among_offers(v, c, true));
                let i = choose|i: int|
                    0 <= i < v.len() && (#[trigger] v[i]).0 == c && v[i].1 == true;
                assert(v[i] == step_view(out@[i]));
                assert(out@[i].column == c && out@[i].as_model == true);
            }
            assert forall|c: int, m: int|
                0 <= c < self.nu && 0 <= m < self.nu && !#[trigger] self.f_sel@[c]
                    && #[trigger] self.m_sel@[m] && !self.in_sel@[pair_at(c, m)] implies is_offered(
                out@,
                c,
                false,
            ) by {
                assert(among_offers(v, c, false));
                let i = choose|i: int|
                    0 <= i < v.len() && (#[trigger] v[i]).0 == c && v[i].1 == false;
                assert(v[i] == step_view(out@[i]));
                assert(out@[i].column == c && out@[i].as_model == false);
            }
        }
        out
    }

    /// Selects one interaction.
    pub fn take(&mut self, c: usize)
        requires
            old(self).wf(),
            c < old(self).in_sel.len(),
            !old(self).in_sel@[c as int],
        ensures
            final(self).wf(),
            final(self).nu == old(self).nu,
            final(self).n_models == old(self).n_models,
            final(self).selected@ == old(self).selected@.push(c),
            final(self).in_sel@ == old(self).in_sel@.update(c as int, true),
            final(self).m_sel@ == old(self).m_sel@,
            final(self).f_sel@ == old(self).f_sel@,
    {
        let ghost sel = self.selected@;
        self.in_sel.set(c, true);
        self.selected.push(c);
        proof {
            let s2 = self.selected@;
            assert(!sel.contains(c)) by {
                assert(old(self).in_sel@[c as int] == sel.contains(c));
            }
            assert forall|x: int| 0 <= x < self.in_sel.len() implies (#[trigger] self.in_sel@[x])
                == s2.contains(x as usize) by {
                assert(s2[sel.len() as int] == c);
                assert(old(self).in_sel@[x] == sel.contains(x as usize));
                if sel.contains(x as usize) {
                    let i = sel.index_of(x as usize);
                    assert(s2[i] == x as usize);
                }
                if s2.contains(x as usize) {
                    let i = s2.index_of(x as usize);
                    if i < sel.len() {
                        assert(sel[i] == x as usize);
                    }
                }
            }
        }
    }

    /// Selects the plain term of a model, and chooses the model.
    pub fn take_forced(&mut self, m: usize)
        requires
            old(self).wf(),
            old(self).is_product(),
            m < old(self).n_models,
            forall|f: int|
                0 <= f < old(self).nu ==> #[trigger] old(self).f_sel@[f] == (f == old(self).nu - 1),
            !old(self).in_sel@[pair_at(m as int, old(self).nu - 1)],
        ensures
            final(self).wf(),
            final(self).is_product(),
            final(self).nu == old(self).nu,
            final(self).n_models == old(self).n_models,
            final(self).selected@ == old(self).selected@.push(
                pair_at(m as int, old(self).nu - 1) as usize,
            ),
            final(self).m_sel@ == old(self).m_sel@.update(m as int, true),
            final(self).f_sel@ == old(self).f_sel@,
    {
        proof {
            lemma_pair_in_range(self.nu as int, m as int, self.nu - 1);
        }
        let c: usize = colindex(m, self.nu - 1);
        self.take(c);
        self.m_sel.set(m, true);
        proof {
            let o = *old(self);
            assert forall|a: int, f: int|
                0 <= a < self.nu && 0 <= f < self.nu && #[trigger] self.m_sel@[a]
                    && #[trigger] self.f_sel@[f] implies self.in_sel@[pair_at(a, f)] by {
                lemma_pair_in_range(self.nu as int, a, f);
                if a != m {
                    assert(o.m_sel@[a] && o.f_sel@[f]);
                    assert(o.in_sel@[pair_at(a, f)]);
                } else {
                    assert(o.f_sel@[f]);
                    assert(f == self.nu - 1);
                }
            }
            assert forall|i: int| 1 <= i < self.selected.len() implies self.is_chosen_pair(
                #[trigger] self.selected@[i] as int,
            ) by {
                if i < o.selected.len() {
                    assert(o.is_chosen_pair(o.selected@[i] as int));
                    let (a, f) = choose|a: int, f: int|
                        0 <= a < o.nu && 0 <= f < o.nu && o.m_sel@[a] && o.f_sel@[f]
                            && #[trigger] pair_at(a, f) == o.selected@[i];
                    assert(self.m_sel@[a] && self.f_sel@[f] && pair_at(a, f) == self.selected@[i]);
                } else {
                    assert(o.f_sel@[self.nu - 1]);
                    assert(self.m_sel@[m as int] && self.f_sel@[self.nu - 1] && pair_at(
                        m as int,
                        self.nu - 1,
                    ) == self.selected@[i]);
                }
            }
        }
    }

    /// Chooses a column as a model or as a feature, and selects what it brings.
    pub fn take_column(&mut self, step: &ColumnStep)
        requires
            old(self).wf(),
            step.column < old(self).nu,
            step.block@ == fresh_block(
                old(self).in_sel@,
                if step.as_model {
                    old(self).f_sel@
                } else {
                    old(self).m_sel@
                },
                step.column as int,
                old(self).nu as int,
            ),
        ensures
            final(self).wf(),
            old(self).is_product() ==> final(self).is_product(),
            final(self).nu == old(self).nu,
            final(self).n_models == old(self).n_models,
            final(self).selected@ == old(self).selected@ + step.block@,
            final(self).m_sel@ == (if step.as_model {
                old(self).m_sel@.update(step.column as int, true)
            } else {
                old(self).m_sel@
            }),
            final(self).f_sel@ == (if step.as_model {
                old(self).f_sel@
            } else {
                old(self).f_sel@.update(step.column as int, true)
            }),
    {
        let ghost o = *self;
        let ghost b = step.block@;
        let ghost chosen = if step.as_model {
            self.f_sel@
        } else {
            self.m_sel@
        };
        proof {
            lemma_triangle_step(self.nu as int);
            lemma_fresh_block(
                self.in_sel@,
                chosen,
                step.column as int,
                self.nu as int,
                self.nu as int,
            );
            assert(o.selected@ + b.take(0) =~= o.selected@);
        }
        let mut i: usize = 0;
        while i < step.block.len()
            invariant
                i <= step.block.len(),
                b == step.block@,
                b.no_duplicates(),
                o.wf(),
                self.wf(),
                self.nu == o.nu,
                self.n_models == o.n_models,
                self.m_sel@ == o.m_sel@,
                self.f_sel@ == o.f_sel@,
                self.in_sel.len() == o.in_sel.len(),
                self.selected@ == o.selected@ + b.take(i as int),
                forall|k: int|
                    0 <= k < b.len() ==> (#[trigger] b[k]) < o.in_sel.len()
                        && !o.in_sel@[b[k] as int],
            decreases step.block.len() - i,
        {
            let c: usize = step.block[i];
            proof {
                assert(b[i as int] == c);
                assert(!self.selected@.contains(c)) by {
                    if self.selected@.contains(c) {
                        let k = self.selected@.index_of(c);
                        if k < o.selected.len() {
                            assert(o.selected@[k] == c);
                            assert(o.in_sel@[c as int] == o.selected@.contains(c));
                        } else {
                            assert(b.take(i as int)[k - o.selected.len()] == c);
                            assert(b[k - o.selected.len()] == b[i as int]);
                        }
                    }
                }
                assert(self.in_sel@[c as int] == self.selected@.contains(c));
            }
            self.take(c);
            proof {
                assert(self.selected@ =~= o.selected@ + b.take(i + 1));
            }
            i += 1;
        }
        proof {
            assert(b.take(b.len() as int) =~= b);
        }
        if step.as_model {
            self.m_sel.set(step.column, true);
        } else {
            self.f_sel.set(step.column, true);
        }
        proof {
            if o.is_product() {
                self.lemma_stays_product(o, *step, chosen);
            }
        }
    }

    proof fn lemma_stays_product(self, o: Interactions, step: ColumnStep, chosen: Seq<bool>)
        requires
            o.wf(),
            self.wf(),
            o.is_product(),
            self.nu == o.nu,
            step.column < o.nu,
            chosen == (if step.as_model {
                o.f_sel@
            } else {
                o.m_sel@
            }),
            step.block@ == fresh_block(o.in_sel@, chosen, step.column as int, o.nu as int),
            self.selected@ == o.selected@ + step.block@,
            self.m_sel@ == (if step.as_model {
                o.m_sel@.update(step.column as int, true)
            } else {
                o.m_sel@
            }),
            self.f_sel@ == (if step.as_model {
                o.f_sel@
            } else {
                o.f_sel@.update(step.column as int, true)
            }),
        ensures
            self.is_product(),
    {
        let c = step.column as int;
        let b = step.block@;
        let nu = o.nu as int;
        lemma_triangle_step(nu);
        lemma_fresh_block(o.in_sel@, chosen, c, nu, nu);
        assert forall|m: int, f: int|
            0 <= m < self.nu && 0 <= f < self.nu && #[trigger] self.m_sel@[m]
                && #[trigger] self.f_sel@[f] implies self.in_sel@[pair_at(m, f)] by {
            lemma_pair_in_range(nu, m, f);
            let x = pair_at(m, f) as usize;
            if o.m_sel@[m] && o.f_sel@[f] {
                assert(o.in_sel@[x as int]);
                assert(o.selected@.contains(x));
                let k = o.selected@.index_of(x);
                assert(self.selected@[k] == x);
            } else {
                let g = if step.as_model {
                    f
                } else {
                    m
                };
                assert(chosen[g]);
                assert(pair_at(c, g) == x);
                if o.in_sel@[pair_at(c, g)] {
                    assert(o.selected@.contains(x));
                    let k = o.selected@.index_of(x);
                    assert(self.selected@[k] == x);
                } else {
                    assert(b.contains(pair_at(c, g) as usize));
                    let k = b.index_of(x);
                    assert(self.selected@[o.selected.len() + k] == x);
                }
            }
            assert(self.selected@.contains(x));
            assert(self.in_sel@[x as int] == self.selected@.contains(x));
        }
        assert forall|i: int| 1 <= i < self.selected.len() implies self.is_chosen_pair(
            #[trigger] self.selected@[i] as int,
        ) by {
            if i < o.selected.len() {
                assert(o.is_chosen_pair(o.selected@[i] as int));
                let (a, f) = choose|a: int, f: int|
                    0 <= a < o.nu && 0 <= f < o.nu && o.m_sel@[a] && o.f_sel@[f]
                        && #[trigger] pair_at(a, f) == o.selected@[i];
                assert(self.m_sel@[a] && self.f_sel@[f] && pair_at(a, f) == self.selected@[i]);
            } else {
                let k = i - o.selected.len();
                assert(self.selected@[i] == b[k]);
                assert(pairs_with(chosen, c, nu, b[k] as int));
                let g = choose|g: int|
                    0 <= g < nu && chosen[g] && #[trigger] pair_at(c, g) == b[k];
                if step.as_model {
                    assert(self.m_sel@[c] && self.f_sel@[g] && pair_at(c, g)
                        == self.selected@[i]);
                } else {
                    assert(self.m_sel@[g] && self.f_sel@[c] && pair_at(g, c)
                        == self.selected@[i]);
                }
            }
        }
    }
}

/// Whether a place is that of a model's interaction with the constant.
pub open spec fn is_plain_term(c: int, nu: int, n_models: int) -> bool {
    exists|m: int| 0 <= m < n_models && #[trigger] pair_at(m, nu - 1) == c
}

/// What a step offers: a column that is not yet chosen in the role, and all its pairs with the
/// columns chosen in the other role that are not yet selected, of which there is at least one.
pub open spec fn is_offer(s: Interactions, step: ColumnStep) -> bool {
    let other = if step.as_model {
        s.f_sel@
    } else {
        s.m_sel@
    };
    &&& step.column < s.nu
    &&& step.as_model ==> !s.m_sel@[step.column as int]
    &&& !step.as_model ==> !s.f_sel@[step.column as int]
    &&& step.block.len() > 0
    &&& step.block@.no_duplicates()
    &&& forall|x: usize| #[trigger]
        step.block@.contains(x) <==> !s.selected@.contains(x) && pairs_with(
            other,
            step.column as int,
            s.nu as int,
            x as int,
        )
}

/// Whether a column is offered in a role.
pub open spec fn is_offered(steps: Seq<ColumnStep>, c: int, as_model: bool) -> bool {
    exists|i: int|
        0 <= i < steps.len() && (#[trigger] steps[i]).column == c && steps[i].as_model == as_model
}

spec fn offer_holds(s: Interactions, v: (usize, bool, Seq<usize>)) -> bool {
    let other = if v.1 {
        s.f_sel@
    } else {
        s.m_sel@
    };
    &&& v.0 < s.nu
    &&& v.1 ==> !s.m_sel@[v.0 as int]
    &&& !v.1 ==> !s.f_sel@[v.0 as int]
    &&& v.2.len() > 0
    &&& v.2.no_duplicates()
    &&& forall|x: usize| #[trigger]
        v.2.contains(x) <==> !s.selected@.contains(x) && pairs_with(
            other,
            v.0 as int,
            s.nu as int,
            x as int,
        )
}

spec fn among_offers(v: Seq<(usize, bool, Seq<usize>)>, c: int, as_model: bool) -> bool {
    exists|i: int| 0 <= i < v.len() && (#[trigger] v[i]).0 == c && v[i].1 == as_model
}

proof fn lemma_block_exact(s: Interactions, chosen: Seq<bool>, c: int)
    requires
        s.wf(),
        0 <= c < s.nu,
    ensures
        fresh_block(s.in_sel@, chosen, c, s.nu as int).no_duplicates(),
        forall|x: usize| #[trigger]
            fresh_block(s.in_sel@, chosen, c, s.nu as int).contains(x) <==> !s.selected@.contains(x)
                && pairs_with(chosen, c, s.nu as int, x as int),
{
    let nu = s.nu as int;
    let b = fresh_block(s.in_sel@, chosen, c, nu);
    lemma_triangle_step(nu);
    lemma_fresh_block(s.in_sel@, chosen, c, nu, nu);
    assert forall|x: usize| #[trigger] b.contains(x) <==> !s.selected@.contains(x) && pairs_with(
        chosen,
        c,
        nu,
        x as int,
    ) by {
        if b.contains(x) {
            let i = b.index_of(x);
            assert(b[i] == x);
            assert(s.in_sel@[x as int] == s.selected@.contains(x));
        }
        if !s.selected@.contains(x) && pairs_with(chosen, c, nu, x as int) {
            let f = choose|f: int| 0 <= f < nu && chosen[f] && #[trigger] pair_at(c, f) == x;
            lemma_pair_in_range(nu, c, f);
            assert(s.in_sel@[x as int] == s.selected@.contains(x));
            assert(b.contains(pair_at(c, f) as usize));
        }
    }
}

proof fn lemma_all_offers(s: Interactions, n: int)
    requires
        s.wf(),
        0 <= n <= s.nu,
    ensures
        forall|i: int| 0 <= i < all_offers(s, n).len() ==> offer_holds(s, #[trigger] all_offers(s, n)[i]),
        forall|c: int, f: int|
            0 <= c < n && 0 <= f < s.nu && !#[trigger] s.m_sel@[c] && #[trigger] s.f_sel@[f]
                && !s.in_sel@[pair_at(c, f)] ==> among_offers(all_offers(s, n), c, true),
        forall|c: int, m: int|
            0 <= c < n && 0 <= m < s.nu && !#[trigger] s.f_sel@[c] && #[trigger] s.m_sel@[m]
                && !s.in_sel@[pair_at(c, m)] ==> among_offers(all_offers(s, n), c, false),
    decreases n,
{
    if n > 0 {
        lemma_all_offers(s, n - 1);
        let k = n - 1;
        let a = all_offers(s, k);
        let o = offers(s, k);
        let b = all_offers(s, n);
        let model = fresh_block(s.in_sel@, s.f_sel@, k, s.nu as int);
        let feature = fresh_block(s.in_sel@, s.m_sel@, k, s.nu as int);
        lemma_block_exact(s, s.f_sel@, k);
        lemma_block_exact(s, s.m_sel@, k);
        assert forall|i: int| 0 <= i < b.len() implies offer_holds(s, #[trigger] b[i]) by {
            if i < a.len() {
                assert(b[i] == a[i]);
            } else {
                assert(b[i] == o[i - a.len()]);
                assert(o[i - a.len()] == (k as usize, true, model) || o[i - a.len()] == (
                    k as usize,
                    false,
                    feature,
                ));
            }
        }
        assert forall|c: int, f: int|
            0 <= c < n && 0 <= f < s.nu && !#[trigger] s.m_sel@[c] && #[trigger] s.f_sel@[f]
                && !s.in_sel@[pair_at(c, f)] implies among_offers(b, c, true) by {
            if c < k {
                assert(among_offers(a, c, true));
                let i = choose|i: int| 0 <= i < a.len() && (#[trigger] a[i]).0 == c && a[i].1 == true;
                assert(b[i] == a[i]);
            } else {
                lemma_offered(s, s.f_sel@, k, f);
                assert(o[0] == (k as usize, true, model));
                assert(b[a.len() as int] == o[0]);
            }
        }
        assert forall|c: int, m: int|
            0 <= c < n && 0 <= m < s.nu && !#[trigger] s.f_sel@[c] && #[trigger] s.m_sel@[m]
                && !s.in_sel@[pair_at(c, m)] implies among_offers(b, c, false) by {
            if c < k {
                assert(among_offers(a, c, false));
                let i = choose|i: int|
                    0 <= i < a.len() && (#[trigger] a[i]).0 == c && a[i].1 == false;
                assert(b[i] == a[i]);
            } else {
                lemma_offered(s, s.m_sel@, k, m);
                let j = o.len() - 1;
                assert(o[j] == (k as usize, false, feature));
                assert(b[a.len() + j] == o[j]);
            }
        }
    }
}

proof fn lemma_offered(s: Interactions, chosen: Seq<bool>, c: int, f: int)
    requires
        s.wf(),
        0 <= c < s.nu,
        0 <= f < s.nu,
        chosen[f],
        !s.in_sel@[pair_at(c, f)],
    ensures
        fresh_block(s.in_sel@, chosen, c, s.nu as int).len() > 0,
{
    let nu = s.nu as int;
    lemma_triangle_step(nu);
    lemma_fresh_block(s.in_sel@, chosen, c, nu, nu);
    assert(fresh_block(s.in_sel@, chosen, c, nu).contains(pair_at(c, f) as usize));
}

/// The pairs that are not selected, in order.
pub proof fn lemma_free_pairs(s: Interactions, n: int)
    requires
        s.wf(),
        0 <= n <= s.in_sel.len(),
    ensures
        forall|c: usize| #[trigger]
            free_pairs(s.in_sel@, n).contains(c) <==> c < n && !s.selected@.contains(c),
        forall|i: int, j: int|
            0 <= i < j < free_pairs(s.in_sel@, n).len() ==> #[trigger] free_pairs(s.in_sel@, n)[i]
                < #[trigger] free_pairs(s.in_sel@, n)[j],
    decreases n,
{
    if n > 0 {
        lemma_free_pairs(s, n - 1);
        let a = free_pairs(s.in_sel@, n - 1);
        let b = free_pairs(s.in_sel@, n);
        let x = (n - 1) as usize;
        assert(s.in_sel@[n - 1] == s.selected@.contains(x));
        assert forall|c: usize| #[trigger] b.contains(c) <==> c < n && !s.selected@.contains(c) by {
            assert(a.contains(c) <==> c < n - 1 && !s.selected@.contains(c));
            if a.contains(c) {
                let i = a.index_of(c);
                assert(b[i] == c);
            }
            if b.contains(c) {
                let i = b.index_of(c);
                if i < a.len() {
                    assert(a[i] == c);
                    assert(a.contains(c));
                }
            }
            if c == x && !s.selected@.contains(x) {
                assert(b[b.len() - 1] == x);
            }
        }
        assert forall|i: int, j: int| 0 <= i < j < b.len() implies #[trigger] b[i] < #[trigger] b[j] by {
            assert(b[i] == a[i]);
            assert(a.contains(a[i]));
            if j < a.len() {
                assert(b[j] == a[j]);
            }
        }
    }
}

/// The plain terms of the first models, each once unless it is selected.
pub proof fn lemma_plain_terms(s: Interactions, n: int)
    requires
        s.wf(),
        0 <= n <= s.n_models,
    ensures
        forall|i: int|
            0 <= i < plain_terms(s.in_sel@, s.nu as int, n).len() ==> !s.selected@.contains(
                #[trigger] plain_terms(s.in_sel@, s.nu as int, n)[i],
            ) && is_plain_term(plain_terms(s.in_sel@, s.nu as int, n)[i] as int, s.nu as int, n),
        forall|m: int|
            0 <= m < n && !s.selected@.contains((#[trigger] pair_at(m, s.nu - 1)) as usize)
                ==> plain_terms(s.in_sel@, s.nu as int, n).contains(
                pair_at(m, s.nu - 1) as usize,
            ),
    decreases n,
{
    if n > 0 {
        let nu = s.nu as int;
        lemma_plain_terms(s, n - 1);
        lemma_pair_in_range(nu, n - 1, nu - 1);
        lemma_triangle_step(nu);
        let a = plain_terms(s.in_sel@, nu, n - 1);
        let b = plain_terms(s.in_sel@, nu, n);
        let x = pair_at(n - 1, nu - 1) as usize;
        assert(s.in_sel@[x as int] == s.selected@.contains(x));
        assert forall|i: int| 0 <= i < b.len() implies !s.selected@.contains(#[trigger] b[i])
            && is_plain_term(b[i] as int, nu, n) by {
            if i < a.len() {
                assert(b[i] == a[i]);
                let m = choose|m: int| 0 <= m < n - 1 && #[trigger] pair_at(m, nu - 1) == a[i];
                assert(0 <= m < n && pair_at(m, nu - 1) == b[i]);
            } else {
                assert(pair_at(n - 1, nu - 1) == b[i]);
            }
        }
        assert forall|m: int|
            0 <= m < n && !s.selected@.contains((#[trigger] pair_at(m, nu - 1)) as usize) implies b.contains(
        pair_at(m, nu - 1) as usize) by {
            let y = pair_at(m, nu - 1) as usize;
            if m < n - 1 {
                assert(a.contains(y));
                let i = a.index_of(y);
                assert(b[i] == y);
            } else {
                assert(b[b.len() - 1] == x);
            }
        }
    }
}

/// The number of pairs of `nu` columns.
pub fn pair_count(nu: usize) -> (r: usize)
    requires
        nu * (nu + 1) <= usize::MAX,
    ensures
        r == triangle(nu as int),
{
    proof {
        assert(nu < usize::MAX) by (nonlinear_arith)
            requires
                nu * (nu + 1) <= usize::MAX,
                0 <= nu,
                usize::MAX >= 2,
        ;
    }
    nu * (nu + 1) / 2
}

/// How many interactions are selected at most: as many as asked for, or all, but the bias and the
/// forced terms in any case.
pub fn pairs_target(max_features: Option<u64>, dpair: u64, n_force: u64) -> (r: u64)
    requires
        n_force < u64::MAX,
    ensures
        ({
            let asked = match max_features {
                Some(k) => k as int,
                None => dpair as int,
            };
            r == (if asked > 1 + n_force {
                asked
            } else {
                1 + n_force
            })
        }),
{
    let asked: u64 = match max_features {
        Some(k) => k,
        None => dpair,
    };
    if asked > 1 + n_force {
        asked
    } else {
        1 + n_force
    }
}

// ---------------------------------------------------------------------------
// The course of a selection
// ---------------------------------------------------------------------------

/// What the next round of a selection looks for.
#[derive(Clone, Copy, PartialEq, Eq, Structural, Debug)]
pub enum Stage {
    /// The plain term of a model.
    Forced,
    /// Anything that the mode allows.
    Free,
    /// Nothing: the selection is over.
    Done,
}

/// The stage that the counts call for: the forced rounds come first; interactions are then taken
/// up to a number of selected ones, columns up to a number of steps, those of the forced rounds
/// among them.
pub open spec fn stage_for(
    taken: u64,
    selected: u64,
    forced: u64,
    n_force: u64,
    target: u64,
    mode: SelectMode,
    most: Option<u64>,
) -> Stage {
    if forced < n_force {
        Stage::Forced
    } else {
        let more = match mode {
            SelectMode::Pairs => selected < target,
            SelectMode::Column => match most {
                Some(k) => taken < k,
                None => taken < u64::MAX,
            },
        };
        if more {
            Stage::Free
        } else {
            Stage::Done
        }
    }
}

/// The stage that the counts call for, where `taken` steps were taken, `forced` of the `n_force`
/// forced rounds are over, and `selected` interactions are selected.
pub fn next_stage(
    taken: u64,
    selected: u64,
    forced: u64,
    n_force: u64,
    target: u64,
    mode: SelectMode,
    most: Option<u64>,
) -> (r: Stage)
    ensures
        r == stage_for(taken, selected, forced, n_force, target, mode, most),
{
    if forced < n_force {
        return Stage::Forced;
    }
    let more: bool = match mode {
        SelectMode::Pairs => selected < target,
        SelectMode::Column => match most {
            Some(k) => taken < k,
            None => taken < u64::MAX,
        },
    };
    if more {
        Stage::Free
    } else {
        Stage::Done
    }
}

/// Where a selection stands: its bounds, its stage, the forced steps and all steps recorded so far,
/// the bias among them, and the best score of those.
#[derive(Clone, Copy, PartialEq, Eq, Structural, Debug)]
pub struct Course {
    pub mode: SelectMode,
    pub n_force: u64,
    pub target: u64,
    pub most: Option<u64>,
    pub limit: Option<u64>,
    pub stage: Stage,
    pub forced: u64,
    pub steps: usize,
    pub patience: Patience,
}

/// The course once its forced rounds are over: the wait starts anew.
pub open spec fn freed(c: Course, selected: u64) -> Course {
    Course {
        stage: stage_for(
            (c.steps - 1) as u64,
            selected,
            c.n_force,
            c.n_force,
            c.target,
            c.mode,
            c.most,
        ),
        patience: Patience { since_best: 0, ..c.patience },
        ..c
    }
}

/// The course after the step of the bias.
pub open spec fn begun(
    mode: SelectMode,
    n_force: u64,
    target: u64,
    most: Option<u64>,
    limit: Option<u64>,
    score: u64,
) -> Course {
    let c = Course {
        mode,
        n_force,
        target,
        most,
        limit,
        stage: Stage::Forced,
        forced: 0,
        steps: 1,
        patience: noted(Patience { best: SINGULAR, best_step: 0, since_best: 0 }, score, 0),
    };
    if n_force > 0 {
        c
    } else {
        freed(c, 1)
    }
}

/// The course after one more step, which left `selected` interactions selected: a forced step never
/// ends the selection, however long the wait.
pub open spec fn stepped(c: Course, score: u64, selected: u64) -> Course {
    let patience = noted(c.patience, score, c.steps);
    let steps = (c.steps + 1) as usize;
    if c.stage == Stage::Forced {
        let d = Course { forced: (c.forced + 1) as u64, steps, patience, ..c };
        if d.forced < d.n_force {
            d
        } else {
            freed(d, selected)
        }
    } else {
        Course {
            stage: if is_over(patience, c.limit) {
                Stage::Done
            } else {
                stage_for(
                    c.steps as u64,
                    selected,
                    c.n_force,
                    c.n_force,
                    c.target,
                    c.mode,
                    c.most,
                )
            },
            steps,
            patience,
            ..c
        }
    }
}

/// The course after a round that found nothing to take: the forced rounds are over, or else the
/// selection.
pub open spec fn stuck(c: Course, selected: u64) -> Course {
    if c.stage == Stage::Forced {
        freed(c, selected)
    } else {
        Course { stage: Stage::Done, ..c }
    }
}

impl Course {
    /// There are no more forced rounds than asked for, and once they are over the wait counts
    /// free steps only.
    pub open spec fn wf(self) -> bool {
        &&& self.forced <= self.n_force
        &&& self.forced < self.steps
        &&& self.stage == Stage::Forced ==> self.forced < self.n_force
            && self.steps == self.forced + 1 && self.patience.since_best <= self.steps
        &&& self.stage != Stage::Forced ==> self.patience.since_best <= self.steps - 1 - self.forced
    }

    /// Starts a selection among `n_models` models and `dpair` interactions with the score of the
    /// bias alone. No more terms are forced than there are models.
    pub fn new(
        mode: SelectMode,
        force_models: u64,
        n_models: u64,
        max_features: Option<u64>,
        dpair: u64,
        limit: Option<u64>,
        score: u64,
    ) -> (r: Course)
        requires
            n_models < u64::MAX,
        ensures
            r.wf(),
            r.n_force == (if force_models < n_models {
                force_models
            } else {
                n_models
            }),
            ({
                let asked = match max_features {
                    Some(k) => k as int,
                    None => dpair as int,
                };
                r.target == (if asked > 1 + r.n_force {
                    asked
                } else {
                    1 + r.n_force
                })
            }),
            r == begun(mode, r.n_force, r.target, max_features, limit, score),
            r.mode == mode && r.most == max_features && r.limit == limit,
            r.steps == 1 && r.forced == 0 && r.patience.since_best <= 1,
            score < SINGULAR ==> r.patience.best == score && r.patience.best_step == 0,
            r.n_force > 0 ==> r.stage == Stage::Forced,
            r.n_force == 0 ==> (r.stage == Stage::Free <==> match mode {
                SelectMode::Pairs => 1 < r.target,
                SelectMode::Column => match max_features {
                    Some(k) => k > 0,
                    None => true,
                },
            }),
            r.n_force == 0 ==> r.stage != Stage::Forced && r.patience.since_best == 0,
    {
        let n_force: u64 = if force_models < n_models {
            force_models
        } else {
            n_models
        };
        let target: u64 = pairs_target(max_features, dpair, n_force);
        let mut patience: Patience = Patience::new();
        let _: bool = patience.note(score, 0, limit);
        let mut c: Course = Course {
            mode,
            n_force,
            target,
            most: max_features,
            limit,
            stage: Stage::Forced,
            forced: 0,
            steps: 1,
            patience,
        };
        if n_force == 0 {
            c.free(1);
        }
        c
    }

    fn free(&mut self, selected: u64)
        requires
            old(self).steps > 0,
        ensures
            *final(self) == freed(*old(self), selected),
    {
        self.patience.restart();
        self.stage = next_stage(
            (self.steps - 1) as u64,
            selected,
            self.n_force,
            self.n_force,
            self.target,
            self.mode,
            self.most,
        );
    }

    /// Goes on after a step with its score, which left `selected` interactions selected. Tells
    /// whether the wait for a better score ended the selection.
    pub fn step(&mut self, score: u64, selected: u64) -> (r: bool)
        requires
            old(self).wf(),
            old(self).stage != Stage::Done,
            old(self).steps < usize::MAX,
        ensures
            final(self).wf(),
            *final(self) == stepped(*old(self), score, selected),
            r == (old(self).stage == Stage::Free && is_over(final(self).patience, old(self).limit)),
            final(self).mode == old(self).mode && final(self).most == old(self).most
                && final(self).limit == old(self).limit && final(self).n_force == old(self).n_force
                && final(self).target == old(self).target,
            final(self).steps == old(self).steps + 1,
            final(self).forced == old(self).forced + (if old(self).stage == Stage::Forced {
                1int
            } else {
                0
            }),
            // A step that beats the best score becomes the best one.
            score < old(self).patience.best ==> final(self).patience.best == score
                && final(self).patience.best_step == old(self).steps
                && final(self).patience.since_best == 0,
            score >= old(self).patience.best ==> final(self).patience.best
                == old(self).patience.best && final(self).patience.best_step
                == old(self).patience.best_step,
            // The wait counts free steps, from the end of the forced rounds on.
            final(self).stage != Stage::Forced && old(self).stage == Stage::Forced
                ==> final(self).patience.since_best == 0,
            old(self).stage == Stage::Free && score >= old(self).patience.best
                ==> final(self).patience.since_best == old(self).patience.since_best + 1,
            // Forced rounds go on until there were enough of them.
            final(self).stage == Stage::Forced <==> old(self).stage == Stage::Forced
                && final(self).forced < final(self).n_force,
            // After them the selection goes on unless the wait was long enough or the bound is met.
            r <==> old(self).stage == Stage::Free && match old(self).limit {
                Some(p) => final(self).patience.since_best >= p,
                None => false,
            },
            final(self).stage != Stage::Forced ==> (final(self).stage == Stage::Free <==> !r
                && match old(self).mode {
                SelectMode::Pairs => selected < old(self).target,
                SelectMode::Column => match old(self).most {
                    Some(k) => final(self).steps - 1 < k,
                    None => final(self).steps - 1 < u64::MAX,
                },
            }),
    {
        let over: bool = self.patience.note(score, self.steps, self.limit);
        self.steps = self.steps + 1;
        if self.stage == Stage::Forced {
            self.forced = self.forced + 1;
            if self.forced >= self.n_force {
                self.free(selected);
            }
            return false;
        }
        self.stage = if over {
            Stage::Done
        } else {
            next_stage(
                (self.steps - 1) as u64,
                selected,
                self.n_force,
                self.n_force,
                self.target,
                self.mode,
                self.most,
            )
        };
        over
    }

    /// Goes on after a round that found nothing to take.
    pub fn skip(&mut self, selected: u64)
        requires
            old(self).wf(),
            old(self).stage != Stage::Done,
        ensures
            final(self).wf(),
            *final(self) == stuck(*old(self), selected),
            final(self).steps == old(self).steps && final(self).forced == old(self).forced,
            final(self).mode == old(self).mode && final(self).most == old(self).most
                && final(self).limit == old(self).limit && final(self).n_force == old(self).n_force
                && final(self).target == old(self).target,
            final(self).patience.best == old(self).patience.best
                && final(self).patience.best_step == old(self).patience.best_step,
            old(self).stage == Stage::Free ==> final(self).stage == Stage::Done,
            old(self).stage == Stage::Forced ==> final(self).patience.since_best == 0,
            old(self).stage == Stage::Forced ==> final(self).stage != Stage::Forced,
            old(self).stage == Stage::Forced ==> (final(self).stage == Stage::Free <==> match old(
                self,
            ).mode {
                SelectMode::Pairs => selected < old(self).target,
                SelectMode::Column => match old(self).most {
                    Some(k) => old(self).steps - 1 < k,
                    None => old(self).steps - 1 < u64::MAX,
                },
            }),
    {
        if self.stage == Stage::Forced {
            self.free(selected);
        } else {
            self.stage = Stage::Done;
        }
    }
}

/// The course after some rounds: each with its score where something was taken, and with the number
/// of interactions then selected. Nothing follows the end.
pub open spec fn after_rounds(c: Course, rounds: Seq<(Option<u64>, u64)>) -> Course
    decreases rounds.len(),
{
    if rounds.len() == 0 {
        c
    } else {
        let d = after_rounds(c, rounds.drop_last());
        let (score, selected) = rounds.last();
        if d.stage == Stage::Done {
            d
        } else {
            match score {
                Some(x) => stepped(d, x, selected),
                None => stuck(d, selected),
            }
        }
    }
}

/// However its rounds go, a selection of columns takes no more steps than asked for, or than there
/// are forced rounds where those are more, and no more forced ones than those.
pub proof fn lemma_column_steps(
    n_force: u64,
    target: u64,
    k: u64,
    limit: Option<u64>,
    score: u64,
    rounds: Seq<(Option<u64>, u64)>,
)
    requires
        k < usize::MAX,
        n_force < usize::MAX,
    ensures
        ({
            let c = after_rounds(
                begun(SelectMode::Column, n_force, target, Some(k), limit, score),
                rounds,
            );
            &&& c.wf()
            &&& c.forced <= n_force
            &&& c.stage == Stage::Free ==> c.steps <= k
            &&& c.steps - 1 <= k || c.steps - 1 <= n_force
        }),
    decreases rounds.len(),
{
    let b = begun(SelectMode::Column, n_force, target, Some(k), limit, score);
    if rounds.len() > 0 {
        lemma_column_steps(n_force, target, k, limit, score, rounds.drop_last());
        lemma_bounds_stay(b, rounds.drop_last());
        lemma_bounds_stay(b, rounds);
    }
}

proof fn lemma_bounds_stay(c: Course, rounds: Seq<(Option<u64>, u64)>)
    ensures
        after_rounds(c, rounds).n_force == c.n_force,
        after_rounds(c, rounds).most == c.most,
        after_rounds(c, rounds).mode == c.mode,
    decreases rounds.len(),
{
    if rounds.len() > 0 {
        lemma_bounds_stay(c, rounds.drop_last());
    }
}

/// The pairs of a block go up.
pub proof fn lemma_block_in_order(in_sel: Seq<bool>, chosen: Seq<bool>, c: int, nu: int, n: int)
    requires
        0 <= c < nu,
        0 <= n <= nu,
        in_sel.len() == triangle(nu),
        triangle(nu) <= usize::MAX,
    ensures
        forall|i: int, j: int|
            0 <= i < j < fresh_block(in_sel, chosen, c, n).len() ==> #[trigger] fresh_block(
                in_sel,
                chosen,
                c,
                n,
            )[i] < #[trigger] fresh_block(in_sel, chosen, c, n)[j],
    decreases n,
{
    if n > 0 {
        lemma_block_in_order(in_sel, chosen, c, nu, n - 1);
        lemma_fresh_block(in_sel, chosen, c, nu, n - 1);
        lemma_pair_in_range(nu, c, n - 1);
        let a = fresh_block(in_sel, chosen, c, n - 1);
        let b = fresh_block(in_sel, chosen, c, n);
        assert forall|i: int, j: int| 0 <= i < j < b.len() implies #[trigger] b[i] < #[trigger] b[j] by {
            assert(b[i] == a[i]);
            if j < a.len() {
                assert(b[j] == a[j]);
            } else {
                assert(pairs_with(chosen, c, n - 1, a[i] as int));
                let f = choose|f: int|
                    0 <= f < n - 1 && chosen[f] && #[trigger] pair_at(c, f) == a[i];
                lemma_pair_rises(c, f, n - 1);
            }
        }
    }
}

proof fn lemma_pair_rises(c: int, f: int, g: int)
    requires
        0 <= c,
        0 <= f < g,
    ensures
        pair_at(c, f) < pair_at(c, g),
    decreases g - f,
{
    lemma_triangle_step(g - 1);
    lemma_triangle_step(f);
    if f + 1 < g {
        lemma_pair_rises(c, f, g - 1);
        lemma_pair_rises(c, g - 1, g);
    }
}

/// The offers go by column, and as a model before as a feature; none comes twice.
pub proof fn lemma_offers_in_order(s: Interactions, n: int)
    requires
        s.wf(),
        0 <= n <= s.nu,
    ensures
        forall|i: int|
            0 <= i < all_offers(s, n).len() ==> (#[trigger] all_offers(s, n)[i]).0 < n,
        forall|i: int, j: int|
            0 <= i < j < all_offers(s, n).len() ==> {
                let (a, b) = (#[trigger] all_offers(s, n)[i], #[trigger] all_offers(s, n)[j]);
                a.0 < b.0 || (a.0 == b.0 && a.1 && !b.1)
            },
    decreases n,
{
    if n > 0 {
        lemma_offers_in_order(s, n - 1);
        let a = all_offers(s, n - 1);
        let o = offers(s, n - 1);
        let b = all_offers(s, n);
        assert forall|i: int| 0 <= i < b.len() implies (#[trigger] b[i]).0 < n by {
            if i < a.len() {
                assert(b[i] == a[i]);
            } else {
                assert(b[i] == o[i - a.len()]);
            }
        }
        assert forall|i: int, j: int| 0 <= i < j < b.len() implies {
            let (x, y) = (#[trigger] b[i], #[trigger] b[j]);
            x.0 < y.0 || (x.0 == y.0 && x.1 && !y.1)
        } by {
            if j < a.len() {
                assert(b[i] == a[i] && b[j] == a[j]);
            } else {
                assert(b[j] == o[j - a.len()]);
                if i < a.len() {
                    assert(b[i] == a[i]);
                } else {
                    assert(b[i] == o[i - a.len()]);
                }
            }
        }
    }
}

/// How a selection begins: with the forced rounds, if there are any; else with free ones, as long as
/// the bound lets it.
pub proof fn lemma_begun(
    mode: SelectMode,
    n_force: u64,
    target: u64,
    most: Option<u64>,
    limit: Option<u64>,
    score: u64,
)
    ensures
        ({
            let c = begun(mode, n_force, target, most, limit, score);
            &&& c.mode == mode && c.n_force == n_force && c.target == target && c.most == most
                && c.limit == limit
            &&& c.steps == 1 && c.forced == 0
            &&& c.patience.best_step == 0
            &&& score < SINGULAR ==> c.patience.best == score
            &&& score >= SINGULAR ==> c.patience.best == SINGULAR
            &&& n_force > 0 <==> c.stage == Stage::Forced
            &&& n_force == 0 ==> c.patience.since_best == 0 && (c.stage == Stage::Free <==> match mode {
                SelectMode::Pairs => target > 1,
                SelectMode::Column => most is None || most->Some_0 > 0,
            })
        }),
{
}

/// What a step does: it counts, it becomes the best one if it beats the best score, forced rounds go
/// on until there were enough of them, the wait is counted from their end on, and a free selection
/// goes on unless the wait was long enough or its bound is met.
pub proof fn lemma_stepped(c: Course, score: u64, selected: u64)
    requires
        c.wf(),
        c.stage != Stage::Done,
        c.steps < usize::MAX,
    ensures
        ({
            let d = stepped(c, score, selected);
            &&& d.mode == c.mode && d.n_force == c.n_force && d.target == c.target && d.most == c.most
                && d.limit == c.limit
            &&& d.steps == c.steps + 1
            &&& c.stage == Stage::Forced ==> d.forced == c.forced + 1
            &&& c.stage == Stage::Free ==> d.forced == c.forced
            &&& score < c.patience.best ==> d.patience.best == score && d.patience.best_step
                == c.steps && d.patience.since_best == 0
            &&& score >= c.patience.best ==> d.patience.best == c.patience.best
                && d.patience.best_step == c.patience.best_step
            &&& c.stage == Stage::Free && score >= c.patience.best ==> d.patience.since_best
                == c.patience.since_best + 1
            &&& d.stage == Stage::Forced <==> c.stage == Stage::Forced && d.forced < d.n_force
            &&& c.stage == Stage::Forced && d.stage != Stage::Forced ==> d.patience.since_best == 0
            &&& c.stage == Stage::Free && c.limit is Some && d.patience.since_best
                >= c.limit->Some_0 ==> d.stage == Stage::Done
            &&& d.stage != Stage::Forced && (c.stage == Stage::Forced || c.limit is None
                || d.patience.since_best < c.limit->Some_0) ==> (d.stage == Stage::Free
                <==> match c.mode {
                SelectMode::Pairs => selected < c.target,
                SelectMode::Column => if c.most is Some {
                    d.steps - 1 < c.most->Some_0
                } else {
                    d.steps - 1 < u64::MAX
                },
            })
        }),
{
}

/// What a round without a candidate does: it ends the forced rounds, and a free selection.
pub proof fn lemma_stuck(c: Course, selected: u64)
    requires
        c.wf(),
        c.stage != Stage::Done,
    ensures
        ({
            let d = stuck(c, selected);
            &&& d.mode == c.mode && d.n_force == c.n_force && d.target == c.target && d.most == c.most
                && d.limit == c.limit
            &&& d.steps == c.steps && d.forced == c.forced
            &&& d.patience.best == c.patience.best && d.patience.best_step == c.patience.best_step
            &&& c.stage == Stage::Free ==> d.stage == Stage::Done
            &&& c.stage == Stage::Forced ==> d.stage != Stage::Forced && d.patience.since_best == 0
            &&& c.stage == Stage::Forced ==> (d.stage == Stage::Free <==> match c.mode {
                SelectMode::Pairs => selected < c.target,
                SelectMode::Column => if c.most is Some {
                    c.steps - 1 < c.most->Some_0
                } else {
                    c.steps - 1 < u64::MAX
                },
            })
        }),
{
}

/// What is to be done next: forced rounds first, as many as are asked for; then free ones, until the
/// pairs or the columns are as many as they may be.
pub proof fn lemma_stage(
    taken: u64,
    selected: u64,
    forced: u64,
    n_force: u64,
    target: u64,
    mode: SelectMode,
    most: Option<u64>,
)
    ensures
        ({
            let s = stage_for(taken, selected, forced, n_force, target, mode, most);
            &&& s == Stage::Forced <==> forced < n_force
            &&& s == Stage::Free ==> forced >= n_force && (mode == SelectMode::Pairs ==> selected
                < target) && (mode == SelectMode::Column && most is Some ==> taken < most->Some_0)
            &&& s == Stage::Done ==> forced >= n_force && (mode == SelectMode::Pairs ==> selected
                >= target) && (mode == SelectMode::Column ==> taken == u64::MAX || (most is Some
                && taken >= most->Some_0))
        }),
{
}

/// The constant's pair with itself is the last of all pairs.
pub proof fn lemma_bias(nu: int)
    requires
        0 < nu,
    ensures
        bias_at(nu) == triangle(nu) - 1,
{
    lemma_triangle_step(nu - 1);
}

} // verus!
