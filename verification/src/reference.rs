//! A blend's run: what it reads and fits, and whether a stored ensemble reproduces its numbers.

use crate::text::decimal;
use crate::text::decimal_string;
use crate::text::joined;
use crate::text::joined3;
use crate::text::trim;
use crate::text::trimmed;
use vstd::prelude::*;
use vstd::string::*;

verus! {

/// What a run works on.
#[derive(Clone, Copy, PartialEq, Eq, Structural, Debug)]
pub struct RunShape {
    /// The selection is made on the qualifying set alone.
    pub forward_on_quiz: bool,
    /// The probe set is read.
    pub needs_probe: bool,
    /// The folds that the probe rows are cut into.
    pub folds: u64,
}

/// What a run works on: a blend over several splits, and a selection on the qualifying set, leave
/// the probe set alone; folds are for a selection on the probe set.
pub fn run_shape(forward: bool, quiz_blend: bool, cross_split: bool, cv_folds: u64) -> (r: RunShape)
    ensures
        r.forward_on_quiz == (forward && quiz_blend),
        r.needs_probe == (!cross_split && !(forward && quiz_blend)),
        r.folds == (if forward && !quiz_blend {
            cv_folds
        } else {
            1
        }),
{
    let forward_on_quiz: bool = forward && quiz_blend;
    RunShape {
        forward_on_quiz,
        needs_probe: !cross_split && !forward_on_quiz,
        folds: if forward && !quiz_blend {
            cv_folds
        } else {
            1
        },
    }
}

/// Whether a run can go on with the files there are.
#[derive(Clone, Copy, PartialEq, Eq, Structural, Debug)]
pub enum Preflight {
    /// Predictions for the probe set are missing.
    NoProbe,
    /// Predictions for the qualifying set are missing, and the fit needs them.
    NoQual,
    /// The run goes on, with or without a number for the qualifying set.
    Go(bool),
}

/// Whether a run can go on, from how many files are missing for the probe set, where it is read, and
/// for the qualifying set.
pub fn preflight(probe_missing: usize, qual_missing: usize, quiz_blend: bool, forward: bool) -> (r:
    Preflight)
    ensures
        r == (if probe_missing > 0 {
            Preflight::NoProbe
        } else if qual_missing > 0 && (quiz_blend || forward) {
            Preflight::NoQual
        } else {
            Preflight::Go(qual_missing == 0)
        }),
{
    if probe_missing > 0 {
        Preflight::NoProbe
    } else if qual_missing > 0 && (quiz_blend || forward) {
        Preflight::NoQual
    } else {
        Preflight::Go(qual_missing == 0)
    }
}

// ---------------------------------------------------------------------------
// The check of a stored ensemble
// ---------------------------------------------------------------------------

/// Whether a row reproduces, from whether each of its numbers does; none where none is recorded.
pub open spec fn row_status_spec(probe: Option<bool>, quiz: Option<bool>) -> Option<bool> {
    match (probe, quiz) {
        (None, None) => None,
        (Some(p), None) => Some(p),
        (None, Some(q)) => Some(q),
        (Some(p), Some(q)) => Some(p && q),
    }
}

/// Whether a row reproduces.
pub fn row_status(probe: Option<bool>, quiz: Option<bool>) -> (r: Option<bool>)
    ensures
        r == row_status_spec(probe, quiz),
{
    match probe {
        None => quiz,
        Some(p) => match quiz {
            None => Some(p),
            Some(q) => Some(p && q),
        },
    }
}

/// How a stored ensemble stands to its recorded numbers.
#[derive(Clone, Copy, PartialEq, Eq, Structural, Debug)]
pub enum Verdict {
    /// No number is recorded.
    NothingRecorded,
    /// So many rows reproduce, all that are recorded.
    Pass(usize),
    /// Of so many rows that are recorded, some do not reproduce.
    Fail(usize),
}

/// How many rows are recorded.
pub open spec fn checked(rows: Seq<Option<bool>>) -> int
    decreases rows.len(),
{
    if rows.len() == 0 {
        0
    } else if rows.last() is Some {
        checked(rows.drop_last()) + 1
    } else {
        checked(rows.drop_last())
    }
}

/// Whether a row does not reproduce.
pub open spec fn drifted(rows: Seq<Option<bool>>) -> bool {
    exists|i: int| 0 <= i < rows.len() && #[trigger] rows[i] == Some(false)
}

/// How a stored ensemble stands to its recorded numbers, from its rows.
pub fn reference_check(rows: &Vec<Option<bool>>) -> (r: Verdict)
    ensures
        r == (if checked(rows@) == 0 {
            Verdict::NothingRecorded
        } else if drifted(rows@) {
            Verdict::Fail(checked(rows@) as usize)
        } else {
            Verdict::Pass(checked(rows@) as usize)
        }),
{
    let mut n: usize = 0;
    let mut bad: bool = false;
    let mut i: usize = 0;
    proof {
        assert(rows@.take(0) =~= Seq::<Option<bool>>::empty());
    }
    while i < rows.len()
        invariant
            i <= rows.len(),
            n <= i,
            n == checked(rows@.take(i as int)),
            bad == drifted(rows@.take(i as int)),
        decreases rows.len() - i,
    {
        proof {
            let a = rows@.take(i as int);
            let b = rows@.take(i + 1);
            assert(b.drop_last() =~= a);
            assert(b.last() == rows@[i as int]);
            if drifted(a) {
                let k = choose|k: int| 0 <= k < a.len() && #[trigger] a[k] == Some(false);
                assert(b[k] == Some(false));
            }
            if drifted(b) {
                let k = choose|k: int| 0 <= k < b.len() && #[trigger] b[k] == Some(false);
                if k < i {
                    assert(a[k] == Some(false));
                }
            }
            assert(b[i as int] == rows@[i as int]);
        }
        match rows[i] {
            Some(ok) => {
                n += 1;
                if !ok {
                    bad = true;
                }
            },
            None => {},
        }
        i += 1;
    }
    proof {
        assert(rows@.take(rows.len() as int) =~= rows@);
    }
    if n == 0 {
        Verdict::NothingRecorded
    } else if bad {
        Verdict::Fail(n)
    } else {
        Verdict::Pass(n)
    }
}

/// The exit code of a check: not zero if the numbers have drifted, and only then.
pub fn check_code(v: Verdict) -> (r: u8)
    ensures
        r == (if v is Fail {
            1u8
        } else {
            0u8
        }),
{
    match v {
        Verdict::Fail(_) => 1,
        _ => 0,
    }
}

/// A row that has drifted is a row that is recorded: a check with nothing recorded never fails.
pub proof fn lemma_drift_is_recorded(rows: Seq<Option<bool>>)
    requires
        drifted(rows),
    ensures
        checked(rows) > 0,
    decreases rows.len(),
{
    let k = choose|k: int| 0 <= k < rows.len() && #[trigger] rows[k] == Some(false);
    if k == rows.len() - 1 {
        lemma_checked_nonnegative(rows.drop_last());
    } else {
        assert(rows.drop_last()[k] == Some(false));
        lemma_drift_is_recorded(rows.drop_last());
    }
}

proof fn lemma_checked_nonnegative(rows: Seq<Option<bool>>)
    ensures
        checked(rows) >= 0,
    decreases rows.len(),
{
    if rows.len() > 0 {
        lemma_checked_nonnegative(rows.drop_last());
    }
}

// ---------------------------------------------------------------------------
// Names of files
// ---------------------------------------------------------------------------

/// The file of a blend's predictions for a dataset, by its seed.
pub fn blend_output(dir: &str, name: &str, seed: u64, dataset: &str) -> (r: String)
    ensures
        r@ == dir@ + "/"@ + name@ + "-s"@ + decimal(seed as nat) + "."@ + dataset@ + ".npy"@,
{
    let a: String = joined3(dir, "/", name);
    let b: String = joined3(a.as_str(), "-s", decimal_string(seed).as_str());
    let c: String = joined3(b.as_str(), ".", dataset);
    joined(c.as_str(), ".npy")
}

/// The stamp of a scratch directory: what the clock printed, without the white space around it, or
/// a fixed word where it printed nothing.
pub fn scratch_stamp(printed: &Option<String>) -> (r: String)
    ensures
        r@ == (match *printed {
            Some(s) => if trimmed(s@).len() > 0 {
                trimmed(s@)
            } else {
                "run"@
            },
            None => "run"@,
        }),
{
    match printed {
        Some(s) => {
            let t: String = trim(s.as_str());
            if t.as_str().unicode_len() > 0 {
                t
            } else {
                "run".to_string()
            }
        },
        None => "run".to_string(),
    }
}

/// A row is recorded if either of its numbers is, and it reproduces if every number that is recorded
/// does.
pub proof fn lemma_row_status(probe: Option<bool>, quiz: Option<bool>)
    ensures
        row_status_spec(probe, quiz) is Some <==> probe is Some || quiz is Some,
        row_status_spec(probe, quiz) == Some(false) <==> probe == Some(false) || quiz == Some(
            false,
        ),
{
}

/// The rows that are checked are those that are recorded.
pub proof fn lemma_checked(rows: Seq<Option<bool>>)
    ensures
        checked(rows) == rows.filter(|r: Option<bool>| r is Some).len(),
    decreases rows.len(),
{
    reveal(Seq::filter);
    if rows.len() > 0 {
        lemma_checked(rows.drop_last());
    }
}

} // verus!
