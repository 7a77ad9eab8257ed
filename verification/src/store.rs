//! Keeping local predictions and the prediction store in step: what to fetch, what to upload, and
//! what a prune may delete.

use crate::download::digest;
use crate::download::md5_hex_of;
use crate::order::gather;
use crate::order::is_order;
use crate::order::sort_order;
use crate::preds::glob_match;
use crate::preds::glob_matches;
use crate::text::after_last;
use crate::text::after_last_spec;
use crate::text::alphabetical;
use crate::text::decimal;
use crate::text::decimal_string;
use crate::text::ends_with;
use crate::text::holds;
use crate::text::join;
use crate::text::join_spec;
use crate::text::joined;
use crate::text::joined3;
use crate::text::lemma_text_le_antisymmetric;
use crate::text::no_names;
use crate::text::push_name;
use crate::text::same;
use crate::text::sort_names;
use crate::text::split;
use crate::text::split_on;
use crate::text::starts_with;
use crate::text::text_le;
use crate::text::trim;
use crate::text::trimmed;
use crate::text::views;
use vstd::prelude::*;
use vstd::string::*;

verus! {

/// A file of the store.
pub struct FileEntry {
    pub path: String,
    pub size: u64,
}

/// How a local file compares with the store's.
#[derive(Clone, Copy, PartialEq, Eq, Structural, Debug)]
pub enum LocalState {
    Current,
    Missing,
    Stale,
}

/// How a local file compares by its size, of which there is none where there is no file; nothing
/// where the sizes agree and the bytes are to decide.
pub fn state_by_size(size: Option<u64>, want: u64, quick: bool) -> (r: Option<LocalState>)
    ensures
        r == (match size {
            None => Some(LocalState::Missing),
            Some(n) => if n != want {
                Some(LocalState::Stale)
            } else if quick {
                Some(LocalState::Current)
            } else {
                None
            },
        }),
{
    match size {
        None => Some(LocalState::Missing),
        Some(n) => if n != want {
            Some(LocalState::Stale)
        } else if quick {
            Some(LocalState::Current)
        } else {
            None
        },
    }
}

/// How a local file compares by its digest.
pub fn state_by_digest(got: &str, want: &str) -> (r: LocalState)
    ensures
        r == (if got@ == want@ {
            LocalState::Current
        } else {
            LocalState::Stale
        }),
{
    if same(got, want) {
        LocalState::Current
    } else {
        LocalState::Stale
    }
}

/// How a local file compares by its bytes: current where they have the digest that the store
/// recorded.
pub fn state_by_bytes(data: &[u8], want: &str) -> (r: LocalState)
    ensures
        r == (if md5_hex_of(data@) == want@ {
            LocalState::Current
        } else {
            LocalState::Stale
        }),
{
    let got: String = digest(data);
    state_by_digest(got.as_str(), want)
}

pub open spec fn paths_of(entries: Seq<FileEntry>) -> Seq<Seq<char>> {
    entries.map_values(|e: FileEntry| e.path@)
}

/// The numbers below `n` that `pred` picks, increasing.
pub open spec fn picks(n: nat, pred: spec_fn(int) -> bool) -> Seq<usize>
    decreases n,
{
    if n == 0 {
        Seq::empty()
    } else {
        let rest = picks((n - 1) as nat, pred);
        if pred(n - 1) {
            rest.push((n - 1) as usize)
        } else {
            rest
        }
    }
}

/// What is picked: the picked numbers and no others, each once, increasing.
pub proof fn lemma_picks(n: nat, pred: spec_fn(int) -> bool)
    requires
        n <= usize::MAX,
    ensures
        picks(n, pred).len() <= n,
        forall|k: int|
            0 <= k < picks(n, pred).len() ==> (#[trigger] picks(n, pred)[k]) < n && pred(
                picks(n, pred)[k] as int,
            ),
        forall|i: int| 0 <= i < n && #[trigger] pred(i) ==> picks(n, pred).contains(i as usize),
        forall|k: int, l: int|
            0 <= k < l < picks(n, pred).len() ==> picks(n, pred)[k] < picks(n, pred)[l],
    decreases n,
{
    if n > 0 {
        lemma_picks((n - 1) as nat, pred);
        let rest = picks((n - 1) as nat, pred);
        let all = picks(n, pred);
        assert forall|i: int| 0 <= i < n && #[trigger] pred(i) implies all.contains(i as usize) by {
            if i < n - 1 {
                assert(rest.contains(i as usize));
                let k = choose|k: int| 0 <= k < rest.len() && rest[k] == i as usize;
                assert(all[k] == i as usize);
            } else {
                assert(all[all.len() - 1] == i as usize);
            }
        }
    }
}

// ---------------------------------------------------------------------------
// Pulling
// ---------------------------------------------------------------------------

/// Some pattern matches the path.
pub open spec fn matches_any(patterns: Seq<Seq<char>>, path: Seq<char>) -> bool {
    exists|k: int| 0 <= k < patterns.len() && glob_matches(#[trigger] patterns[k], path)
}

/// An entry is wanted: some pattern matches its path, or there are no patterns.
pub open spec fn wanted(entries: Seq<FileEntry>, patterns: Seq<Seq<char>>) -> spec_fn(int) -> bool {
    |i: int| patterns.len() == 0 || matches_any(patterns, entries[i].path@)
}

fn any_match(patterns: &Vec<String>, path: &str) -> (r: bool)
    ensures
        r == matches_any(views(patterns@), path@),
{
    let mut k: usize = 0;
    while k < patterns.len()
        invariant
            k <= patterns.len(),
            forall|j: int|
                0 <= j < k ==> !glob_matches(#[trigger] views(patterns@)[j], path@),
        decreases patterns.len() - k,
    {
        if glob_match(patterns[k].as_str(), path) {
            proof {
                assert(glob_matches(views(patterns@)[k as int], path@));
            }
            return true;
        }
        proof {
            assert(views(patterns@)[k as int] == patterns@[k as int]@);
        }
        k += 1;
    }
    false
}

/// The entries to fetch; `None` where no entry matches the patterns.
pub fn select_entries(entries: &Vec<FileEntry>, patterns: &Vec<String>) -> (r: Option<Vec<usize>>)
    ensures
        match r {
            Some(v) => v.len() > 0 && v@ == picks(
                entries.len() as nat,
                wanted(entries@, views(patterns@)),
            ),
            None => picks(entries.len() as nat, wanted(entries@, views(patterns@))).len() == 0,
        },
{
    let mut out: Vec<usize> = Vec::new();
    let mut i: usize = 0;
    let ghost pred = wanted(entries@, views(patterns@));
    while i < entries.len()
        invariant
            pred == wanted(entries@, views(patterns@)),
            i <= entries.len(),
            out@ == picks(i as nat, pred),
        decreases entries.len() - i,
    {
        if patterns.len() == 0 || any_match(patterns, entries[i].path.as_str()) {
            out.push(i);
        }
        i += 1;
    }
    if out.len() == 0 {
        None
    } else {
        Some(out)
    }
}

pub open spec fn in_state(states: Seq<LocalState>, s: LocalState) -> spec_fn(int) -> bool {
    |i: int| states[i] == s
}

pub open spec fn not_current(states: Seq<LocalState>) -> spec_fn(int) -> bool {
    |i: int| states[i] != LocalState::Current
}

/// What a pull has to do: the places of the files to fetch, and how many are in each state.
pub struct PullPlan {
    pub todo: Vec<usize>,
    pub current: usize,
    pub missing: usize,
    pub stale: usize,
}

/// Plans a pull: everything that is not up to date is fetched.
pub fn pull_plan(states: &Vec<LocalState>) -> (r: PullPlan)
    ensures
        r.todo@ == picks(states.len() as nat, not_current(states@)),
        r.current == picks(states.len() as nat, in_state(states@, LocalState::Current)).len(),
        r.missing == picks(states.len() as nat, in_state(states@, LocalState::Missing)).len(),
        r.stale == picks(states.len() as nat, in_state(states@, LocalState::Stale)).len(),
        r.current + r.missing + r.stale == states.len(),
        r.todo.len() == r.missing + r.stale,
{
    let mut todo: Vec<usize> = Vec::new();
    let mut current: usize = 0;
    let mut missing: usize = 0;
    let mut stale: usize = 0;
    let mut i: usize = 0;
    while i < states.len()
        invariant
            i <= states.len(),
            todo@ == picks(i as nat, not_current(states@)),
            current == picks(i as nat, in_state(states@, LocalState::Current)).len(),
            missing == picks(i as nat, in_state(states@, LocalState::Missing)).len(),
            stale == picks(i as nat, in_state(states@, LocalState::Stale)).len(),
            current + missing + stale == i,
            todo.len() == missing + stale,
        decreases states.len() - i,
    {
        match states[i] {
            LocalState::Current => {
                current += 1;
            },
            LocalState::Missing => {
                missing += 1;
                todo.push(i);
            },
            LocalState::Stale => {
                stale += 1;
                todo.push(i);
            },
        }
        i += 1;
    }
    PullPlan { todo, current, missing, stale }
}

/// The total size of the listed entries.
pub open spec fn total_of(entries: Seq<FileEntry>, which: Seq<usize>) -> nat
    decreases which.len(),
{
    if which.len() == 0 {
        0
    } else {
        total_of(entries, which.drop_last()) + entries[which.last() as int].size as nat
    }
}

/// The total size of the listed entries, if it fits in 64 bits.
pub fn total_size(entries: &Vec<FileEntry>, which: &Vec<usize>) -> (r: Option<u64>)
    requires
        forall|k: int| 0 <= k < which.len() ==> (#[trigger] which@[k]) < entries.len(),
    ensures
        r == (if total_of(entries@, which@) <= u64::MAX {
            Some(total_of(entries@, which@) as u64)
        } else {
            None
        }),
{
    let mut sum: u64 = 0;
    let mut k: usize = 0;
    proof {
        assert(which@.take(0) =~= Seq::empty());
    }
    while k < which.len()
        invariant
            forall|k: int| 0 <= k < which.len() ==> (#[trigger] which@[k]) < entries.len(),
            k <= which.len(),
            sum == total_of(entries@, which@.take(k as int)),
        decreases which.len() - k,
    {
        proof {
            assert(which@.take(k + 1).drop_last() =~= which@.take(k as int));
            assert(which@[k as int] < entries.len());
        }
        match sum.checked_add(entries[which[k]].size) {
            Some(s) => {
                sum = s;
            },
            None => {
                proof {
                    lemma_total_grows(entries@, which@, k + 1);
                }
                return None;
            },
        }
        k += 1;
    }
    proof {
        assert(which@.take(which.len() as int) =~= which@);
    }
    Some(sum)
}

proof fn lemma_total_grows(entries: Seq<FileEntry>, which: Seq<usize>, i: int)
    requires
        0 <= i <= which.len(),
    ensures
        total_of(entries, which.take(i)) <= total_of(entries, which),
    decreases which.len() - i,
{
    if i < which.len() {
        assert(which.take(i + 1).drop_last() =~= which.take(i));
        lemma_total_grows(entries, which, i + 1);
    } else {
        assert(which.take(i) =~= which);
    }
}

// ---------------------------------------------------------------------------
// Reports
// ---------------------------------------------------------------------------

/// How many paths a dry run shows.
pub const PREVIEW: usize = 20;

/// How many failures a report shows.
pub const SHOWN: usize = 10;

/// The lines of a dry run: the first paths, and how many more there are.
pub open spec fn preview_lines(paths: Seq<Seq<char>>) -> Seq<Seq<char>> {
    let shown = if paths.len() > PREVIEW {
        PREVIEW as int
    } else {
        paths.len() as int
    };
    let lines = paths.take(shown).map_values(|p: Seq<char>| "  "@ + p);
    if paths.len() > PREVIEW {
        lines.push("  ... and "@ + decimal((paths.len() - PREVIEW) as nat) + " more"@)
    } else {
        lines
    }
}

/// The lines of a dry run.
pub fn preview(paths: &Vec<String>) -> (r: Vec<String>)
    ensures
        views(r@) == preview_lines(views(paths@)),
{
    let shown: usize = if paths.len() > PREVIEW {
        PREVIEW
    } else {
        paths.len()
    };
    let mut out: Vec<String> = Vec::new();
    let mut i: usize = 0;
    let ghost lines = views(paths@).take(shown as int).map_values(|p: Seq<char>| "  "@ + p);
    while i < shown
        invariant
            i <= shown <= paths.len(),
            lines == views(paths@).take(shown as int).map_values(|p: Seq<char>| "  "@ + p),
            views(out@) == lines.take(i as int),
        decreases shown - i,
    {
        let ghost before = out@;
        let line: String = joined("  ", paths[i].as_str());
        out.push(line);
        proof {
            assert(views(out@) =~= views(before).push(line@));
            assert(lines.take(i + 1) =~= lines.take(i as int).push(line@));
        }
        i += 1;
    }
    proof {
        assert(lines.take(shown as int) =~= lines);
    }
    if paths.len() > PREVIEW {
        let ghost before = out@;
        let n: String = decimal_string((paths.len() - PREVIEW) as u64);
        let line: String = joined3("  ... and ", n.as_str(), " more");
        out.push(line);
        proof {
            assert(views(out@) =~= views(before).push(line@));
        }
    }
    out
}

/// The report of failed transfers: how many, the first of them, and how many more there are.
pub open spec fn failure_text(errs: Seq<Seq<char>>, what: Seq<char>, tell_rest: bool) -> Seq<char> {
    let shown = if errs.len() > SHOWN {
        SHOWN as int
    } else {
        errs.len() as int
    };
    let text = decimal(errs.len()) + what + join_spec(errs.take(shown), "\n  "@);
    if tell_rest && errs.len() > SHOWN {
        text + ("\n  ... and "@ + decimal((errs.len() - SHOWN) as nat) + " more"@)
    } else {
        text
    }
}

fn first_shown(errs: &Vec<String>) -> (r: Vec<String>)
    ensures
        views(r@) == views(errs@).take(
            if errs.len() > SHOWN {
                SHOWN as int
            } else {
                errs.len() as int
            },
        ),
{
    let shown: usize = if errs.len() > SHOWN {
        SHOWN
    } else {
        errs.len()
    };
    let mut head: Vec<String> = Vec::new();
    let mut i: usize = 0;
    while i < shown
        invariant
            i <= shown <= errs.len(),
            views(head@) == views(errs@).take(i as int),
        decreases shown - i,
    {
        let ghost before = head@;
        head.push(errs[i].clone());
        proof {
            assert(views(head@) =~= views(before).push(errs@[i as int]@));
            assert(views(errs@).take(i + 1) =~= views(errs@).take(i as int).push(
                errs@[i as int]@,
            ));
        }
        i += 1;
    }
    head
}

/// The report of failed transfers; `what` stands between the count and the list.
pub fn failure_report(errs: &Vec<String>, what: &str, tell_rest: bool) -> (r: String)
    ensures
        r@ == failure_text(views(errs@), what@, tell_rest),
{
    let head: Vec<String> = first_shown(errs);
    let list: String = join(&head, "\n  ");
    let n: String = decimal_string(errs.len() as u64);
    let text: String = joined3(n.as_str(), what, list.as_str());
    if tell_rest && errs.len() > SHOWN {
        let rest: String = decimal_string((errs.len() - SHOWN) as u64);
        let more: String = joined3("\n  ... and ", rest.as_str(), " more");
        joined(text.as_str(), more.as_str())
    } else {
        text
    }
}

// ---------------------------------------------------------------------------
// The upload set
// ---------------------------------------------------------------------------

/// A list of different names in alphabetical order.
pub open spec fn is_name_set(s: Seq<Seq<char>>) -> bool {
    alphabetical(s) && s.no_duplicates()
}

/// The different names of a list, in alphabetical order.
pub fn name_set(names: Vec<String>) -> (r: Vec<String>)
    ensures
        is_name_set(views(r@)),
        forall|x: Seq<char>| views(r@).contains(x) <==> views(names@).contains(x),
{
    let ghost given = views(names@);
    let sorted: Vec<String> = sort_names(names);
    let ghost all = views(sorted@);
    let mut out: Vec<String> = Vec::new();
    let mut i: usize = 0;
    while i < sorted.len()
        invariant
            all == views(sorted@),
            alphabetical(all),
            i <= sorted.len(),
            is_name_set(views(out@)),
            i > 0 ==> out.len() > 0 && views(out@).last() == all[i - 1],
            i == 0 ==> out.len() == 0,
            forall|k: int| 0 <= k < i ==> views(out@).contains(#[trigger] all[k]),
            forall|k: int| 0 <= k < out.len() ==> all.take(i as int).contains(#[trigger] views(out@)[k]),
        decreases sorted.len() - i,
    {
        let ghost before = views(out@);
        proof {
            assert(all[i as int] == sorted@[i as int]@);
            assert(all.take(i + 1) =~= all.take(i as int).push(all[i as int]));
            assert forall|x: Seq<char>| all.take(i as int).contains(x) implies all.take(
                i + 1,
            ).contains(x) by {
                let k = choose|k: int| 0 <= k < i && all.take(i as int)[k] == x;
                assert(all.take(i + 1)[k] == x);
            }
            assert(all.take(i + 1)[i as int] == all[i as int]);
        }
        if out.len() == 0 || !same(out[out.len() - 1].as_str(), sorted[i].as_str()) {
            proof {
                assert forall|k: int| 0 <= k < before.len() implies text_le(
                    #[trigger] before[k],
                    all[i as int],
                ) && before[k] != all[i as int] by {
                    let x = before[k];
                    assert(all.take(i as int).contains(x));
                    let q = choose|q: int| 0 <= q < i && all.take(i as int)[q] == x;
                    assert(text_le(all[q], all[i as int]));
                    if x == all[i as int] {
                        let last = before.last();
                        assert(last == all[i - 1]);
                        if q < i - 1 {
                            assert(text_le(all[q], all[i - 1]));
                        }
                        assert(text_le(all[i - 1], all[i as int]));
                        lemma_text_le_antisymmetric(all[i - 1], all[i as int]);
                        assert(views(out@)[out.len() - 1] == out@[out.len() - 1]@);
                    }
                }
            }
            out.push(sorted[i].clone());
            proof {
                assert(views(out@) =~= before.push(all[i as int]));
                assert forall|k: int| 0 <= k < i + 1 implies views(out@).contains(
                    #[trigger] all[k],
                ) by {
                    if k < i {
                        assert(before.contains(all[k]));
                        let q = choose|q: int| 0 <= q < before.len() && before[q] == all[k];
                        assert(views(out@)[q] == all[k]);
                    } else {
                        assert(views(out@)[before.len() as int] == all[k]);
                    }
                }
            }
        } else {
            proof {
                assert(views(out@)[out.len() - 1] == out@[out.len() - 1]@);
                assert(views(out@).contains(all[i as int]));
            }
        }
        i += 1;
    }
    proof {
        assert(all.take(sorted.len() as int) =~= all);
        assert forall|x: Seq<char>| views(out@).contains(x) <==> given.contains(x) by {
            vstd::seq_lib::to_multiset_contains(given, x);
            vstd::seq_lib::to_multiset_contains(all, x);
            if views(out@).contains(x) {
                let k = choose|k: int| 0 <= k < out@.len() && views(out@)[k] == x;
                assert(all.contains(views(out@)[k]));
            }
            if all.contains(x) {
                let k = choose|k: int| 0 <= k < all.len() && all[k] == x;
                assert(views(out@).contains(all[k]));
            }
        }
    }
    out
}

/// What one manifest contributes: the directory of its predictions, the names of its training
/// sets, the files that its jobs refer to and that exist, and the files found in the directory.
pub struct ManifestFiles {
    pub preds: String,
    pub training: Vec<String>,
    pub referenced: Vec<String>,
    pub found: Vec<String>,
}

/// A prediction on one of the training sets.
pub open spec fn on_training_set(training: Seq<Seq<char>>, f: Seq<char>) -> bool {
    exists|k: int|
        0 <= k < training.len() && ("."@ + #[trigger] training[k] + ".npy"@).is_suffix_of(f)
}

/// A file of the predictions directory that is not a prediction on a training set.
pub open spec fn kept_reference(m: ManifestFiles, f: Seq<char>) -> bool {
    (m.preds@ + "/"@).is_prefix_of(f) && !on_training_set(views(m.training@), f)
}

/// A log or a configuration.
pub open spec fn kept_log(f: Seq<char>) -> bool {
    ".out"@.is_suffix_of(f) || ".cfg"@.is_suffix_of(f)
}

/// What the store is to hold of one manifest.
pub open spec fn contributes(m: ManifestFiles, f: Seq<char>) -> bool {
    (views(m.referenced@).contains(f) && kept_reference(m, f)) || (views(m.found@).contains(f)
        && kept_log(f))
}

/// What the store is to hold.
pub open spec fn belongs(manifests: Seq<ManifestFiles>, f: Seq<char>) -> bool {
    exists|k: int| 0 <= k < manifests.len() && contributes(#[trigger] manifests[k], f)
}

fn is_on_training_set(training: &Vec<String>, f: &str) -> (r: bool)
    ensures
        r == on_training_set(views(training@), f@),
{
    let mut k: usize = 0;
    while k < training.len()
        invariant
            k <= training.len(),
            forall|j: int|
                0 <= j < k ==> !("."@ + #[trigger] views(training@)[j] + ".npy"@).is_suffix_of(f@),
        decreases training.len() - k,
    {
        let suffix: String = joined3(".", training[k].as_str(), ".npy");
        proof {
            assert(views(training@)[k as int] == training@[k as int]@);
        }
        if ends_with(f, suffix.as_str()) {
            return true;
        }
        k += 1;
    }
    false
}

proof fn lemma_pushed(before: Seq<Seq<char>>, x: Seq<char>, y: Seq<char>)
    ensures
        before.push(x).contains(y) <==> before.contains(y) || x == y,
{
    let after = before.push(x);
    if before.contains(y) {
        let k = choose|k: int| 0 <= k < before.len() && before[k] == y;
        assert(after[k] == y);
    }
    if x == y {
        assert(after[before.len() as int] == y);
    }
    if after.contains(y) {
        let k = choose|k: int| 0 <= k < after.len() && after[k] == y;
        if k < before.len() {
            assert(before[k] == y);
        }
    }
}

fn add_contributions(m: &ManifestFiles, out: &mut Vec<String>)
    ensures
        forall|x: Seq<char>|
            views(final(out)@).contains(x) <==> views(old(out)@).contains(x) || contributes(*m, x),
{
    let ghost start = views(out@);
    let dir: String = joined(m.preds.as_str(), "/");
    let mut i: usize = 0;
    while i < m.referenced.len()
        invariant
            dir@ == m.preds@ + "/"@,
            i <= m.referenced.len(),
            forall|x: Seq<char>| #[trigger]
                views(out@).contains(x) <==> start.contains(x) || (views(m.referenced@).take(
                    i as int,
                ).contains(x) && kept_reference(*m, x)),
        decreases m.referenced.len() - i,
    {
        let f: &String = &m.referenced[i];
        let ghost before = views(out@);
        let keep: bool = starts_with(f.as_str(), dir.as_str()) && !is_on_training_set(
            &m.training,
            f.as_str(),
        );
        if keep {
            out.push(f.clone());
            proof {
                assert(views(out@) =~= before.push(f@));
            }
        }
        proof {
            let refs = views(m.referenced@);
            assert(refs.take(i + 1) =~= refs.take(i as int).push(f@));
            assert forall|x: Seq<char>| #[trigger]
                views(out@).contains(x) <==> start.contains(x) || (refs.take(i + 1).contains(x)
                    && kept_reference(*m, x)) by {
                lemma_pushed(refs.take(i as int), f@, x);
                lemma_pushed(before, f@, x);
            }
        }
        i += 1;
    }
    proof {
        assert(views(m.referenced@).take(m.referenced.len() as int) =~= views(m.referenced@));
    }
    let ghost mid = views(out@);
    let mut j: usize = 0;
    while j < m.found.len()
        invariant
            j <= m.found.len(),
            forall|x: Seq<char>| #[trigger]
                views(out@).contains(x) <==> mid.contains(x) || (views(m.found@).take(
                    j as int,
                ).contains(x) && kept_log(x)),
        decreases m.found.len() - j,
    {
        let f: &String = &m.found[j];
        let ghost before = views(out@);
        let keep: bool = ends_with(f.as_str(), ".out") || ends_with(f.as_str(), ".cfg");
        if keep {
            out.push(f.clone());
            proof {
                assert(views(out@) =~= before.push(f@));
            }
        }
        proof {
            let found = views(m.found@);
            assert(found.take(j + 1) =~= found.take(j as int).push(f@));
            assert forall|x: Seq<char>| #[trigger]
                views(out@).contains(x) <==> mid.contains(x) || (found.take(j + 1).contains(x)
                    && kept_log(x)) by {
                lemma_pushed(found.take(j as int), f@, x);
                lemma_pushed(before, f@, x);
            }
        }
        j += 1;
    }
    proof {
        assert(views(m.found@).take(m.found.len() as int) =~= views(m.found@));
        assert forall|x: Seq<char>|
            views(out@).contains(x) <==> start.contains(x) || contributes(*m, x) by {
            assert(mid.contains(x) <==> start.contains(x) || (views(m.referenced@).contains(x)
                && kept_reference(*m, x)));
        }
    }
}

/// What the store is to hold: the predictions that the manifests' jobs refer to, other than those
/// on the training sets, and the logs and configurations beside them.
pub fn upload_set(manifests: &Vec<ManifestFiles>) -> (r: Vec<String>)
    ensures
        is_name_set(views(r@)),
        forall|x: Seq<char>| views(r@).contains(x) <==> belongs(manifests@, x),
{
    let mut all: Vec<String> = Vec::new();
    let mut i: usize = 0;
    while i < manifests.len()
        invariant
            i <= manifests.len(),
            forall|x: Seq<char>|
                views(all@).contains(x) <==> exists|k: int|
                    0 <= k < i && contributes(#[trigger] manifests@[k], x),
        decreases manifests.len() - i,
    {
        let ghost before = views(all@);
        add_contributions(&manifests[i], &mut all);
        proof {
            assert forall|x: Seq<char>|
                views(all@).contains(x) <==> exists|k: int|
                    0 <= k < i + 1 && contributes(#[trigger] manifests@[k], x) by {
                if before.contains(x) {
                    let k = choose|k: int| 0 <= k < i && contributes(#[trigger] manifests@[k], x);
                    assert(contributes(manifests@[k], x));
                }
                if contributes(manifests@[i as int], x) {
                    assert(views(all@).contains(x));
                }
            }
        }
        i += 1;
    }
    name_set(all)
}

// ---------------------------------------------------------------------------
// Pushing
// ---------------------------------------------------------------------------

/// The last place of a path in an index.
pub open spec fn last_place(paths: Seq<Seq<char>>, path: Seq<char>) -> Option<usize>
    decreases paths.len(),
{
    if paths.len() == 0 {
        None
    } else if paths.last() == path {
        Some((paths.len() - 1) as usize)
    } else {
        last_place(paths.drop_last(), path)
    }
}

proof fn lemma_last_place(paths: Seq<Seq<char>>, path: Seq<char>)
    requires
        paths.len() <= usize::MAX,
    ensures
        match last_place(paths, path) {
            Some(p) => p < paths.len() && paths[p as int] == path,
            None => !paths.contains(path),
        },
    decreases paths.len(),
{
    if paths.len() > 0 && paths.last() != path {
        lemma_last_place(paths.drop_last(), path);
        if paths.contains(path) {
            let k = choose|k: int| 0 <= k < paths.len() && paths[k] == path;
            assert(paths.drop_last()[k] == path);
        }
    }
}

fn place_of(index: &Vec<FileEntry>, path: &str) -> (r: Option<usize>)
    ensures
        r == last_place(paths_of(index@), path@),
        r matches Some(p) ==> p < index.len() && index@[p as int].path@ == path@,
        r is None ==> !paths_of(index@).contains(path@),
{
    let mut i: usize = index.len();
    let ghost paths = paths_of(index@);
    proof {
        assert(paths.take(i as int) =~= paths);
        lemma_last_place(paths, path@);
    }
    while i > 0
        invariant
            paths == paths_of(index@),
            i <= index.len(),
            last_place(paths, path@) == last_place(paths.take(i as int), path@),
        decreases i,
    {
        proof {
            assert(paths.take(i as int).drop_last() =~= paths.take(i - 1));
            assert(paths.take(i as int).last() == index@[i - 1].path@);
        }
        if same(index[i - 1].path.as_str(), path) {
            return Some(i - 1);
        }
        i -= 1;
    }
    None
}

pub open spec fn is_new(index: Seq<FileEntry>) -> spec_fn(Seq<char>) -> bool {
    |p: Seq<char>| !paths_of(index).contains(p)
}

/// The places in the index of the paths of a set that it lists, in set order.
pub open spec fn indexed_places(index: Seq<FileEntry>, set: Seq<Seq<char>>) -> Seq<usize>
    decreases set.len(),
{
    if set.len() == 0 {
        Seq::empty()
    } else {
        let rest = indexed_places(index, set.drop_last());
        match last_place(paths_of(index), set.last()) {
            Some(p) => rest.push(p),
            None => rest,
        }
    }
}

/// What an index knows of an upload set: the places of the files it lists, and the files it does
/// not list.
pub struct PushPlan {
    pub indexed: Vec<usize>,
    pub fresh: Vec<String>,
}

/// Compares an upload set with an index.
pub fn push_plan(set: &Vec<String>, index: &Vec<FileEntry>) -> (r: PushPlan)
    ensures
        r.indexed@ == indexed_places(index@, views(set@)),
        views(r.fresh@) == views(set@).filter(is_new(index@)),
        forall|k: int| 0 <= k < r.indexed.len() ==> (#[trigger] r.indexed@[k]) < index.len(),
        r.indexed.len() + r.fresh.len() == set.len(),
{
    let mut indexed: Vec<usize> = Vec::new();
    let mut fresh: Vec<String> = Vec::new();
    let mut i: usize = 0;
    let ghost all = views(set@);
    proof {
        assert(index.len() <= usize::MAX);
        assert(all.take(0) =~= Seq::empty());
        reveal(Seq::filter);
        assert(views(fresh@) =~= Seq::empty());
    }
    while i < set.len()
        invariant
            all == views(set@),
            index.len() <= usize::MAX,
            i <= set.len(),
            indexed@ == indexed_places(index@, all.take(i as int)),
            views(fresh@) == all.take(i as int).filter(is_new(index@)),
            forall|k: int| 0 <= k < indexed.len() ==> (#[trigger] indexed@[k]) < index.len(),
            indexed.len() + fresh.len() == i,
        decreases set.len() - i,
    {
        let ghost before = fresh@;
        proof {
            assert(all.take(i + 1).drop_last() =~= all.take(i as int));
            assert(all.take(i + 1).last() == set@[i as int]@);
            assert(all.take(i + 1) =~= all.take(i as int).push(set@[i as int]@));
            all.take(i as int).lemma_filter_push(set@[i as int]@, is_new(index@));
            lemma_last_place(paths_of(index@), set@[i as int]@);
        }
        match place_of(index, set[i].as_str()) {
            Some(p) => {
                indexed.push(p);
                proof {
                    assert(paths_of(index@)[p as int] == set@[i as int]@);
                }
            },
            None => {
                fresh.push(set[i].clone());
                proof {
                    assert(views(fresh@) =~= views(before).push(set@[i as int]@));
                }
            },
        }
        i += 1;
    }
    proof {
        assert(all.take(set.len() as int) =~= all);
    }
    PushPlan { indexed, fresh }
}

/// The paths of the listed entries that are not up to date, in list order.
pub open spec fn changed_paths(
    index: Seq<FileEntry>,
    indexed: Seq<usize>,
    states: Seq<LocalState>,
) -> Seq<Seq<char>>
    decreases indexed.len(),
{
    if indexed.len() == 0 {
        Seq::empty()
    } else {
        let rest = changed_paths(index, indexed.drop_last(), states);
        if states[indexed.len() - 1] != LocalState::Current {
            rest.push(index[indexed.last() as int].path@)
        } else {
            rest
        }
    }
}

/// The changed paths are those of the listed entries whose own state is not current, one for each.
pub proof fn lemma_changed_paths(
    index: Seq<FileEntry>,
    indexed: Seq<usize>,
    states: Seq<LocalState>,
)
    ensures
        forall|x: Seq<char>| #[trigger]
            changed_paths(index, indexed, states).contains(x) <==> exists|k: int|
                0 <= k < indexed.len() && #[trigger] states[k] != LocalState::Current
                    && index[indexed[k] as int].path@ == x,
    decreases indexed.len(),
{
    if indexed.len() > 0 {
        let h = indexed.drop_last();
        let a = changed_paths(index, h, states);
        let b = changed_paths(index, indexed, states);
        lemma_changed_paths(index, h, states);
        let n = indexed.len() - 1;
        assert forall|x: Seq<char>| #[trigger] b.contains(x) <==> exists|k: int|
            0 <= k < indexed.len() && #[trigger] states[k] != LocalState::Current
                && index[indexed[k] as int].path@ == x by {
            assert(a.contains(x) <==> exists|k: int|
                0 <= k < h.len() && #[trigger] states[k] != LocalState::Current
                    && index[h[k] as int].path@ == x);
            if states[n] != LocalState::Current {
                lemma_pushed(a, index[indexed.last() as int].path@, x);
            }
            if a.contains(x) {
                let k = choose|k: int|
                    0 <= k < h.len() && #[trigger] states[k] != LocalState::Current
                        && index[h[k] as int].path@ == x;
                assert(h[k] == indexed[k]);
            }
            if exists|k: int|
                0 <= k < indexed.len() && #[trigger] states[k] != LocalState::Current
                    && index[indexed[k] as int].path@ == x {
                let k = choose|k: int|
                    0 <= k < indexed.len() && #[trigger] states[k] != LocalState::Current
                        && index[indexed[k] as int].path@ == x;
                if k < h.len() {
                    assert(h[k] == indexed[k]);
                    assert(a.contains(x));
                } else {
                    assert(b[b.len() - 1] == x);
                }
            }
        }
    }
}

/// The files to upload, in alphabetical order, and how many indexed files are unchanged.
pub struct PushTodo {
    pub todo: Vec<String>,
    pub unchanged: usize,
    pub changed: usize,
}

/// Plans an upload: what the index does not list, and what it lists and has changed.
pub fn push_todo(plan: &PushPlan, index: &Vec<FileEntry>, states: &Vec<LocalState>) -> (r: PushTodo)
    requires
        states.len() == plan.indexed.len(),
        forall|k: int| 0 <= k < plan.indexed.len() ==> (#[trigger] plan.indexed@[k]) < index.len(),
    ensures
        alphabetical(views(r.todo@)),
        views(r.todo@).to_multiset() == (views(plan.fresh@) + changed_paths(
            index@,
            plan.indexed@,
            states@,
        )).to_multiset(),
        r.unchanged == picks(states.len() as nat, in_state(states@, LocalState::Current)).len(),
        r.changed == changed_paths(index@, plan.indexed@, states@).len(),
        r.unchanged + r.changed == plan.indexed.len(),
        r.todo.len() == plan.fresh.len() + r.changed,
        // A path is uploaded if and only if it is fresh, or an indexed entry of its own that is not
        // current has it.
        forall|x: Seq<char>| #[trigger]
            views(r.todo@).contains(x) <==> views(plan.fresh@).contains(x) || exists|k: int|
                0 <= k < plan.indexed.len() && #[trigger] states@[k] != LocalState::Current
                    && index@[plan.indexed@[k] as int].path@ == x,
{
    let mut all: Vec<String> = Vec::new();
    let mut i: usize = 0;
    while i < plan.fresh.len()
        invariant
            i <= plan.fresh.len(),
            views(all@) == views(plan.fresh@).take(i as int),
        decreases plan.fresh.len() - i,
    {
        let ghost before = all@;
        all.push(plan.fresh[i].clone());
        proof {
            assert(views(all@) =~= views(before).push(plan.fresh@[i as int]@));
            assert(views(plan.fresh@).take(i + 1) =~= views(plan.fresh@).take(i as int).push(
                plan.fresh@[i as int]@,
            ));
        }
        i += 1;
    }
    let ghost fresh = views(plan.fresh@);
    proof {
        assert(fresh.take(plan.fresh.len() as int) =~= fresh);
        assert(fresh + Seq::<Seq<char>>::empty() =~= fresh);
        assert(plan.indexed@.take(0) =~= Seq::empty());
    }
    let mut unchanged: usize = 0;
    let mut changed: usize = 0;
    let mut k: usize = 0;
    while k < plan.indexed.len()
        invariant
            states.len() == plan.indexed.len(),
            forall|k: int|
                0 <= k < plan.indexed.len() ==> (#[trigger] plan.indexed@[k]) < index.len(),
            k <= plan.indexed.len(),
            fresh == views(plan.fresh@),
            views(all@) == fresh + changed_paths(index@, plan.indexed@.take(k as int), states@),
            unchanged == picks(k as nat, in_state(states@, LocalState::Current)).len(),
            changed == changed_paths(index@, plan.indexed@.take(k as int), states@).len(),
            unchanged + changed == k,
        decreases plan.indexed.len() - k,
    {
        proof {
            assert(plan.indexed@.take(k + 1).drop_last() =~= plan.indexed@.take(k as int));
            assert(plan.indexed@[k as int] < index.len());
        }
        if states[k] == LocalState::Current {
            unchanged += 1;
        } else {
            let ghost before = all@;
            let ghost so_far = changed_paths(index@, plan.indexed@.take(k as int), states@);
            let p: String = index[plan.indexed[k]].path.clone();
            all.push(p);
            changed += 1;
            proof {
                assert(views(all@) =~= views(before).push(p@));
                assert((fresh + so_far).push(p@) =~= fresh + so_far.push(p@));
            }
        }
        k += 1;
    }
    proof {
        assert(plan.indexed@.take(plan.indexed.len() as int) =~= plan.indexed@);
    }
    let ghost unsorted = views(all@);
    let todo: Vec<String> = sort_names(all);
    proof {
        vstd::seq_lib::to_multiset_len(views(todo@));
        vstd::seq_lib::to_multiset_len(unsorted);
        let changes = changed_paths(index@, plan.indexed@, states@);
        lemma_changed_paths(index@, plan.indexed@, states@);
        assert forall|x: Seq<char>| #[trigger]
            views(todo@).contains(x) <==> fresh.contains(x) || exists|k: int|
                0 <= k < plan.indexed.len() && #[trigger] states@[k] != LocalState::Current
                    && index@[plan.indexed@[k] as int].path@ == x by {
            views(todo@).to_multiset_ensures();
            unsorted.to_multiset_ensures();
            assert(views(todo@).contains(x) <==> views(todo@).to_multiset().contains(x));
            assert(unsorted.contains(x) <==> unsorted.to_multiset().contains(x));
            assert(unsorted == fresh + changes);
            if fresh.contains(x) {
                let i = fresh.index_of(x);
                assert(unsorted[i] == x);
            }
            if changes.contains(x) {
                let i = changes.index_of(x);
                assert(unsorted[fresh.len() + i] == x);
            }
            if unsorted.contains(x) {
                let i = unsorted.index_of(x);
                if i < fresh.len() {
                    assert(fresh[i] == x);
                } else {
                    assert(changes[i - fresh.len()] == x);
                }
            }
            assert(unsorted.contains(x) <==> fresh.contains(x) || changes.contains(x));
        }
    }
    PushTodo { todo, unchanged, changed }
}

pub open spec fn outside(index: Seq<FileEntry>, set: Seq<Seq<char>>) -> spec_fn(int) -> bool {
    |i: int| !set.contains(index[i].path@)
}

/// The places of the indexed files outside an upload set.
pub fn orphans(set: &Vec<String>, index: &Vec<FileEntry>) -> (r: Vec<usize>)
    ensures
        r@ == picks(index.len() as nat, outside(index@, views(set@))),
        forall|k: int| 0 <= k < r.len() ==> (#[trigger] r@[k]) < index.len(),
{
    let mut out: Vec<usize> = Vec::new();
    let mut i: usize = 0;
    while i < index.len()
        invariant
            i <= index.len(),
            out@ == picks(i as nat, outside(index@, views(set@))),
            forall|k: int| 0 <= k < out.len() ==> (#[trigger] out@[k]) < index.len(),
        decreases index.len() - i,
    {
        if !holds(set, index[i].path.as_str()) {
            out.push(i);
        }
        i += 1;
    }
    out
}

// ---------------------------------------------------------------------------
// Listings
// ---------------------------------------------------------------------------

/// The objects that the lines of a listing name, without the index itself.
pub open spec fn objects_in(lines: Seq<Seq<char>>, index: Seq<char>) -> Seq<Seq<char>>
    decreases lines.len(),
{
    if lines.len() == 0 {
        Seq::empty()
    } else {
        let before = objects_in(lines.drop_last(), index);
        let name = trimmed(lines.last());
        if name.len() == 0 || name == index {
            before
        } else {
            before.push(name)
        }
    }
}

/// Reads a listing of the store, one object a line, for the objects that belong in the index.
pub fn list_objects(listing: &str, index: &str) -> (r: Vec<String>)
    ensures
        views(r@) == objects_in(split_on(listing@, '\n'), index@),
{
    let lines: Vec<String> = split(listing, '\n');
    let ghost l = views(lines@);
    let mut out: Vec<String> = no_names();
    let mut i: usize = 0;
    proof {
        assert(l.take(0) =~= Seq::<Seq<char>>::empty());
    }
    while i < lines.len()
        invariant
            i <= lines.len(),
            l == views(lines@),
            views(out@) == objects_in(l.take(i as int), index@),
        decreases lines.len() - i,
    {
        let name: String = trim(lines[i].as_str());
        proof {
            assert(l[i as int] == lines@[i as int]@);
            assert(l.take(i + 1).drop_last() =~= l.take(i as int));
            assert(l.take(i + 1).last() == l[i as int]);
        }
        if name.as_str().unicode_len() > 0 && !same(name.as_str(), index) {
            push_name(&mut out, &name);
        }
        i += 1;
    }
    proof {
        assert(l.take(l.len() as int) =~= l);
    }
    out
}

// ---------------------------------------------------------------------------
// Transfers
// ---------------------------------------------------------------------------

/// What a pull does with the files to fetch.
#[derive(Clone, Copy, PartialEq, Eq, Structural, Debug)]
pub enum PullStep {
    /// There are none.
    Nothing,
    /// They are only told.
    DryRun,
    /// All are fetched.
    Download,
}

/// What a push does with the files to upload.
#[derive(Clone, Copy, PartialEq, Eq, Structural, Debug)]
pub enum PushStep {
    /// There are none.
    UpToDate,
    /// They are only told.
    DryRun,
    /// All are uploaded.
    Upload,
}

/// Plans a pull of `todo` files.
pub fn pull_step(todo: usize, dry: bool) -> (r: PullStep)
    ensures
        r == (if todo == 0 {
            PullStep::Nothing
        } else if dry {
            PullStep::DryRun
        } else {
            PullStep::Download
        }),
{
    if todo == 0 {
        PullStep::Nothing
    } else if dry {
        PullStep::DryRun
    } else {
        PullStep::Download
    }
}

/// Plans a push of `todo` files.
pub fn push_step(todo: usize, dry: bool) -> (r: PushStep)
    ensures
        r == (if todo == 0 {
            PushStep::UpToDate
        } else if dry {
            PushStep::DryRun
        } else {
            PushStep::Upload
        }),
{
    if todo == 0 {
        PushStep::UpToDate
    } else if dry {
        PushStep::DryRun
    } else {
        PushStep::Upload
    }
}

/// Whether the index is written anew after uploads or deletions: only where none of them failed,
/// so that it never names a file that the store lacks.
pub fn refreshes(failures: usize) -> (r: bool)
    ensures
        r == (failures == 0),
{
    failures == 0
}

// ---------------------------------------------------------------------------
// Pruning
// ---------------------------------------------------------------------------

/// What a prune does with the files outside the upload set.
pub enum PruneStep {
    /// There are none.
    Nothing,
    /// Some have no intact local copy: nothing is deleted.
    Refuse(Vec<usize>),
    /// Nothing is deleted without a word from the user.
    DryRun,
    /// All are deleted.
    Delete,
}

/// The places among the orphans of those without an intact local copy.
pub open spec fn unverified(orphans: Seq<usize>, states: Seq<LocalState>) -> Seq<usize>
    decreases orphans.len(),
{
    if orphans.len() == 0 {
        Seq::empty()
    } else {
        let rest = unverified(orphans.drop_last(), states);
        if states[orphans.len() - 1] != LocalState::Current {
            rest.push(orphans.last())
        } else {
            rest
        }
    }
}

/// Plans a prune: a file is deleted only if all of them have intact local copies and the user has
/// said yes.
pub fn prune_step(orphans: &Vec<usize>, states: &Vec<LocalState>, yes: bool) -> (r: PruneStep)
    requires
        states.len() == orphans.len(),
    ensures
        match r {
            PruneStep::Nothing => orphans.len() == 0,
            PruneStep::Refuse(v) => v@ == unverified(orphans@, states@) && v.len() > 0,
            PruneStep::DryRun => orphans.len() > 0 && unverified(orphans@, states@).len() == 0
                && !yes,
            PruneStep::Delete => orphans.len() > 0 && unverified(orphans@, states@).len() == 0
                && yes,
        },
        r is Delete ==> forall|k: int|
            0 <= k < states.len() ==> #[trigger] states@[k] == LocalState::Current,
{
    if orphans.len() == 0 {
        return PruneStep::Nothing;
    }
    let mut bad: Vec<usize> = Vec::new();
    let mut k: usize = 0;
    proof {
        assert(orphans@.take(0) =~= Seq::empty());
    }
    while k < orphans.len()
        invariant
            states.len() == orphans.len(),
            k <= orphans.len(),
            bad@ == unverified(orphans@.take(k as int), states@),
            bad.len() == 0 ==> forall|j: int|
                0 <= j < k ==> #[trigger] states@[j] == LocalState::Current,
        decreases orphans.len() - k,
    {
        proof {
            assert(orphans@.take(k + 1).drop_last() =~= orphans@.take(k as int));
        }
        if states[k] != LocalState::Current {
            bad.push(orphans[k]);
        }
        k += 1;
    }
    proof {
        assert(orphans@.take(orphans.len() as int) =~= orphans@);
    }
    if bad.len() > 0 {
        PruneStep::Refuse(bad)
    } else if yes {
        PruneStep::Delete
    } else {
        PruneStep::DryRun
    }
}

// ---------------------------------------------------------------------------
// Orphans by extension
// ---------------------------------------------------------------------------

/// The extension of a path: what follows its last point, or all of it.
pub open spec fn extension(s: Seq<char>) -> Seq<char> {
    after_last_spec(s, '.')
}

/// An extension, how many files have it, and their size.
pub struct ExtRow {
    pub ext: String,
    pub count: usize,
    pub bytes: u64,
}

impl View for ExtRow {
    type V = (Seq<char>, nat, nat);

    open spec fn view(&self) -> (Seq<char>, nat, nat) {
        (self.ext@, self.count as nat, self.bytes as nat)
    }
}

/// The place of the row of an extension; the end where there is none.
pub open spec fn row_place(rows: Seq<(Seq<char>, nat, nat)>, ext: Seq<char>) -> int
    decreases rows.len(),
{
    if rows.len() == 0 {
        0
    } else if row_place(rows.drop_last(), ext) < rows.len() - 1 {
        row_place(rows.drop_last(), ext)
    } else if rows.last().0 == ext {
        rows.len() - 1
    } else {
        rows.len() as int
    }
}

proof fn lemma_row_place(rows: Seq<(Seq<char>, nat, nat)>, ext: Seq<char>, at: int)
    requires
        0 <= at <= rows.len(),
        forall|k: int| 0 <= k < at ==> (#[trigger] rows[k]).0 != ext,
        at < rows.len() ==> rows[at].0 == ext,
    ensures
        row_place(rows, ext) == at,
    decreases rows.len(),
{
    if rows.len() > 0 {
        let rest = rows.drop_last();
        if at < rows.len() {
            if at < rest.len() {
                assert(rest[at] == rows[at]);
                lemma_row_place(rest, ext, at);
            } else {
                lemma_row_place(rest, ext, rest.len() as int);
            }
        } else {
            lemma_row_place(rest, ext, rest.len() as int);
            assert(rows[rows.len() - 1].0 != ext);
        }
    }
}

/// The listed entries by extension, in the order in which the extensions are met.
pub open spec fn by_extension(index: Seq<FileEntry>, which: Seq<usize>) -> Seq<
    (Seq<char>, nat, nat),
>
    decreases which.len(),
{
    if which.len() == 0 {
        Seq::empty()
    } else {
        let rows = by_extension(index, which.drop_last());
        let e = index[which.last() as int];
        let ext = extension(e.path@);
        let at = row_place(rows, ext);
        if at < rows.len() {
            rows.update(at, (ext, rows[at].1 + 1, rows[at].2 + e.size as nat))
        } else {
            rows.push((ext, 1, e.size as nat))
        }
    }
}

/// Orders rows by size, the largest first.
pub open spec fn size_keys(rows: Seq<(Seq<char>, nat, nat)>) -> Seq<u64> {
    rows.map_values(|r: (Seq<char>, nat, nat)| (u64::MAX - r.2) as u64)
}

pub open spec fn row_views(rows: Seq<ExtRow>) -> Seq<(Seq<char>, nat, nat)> {
    rows.map_values(|r: ExtRow| r@)
}

/// Groups the listed entries by extension, the largest group first; of two equally large groups
/// the one that was met first comes first.
pub fn group_by_extension(index: &Vec<FileEntry>, which: &Vec<usize>) -> (r: Vec<ExtRow>)
    requires
        forall|k: int| 0 <= k < which.len() ==> (#[trigger] which@[k]) < index.len(),
        total_of(index@, which@) <= u64::MAX,
    ensures
        exists|perm: Seq<usize>| #[trigger]
            is_order(size_keys(by_extension(index@, which@)), perm) && row_views(r@) == gather(
                by_extension(index@, which@),
                perm,
            ),
{
    let mut rows: Vec<ExtRow> = Vec::new();
    let mut k: usize = 0;
    proof {
        assert(which@.take(0) =~= Seq::empty());
        assert(row_views(rows@) =~= Seq::empty());
    }
    while k < which.len()
        invariant
            forall|k: int| 0 <= k < which.len() ==> (#[trigger] which@[k]) < index.len(),
            total_of(index@, which@) <= u64::MAX,
            k <= which.len(),
            row_views(rows@) == by_extension(index@, which@.take(k as int)),
            rows.len() <= k,
            forall|j: int|
                0 <= j < rows.len() ==> (#[trigger] rows@[j]).count <= k && rows@[j].bytes
                    <= total_of(index@, which@.take(k as int)),
        decreases which.len() - k,
    {
        assert(which@[k as int] < index.len());
        let e: &FileEntry = &index[which[k]];
        let ext: String = after_last(e.path.as_str(), '.');
        let ghost before = row_views(rows@);
        proof {
            assert(which@.take(k + 1).drop_last() =~= which@.take(k as int));
            assert(which@.take(k + 1).last() == which@[k as int]);
            lemma_total_grows(index@, which@, k + 1);
        }
        let mut at: usize = 0;
        while at < rows.len() && !same(rows[at].ext.as_str(), ext.as_str())
            invariant
                at <= rows.len(),
                before == row_views(rows@),
                forall|j: int| 0 <= j < at ==> (#[trigger] before[j]).0 != ext@,
            decreases rows.len() - at,
        {
            proof {
                assert(before[at as int].0 == rows@[at as int].ext@);
            }
            at += 1;
        }
        proof {
            if at < rows.len() {
                assert(before[at as int].0 == rows@[at as int].ext@);
            }
            lemma_row_place(before, ext@, at as int);
        }
        if at < rows.len() {
            assert(rows@[at as int].count <= k);
            let count: usize = rows[at].count + 1;
            let bytes: u64 = rows[at].bytes + e.size;
            rows.set(at, ExtRow { ext, count, bytes });
            proof {
                assert(row_views(rows@) =~= before.update(
                    at as int,
                    (ext@, count as nat, bytes as nat),
                ));
            }
        } else {
            rows.push(ExtRow { ext, count: 1, bytes: e.size });
            proof {
                assert(row_views(rows@) =~= before.push((ext@, 1, e.size as nat)));
            }
        }
        k += 1;
    }
    proof {
        assert(which@.take(which.len() as int) =~= which@);
    }
    let ghost groups = by_extension(index@, which@);
    let mut keys: Vec<u64> = Vec::new();
    let mut i: usize = 0;
    while i < rows.len()
        invariant
            i <= rows.len(),
            groups == row_views(rows@),
            keys@ == size_keys(groups).take(i as int),
        decreases rows.len() - i,
    {
        let key: u64 = u64::MAX - rows[i].bytes;
        keys.push(key);
        proof {
            assert(groups[i as int] == rows@[i as int]@);
            assert(size_keys(groups).take(i + 1) =~= size_keys(groups).take(i as int).push(key));
        }
        i += 1;
    }
    proof {
        assert(size_keys(groups).take(rows.len() as int) =~= size_keys(groups));
    }
    let perm: Vec<usize> = sort_order(&keys);
    let mut out: Vec<ExtRow> = Vec::new();
    let mut j: usize = 0;
    while j < perm.len()
        invariant
            groups == row_views(rows@),
            is_order(size_keys(groups), perm@),
            j <= perm.len(),
            row_views(out@) == gather(groups, perm@).take(j as int),
        decreases perm.len() - j,
    {
        assert(perm@[j as int] < size_keys(groups).len());
        let from: &ExtRow = &rows[perm[j]];
        let row: ExtRow = ExtRow { ext: from.ext.clone(), count: from.count, bytes: from.bytes };
        let ghost before = out@;
        out.push(row);
        proof {
            assert(groups[perm@[j as int] as int] == rows@[perm@[j as int] as int]@);
            assert(row_views(out@) =~= row_views(before).push(row@));
            assert(gather(groups, perm@).take(j + 1) =~= gather(groups, perm@).take(
                j as int,
            ).push(row@));
        }
        j += 1;
    }
    proof {
        assert(gather(groups, perm@).take(perm.len() as int) =~= gather(groups, perm@));
        assert(is_order(size_keys(groups), perm@));
    }
    out
}

/// No file of the upload set is ever among those that a prune may delete.
pub proof fn lemma_prune_spares_upload_set(
    index: Seq<FileEntry>,
    set: Seq<Seq<char>>,
    k: int,
)
    requires
        index.len() <= usize::MAX,
        0 <= k < picks(index.len(), outside(index, set)).len(),
    ensures
        !set.contains(index[picks(index.len(), outside(index, set))[k] as int].path@),
{
    lemma_picks(index.len(), outside(index, set));
    assert(picks(index.len(), outside(index, set))[k] < index.len());
}

/// Where every file is up to date, a pull fetches nothing and a push finds nothing changed.
pub proof fn lemma_nothing_to_transfer(
    index: Seq<FileEntry>,
    indexed: Seq<usize>,
    states: Seq<LocalState>,
)
    requires
        states.len() <= usize::MAX,
        indexed.len() <= states.len(),
        forall|i: int| 0 <= i < states.len() ==> #[trigger] states[i] == LocalState::Current,
    ensures
        picks(states.len(), not_current(states)).len() == 0,
        changed_paths(index, indexed, states).len() == 0,
    decreases indexed.len(),
{
    let p = picks(states.len(), not_current(states));
    lemma_picks(states.len(), not_current(states));
    if p.len() > 0 {
        assert(not_current(states)(p[0] as int));
        assert(states[p[0] as int] == LocalState::Current);
    }
    if indexed.len() > 0 {
        lemma_nothing_to_transfer(index, indexed.drop_last(), states);
        assert(states[indexed.len() - 1] == LocalState::Current);
    }
}

/// An entry is selected if and only if there are no patterns or one of them matches its path.
pub proof fn lemma_selected(entries: Seq<FileEntry>, patterns: Seq<Seq<char>>, i: int)
    requires
        0 <= i < entries.len() <= usize::MAX,
    ensures
        picks(entries.len(), wanted(entries, patterns)).contains(i as usize) <==> patterns.len() == 0
            || exists|k: int|
            0 <= k < patterns.len() && glob_matches(#[trigger] patterns[k], entries[i].path@),
{
    let pred = wanted(entries, patterns);
    lemma_picks(entries.len(), pred);
    if picks(entries.len(), pred).contains(i as usize) {
        let k = picks(entries.len(), pred).index_of(i as usize);
        assert(pred(picks(entries.len(), pred)[k] as int));
    }
    assert(pred(i) <==> patterns.len() == 0 || matches_any(patterns, entries[i].path@));
}

/// An entry is fetched if and only if its local copy is not current, and each state is counted as
/// often as it occurs.
pub proof fn lemma_pulled(states: Seq<LocalState>, s: LocalState)
    requires
        states.len() <= usize::MAX,
    ensures
        forall|i: int|
            0 <= i < states.len() ==> (picks(states.len(), not_current(states)).contains(
                i as usize,
            ) <==> #[trigger] states[i] != LocalState::Current),
        picks(states.len(), in_state(states, s)).len() == states.to_multiset().count(s),
{
    let pred = not_current(states);
    lemma_picks(states.len(), pred);
    assert forall|i: int| 0 <= i < states.len() implies (picks(states.len(), pred).contains(
        i as usize,
    ) <==> #[trigger] states[i] != LocalState::Current) by {
        assert(pred(i) <==> states[i] != LocalState::Current);
        if picks(states.len(), pred).contains(i as usize) {
            let k = picks(states.len(), pred).index_of(i as usize);
            assert(pred(picks(states.len(), pred)[k] as int));
        }
    }
    lemma_picks_counted(states, states.len(), s);
    assert(states.take(states.len() as int) =~= states);
}

proof fn lemma_picks_counted(states: Seq<LocalState>, n: nat, s: LocalState)
    requires
        n <= states.len(),
    ensures
        picks(n, in_state(states, s)).len() == states.take(n as int).to_multiset().count(s),
    decreases n,
{
    broadcast use vstd::multiset::group_multiset_axioms;

    if n > 0 {
        let m = (n - 1) as nat;
        lemma_picks_counted(states, m, s);
        assert(states.take(n as int) =~= states.take(m as int).push(states[m as int]));
        vstd::seq_lib::to_multiset_build(states.take(m as int), states[m as int]);
    } else {
        assert(states.take(0) =~= Seq::empty());
        states.take(0).to_multiset_ensures();
    }
}

/// Sizes are summed: one entry gives its own size, and two lists the sum of theirs.
pub proof fn lemma_total(entries: Seq<FileEntry>, a: Seq<usize>, b: Seq<usize>, i: usize)
    ensures
        total_of(entries, a + b) == total_of(entries, a) + total_of(entries, b),
        total_of(entries, seq![i]) == entries[i as int].size,
    decreases b.len(),
{
    reveal_with_fuel(total_of, 2);
    assert(seq![i].drop_last() =~= Seq::empty());
    if b.len() == 0 {
        assert(a + b =~= a);
    } else {
        lemma_total(entries, a, b.drop_last(), i);
        assert((a + b).drop_last() =~= a + b.drop_last());
        assert((a + b).last() == b.last());
    }
}

/// A preview shows the paths in order, as many as fit, and tells how many it leaves out.
pub proof fn lemma_preview(paths: Seq<Seq<char>>, i: int)
    ensures
        paths.len() <= 20 ==> preview_lines(paths).len() == paths.len(),
        paths.len() > 20 ==> preview_lines(paths).len() == 21 && preview_lines(paths)[20]
            == "  ... and "@ + decimal((paths.len() - 20) as nat) + " more"@,
        0 <= i < paths.len() && i < 20 ==> preview_lines(paths)[i] == "  "@ + paths[i],
{
}

/// A report of failures names each of them as long as there are ten or fewer, and tells how many
/// there are.
pub proof fn lemma_failures_told(errs: Seq<Seq<char>>, what: Seq<char>, tell_rest: bool)
    ensures
        errs.len() <= 10 ==> failure_text(errs, what, tell_rest) == decimal(errs.len()) + what
            + join_spec(errs, "\n  "@),
        errs.len() > 10 ==> (decimal(errs.len()) + what + join_spec(errs.take(10), "\n  "@)).is_prefix_of(
            failure_text(errs, what, tell_rest),
        ),
        errs.len() > 10 && tell_rest ==> ("\n  ... and "@ + decimal((errs.len() - 10) as nat)
            + " more"@).is_suffix_of(failure_text(errs, what, tell_rest)),
        errs.len() > 10 && !tell_rest ==> failure_text(errs, what, tell_rest) == decimal(
            errs.len(),
        ) + what + join_spec(errs.take(10), "\n  "@),
{
    if errs.len() <= 10 {
        assert(errs.take(errs.len() as int) =~= errs);
    }
}

/// A file is uploaded if and only if some manifest refers to it below its own predictions, for
/// none of its training sets, or some manifest's search found it and it is a log or a
/// configuration.
pub proof fn lemma_belongs(manifests: Seq<ManifestFiles>, f: Seq<char>)
    ensures
        belongs(manifests, f) <==> exists|k: int|
            0 <= k < manifests.len() && {
                ||| views((#[trigger] manifests[k]).referenced@).contains(f) && (manifests[k].preds@
                    + "/"@).is_prefix_of(f) && forall|j: int|
                    0 <= j < views(manifests[k].training@).len() ==> !("."@ + #[trigger] views(
                        manifests[k].training@,
                    )[j] + ".npy"@).is_suffix_of(f)
                ||| views(manifests[k].found@).contains(f) && (".out"@.is_suffix_of(f)
                    || ".cfg"@.is_suffix_of(f))
            },
{
    if belongs(manifests, f) {
        let k = choose|k: int| 0 <= k < manifests.len() && contributes(#[trigger] manifests[k], f);
        let m = manifests[k];
        assert(contributes(m, f));
    }
    if exists|k: int|
        0 <= k < manifests.len() && {
            ||| views((#[trigger] manifests[k]).referenced@).contains(f) && (manifests[k].preds@
                + "/"@).is_prefix_of(f) && forall|j: int|
                0 <= j < views(manifests[k].training@).len() ==> !("."@ + #[trigger] views(
                    manifests[k].training@,
                )[j] + ".npy"@).is_suffix_of(f)
            ||| views(manifests[k].found@).contains(f) && (".out"@.is_suffix_of(f)
                || ".cfg"@.is_suffix_of(f))
        } {
        let k = choose|k: int|
            0 <= k < manifests.len() && {
                ||| views((#[trigger] manifests[k]).referenced@).contains(f) && (manifests[k].preds@
                    + "/"@).is_prefix_of(f) && forall|j: int|
                    0 <= j < views(manifests[k].training@).len() ==> !("."@ + #[trigger] views(
                        manifests[k].training@,
                    )[j] + ".npy"@).is_suffix_of(f)
                ||| views(manifests[k].found@).contains(f) && (".out"@.is_suffix_of(f)
                    || ".cfg"@.is_suffix_of(f))
            };
        assert(contributes(manifests[k], f));
    }
}

/// The place of a path in the index is that of the last entry that has it, and there is one
/// whenever an entry has it.
pub proof fn lemma_place_is_last(paths: Seq<Seq<char>>, path: Seq<char>)
    requires
        paths.len() <= usize::MAX,
    ensures
        match last_place(paths, path) {
            Some(p) => p < paths.len() && paths[p as int] == path && forall|q: int|
                p < q < paths.len() ==> #[trigger] paths[q] != path,
            None => !paths.contains(path),
        },
    decreases paths.len(),
{
    if paths.len() > 0 && paths.last() != path {
        let h = paths.drop_last();
        lemma_place_is_last(h, path);
        assert forall|q: int| 0 <= q < h.len() implies h[q] == paths[q] by {}
        if last_place(h, path) is None && paths.contains(path) {
            let q = paths.index_of(path);
            assert(h[q] == path);
        }
    }
}

/// The indexed entries of an upload set are, in the set's order, the last entry of each path that
/// the index has.
pub proof fn lemma_indexed_places(index: Seq<FileEntry>, a: Seq<Seq<char>>, b: Seq<Seq<char>>, x: Seq<char>)
    requires
        index.len() <= usize::MAX,
    ensures
        indexed_places(index, a + b) == indexed_places(index, a) + indexed_places(index, b),
        match last_place(paths_of(index), x) {
            Some(p) => indexed_places(index, seq![x]) == seq![p],
            None => indexed_places(index, seq![x]) == Seq::<usize>::empty(),
        },
    decreases b.len(),
{
    reveal_with_fuel(indexed_places, 2);
    assert(seq![x].drop_last() =~= Seq::empty());
    if b.len() == 0 {
        assert(a + b =~= a);
        assert(indexed_places(index, a) + indexed_places(index, b) =~= indexed_places(index, a));
    } else {
        lemma_indexed_places(index, a, b.drop_last(), x);
        assert((a + b).drop_last() =~= a + b.drop_last());
        assert((a + b).last() == b.last());
    }
}

/// An entry is an orphan if and only if its path is not in the upload set.
pub proof fn lemma_orphans(index: Seq<FileEntry>, set: Seq<Seq<char>>, i: int)
    requires
        0 <= i < index.len() <= usize::MAX,
    ensures
        picks(index.len(), outside(index, set)).contains(i as usize) <==> !set.contains(
            index[i].path@,
        ),
{
    let pred = outside(index, set);
    lemma_picks(index.len(), pred);
    assert(pred(i) <==> !set.contains(index[i].path@));
    if picks(index.len(), pred).contains(i as usize) {
        let k = picks(index.len(), pred).index_of(i as usize);
        assert(pred(picks(index.len(), pred)[k] as int));
    }
}

/// A listing names, in order, what each of its lines holds between white space, unless that is
/// nothing or the index itself.
pub proof fn lemma_objects(a: Seq<Seq<char>>, b: Seq<Seq<char>>, line: Seq<char>, index: Seq<char>)
    ensures
        objects_in(a + b, index) == objects_in(a, index) + objects_in(b, index),
        trimmed(line).len() == 0 || trimmed(line) == index ==> objects_in(seq![line], index)
            == Seq::<Seq<char>>::empty(),
        trimmed(line).len() > 0 && trimmed(line) != index ==> objects_in(seq![line], index)
            == seq![trimmed(line)],
    decreases b.len(),
{
    reveal_with_fuel(objects_in, 2);
    assert(seq![line].drop_last() =~= Seq::empty());
    if b.len() == 0 {
        assert(a + b =~= a);
        assert(objects_in(a, index) + objects_in(b, index) =~= objects_in(a, index));
    } else {
        lemma_objects(a, b.drop_last(), line, index);
        assert((a + b).drop_last() =~= a + b.drop_last());
        assert((a + b).last() == b.last());
        assert(objects_in(a + b, index) =~= objects_in(a, index) + objects_in(b, index));
    }
}

/// An orphan holds a prune back if and only if its local copy is not current.
pub proof fn lemma_unverified(orphans: Seq<usize>, states: Seq<LocalState>)
    ensures
        unverified(orphans, states).len() == 0 <==> forall|k: int|
            0 <= k < orphans.len() ==> #[trigger] states[k] == LocalState::Current,
        forall|i: usize| #[trigger]
            unverified(orphans, states).contains(i) <==> exists|k: int|
                0 <= k < orphans.len() && #[trigger] states[k] != LocalState::Current && orphans[k]
                    == i,
    decreases orphans.len(),
{
    if orphans.len() > 0 {
        let h = orphans.drop_last();
        let rest = unverified(h, states);
        let all = unverified(orphans, states);
        let n = orphans.len() - 1;
        lemma_unverified(h, states);
        assert forall|i: usize| #[trigger] all.contains(i) <==> exists|k: int|
            0 <= k < orphans.len() && #[trigger] states[k] != LocalState::Current && orphans[k]
                == i by {
            if all.contains(i) {
                let at = all.index_of(i);
                if at < rest.len() {
                    assert(rest[at] == i);
                    assert(rest.contains(i));
                    let k = choose|k: int|
                        0 <= k < h.len() && #[trigger] states[k] != LocalState::Current && h[k] == i;
                    assert(orphans[k] == i);
                } else {
                    assert(states[n] != LocalState::Current && orphans[n] == i);
                }
            }
            if exists|k: int|
                0 <= k < orphans.len() && #[trigger] states[k] != LocalState::Current && orphans[k]
                    == i {
                let k = choose|k: int|
                    0 <= k < orphans.len() && #[trigger] states[k] != LocalState::Current
                        && orphans[k] == i;
                if k < n {
                    assert(h[k] == i);
                    assert(rest.contains(i));
                    assert(all[rest.index_of(i)] == i);
                } else {
                    assert(all[rest.len() as int] == i);
                }
            }
        }
        if all.len() == 0 {
            assert(states[n] == LocalState::Current);
            assert forall|k: int| 0 <= k < orphans.len() implies #[trigger] states[k]
                == LocalState::Current by {}
        }
    }
}

/// The entries of `which` whose path has the extension `ext`.
pub open spec fn with_extension(
    index: Seq<FileEntry>,
    which: Seq<usize>,
    ext: Seq<char>,
) -> Seq<usize> {
    which.filter(|i: usize| after_last_spec(index[i as int].path@, '.') == ext)
}

/// Each extension has one row, with the number of its entries and the sum of their sizes, and every
/// entry's extension has a row.
pub proof fn lemma_by_extension(index: Seq<FileEntry>, which: Seq<usize>)
    ensures
        forall|a: int, b: int|
            0 <= a < b < by_extension(index, which).len() ==> (#[trigger] by_extension(
                index,
                which,
            )[a]).0 != (#[trigger] by_extension(index, which)[b]).0,
        forall|a: int|
            0 <= a < by_extension(index, which).len() ==> {
                let row = #[trigger] by_extension(index, which)[a];
                let mine = with_extension(index, which, row.0);
                mine.len() > 0 && row.1 == mine.len() && row.2 == total_of(index, mine)
            },
        forall|k: int|
            0 <= k < which.len() ==> exists|a: int|
                0 <= a < by_extension(index, which).len() && (#[trigger] by_extension(
                    index,
                    which,
                )[a]).0 == after_last_spec(index[#[trigger] which[k] as int].path@, '.'),
    decreases which.len(),
{
    if which.len() > 0 {
        let h = which.drop_last();
        let i = which.last();
        let e = index[i as int];
        let ext = after_last_spec(e.path@, '.');
        let rows = by_extension(index, h);
        let all = by_extension(index, which);
        lemma_by_extension(index, h);
        lemma_row_found(rows, ext);
        let at = row_place(rows, ext);
        assert(which =~= h.push(i));
        assert forall|x: Seq<char>|
            #[trigger] with_extension(index, which, x) == (if x == ext {
                with_extension(index, h, x).push(i)
            } else {
                with_extension(index, h, x)
            }) by {
            h.lemma_filter_push(i, |j: usize| after_last_spec(index[j as int].path@, '.') == x);
        }
        assert forall|x: Seq<char>| #[trigger] total_of(index, with_extension(index, which, x)) == (
        if x == ext {
            total_of(index, with_extension(index, h, x)) + e.size as nat
        } else {
            total_of(index, with_extension(index, h, x))
        }) by {
            if x == ext {
                assert(with_extension(index, which, x).drop_last() =~= with_extension(index, h, x));
            }
        }
        if at == rows.len() {
            lemma_none_with(index, h, rows, ext);
        }
        assert forall|a: int| 0 <= a < all.len() implies {
            let row = #[trigger] all[a];
            let mine = with_extension(index, which, row.0);
            mine.len() > 0 && row.1 == mine.len() && row.2 == total_of(index, mine)
        } by {
            if a < rows.len() && a != at {
                assert(all[a] == rows[a]);
            } else if a == at && at < rows.len() {
                assert(rows[at].0 == ext);
            } else {
                assert(total_of(index, with_extension(index, h, ext)) == 0);
            }
        }
        assert forall|k: int| 0 <= k < which.len() implies exists|a: int|
            0 <= a < all.len() && (#[trigger] all[a]).0 == after_last_spec(
                index[#[trigger] which[k] as int].path@,
                '.',
            ) by {
            if k < h.len() {
                assert(h[k] == which[k]);
                let a = choose|a: int|
                    0 <= a < rows.len() && (#[trigger] rows[a]).0 == after_last_spec(
                        index[h[k] as int].path@,
                        '.',
                    );
                assert(all[a].0 == rows[a].0);
            } else {
                assert(all[at].0 == ext);
            }
        }
    }
}

proof fn lemma_none_with(
    index: Seq<FileEntry>,
    which: Seq<usize>,
    rows: Seq<(Seq<char>, nat, nat)>,
    ext: Seq<char>,
)
    requires
        forall|a: int| 0 <= a < rows.len() ==> (#[trigger] rows[a]).0 != ext,
        forall|k: int|
            0 <= k < which.len() ==> exists|a: int|
                0 <= a < rows.len() && (#[trigger] rows[a]).0 == after_last_spec(
                    index[#[trigger] which[k] as int].path@,
                    '.',
                ),
    ensures
        with_extension(index, which, ext).len() == 0,
{
    let pred = |j: usize| after_last_spec(index[j as int].path@, '.') == ext;
    if which.filter(pred).len() > 0 {
        which.lemma_filter_pred(pred, 0);
        assert(which.filter(pred).contains(which.filter(pred)[0]));
        which.lemma_filter_contains_rev(pred, which.filter(pred)[0]);
        let k = which.index_of(which.filter(pred)[0]);
        assert(which[k] == which.filter(pred)[0]);
        let a = choose|a: int|
            0 <= a < rows.len() && (#[trigger] rows[a]).0 == after_last_spec(
                index[which[k] as int].path@,
                '.',
            );
        assert(rows[a].0 != ext);
    }
}

/// The first row with an extension, or the end of the rows.
proof fn lemma_row_found(rows: Seq<(Seq<char>, nat, nat)>, ext: Seq<char>)
    ensures
        0 <= row_place(rows, ext) <= rows.len(),
        row_place(rows, ext) < rows.len() ==> rows[row_place(rows, ext)].0 == ext,
        row_place(rows, ext) == rows.len() ==> forall|a: int|
            0 <= a < rows.len() ==> (#[trigger] rows[a]).0 != ext,
    decreases rows.len(),
{
    if rows.len() > 0 {
        let h = rows.drop_last();
        lemma_row_found(h, ext);
        assert forall|a: int| 0 <= a < h.len() implies h[a] == rows[a] by {}
    }
}

/// Rows in the order of their sizes go from the largest to the smallest.
pub proof fn lemma_largest_first(rows: Seq<(Seq<char>, nat, nat)>, perm: Seq<usize>, i: int, j: int)
    requires
        is_order(size_keys(rows), perm),
        forall|a: int| 0 <= a < rows.len() ==> (#[trigger] rows[a]).2 <= u64::MAX,
        0 <= i < j < rows.len(),
    ensures
        gather(rows, perm)[i].2 >= gather(rows, perm)[j].2,
{
    assert(crate::order::before(size_keys(rows), perm[i], perm[j]));
    assert(rows[perm[i] as int].2 <= u64::MAX);
    assert(rows[perm[j] as int].2 <= u64::MAX);
}

/// A set of names is in alphabetical order and holds no name twice.
pub proof fn lemma_name_set(s: Seq<Seq<char>>, i: int, j: int)
    requires
        is_name_set(s),
        0 <= i < j < s.len(),
    ensures
        text_le(s[i], s[j]),
        !text_le(s[j], s[i]),
        s[i] != s[j],
{
    assert(text_le(s[i], s[j]));
    assert(s[i] != s[j]);
    if text_le(s[j], s[i]) {
        lemma_text_le_antisymmetric(s[i], s[j]);
    }
}

} // verus!
