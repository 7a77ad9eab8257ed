//! Running the jobs of a pipeline: what a job waits for, what to do with it, and how its state is
//! reported.

use crate::decimals::as_double;
use crate::decimals::bytes_as_double;
use crate::decimals::one_decimal;
use crate::decimals::round_div;
use crate::decimals::round_even;
use crate::decimals::with_one_decimal;
use crate::text::alphabetical;
use crate::text::decimal;
use crate::text::decimal_string;
use crate::text::holds;
use crate::text::join;
use crate::text::join_spec;
use crate::text::joined;
use crate::text::joined3;
use crate::text::no_names;
use crate::text::push_name;
use crate::text::same;
use crate::text::sort_names;
use crate::text::views;
use vstd::prelude::*;
use vstd::string::*;

verus! {

// ---------------------------------------------------------------------------
// Blocked jobs
// ---------------------------------------------------------------------------

/// Which job produces which file: the `k`-th job produces the `k`-th file, and no file is listed
/// twice.
pub struct Producers {
    pub files: Vec<String>,
    pub jobs: Vec<String>,
}

impl Producers {
    pub open spec fn wf(&self) -> bool {
        self.files.len() == self.jobs.len() && views(self.files@).no_duplicates()
    }

    /// The job that produces a file.
    pub open spec fn job_for(&self, file: Seq<char>) -> Option<Seq<char>> {
        if views(self.files@).contains(file) {
            Some(self.jobs@[views(self.files@).index_of(file)]@)
        } else {
            None
        }
    }

    /// The job that produces a file.
    pub fn get(&self, file: &str) -> (r: Option<&String>)
        requires
            self.wf(),
        ensures
            match r {
                Some(j) => self.job_for(file@) == Some(j@),
                None => self.job_for(file@) is None,
            },
    {
        let mut k: usize = 0;
        while k < self.files.len()
            invariant
                self.wf(),
                k <= self.files.len(),
                forall|j: int| 0 <= j < k ==> #[trigger] views(self.files@)[j] != file@,
            decreases self.files.len() - k,
        {
            if same(self.files[k].as_str(), file) {
                proof {
                    let all = views(self.files@);
                    assert(all[k as int] == file@);
                    assert(all.contains(file@));
                    let i = all.index_of(file@);
                    assert(all[i] == all[k as int]);
                }
                return Some(&self.jobs[k]);
            }
            proof {
                assert(views(self.files@)[k as int] == self.files@[k as int]@);
            }
            k += 1;
        }
        None
    }
}

/// The contents of some lists.
pub open spec fn list_views(v: Seq<Vec<String>>) -> Seq<Seq<Seq<char>>> {
    v.map_values(|l: Vec<String>| views(l@))
}

/// The last of some jobs that lists a file among its outputs.
pub open spec fn last_producer(
    jobs: Seq<Seq<char>>,
    outputs: Seq<Seq<Seq<char>>>,
    file: Seq<char>,
) -> Option<Seq<char>>
    decreases jobs.len(),
{
    if jobs.len() == 0 {
        None
    } else if outputs[jobs.len() - 1].contains(file) {
        Some(jobs.last())
    } else {
        last_producer(jobs.drop_last(), outputs, file)
    }
}

fn put_producer(p: &mut Producers, file: &String, job: &String)
    requires
        old(p).wf(),
    ensures
        final(p).wf(),
        final(p).job_for(file@) == Some(job@),
        forall|f: Seq<char>| f != file@ ==> #[trigger] final(p).job_for(f) == old(p).job_for(f),
{
    let ghost before = *p;
    let ghost all = views(p.files@);
    let mut k: usize = 0;
    while k < p.files.len()
        invariant
            *p == before,
            all == views(p.files@),
            k <= p.files.len(),
            p.wf(),
            forall|j: int| 0 <= j < k ==> #[trigger] all[j] != file@,
            before == *old(p),
        decreases p.files.len() - k,
    {
        proof {
            assert(all[k as int] == p.files@[k as int]@);
        }
        if same(p.files[k].as_str(), file.as_str()) {
            let j: String = job.clone();
            p.jobs.set(k, j);
            proof {
                assert(views(p.files@) =~= all);
                assert(all.contains(file@));
                assert(all[all.index_of(file@)] == all[k as int]);
                assert forall|f: Seq<char>| f != file@ implies #[trigger] p.job_for(f)
                    == before.job_for(f) by {
                    if all.contains(f) {
                        assert(all[all.index_of(f)] == f);
                    }
                }
            }
            return ;
        }
        k += 1;
    }
    p.files.push(file.clone());
    p.jobs.push(job.clone());
    proof {
        let now = views(p.files@);
        assert(now =~= all.push(file@));
        assert(now[all.len() as int] == file@);
        assert forall|i: int, j: int| 0 <= i < now.len() && 0 <= j < now.len() && i != j implies now[i]
            != now[j] by {
            if i < all.len() && j < all.len() {
                assert(all[i] != all[j]);
            }
        }
        assert(now[now.index_of(file@)] == now[all.len() as int]);
        assert forall|f: Seq<char>| f != file@ implies #[trigger] p.job_for(f) == before.job_for(
            f,
        ) by {
            if all.contains(f) {
                let i = all.index_of(f);
                assert(all[i] == f);
                assert(now[i] == f);
                assert(now[now.index_of(f)] == now[i]);
            } else if now.contains(f) {
                let i = now.index_of(f);
                assert(now[i] == f);
                assert(i < all.len());
                assert(all[i] == f);
            }
        }
    }
}

/// Lists which job produces which file: the last one where several do.
pub fn build_producers(jobs: &Vec<String>, outputs: &Vec<Vec<String>>) -> (r: Producers)
    requires
        outputs.len() == jobs.len(),
    ensures
        r.wf(),
        forall|f: Seq<char>| #[trigger]
            r.job_for(f) == last_producer(views(jobs@), list_views(outputs@), f),
{
    let ghost names = views(jobs@);
    let ghost outs = list_views(outputs@);
    let mut r: Producers = Producers { files: no_names(), jobs: no_names() };
    let mut k: usize = 0;
    proof {
        assert(names.take(0) =~= Seq::empty());
        assert(views(r.files@) =~= Seq::empty());
    }
    while k < jobs.len()
        invariant
            k <= jobs.len(),
            outputs.len() == jobs.len(),
            names == views(jobs@),
            outs == list_views(outputs@),
            r.wf(),
            forall|f: Seq<char>| #[trigger]
                r.job_for(f) == last_producer(names.take(k as int), outs, f),
        decreases jobs.len() - k,
    {
        let files: &Vec<String> = &outputs[k];
        let ghost job = jobs@[k as int]@;
        let mut i: usize = 0;
        proof {
            assert(outs[k as int] == views(files@));
            assert(names.take(k + 1).drop_last() =~= names.take(k as int));
            assert(names.take(k + 1).last() == job);
        }
        while i < files.len()
            invariant
                i <= files.len(),
                k < jobs.len(),
                job == jobs@[k as int]@,
                r.wf(),
                forall|f: Seq<char>| #[trigger]
                    r.job_for(f) == (if views(files@).take(i as int).contains(f) {
                        Some(job)
                    } else {
                        last_producer(names.take(k as int), outs, f)
                    }),
            decreases files.len() - i,
        {
            let ghost before = r;
            put_producer(&mut r, &files[i], &jobs[k]);
            proof {
                let a = views(files@).take(i as int);
                let b = views(files@).take(i + 1);
                let file = files@[i as int]@;
                assert(b =~= a.push(file));
                assert forall|f: Seq<char>| #[trigger] r.job_for(f) == (if b.contains(f) {
                    Some(job)
                } else {
                    last_producer(names.take(k as int), outs, f)
                }) by {
                    if f == file {
                        assert(b[i as int] == file);
                    } else if b.contains(f) {
                        let j = choose|j: int| 0 <= j < b.len() && b[j] == f;
                        assert(a[j] == f);
                    } else if a.contains(f) {
                        let j = choose|j: int| 0 <= j < a.len() && a[j] == f;
                        assert(b[j] == f);
                    }
                }
            }
            i += 1;
        }
        proof {
            assert(views(files@).take(files.len() as int) =~= views(files@));
        }
        k += 1;
    }
    proof {
        assert(names.take(names.len() as int) =~= names);
    }
    r
}

/// The jobs that produce the missing files, each once, in the order in which they are met.
pub open spec fn blocking_jobs(missing: Seq<Seq<char>>, producers: Producers) -> Seq<Seq<char>>
    decreases missing.len(),
{
    if missing.len() == 0 {
        Seq::empty()
    } else {
        let met = blocking_jobs(missing.drop_last(), producers);
        match producers.job_for(missing.last()) {
            Some(j) => if met.contains(j) {
                met
            } else {
                met.push(j)
            },
            None => met,
        }
    }
}

pub open spec fn unproduced(producers: Producers) -> spec_fn(Seq<char>) -> bool {
    |f: Seq<char>| producers.job_for(f) is None
}

/// The missing files that no job produces.
pub open spec fn orphan_files(missing: Seq<Seq<char>>, producers: Producers) -> Seq<Seq<char>> {
    missing.filter(unproduced(producers))
}

/// Splits missing inputs into the jobs that produce them, each once and in first-seen order, and
/// the paths that no job produces.
pub fn diagnose_blocked(missing: &Vec<String>, producers: &Producers) -> (r: (
    Vec<String>,
    Vec<String>,
))
    requires
        producers.wf(),
    ensures
        views(r.0@) == blocking_jobs(views(missing@), *producers),
        views(r.1@) == orphan_files(views(missing@), *producers),
{
    let mut jobs: Vec<String> = Vec::new();
    let mut orphans: Vec<String> = Vec::new();
    let mut i: usize = 0;
    let ghost all = views(missing@);
    let ghost pred = unproduced(*producers);
    proof {
        assert(all.take(0) =~= Seq::empty());
        reveal(Seq::filter);
        assert(views(jobs@) =~= Seq::empty());
        assert(views(orphans@) =~= Seq::empty());
    }
    while i < missing.len()
        invariant
            producers.wf(),
            all == views(missing@),
            pred == unproduced(*producers),
            i <= missing.len(),
            views(jobs@) == blocking_jobs(all.take(i as int), *producers),
            views(orphans@) == all.take(i as int).filter(pred),
        decreases missing.len() - i,
    {
        let m: &String = &missing[i];
        let ghost jobs_before = views(jobs@);
        let ghost orphans_before = views(orphans@);
        proof {
            assert(all.take(i + 1).drop_last() =~= all.take(i as int));
            assert(all.take(i + 1).last() == m@);
            assert(all.take(i + 1) =~= all.take(i as int).push(m@));
            all.take(i as int).lemma_filter_push(m@, pred);
        }
        match producers.get(m.as_str()) {
            Some(p) => {
                if !holds(&jobs, p.as_str()) {
                    jobs.push(p.clone());
                    proof {
                        assert(views(jobs@) =~= jobs_before.push(p@));
                    }
                }
            },
            None => {
                orphans.push(m.clone());
                proof {
                    assert(views(orphans@) =~= orphans_before.push(m@));
                }
            },
        }
        i += 1;
    }
    proof {
        assert(all.take(missing.len() as int) =~= all);
    }
    (jobs, orphans)
}

/// Every missing file is accounted for: its producer is among the blocking jobs, or it is among
/// the orphans; and no blocking job is named twice.
pub proof fn lemma_diagnosis_complete(missing: Seq<Seq<char>>, producers: Producers)
    ensures
        blocking_jobs(missing, producers).no_duplicates(),
        forall|k: int|
            0 <= k < missing.len() ==> (match producers.job_for(#[trigger] missing[k]) {
                Some(j) => blocking_jobs(missing, producers).contains(j),
                None => orphan_files(missing, producers).contains(missing[k]),
            }),
        forall|k: int|
            0 <= k < blocking_jobs(missing, producers).len() ==> exists|i: int|
                0 <= i < missing.len() && producers.job_for(#[trigger] missing[i]) == Some(
                    #[trigger] blocking_jobs(missing, producers)[k],
                ),
    decreases missing.len(),
{
    if missing.len() > 0 {
        let rest = missing.drop_last();
        lemma_diagnosis_complete(rest, producers);
        let met = blocking_jobs(rest, producers);
        let now = blocking_jobs(missing, producers);
        assert forall|k: int| 0 <= k < missing.len() implies (match producers.job_for(
            #[trigger] missing[k],
        ) {
            Some(j) => now.contains(j),
            None => orphan_files(missing, producers).contains(missing[k]),
        }) by {
            match producers.job_for(missing[k]) {
                Some(j) => {
                    if k < rest.len() {
                        assert(rest[k] == missing[k]);
                        assert(met.contains(j));
                        let q = choose|q: int| 0 <= q < met.len() && met[q] == j;
                        assert(now[q] == j);
                    } else if !met.contains(j) {
                        assert(now[met.len() as int] == j);
                    }
                },
                None => {
                    missing.lemma_filter_contains(unproduced(producers), k);
                },
            }
        }
        assert forall|k: int| 0 <= k < now.len() implies exists|i: int|
            0 <= i < missing.len() && producers.job_for(#[trigger] missing[i]) == Some(
                #[trigger] now[k],
            ) by {
            if k < met.len() {
                let i = choose|i: int|
                    0 <= i < rest.len() && producers.job_for(#[trigger] rest[i]) == Some(met[k]);
                assert(missing[i] == rest[i]);
                assert(producers.job_for(missing[i]) == Some(now[k]));
            } else {
                assert(producers.job_for(missing[missing.len() - 1]) == Some(now[k]));
            }
        }
    }
}

/// What a blocked job waits for, for a list: the jobs, and how many further files; or, where no
/// job produces any of it, the first file.
pub open spec fn blocked_detail(jobs: Seq<Seq<char>>, orphans: Seq<Seq<char>>) -> Seq<char> {
    if jobs.len() == 0 {
        if orphans.len() == 1 {
            "  (missing: "@ + orphans[0] + ")"@
        } else {
            "  (missing "@ + decimal(orphans.len()) + ": "@ + orphans[0] + ", ...)"@
        }
    } else {
        let s = "  (blocked by: "@ + join_spec(jobs, ", "@);
        let files = if orphans.len() == 0 {
            Seq::empty()
        } else {
            ", +"@ + decimal(orphans.len()) + (if orphans.len() == 1 {
                " file"@
            } else {
                " files"@
            })
        };
        s + files + ")"@
    }
}

/// What a blocked job waits for.
pub fn format_blocked_detail(missing: &Vec<String>, producers: &Producers) -> (r: String)
    requires
        producers.wf(),
        missing.len() > 0,
    ensures
        r@ == blocked_detail(
            blocking_jobs(views(missing@), *producers),
            orphan_files(views(missing@), *producers),
        ),
{
    let (jobs, orphans) = diagnose_blocked(missing, producers);
    if jobs.len() == 0 {
        proof {
            lemma_diagnosis_complete(views(missing@), *producers);
            assert(views(jobs@).len() == 0);
            assert(views(missing@)[0] == missing@[0]@);
            assert(orphan_files(views(missing@), *producers).contains(views(missing@)[0]));
            assert(views(orphans@)[0] == orphans@[0]@);
        }
        if orphans.len() == 1 {
            return joined3("  (missing: ", orphans[0].as_str(), ")");
        }
        let n: String = decimal_string(orphans.len() as u64);
        let head: String = joined3("  (missing ", n.as_str(), ": ");
        return joined3(head.as_str(), orphans[0].as_str(), ", ...)");
    }
    let list: String = join(&jobs, ", ");
    let s: String = joined("  (blocked by: ", list.as_str());
    if orphans.len() > 0 {
        let n: String = decimal_string(orphans.len() as u64);
        let noun: &str = if orphans.len() == 1 {
            " file"
        } else {
            " files"
        };
        let files: String = joined3(", +", n.as_str(), noun);
        joined3(s.as_str(), files.as_str(), ")")
    } else {
        proof {
            assert(s@ + Seq::<char>::empty() =~= s@);
        }
        joined(s.as_str(), ")")
    }
}

// ---------------------------------------------------------------------------
// States
// ---------------------------------------------------------------------------

/// The state of a job.
pub enum Status {
    Done,
    Ready,
    Blocked(Vec<String>),
}

/// The files that are not there.
pub open spec fn absent_files(files: Seq<Seq<char>>, there: Seq<bool>) -> Seq<Seq<char>>
    decreases files.len(),
{
    if files.len() == 0 {
        Seq::empty()
    } else {
        let before = absent_files(files.drop_last(), there);
        if there[files.len() - 1] {
            before
        } else {
            before.push(files.last())
        }
    }
}

/// A job is done where it has outputs and all of them are there.
pub open spec fn is_done(outputs_there: Seq<bool>) -> bool {
    &&& outputs_there.len() > 0
    &&& forall|k: int| 0 <= k < outputs_there.len() ==> #[trigger] outputs_there[k]
}

/// The state of a job by the files that are there: done by its outputs, and otherwise ready, or
/// blocked by the inputs that are missing.
pub fn status_of(outputs_there: &Vec<bool>, inputs: &Vec<String>, inputs_there: &Vec<bool>) -> (r: Status)
    requires
        inputs_there.len() == inputs.len(),
    ensures
        ({
            let missing = absent_files(views(inputs@), inputs_there@);
            match r {
                Status::Done => is_done(outputs_there@),
                Status::Ready => !is_done(outputs_there@) && missing.len() == 0,
                Status::Blocked(m) => !is_done(outputs_there@) && missing.len() > 0 && views(m@)
                    == missing,
            }
        }),
{
    let mut k: usize = 0;
    while k < outputs_there.len() && outputs_there[k]
        invariant
            k <= outputs_there.len(),
            forall|j: int| 0 <= j < k ==> #[trigger] outputs_there@[j],
        decreases outputs_there.len() - k,
    {
        k += 1;
    }
    if k == outputs_there.len() && k > 0 {
        return Status::Done;
    }
    let ghost all = views(inputs@);
    let mut missing: Vec<String> = no_names();
    let mut i: usize = 0;
    proof {
        assert(all.take(0) =~= Seq::empty());
    }
    while i < inputs.len()
        invariant
            i <= inputs.len(),
            inputs_there.len() == inputs.len(),
            all == views(inputs@),
            views(missing@) == absent_files(all.take(i as int), inputs_there@),
        decreases inputs.len() - i,
    {
        proof {
            assert(all.take(i + 1).drop_last() =~= all.take(i as int));
            assert(all.take(i + 1).last() == inputs@[i as int]@);
        }
        if !inputs_there[i] {
            push_name(&mut missing, &inputs[i]);
        }
        i += 1;
    }
    proof {
        assert(all.take(i as int) =~= all);
        assert(views(missing@).len() == missing.len());
    }
    if missing.len() == 0 {
        Status::Ready
    } else {
        Status::Blocked(missing)
    }
}

/// The name of a state.
pub open spec fn label_spec(s: Status) -> Seq<char> {
    match s {
        Status::Done => "DONE"@,
        Status::Ready => "READY"@,
        Status::Blocked(_) => "BLOCKED"@,
    }
}

/// The name of a state.
pub fn label(s: &Status) -> (r: &'static str)
    ensures
        r@ == label_spec(*s),
{
    match s {
        Status::Done => "DONE",
        Status::Ready => "READY",
        Status::Blocked(_) => "BLOCKED",
    }
}

/// How many jobs are done, ready and blocked.
#[derive(Clone, Copy, PartialEq, Eq, Structural, Debug)]
pub struct StatusCounts {
    pub done: usize,
    pub ready: usize,
    pub blocked: usize,
}

pub open spec fn count_status(all: Seq<Status>) -> (nat, nat, nat)
    decreases all.len(),
{
    if all.len() == 0 {
        (0, 0, 0)
    } else {
        let (d, r, b) = count_status(all.drop_last());
        match all.last() {
            Status::Done => (d + 1, r, b),
            Status::Ready => (d, r + 1, b),
            Status::Blocked(_) => (d, r, b + 1),
        }
    }
}

/// Counts the jobs in each state.
pub fn tally_statuses(all: &Vec<Status>) -> (r: StatusCounts)
    ensures
        (r.done as nat, r.ready as nat, r.blocked as nat) == count_status(all@),
        r.done + r.ready + r.blocked == all.len(),
{
    let mut c: StatusCounts = StatusCounts { done: 0, ready: 0, blocked: 0 };
    let mut i: usize = 0;
    proof {
        assert(all@.take(0) =~= Seq::empty());
    }
    while i < all.len()
        invariant
            i <= all.len(),
            (c.done as nat, c.ready as nat, c.blocked as nat) == count_status(all@.take(i as int)),
            c.done + c.ready + c.blocked == i,
        decreases all.len() - i,
    {
        proof {
            assert(all@.take(i + 1).drop_last() =~= all@.take(i as int));
            assert(all@.take(i + 1).last() == all@[i as int]);
        }
        match &all[i] {
            Status::Done => {
                c.done = c.done + 1;
            },
            Status::Ready => {
                c.ready = c.ready + 1;
            },
            Status::Blocked(_) => {
                c.blocked = c.blocked + 1;
            },
        }
        i += 1;
    }
    proof {
        assert(all@.take(all.len() as int) =~= all@);
    }
    c
}

/// A text with spaces behind it up to a width.
pub open spec fn padded(s: Seq<char>, width: int) -> Seq<char> {
    s + Seq::new(
        (if s.len() < width {
            width - s.len()
        } else {
            0
        }) as nat,
        |i: int| ' ',
    )
}

/// A text with spaces behind it up to a width.
pub fn pad_right(s: &str, width: usize) -> (r: String)
    ensures
        r@ == padded(s@, width as int),
{
    let n: usize = s.unicode_len();
    let mut out: String = s.to_owned();
    let mut i: usize = n;
    proof {
        reveal_strlit(" ");
        assert(s@ + Seq::new(0, |i: int| ' ') =~= s@);
    }
    while i < width
        invariant
            n == s@.len(),
            n <= i,
            n <= width ==> i <= width,
            n > width ==> i == n,
            out@ == s@ + Seq::new((i - n) as nat, |i: int| ' '),
            " "@ == seq![' '],
        decreases width - i,
    {
        out.append(" ");
        proof {
            assert(s@ + Seq::new((i - n) as nat, |i: int| ' ') + " "@ =~= s@ + Seq::new(
                (i + 1 - n) as nat,
                |i: int| ' ',
            ));
        }
        i += 1;
    }
    out
}

/// The line of a job in a list: name, type, state, and what it waits for.
pub open spec fn job_line_spec(
    name: Seq<char>,
    jobtype: Seq<char>,
    s: Status,
    producers: Producers,
) -> Seq<char> {
    let detail = match s {
        Status::Blocked(missing) => blocked_detail(
            blocking_jobs(views(missing@), producers),
            orphan_files(views(missing@), producers),
        ),
        _ => Seq::empty(),
    };
    "  "@ + padded(name, 30) + " "@ + padded(jobtype, 15) + " "@ + label_spec(s) + detail
}

/// The line of a job in a list. A job without a type shows a dash.
pub fn job_line(name: &str, jobtype: &Option<String>, s: &Status, producers: &Producers) -> (r:
    String)
    requires
        producers.wf(),
        s matches Status::Blocked(missing) ==> missing.len() > 0,
    ensures
        r@ == job_line_spec(
            name@,
            match jobtype {
                Some(t) => t@,
                None => "-"@,
            },
            *s,
            *producers,
        ),
{
    let kind: String = match jobtype {
        Some(t) => t.clone(),
        None => "-".to_owned(),
    };
    let left: String = joined3("  ", pad_right(name, 30).as_str(), " ");
    let mid: String = joined3(left.as_str(), pad_right(kind.as_str(), 15).as_str(), " ");
    let head: String = joined(mid.as_str(), label(s));
    match s {
        Status::Blocked(missing) => {
            joined(head.as_str(), format_blocked_detail(missing, producers).as_str())
        },
        _ => {
            proof {
                assert(head@ + Seq::<char>::empty() =~= head@);
            }
            head
        },
    }
}

// ---------------------------------------------------------------------------
// Running
// ---------------------------------------------------------------------------

/// What to do with a job that is asked for.
#[derive(Clone, Copy, PartialEq, Eq, Structural, Debug)]
pub enum RunStep {
    /// There is no such job.
    Unknown,
    /// It waits for files.
    Blocked,
    /// Its outputs exist.
    Skip,
    Run,
}

/// A job that waits for files is not run, even by force; one whose outputs exist is run only by
/// force.
pub fn run_step(status: Option<&Status>, force: bool) -> (r: RunStep)
    ensures
        r == (match status {
            None => RunStep::Unknown,
            Some(Status::Blocked(_)) => RunStep::Blocked,
            Some(Status::Done) => if force {
                RunStep::Run
            } else {
                RunStep::Skip
            },
            Some(Status::Ready) => RunStep::Run,
        }),
{
    match status {
        None => RunStep::Unknown,
        Some(s) => match s {
            Status::Blocked(_) => RunStep::Blocked,
            Status::Done => if force {
                RunStep::Run
            } else {
                RunStep::Skip
            },
            Status::Ready => RunStep::Run,
        },
    }
}

/// The code of a job that is not run: 2 where there is none, 1 where it waits, 0 where it is
/// skipped.
pub fn step_code(step: RunStep) -> (r: Option<u8>)
    ensures
        r == (match step {
            RunStep::Unknown => Some(2u8),
            RunStep::Blocked => Some(1u8),
            RunStep::Skip => Some(0u8),
            RunStep::Run => None,
        }),
{
    match step {
        RunStep::Unknown => Some(2),
        RunStep::Blocked => Some(1),
        RunStep::Skip => Some(0),
        RunStep::Run => None,
    }
}

/// How a shell command ended.
#[derive(Clone, Copy, PartialEq, Eq, Structural, Debug)]
pub enum ShellEnd {
    Success,
    /// It failed, with its code unless a signal ended it.
    Failed(Option<i32>),
    /// The shell could not be started.
    NoShell,
}

/// The exit code that a command's end is reported with: its own, in eight bits.
pub fn exit_code(end: ShellEnd) -> (r: u8)
    ensures
        r == (match end {
            ShellEnd::Success => 0u8,
            ShellEnd::Failed(Some(c)) => c as u8,
            ShellEnd::Failed(None) => 1u8,
            ShellEnd::NoShell => 127u8,
        }),
{
    match end {
        ShellEnd::Success => 0,
        ShellEnd::Failed(Some(c)) => c as u8,
        ShellEnd::Failed(None) => 1,
        ShellEnd::NoShell => 127,
    }
}

/// The steps of a set-up, in order.
#[derive(Clone, Copy, PartialEq, Eq, Structural, Debug)]
pub enum SetupStep {
    Build,
    Download,
    Ingest,
    NewSplit,
    Finished,
}

/// What follows a set-up step: the next one where it ended well, else the end with its code.
pub fn setup_next(step: SetupStep, code: u8) -> (r: Result<SetupStep, u8>)
    ensures
        code != 0 ==> r == Err::<SetupStep, u8>(code),
        code == 0 ==> r == Ok::<SetupStep, u8>(
            match step {
                SetupStep::Build => SetupStep::Download,
                SetupStep::Download => SetupStep::Ingest,
                SetupStep::Ingest => SetupStep::NewSplit,
                SetupStep::NewSplit => SetupStep::Finished,
                SetupStep::Finished => SetupStep::Finished,
            },
        ),
{
    if code != 0 {
        return Err(code);
    }
    Ok(
        match step {
            SetupStep::Build => SetupStep::Download,
            SetupStep::Download => SetupStep::Ingest,
            SetupStep::Ingest => SetupStep::NewSplit,
            SetupStep::NewSplit => SetupStep::Finished,
            SetupStep::Finished => SetupStep::Finished,
        },
    )
}

/// The job of a set-up step, and whether it is of the new split's manifest.
pub fn setup_job(step: SetupStep) -> (r: Option<(&'static str, bool)>)
    ensures
        match step {
            SetupStep::Download => r matches Some((j, n)) && j@ == "download"@ && !n,
            SetupStep::Ingest => r matches Some((j, n)) && j@ == "ingest"@ && !n,
            SetupStep::NewSplit => r matches Some((j, n)) && j@ == "newsplit"@ && n,
            _ => r is None,
        },
{
    match step {
        SetupStep::Download => Some(("download", false)),
        SetupStep::Ingest => Some(("ingest", false)),
        SetupStep::NewSplit => Some(("newsplit", true)),
        _ => None,
    }
}

// ---------------------------------------------------------------------------
// Cleaning
// ---------------------------------------------------------------------------

pub open spec fn unprotected(protected: Seq<Seq<char>>) -> spec_fn(Seq<char>) -> bool {
    |f: Seq<char>| !protected.contains(f)
}

/// What a clean does with the files that it found.
#[derive(Clone, Copy, PartialEq, Eq, Structural, Debug)]
pub enum CleanStep {
    /// There are none.
    Nothing,
    /// They are only listed.
    DryRun,
    /// All are deleted.
    Delete,
}

/// Plans a clean of so many files, which are deleted only by force.
pub fn clean_step(candidates: usize, force: bool) -> (r: CleanStep)
    ensures
        r == (if candidates == 0 {
            CleanStep::Nothing
        } else if force {
            CleanStep::Delete
        } else {
            CleanStep::DryRun
        }),
{
    if candidates == 0 {
        CleanStep::Nothing
    } else if force {
        CleanStep::Delete
    } else {
        CleanStep::DryRun
    }
}

/// The code that a clean ends with: one where a deletion failed.
pub fn clean_code(failures: usize) -> (r: u8)
    ensures
        r == (if failures == 0 {
            0u8
        } else {
            1u8
        }),
{
    if failures == 0 {
        0
    } else {
        1
    }
}

/// The found files that no job refers to, in alphabetical order.
pub fn clean_candidates(found: &Vec<String>, protected: &Vec<String>) -> (r: Vec<String>)
    ensures
        alphabetical(views(r@)),
        views(r@).to_multiset() == views(found@).filter(
            unprotected(views(protected@)),
        ).to_multiset(),
{
    let mut out: Vec<String> = Vec::new();
    let mut i: usize = 0;
    let ghost all = views(found@);
    let ghost pred = unprotected(views(protected@));
    proof {
        assert(all.take(0) =~= Seq::empty());
        reveal(Seq::filter);
        assert(views(out@) =~= Seq::empty());
    }
    while i < found.len()
        invariant
            all == views(found@),
            pred == unprotected(views(protected@)),
            i <= found.len(),
            views(out@) == all.take(i as int).filter(pred),
        decreases found.len() - i,
    {
        let ghost before = views(out@);
        proof {
            assert(all.take(i + 1) =~= all.take(i as int).push(found@[i as int]@));
            all.take(i as int).lemma_filter_push(found@[i as int]@, pred);
        }
        if !holds(protected, found[i].as_str()) {
            out.push(found[i].clone());
            proof {
                assert(views(out@) =~= before.push(found@[i as int]@));
            }
        }
        i += 1;
    }
    proof {
        assert(all.take(found.len() as int) =~= all);
    }
    sort_names(out)
}

/// A clean never offers a file that a job refers to.
pub proof fn lemma_clean_spares_protected(
    found: Seq<Seq<char>>,
    protected: Seq<Seq<char>>,
    offered: Seq<Seq<char>>,
    k: int,
)
    requires
        offered.to_multiset() == found.filter(unprotected(protected)).to_multiset(),
        0 <= k < offered.len(),
    ensures
        !protected.contains(offered[k]),
        found.contains(offered[k]),
{
    let f = offered[k];
    let kept = found.filter(unprotected(protected));
    assert(offered.contains(f));
    vstd::seq_lib::to_multiset_contains(offered, f);
    vstd::seq_lib::to_multiset_contains(kept, f);
    let j = choose|j: int| 0 <= j < kept.len() && kept[j] == f;
    found.lemma_filter_pred(unprotected(protected), j);
    found.lemma_filter_contains_rev(unprotected(protected), f);
}

// ---------------------------------------------------------------------------
// Sizes
// ---------------------------------------------------------------------------

/// A size for people: gigabytes of `2^30` bytes with one decimal, else whole megabytes of `2^20`
/// bytes, else bytes.
pub open spec fn human_spec(bytes: nat) -> Seq<char> {
    if bytes >= 0x4000_0000 {
        with_one_decimal(round_even(as_double(bytes) * 10, 0x4000_0000)) + " GB"@
    } else if bytes >= 0x10_0000 {
        decimal(bytes / 0x10_0000) + " MB"@
    } else {
        decimal(bytes) + " B"@
    }
}

/// A size for people.
pub fn human(bytes: u64) -> (r: String)
    ensures
        r@ == human_spec(bytes as nat),
{
    if bytes >= 0x4000_0000 {
        let b: u128 = bytes_as_double(bytes);
        let h: u128 = round_div(b * 10, 0x4000_0000);
        proof {
            let n = (b * 10) as nat;
            assert(n / 0x4000_0000 <= 0x50_0000_0000);
        }
        joined(one_decimal(h as u64).as_str(), " GB")
    } else if bytes >= 0x10_0000 {
        assert(bytes >> 20u32 == bytes / 0x10_0000) by (bit_vector);
        joined(decimal_string(bytes >> 20).as_str(), " MB")
    } else {
        joined(decimal_string(bytes).as_str(), " B")
    }
}

/// A file is made by the last job that lists it among its outputs, and by none if none lists it.
pub proof fn lemma_last_producer(
    jobs: Seq<Seq<char>>,
    outputs: Seq<Seq<Seq<char>>>,
    file: Seq<char>,
    k: int,
)
    requires
        0 <= k < jobs.len(),
        outputs.len() == jobs.len(),
    ensures
        outputs[k].contains(file) && (forall|j: int|
            k < j < jobs.len() ==> !(#[trigger] outputs[j]).contains(file)) ==> last_producer(
            jobs,
            outputs,
            file,
        ) == Some(jobs[k]),
        last_producer(jobs, outputs, file) is None <==> forall|j: int|
            0 <= j < jobs.len() ==> !(#[trigger] outputs[j]).contains(file),
{
    lemma_producer_upto(jobs, outputs, file, k, jobs.len() as int);
    assert(jobs.take(jobs.len() as int) =~= jobs);
}

proof fn lemma_producer_upto(
    jobs: Seq<Seq<char>>,
    outputs: Seq<Seq<Seq<char>>>,
    file: Seq<char>,
    k: int,
    n: int,
)
    requires
        0 <= k,
        0 <= n <= jobs.len() == outputs.len(),
    ensures
        k < n && outputs[k].contains(file) && (forall|j: int|
            k < j < n ==> !(#[trigger] outputs[j]).contains(file)) ==> last_producer(
            jobs.take(n),
            outputs,
            file,
        ) == Some(jobs[k]),
        last_producer(jobs.take(n), outputs, file) is None <==> forall|j: int|
            0 <= j < n ==> !(#[trigger] outputs[j]).contains(file),
    decreases n,
{
    if n > 0 {
        lemma_producer_upto(jobs, outputs, file, k, n - 1);
        assert(jobs.take(n).drop_last() =~= jobs.take(n - 1));
        assert(jobs.take(n).last() == jobs[n - 1]);
    }
}

/// More missing files add jobs to those found so far, behind them.
pub proof fn lemma_blocking_in_order(
    a: Seq<Seq<char>>,
    b: Seq<Seq<char>>,
    producers: Producers,
)
    ensures
        blocking_jobs(a, producers).is_prefix_of(blocking_jobs(a + b, producers)),
    decreases b.len(),
{
    if b.len() == 0 {
        assert(a + b =~= a);
    } else {
        lemma_blocking_in_order(a, b.drop_last(), producers);
        assert((a + b).drop_last() =~= a + b.drop_last());
    }
}

/// The absent files are listed in order: those of two lists are those of the first, then those of
/// the second, and a file alone is listed if and only if it is not there.
pub proof fn lemma_absent_files(
    a: Seq<Seq<char>>,
    at: Seq<bool>,
    b: Seq<Seq<char>>,
    bt: Seq<bool>,
    f: Seq<char>,
    there: bool,
)
    requires
        at.len() == a.len(),
        bt.len() == b.len(),
    ensures
        absent_files(a + b, at + bt) == absent_files(a, at) + absent_files(b, bt),
        absent_files(seq![f], seq![there]) == (if there {
            Seq::empty()
        } else {
            seq![f]
        }),
    decreases b.len(),
{
    reveal_with_fuel(absent_files, 2);
    assert(seq![f].drop_last() =~= Seq::empty());
    if b.len() == 0 {
        assert(a + b =~= a);
        assert(at + bt =~= at);
        assert(absent_files(a, at) + absent_files(b, bt) =~= absent_files(a, at));
    } else {
        let n = b.len() - 1;
        lemma_absent_files(a, at, b.drop_last(), bt.drop_last(), f, there);
        assert((a + b).drop_last() =~= a + b.drop_last());
        assert((a + b).last() == b.last());
        lemma_absent_prefix((a + b).drop_last(), at + bt, at + bt.drop_last());
        lemma_absent_prefix(b.drop_last(), bt, bt.drop_last());
        assert((at + bt)[a.len() + n] == bt[n]);
    }
}

proof fn lemma_absent_prefix(files: Seq<Seq<char>>, s: Seq<bool>, t: Seq<bool>)
    requires
        forall|k: int| 0 <= k < files.len() ==> s[k] == t[k],
    ensures
        absent_files(files, s) == absent_files(files, t),
    decreases files.len(),
{
    if files.len() > 0 {
        lemma_absent_prefix(files.drop_last(), s, t);
    }
}

/// Statuses are counted one by one: the counts of two lists add up.
pub proof fn lemma_count_status(a: Seq<Status>, b: Seq<Status>, missing: Vec<String>)
    ensures
        count_status(a + b).0 == count_status(a).0 + count_status(b).0,
        count_status(a + b).1 == count_status(a).1 + count_status(b).1,
        count_status(a + b).2 == count_status(a).2 + count_status(b).2,
        count_status(seq![Status::Done]) == (1nat, 0nat, 0nat),
        count_status(seq![Status::Ready]) == (0nat, 1nat, 0nat),
        count_status(seq![Status::Blocked(missing)]) == (0nat, 0nat, 1nat),
    decreases b.len(),
{
    reveal_with_fuel(count_status, 2);
    assert(seq![Status::Done].drop_last() =~= Seq::empty());
    assert(seq![Status::Ready].drop_last() =~= Seq::empty());
    assert(seq![Status::Blocked(missing)].drop_last() =~= Seq::empty());
    if b.len() == 0 {
        assert(a + b =~= a);
    } else {
        lemma_count_status(a, b.drop_last(), missing);
        assert((a + b).drop_last() =~= a + b.drop_last());
        assert((a + b).last() == b.last());
    }
}

/// A padded text starts with the text, has blanks behind it, and is as wide as it must be and no
/// wider.
pub proof fn lemma_padded(s: Seq<char>, width: int)
    ensures
        s.is_prefix_of(padded(s, width)),
        padded(s, width).len() >= width,
        padded(s, width).len() == width || padded(s, width) == s,
        forall|i: int| s.len() <= i < padded(s, width).len() ==> #[trigger] padded(s, width)[i] == ' ',
{
    if s.len() >= width {
        assert(padded(s, width) =~= s);
    }
}

/// What blocks a job is told by its jobs, all of them, and by the number of files that no job
/// makes; where no job blocks it, by the first such file, and by their number where there are
/// more.
pub proof fn lemma_blocked_detail(jobs: Seq<Seq<char>>, orphans: Seq<Seq<char>>)
    ensures
        jobs.len() > 0 && orphans.len() == 0 ==> blocked_detail(jobs, orphans)
            == "  (blocked by: "@ + join_spec(jobs, ", "@) + ")"@,
        jobs.len() > 0 && orphans.len() == 1 ==> blocked_detail(jobs, orphans)
            == "  (blocked by: "@ + join_spec(jobs, ", "@) + (", +"@ + decimal(1) + " file"@) + ")"@,
        jobs.len() > 0 && orphans.len() > 1 ==> blocked_detail(jobs, orphans)
            == "  (blocked by: "@ + join_spec(jobs, ", "@) + (", +"@ + decimal(orphans.len())
            + " files"@) + ")"@,
        jobs.len() == 0 && orphans.len() == 1 ==> blocked_detail(jobs, orphans)
            == "  (missing: "@ + orphans[0] + ")"@,
        jobs.len() == 0 && orphans.len() > 1 ==> blocked_detail(jobs, orphans)
            == "  (missing "@ + decimal(orphans.len()) + ": "@ + orphans[0] + ", ...)"@,
{
    if jobs.len() > 0 && orphans.len() == 0 {
        assert("  (blocked by: "@ + join_spec(jobs, ", "@) + Seq::empty() =~= "  (blocked by: "@
            + join_spec(jobs, ", "@));
    }
}

/// A file is offered for deletion as often as it was found, unless it is protected.
pub proof fn lemma_clean_offers_rest(
    found: Seq<Seq<char>>,
    protected: Seq<Seq<char>>,
    offered: Seq<Seq<char>>,
    f: Seq<char>,
)
    requires
        offered.to_multiset() == found.filter(unprotected(protected)).to_multiset(),
    ensures
        offered.contains(f) <==> found.contains(f) && !protected.contains(f),
        !protected.contains(f) ==> offered.to_multiset().count(f) == found.to_multiset().count(f),
{
    broadcast use vstd::seq_lib::group_to_multiset_ensures;

    let pred = unprotected(protected);
    lemma_filter_counted(found, pred, f);
    assert(offered.contains(f) <==> offered.to_multiset().count(f) > 0);
    assert(found.contains(f) <==> found.to_multiset().count(f) > 0);
}

proof fn lemma_filter_counted(
    s: Seq<Seq<char>>,
    pred: spec_fn(Seq<char>) -> bool,
    x: Seq<char>,
)
    ensures
        s.filter(pred).to_multiset().count(x) == (if pred(x) {
            s.to_multiset().count(x)
        } else {
            0
        }),
    decreases s.len(),
{
    broadcast use vstd::multiset::group_multiset_axioms;
    broadcast use vstd::seq_lib::group_to_multiset_ensures;

    if s.len() == 0 {
        reveal(Seq::filter);
    } else {
        let h = s.drop_last();
        lemma_filter_counted(h, pred, x);
        h.lemma_filter_push(s.last(), pred);
        assert(s =~= h.push(s.last()));
        vstd::seq_lib::to_multiset_build(h, s.last());
        vstd::seq_lib::to_multiset_build(h.filter(pred), s.last());
    }
}

/// Below a mebibyte a size is told in bytes, below a gibibyte in whole mebibytes.
pub proof fn lemma_human(bytes: nat)
    ensures
        bytes < 1_048_576 ==> human_spec(bytes) == decimal(bytes) + " B"@,
        1_048_576 <= bytes < 1_073_741_824 ==> human_spec(bytes) == decimal(bytes / 1_048_576)
            + " MB"@,
        bytes >= 1_073_741_824 ==> " GB"@.is_suffix_of(human_spec(bytes)),
{
}

/// A job is done if and only if it has outputs and all of them are there.
pub proof fn lemma_done(a: Seq<bool>, b: Seq<bool>, x: bool)
    ensures
        !is_done(Seq::empty()),
        is_done(seq![x]) == x,
        a.len() > 0 && b.len() > 0 ==> (is_done(a + b) <==> is_done(a) && is_done(b)),
{
    assert(seq![x][0] == x);
    let all = a + b;
    if a.len() > 0 && b.len() > 0 {
        if is_done(all) {
            assert forall|k: int| 0 <= k < a.len() implies #[trigger] a[k] by {
                assert(all[k]);
            }
            assert forall|k: int| 0 <= k < b.len() implies #[trigger] b[k] by {
                assert(all[a.len() + k]);
            }
        }
        if is_done(a) && is_done(b) {
            assert forall|k: int| 0 <= k < all.len() implies #[trigger] all[k] by {
                if k < a.len() {
                    assert(a[k]);
                } else {
                    assert(b[k - a.len()]);
                }
            }
        }
    }
}

/// A job's line: its name and its type in columns, its status, and what blocks it where something
/// does.
pub proof fn lemma_job_line(
    name: Seq<char>,
    jobtype: Seq<char>,
    missing: Vec<String>,
    producers: Producers,
)
    ensures
        ({
            let head = "  "@ + padded(name, 30) + " "@ + padded(jobtype, 15) + " "@;
            &&& job_line_spec(name, jobtype, Status::Done, producers) == head + "DONE"@
            &&& job_line_spec(name, jobtype, Status::Ready, producers) == head + "READY"@
            &&& job_line_spec(name, jobtype, Status::Blocked(missing), producers) == head
                + "BLOCKED"@ + blocked_detail(
                blocking_jobs(views(missing@), producers),
                views(missing@).filter(|f: Seq<char>| producers.job_for(f) is None),
            )
        }),
{
    let head = "  "@ + padded(name, 30) + " "@ + padded(jobtype, 15) + " "@;
    assert(head + "DONE"@ + Seq::<char>::empty() =~= head + "DONE"@);
    assert(head + "READY"@ + Seq::<char>::empty() =~= head + "READY"@);
    assert(unproduced(producers) =~= (|f: Seq<char>| producers.job_for(f) is None));
}

} // verus!
