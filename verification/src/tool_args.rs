//! The command lines of the pipeline runner and of the prediction store.

use crate::text::no_names;
use crate::text::parse_u64;
use crate::text::push_name;
use crate::text::same;
use crate::text::starts_with;
use crate::text::text_view;
use crate::text::u64_value;
use crate::text::views;
use vstd::prelude::*;
use vstd::string::*;

verus! {

/// Why the reading of a command line stops before its end, with the word at fault.
#[derive(Clone, Copy, PartialEq, Eq, Structural, Debug)]
pub enum ToolStop {
    /// Help is asked for.
    Help,
    /// The word is no flag.
    Unknown(usize),
    /// The flag has no value.
    NeedsValue(usize),
    /// There is a job already.
    SecondJob(usize),
    /// The flag's value is no number above zero.
    BadJobs(usize),
}

// ---------------------------------------------------------------------------
// The runner
// ---------------------------------------------------------------------------

/// What the runner is asked to do.
pub struct RunArgs {
    pub pipeline: String,
    pub job: Option<String>,
    pub list: bool,
    pub force: bool,
    pub clean: bool,
    pub setup: bool,
}

#[verifier::ext_equal]
pub struct RunView {
    pub pipeline: Seq<char>,
    pub job: Option<Seq<char>>,
    pub list: bool,
    pub force: bool,
    pub clean: bool,
    pub setup: bool,
}

impl View for RunArgs {
    type V = RunView;

    open spec fn view(&self) -> RunView {
        RunView {
            pipeline: self.pipeline@,
            job: text_view(self.job),
            list: self.list,
            force: self.force,
            clean: self.clean,
            setup: self.setup,
        }
    }
}

/// What is asked before any word is read.
pub open spec fn run_start() -> RunView {
    RunView {
        pipeline: "pipeline-old.toml"@,
        job: None,
        list: false,
        force: false,
        clean: false,
        setup: false,
    }
}

/// What the words from the `i`-th on add to what is asked.
pub open spec fn run_from(argv: Seq<Seq<char>>, i: int, v: RunView) -> Result<RunView, ToolStop>
    decreases argv.len() - i,
{
    if i < 0 || i >= argv.len() {
        Ok(v)
    } else {
        let s = argv[i];
        if s == "-h"@ || s == "--help"@ {
            Err(ToolStop::Help)
        } else if s == "-l"@ || s == "--list"@ {
            run_from(argv, i + 1, RunView { list: true, ..v })
        } else if s == "-f"@ || s == "--force"@ {
            run_from(argv, i + 1, RunView { force: true, ..v })
        } else if s == "-c"@ || s == "--clean"@ {
            run_from(argv, i + 1, RunView { clean: true, ..v })
        } else if s == "--setup"@ {
            run_from(argv, i + 1, RunView { setup: true, ..v })
        } else if s == "-n"@ || s == "--new"@ {
            run_from(argv, i + 1, RunView { pipeline: "pipeline-new.toml"@, ..v })
        } else if s == "-p"@ || s == "--pipeline"@ {
            if i + 1 >= argv.len() {
                Err(ToolStop::NeedsValue(i as usize))
            } else {
                run_from(argv, i + 2, RunView { pipeline: argv[i + 1], ..v })
            }
        } else if "-"@.is_prefix_of(s) {
            Err(ToolStop::Unknown(i as usize))
        } else if v.job is Some {
            Err(ToolStop::SecondJob(i as usize))
        } else {
            run_from(argv, i + 1, RunView { job: Some(s), ..v })
        }
    }
}

/// Reads the command line of the runner.
pub fn parse_run(argv: &Vec<String>) -> (r: Result<RunArgs, ToolStop>)
    ensures
        match r {
            Ok(a) => run_from(views(argv@), 0, run_start()) == Ok::<RunView, ToolStop>(a@),
            Err(e) => run_from(views(argv@), 0, run_start()) == Err::<RunView, ToolStop>(e),
        },
{
    let mut a: RunArgs = RunArgs {
        pipeline: "pipeline-old.toml".to_string(),
        job: None,
        list: false,
        force: false,
        clean: false,
        setup: false,
    };
    let ghost v = views(argv@);
    let mut i: usize = 0;
    proof {
        assert(a@ =~= run_start());
        assert(argv.len() <= usize::MAX);
    }
    while i < argv.len()
        invariant
            i <= argv.len(),
            v == views(argv@),
            run_from(v, 0, run_start()) == run_from(v, i as int, a@),
        decreases argv.len() - i,
    {
        let s: &str = argv[i].as_str();
        proof {
            assert(v[i as int] == argv@[i as int]@);
        }
        if same(s, "-h") || same(s, "--help") {
            return Err(ToolStop::Help);
        } else if same(s, "-l") || same(s, "--list") {
            a.list = true;
            i += 1;
        } else if same(s, "-f") || same(s, "--force") {
            a.force = true;
            i += 1;
        } else if same(s, "-c") || same(s, "--clean") {
            a.clean = true;
            i += 1;
        } else if same(s, "--setup") {
            a.setup = true;
            i += 1;
        } else if same(s, "-n") || same(s, "--new") {
            a.pipeline = "pipeline-new.toml".to_string();
            i += 1;
        } else if same(s, "-p") || same(s, "--pipeline") {
            if argv.len() - i < 2 {
                return Err(ToolStop::NeedsValue(i));
            }
            a.pipeline = argv[i + 1].clone();
            i += 2;
        } else if starts_with(s, "-") {
            return Err(ToolStop::Unknown(i));
        } else {
            if a.job.is_some() {
                return Err(ToolStop::SecondJob(i));
            }
            a.job = Some(argv[i].clone());
            i += 1;
        }
    }
    Ok(a)
}

/// What the runner does.
#[derive(Clone, Copy, PartialEq, Eq, Structural, Debug)]
pub enum RunMode {
    /// Prepares the data.
    Setup,
    /// Deletes, or lists, what no job refers to.
    Clean,
    /// Runs the job.
    Job,
    /// Lists the jobs.
    List,
}

/// What the runner does, and whether something that was asked for is left aside.
pub open spec fn run_mode_spec(v: RunView) -> (RunMode, bool) {
    if v.setup {
        (RunMode::Setup, v.job is Some)
    } else if v.clean {
        (RunMode::Clean, v.job is Some)
    } else if v.job is Some {
        (RunMode::Job, v.list)
    } else {
        (RunMode::List, v.force)
    }
}

/// What the runner does, and whether something that was asked for is left aside: a job with the
/// first two, the list with a job, the force with a list.
pub fn run_mode(a: &RunArgs) -> (r: (RunMode, bool))
    ensures
        r == run_mode_spec(a@),
{
    if a.setup {
        (RunMode::Setup, a.job.is_some())
    } else if a.clean {
        (RunMode::Clean, a.job.is_some())
    } else if a.job.is_some() {
        (RunMode::Job, a.list)
    } else {
        (RunMode::List, a.force)
    }
}

// ---------------------------------------------------------------------------
// The store
// ---------------------------------------------------------------------------

/// What the store is asked to do. What is missing takes its usual value.
pub struct StoreArgs {
    pub bucket: Option<String>,
    pub output: Option<String>,
    pub index: Option<String>,
    pub dry_run: bool,
    pub quick: bool,
    pub yes: bool,
    pub jobs: Option<u64>,
    pub manifests: Vec<String>,
    pub words: Vec<String>,
}

#[verifier::ext_equal]
pub struct StoreView {
    pub bucket: Option<Seq<char>>,
    pub output: Option<Seq<char>>,
    pub index: Option<Seq<char>>,
    pub dry_run: bool,
    pub quick: bool,
    pub yes: bool,
    pub jobs: Option<u64>,
    pub manifests: Seq<Seq<char>>,
    pub words: Seq<Seq<char>>,
}

impl View for StoreArgs {
    type V = StoreView;

    open spec fn view(&self) -> StoreView {
        StoreView {
            bucket: text_view(self.bucket),
            output: text_view(self.output),
            index: text_view(self.index),
            dry_run: self.dry_run,
            quick: self.quick,
            yes: self.yes,
            jobs: self.jobs,
            manifests: views(self.manifests@),
            words: views(self.words@),
        }
    }
}

/// What is asked before any word is read.
pub open spec fn store_start() -> StoreView {
    StoreView {
        bucket: None,
        output: None,
        index: None,
        dry_run: false,
        quick: false,
        yes: false,
        jobs: None,
        manifests: Seq::empty(),
        words: Seq::empty(),
    }
}

/// Whether a flag of the store takes a value.
pub open spec fn takes_value(s: Seq<char>) -> bool {
    s == "--bucket"@ || s == "-o"@ || s == "--output"@ || s == "--index"@ || s == "-j"@ || s
        == "--jobs"@ || s == "-p"@ || s == "--pipeline"@
}

/// What a flag with its value adds to what is asked.
pub open spec fn store_valued(
    s: Seq<char>,
    value: Seq<char>,
    at: usize,
    v: StoreView,
) -> Result<StoreView, ToolStop> {
    if s == "--bucket"@ {
        Ok(StoreView { bucket: Some(value), ..v })
    } else if s == "-o"@ || s == "--output"@ {
        Ok(StoreView { output: Some(value), ..v })
    } else if s == "--index"@ {
        Ok(StoreView { index: Some(value), ..v })
    } else if s == "-p"@ || s == "--pipeline"@ {
        Ok(StoreView { manifests: v.manifests.push(value), ..v })
    } else {
        match u64_value(value) {
            Some(n) => if n > 0 {
                Ok(StoreView { jobs: Some(n), ..v })
            } else {
                Err(ToolStop::BadJobs(at))
            },
            None => Err(ToolStop::BadJobs(at)),
        }
    }
}

/// What the words from the `i`-th on add to what is asked.
pub open spec fn store_from(argv: Seq<Seq<char>>, i: int, v: StoreView) -> Result<
    StoreView,
    ToolStop,
>
    decreases argv.len() - i,
{
    if i < 0 || i >= argv.len() {
        Ok(v)
    } else {
        let s = argv[i];
        if s == "-h"@ || s == "--help"@ {
            Err(ToolStop::Help)
        } else if s == "-n"@ || s == "--dry-run"@ {
            store_from(argv, i + 1, StoreView { dry_run: true, ..v })
        } else if s == "--quick"@ {
            store_from(argv, i + 1, StoreView { quick: true, ..v })
        } else if s == "-y"@ || s == "--yes"@ {
            store_from(argv, i + 1, StoreView { yes: true, ..v })
        } else if takes_value(s) {
            if i + 1 >= argv.len() {
                Err(ToolStop::NeedsValue(i as usize))
            } else {
                match store_valued(s, argv[i + 1], i as usize, v) {
                    Ok(w) => store_from(argv, i + 2, w),
                    Err(e) => Err(e),
                }
            }
        } else if "-"@.is_prefix_of(s) {
            Err(ToolStop::Unknown(i as usize))
        } else {
            store_from(argv, i + 1, StoreView { words: v.words.push(s), ..v })
        }
    }
}

fn valued(s: &str) -> (r: bool)
    ensures
        r == takes_value(s@),
{
    same(s, "--bucket") || same(s, "-o") || same(s, "--output") || same(s, "--index") || same(
        s,
        "-j",
    ) || same(s, "--jobs") || same(s, "-p") || same(s, "--pipeline")
}

fn take_value(s: &str, value: &String, at: usize, a: &mut StoreArgs) -> (r: Result<(), ToolStop>)
    ensures
        match store_valued(s@, value@, at, old(a)@) {
            Ok(v) => r is Ok && final(a)@ == v,
            Err(e) => r == Err::<(), ToolStop>(e),
        },
{
    if same(s, "--bucket") {
        a.bucket = Some(value.clone());
    } else if same(s, "-o") || same(s, "--output") {
        a.output = Some(value.clone());
    } else if same(s, "--index") {
        a.index = Some(value.clone());
    } else if same(s, "-p") || same(s, "--pipeline") {
        push_name(&mut a.manifests, value);
    } else {
        match parse_u64(value.as_str()) {
            Some(n) => {
                if n == 0 {
                    return Err(ToolStop::BadJobs(at));
                }
                a.jobs = Some(n);
            },
            None => {
                return Err(ToolStop::BadJobs(at));
            },
        }
    }
    Ok(())
}

/// Reads the command line of the store.
pub fn parse_store(argv: &Vec<String>) -> (r: Result<StoreArgs, ToolStop>)
    ensures
        match r {
            Ok(a) => store_from(views(argv@), 0, store_start()) == Ok::<StoreView, ToolStop>(a@),
            Err(e) => store_from(views(argv@), 0, store_start()) == Err::<StoreView, ToolStop>(e),
        },
{
    let mut a: StoreArgs = StoreArgs {
        bucket: None,
        output: None,
        index: None,
        dry_run: false,
        quick: false,
        yes: false,
        jobs: None,
        manifests: no_names(),
        words: no_names(),
    };
    let ghost v = views(argv@);
    let mut i: usize = 0;
    proof {
        assert(a@ =~= store_start());
        assert(argv.len() <= usize::MAX);
    }
    while i < argv.len()
        invariant
            i <= argv.len(),
            v == views(argv@),
            store_from(v, 0, store_start()) == store_from(v, i as int, a@),
        decreases argv.len() - i,
    {
        let s: &str = argv[i].as_str();
        proof {
            assert(v[i as int] == argv@[i as int]@);
        }
        if same(s, "-h") || same(s, "--help") {
            return Err(ToolStop::Help);
        } else if same(s, "-n") || same(s, "--dry-run") {
            a.dry_run = true;
            i += 1;
        } else if same(s, "--quick") {
            a.quick = true;
            i += 1;
        } else if same(s, "-y") || same(s, "--yes") {
            a.yes = true;
            i += 1;
        } else if valued(s) {
            if argv.len() - i < 2 {
                return Err(ToolStop::NeedsValue(i));
            }
            proof {
                assert(v[i + 1] == argv@[i + 1]@);
            }
            match take_value(s, &argv[i + 1], i, &mut a) {
                Ok(_) => {},
                Err(e) => {
                    return Err(e);
                },
            }
            i += 2;
        } else if starts_with(s, "-") {
            return Err(ToolStop::Unknown(i));
        } else {
            push_name(&mut a.words, &argv[i]);
            i += 1;
        }
    }
    Ok(a)
}

/// What the store does.
#[derive(Clone, Copy, PartialEq, Eq, Structural, Debug)]
pub enum StoreCommand {
    /// Shows the help: there is no word.
    Help,
    /// Writes the index.
    Index,
    /// Downloads what the words after the first select, with so many transfers at a time.
    Pull(u64),
    /// Uploads, with so many transfers at a time.
    Push(u64),
    /// Deletes, with so many transfers at a time; lists only, unless told otherwise.
    Prune(u64, bool),
    /// There are words after one that takes none.
    ExtraWords,
    /// There is no such command.
    Unknown,
}

/// What the store does.
pub open spec fn store_command_spec(v: StoreView) -> StoreCommand {
    let down = match v.jobs {
        Some(n) => n,
        None => 8u64,
    };
    let up = match v.jobs {
        Some(n) => n,
        None => 4u64,
    };
    if v.words.len() == 0 {
        StoreCommand::Help
    } else if v.words[0] == "pull"@ {
        StoreCommand::Pull(down)
    } else if v.words[0] != "index"@ && v.words[0] != "push"@ && v.words[0] != "prune"@ {
        StoreCommand::Unknown
    } else if v.words.len() > 1 {
        StoreCommand::ExtraWords
    } else if v.words[0] == "index"@ {
        StoreCommand::Index
    } else if v.words[0] == "push"@ {
        StoreCommand::Push(up)
    } else {
        StoreCommand::Prune(up, v.yes && !v.dry_run)
    }
}

/// What the store does: a dry run never deletes, whatever else is said.
pub fn store_command(a: &StoreArgs) -> (r: StoreCommand)
    ensures
        r == store_command_spec(a@),
{
    let down: u64 = match a.jobs {
        Some(n) => n,
        None => 8,
    };
    let up: u64 = match a.jobs {
        Some(n) => n,
        None => 4,
    };
    if a.words.len() == 0 {
        return StoreCommand::Help;
    }
    proof {
        assert(a@.words[0] == a.words@[0]@);
    }
    let first: &str = a.words[0].as_str();
    if same(first, "pull") {
        StoreCommand::Pull(down)
    } else if !same(first, "index") && !same(first, "push") && !same(first, "prune") {
        StoreCommand::Unknown
    } else if a.words.len() > 1 {
        StoreCommand::ExtraWords
    } else if same(first, "index") {
        StoreCommand::Index
    } else if same(first, "push") {
        StoreCommand::Push(up)
    } else {
        StoreCommand::Prune(up, a.yes && !a.dry_run)
    }
}

/// The manifests that an upload is taken from: those given, or both.
pub fn store_manifests(a: &StoreArgs) -> (r: Vec<String>)
    ensures
        views(r@) == (if a@.manifests.len() == 0 {
            seq!["pipeline-old.toml"@, "pipeline-new.toml"@]
        } else {
            a@.manifests
        }),
{
    if a.manifests.len() == 0 {
        let mut both: Vec<String> = no_names();
        push_name(&mut both, &"pipeline-old.toml".to_string());
        push_name(&mut both, &"pipeline-new.toml".to_string());
        proof {
            assert(views(both@) =~= seq!["pipeline-old.toml"@, "pipeline-new.toml"@]);
        }
        both
    } else {
        crate::text::copy_names(&a.manifests)
    }
}

/// Deleting takes the word for it, and no word against it.
pub proof fn lemma_prune_asks(v: StoreView)
    ensures
        match store_command_spec(v) {
            StoreCommand::Prune(_, deletes) => deletes ==> v.yes && !v.dry_run,
            _ => true,
        },
{
}

// ---------------------------------------------------------------------------
// Expected numbers
// ---------------------------------------------------------------------------

/// A row of a report, with its numbers as they are printed.
pub struct ReportRow {
    pub name: String,
    pub probe: Option<String>,
    pub quiz: Option<String>,
}

/// A row that is recorded: its name, and its numbers as an inline table.
pub open spec fn recorded(
    name: Seq<char>,
    probe: Option<Seq<char>>,
    quiz: Option<Seq<char>>,
) -> Option<(Seq<char>, Seq<char>)> {
    if has_text(name, " + "@) {
        None
    } else {
        match (probe, quiz) {
            (None, None) => None,
            (Some(p), None) => Some((name, "{ probe = "@ + p + " }"@)),
            (None, Some(q)) => Some((name, "{ quiz = "@ + q + " }"@)),
            (Some(p), Some(q)) => Some((name, "{ probe = "@ + p + ", quiz = "@ + q + " }"@)),
        }
    }
}

/// Whether a text occurs in another.
pub open spec fn has_text(s: Seq<char>, p: Seq<char>) -> bool {
    crate::npy::first_text(s, p, 0) <= s.len()
}

/// What is recorded of a row of a report: nothing of a row that measures columns on top, else the
/// numbers that are kept.
pub fn record_row(row: &ReportRow, keep_probe: bool, keep_quiz: bool) -> (r: Option<(String, String)>)
    ensures
        match recorded(
            row.name@,
            if keep_probe {
                text_view(row.probe)
            } else {
                None
            },
            if keep_quiz {
                text_view(row.quiz)
            } else {
                None
            },
        ) {
            Some((name, table)) => r matches Some(p) && p.0@ == name && p.1@ == table,
            None => r is None,
        },
{
    let v: Vec<char> = crate::text::chars_of(row.name.as_str());
    if crate::npy::find_text(&v, " + ").is_some() {
        return None;
    }
    let probe: Option<&String> = if keep_probe {
        row.probe.as_ref()
    } else {
        None
    };
    let quiz: Option<&String> = if keep_quiz {
        row.quiz.as_ref()
    } else {
        None
    };
    match probe {
        None => match quiz {
            None => None,
            Some(q) => Some(
                (row.name.clone(), crate::text::joined3("{ quiz = ", q.as_str(), " }")),
            ),
        },
        Some(p) => match quiz {
            None => Some(
                (row.name.clone(), crate::text::joined3("{ probe = ", p.as_str(), " }")),
            ),
            Some(q) => {
                let a: String = crate::text::joined3("{ probe = ", p.as_str(), ", quiz = ");
                Some((row.name.clone(), crate::text::joined3(a.as_str(), q.as_str(), " }")))
            },
        },
    }
}

/// Words are read one after the other: what follows a line that is read goes on from it.
pub proof fn lemma_run_in_turn(a: Seq<Seq<char>>, b: Seq<Seq<char>>, i: int, v: RunView, w: RunView)
    requires
        0 <= i <= a.len(),
        run_from(a, i, v) == Ok::<RunView, ToolStop>(w),
    ensures
        run_from(a + b, i, v) == run_from(a + b, a.len() as int, w),
    decreases a.len() - i,
{
    if i < a.len() {
        let s = a[i];
        assert((a + b)[i] == s);
        if s == "-p"@ || s == "--pipeline"@ {
            if i + 1 < a.len() {
                assert((a + b)[i + 1] == a[i + 1]);
            }
        }
        if s == "-h"@ || s == "--help"@ {
        } else if s == "-l"@ || s == "--list"@ {
            lemma_run_in_turn(a, b, i + 1, RunView { list: true, ..v }, w);
        } else if s == "-f"@ || s == "--force"@ {
            lemma_run_in_turn(a, b, i + 1, RunView { force: true, ..v }, w);
        } else if s == "-c"@ || s == "--clean"@ {
            lemma_run_in_turn(a, b, i + 1, RunView { clean: true, ..v }, w);
        } else if s == "--setup"@ {
            lemma_run_in_turn(a, b, i + 1, RunView { setup: true, ..v }, w);
        } else if s == "-n"@ || s == "--new"@ {
            lemma_run_in_turn(a, b, i + 1, RunView { pipeline: "pipeline-new.toml"@, ..v }, w);
        } else if s == "-p"@ || s == "--pipeline"@ {
            lemma_run_in_turn(a, b, i + 2, RunView { pipeline: a[i + 1], ..v }, w);
        } else {
            lemma_run_in_turn(a, b, i + 1, RunView { job: Some(s), ..v }, w);
        }
    }
}

proof fn lemma_dash(s: Seq<char>)
    ensures
        "-"@.is_prefix_of(s) <==> s.len() > 0 && s[0] == '-',
{
    reveal_strlit("-");
    if s.len() > 0 && s[0] == '-' {
        assert(s.subrange(0, 1) =~= "-"@);
    }
    if "-"@.is_prefix_of(s) {
        assert("-"@[0] == s[0]);
    }
}

/// What one word more does: each setting is changed by its own words alone.
pub proof fn lemma_run_word(a: Seq<Seq<char>>, s: Seq<char>, v: RunView, w: RunView)
    requires
        run_from(a + seq![s], a.len() as int, v) == Ok::<RunView, ToolStop>(w),
    ensures
        w.list == (v.list || s == "-l"@ || s == "--list"@),
        w.force == (v.force || s == "-f"@ || s == "--force"@),
        w.clean == (v.clean || s == "-c"@ || s == "--clean"@),
        w.setup == (v.setup || s == "--setup"@),
        w.pipeline == (if s == "-n"@ || s == "--new"@ {
            "pipeline-new.toml"@
        } else {
            v.pipeline
        }),
        w.job == (if "-"@.is_prefix_of(s) {
            v.job
        } else {
            Some(s)
        }),
        !"-"@.is_prefix_of(s) ==> v.job is None,
        s != "-p"@ && s != "--pipeline"@ && s != "-h"@ && s != "--help"@,
{
    reveal_strlit("-");
    reveal_strlit("-h");
    reveal_strlit("--help");
    reveal_strlit("-l");
    reveal_strlit("--list");
    reveal_strlit("-f");
    reveal_strlit("--force");
    reveal_strlit("-c");
    reveal_strlit("--clean");
    reveal_strlit("--setup");
    reveal_strlit("-n");
    reveal_strlit("--new");
    reveal_strlit("-p");
    reveal_strlit("--pipeline");
    lemma_dash(s);
    assert("-h"@[1] == 'h' && "--help"@[1] == '-' && "--help"@[2] == 'h' && "-l"@[1] == 'l' && "--list"@[1] == '-' && "--list"@[2] == 'l' && "-f"@[1] == 'f' && "--force"@[1] == '-' && "--force"@[2] == 'f' && "-c"@[1] == 'c' && "--clean"@[1] == '-' && "--clean"@[2] == 'c' && "--setup"@[1] == '-' && "--setup"@[2] == 's' && "-n"@[1] == 'n' && "--new"@[1] == '-' && "--new"@[2] == 'n' && "-p"@[1] == 'p' && "--pipeline"@[1] == '-' && "--pipeline"@[2] == 'p');
    let all = a + seq![s];
    let n = a.len() as int;
    assert(all[n] == s);
    assert(all.len() == n + 1);
    reveal_with_fuel(run_from, 2);
}

/// A pipeline is named by the word after its flag.
pub proof fn lemma_run_pipeline(a: Seq<Seq<char>>, s: Seq<char>, value: Seq<char>, v: RunView)
    requires
        s == "-p"@ || s == "--pipeline"@,
        a.len() <= usize::MAX,
    ensures
        run_from(a + seq![s, value], a.len() as int, v) == Ok::<RunView, ToolStop>(
            RunView { pipeline: value, ..v },
        ),
        run_from(a + seq![s], a.len() as int, v) == Err::<RunView, ToolStop>(
            ToolStop::NeedsValue(a.len() as usize),
        ),
{
    reveal_strlit("-");
    reveal_strlit("-h");
    reveal_strlit("--help");
    reveal_strlit("-l");
    reveal_strlit("--list");
    reveal_strlit("-f");
    reveal_strlit("--force");
    reveal_strlit("-c");
    reveal_strlit("--clean");
    reveal_strlit("--setup");
    reveal_strlit("-n");
    reveal_strlit("--new");
    reveal_strlit("-p");
    reveal_strlit("--pipeline");
    lemma_dash(s);
    assert("-h"@[1] == 'h' && "--help"@[1] == '-' && "--help"@[2] == 'h' && "-l"@[1] == 'l' && "--list"@[1] == '-' && "--list"@[2] == 'l' && "-f"@[1] == 'f' && "--force"@[1] == '-' && "--force"@[2] == 'f' && "-c"@[1] == 'c' && "--clean"@[1] == '-' && "--clean"@[2] == 'c' && "--setup"@[1] == '-' && "--setup"@[2] == 's' && "-n"@[1] == 'n' && "--new"@[1] == '-' && "--new"@[2] == 'n' && "-p"@[1] == 'p' && "--pipeline"@[1] == '-' && "--pipeline"@[2] == 'p');
    let all = a + seq![s, value];
    let n = a.len() as int;
    assert(all[n] == s && all[n + 1] == value);
    assert((a + seq![s])[n] == s);
    reveal_with_fuel(run_from, 2);
}

/// A line stops at help, at a word with a dash that is no flag, and at a second job.
pub proof fn lemma_run_stops(a: Seq<Seq<char>>, s: Seq<char>, b: Seq<Seq<char>>, v: RunView)
    requires
        a.len() <= usize::MAX,
    ensures
        s == "-h"@ || s == "--help"@ ==> run_from(a + seq![s] + b, a.len() as int, v) == Err::<
            RunView,
            ToolStop,
        >(ToolStop::Help),
        !"-"@.is_prefix_of(s) && v.job is Some ==> run_from(a + seq![s] + b, a.len() as int, v)
            == Err::<RunView, ToolStop>(ToolStop::SecondJob(a.len() as usize)),
        "-"@.is_prefix_of(s) && s != "-h"@ && s != "--help"@ && s != "-l"@ && s != "--list"@ && s
            != "-f"@ && s != "--force"@ && s != "-c"@ && s != "--clean"@ && s != "--setup"@ && s
            != "-n"@ && s != "--new"@ && s != "-p"@ && s != "--pipeline"@ ==> run_from(
            a + seq![s] + b,
            a.len() as int,
            v,
        ) == Err::<RunView, ToolStop>(ToolStop::Unknown(a.len() as usize)),
{
    reveal_strlit("-");
    reveal_strlit("-h");
    reveal_strlit("--help");
    reveal_strlit("-l");
    reveal_strlit("--list");
    reveal_strlit("-f");
    reveal_strlit("--force");
    reveal_strlit("-c");
    reveal_strlit("--clean");
    reveal_strlit("--setup");
    reveal_strlit("-n");
    reveal_strlit("--new");
    reveal_strlit("-p");
    reveal_strlit("--pipeline");
    lemma_dash(s);
    assert("-h"@[1] == 'h' && "--help"@[1] == '-' && "--help"@[2] == 'h' && "-l"@[1] == 'l' && "--list"@[1] == '-' && "--list"@[2] == 'l' && "-f"@[1] == 'f' && "--force"@[1] == '-' && "--force"@[2] == 'f' && "-c"@[1] == 'c' && "--clean"@[1] == '-' && "--clean"@[2] == 'c' && "--setup"@[1] == '-' && "--setup"@[2] == 's' && "-n"@[1] == 'n' && "--new"@[1] == '-' && "--new"@[2] == 'n' && "-p"@[1] == 'p' && "--pipeline"@[1] == '-' && "--pipeline"@[2] == 'p');
    let all = a + seq![s] + b;
    assert(all[a.len() as int] == s);
}

/// A job's list, a clean-up and a set-up are asked for by flags: a set-up comes before all else, then
/// a clean-up, then the job; without any of them the jobs are listed.
pub proof fn lemma_run_mode(v: RunView)
    ensures
        run_mode_spec(v).0 == RunMode::Setup <==> v.setup,
        run_mode_spec(v).0 == RunMode::Clean <==> !v.setup && v.clean,
        run_mode_spec(v).0 == RunMode::Job <==> !v.setup && !v.clean && v.job is Some,
        run_mode_spec(v).1 == (match run_mode_spec(v).0 {
            RunMode::Setup => v.job is Some,
            RunMode::Clean => v.job is Some,
            RunMode::Job => v.list,
            RunMode::List => v.force,
        }),
{
}

/// What a store's first word asks for: a pull with eight transfers, a push or a prune with four,
/// unless a number is given; only a pull takes more words.
pub proof fn lemma_store_command(v: StoreView)
    ensures
        store_command_spec(v) == StoreCommand::Help <==> v.words.len() == 0,
        v.words.len() > 0 && v.words[0] == "pull"@ ==> store_command_spec(v) == StoreCommand::Pull(
            if v.jobs is Some {
                v.jobs->Some_0
            } else {
                8
            },
        ),
        store_command_spec(v) matches StoreCommand::Pull(_) ==> v.words[0] == "pull"@,
        store_command_spec(v) == StoreCommand::Index ==> v.words =~= seq!["index"@],
        store_command_spec(v) matches StoreCommand::Push(n) ==> v.words =~= seq!["push"@] && n == (
        if v.jobs is Some {
            v.jobs->Some_0
        } else {
            4
        }),
        store_command_spec(v) matches StoreCommand::Prune(n, d) ==> v.words =~= seq!["prune"@] && n
            == (if v.jobs is Some {
            v.jobs->Some_0
        } else {
            4
        }) && (d <==> v.yes && !v.dry_run),
        store_command_spec(v) == StoreCommand::ExtraWords ==> v.words.len() > 1 && v.words[0]
            != "pull"@ && (v.words[0] == "index"@ || v.words[0] == "push"@ || v.words[0]
            == "prune"@),
        store_command_spec(v) == StoreCommand::Unknown ==> v.words.len() > 0 && v.words[0]
            != "pull"@ && v.words[0] != "index"@ && v.words[0] != "push"@ && v.words[0] != "prune"@,
{
}

/// Words are read one after the other: what follows a line that is read goes on from it.
pub proof fn lemma_store_in_turn(
    a: Seq<Seq<char>>,
    b: Seq<Seq<char>>,
    i: int,
    v: StoreView,
    w: StoreView,
)
    requires
        0 <= i <= a.len(),
        store_from(a, i, v) == Ok::<StoreView, ToolStop>(w),
    ensures
        store_from(a + b, i, v) == store_from(a + b, a.len() as int, w),
    decreases a.len() - i,
{
    if i < a.len() {
        let s = a[i];
        assert((a + b)[i] == s);
        if i + 1 < a.len() {
            assert((a + b)[i + 1] == a[i + 1]);
        }
        if s == "-h"@ || s == "--help"@ {
        } else if s == "-n"@ || s == "--dry-run"@ {
            lemma_store_in_turn(a, b, i + 1, StoreView { dry_run: true, ..v }, w);
        } else if s == "--quick"@ {
            lemma_store_in_turn(a, b, i + 1, StoreView { quick: true, ..v }, w);
        } else if s == "-y"@ || s == "--yes"@ {
            lemma_store_in_turn(a, b, i + 1, StoreView { yes: true, ..v }, w);
        } else if takes_value(s) {
            if i + 1 < a.len() && store_valued(s, a[i + 1], i as usize, v) is Ok {
                lemma_store_in_turn(
                    a,
                    b,
                    i + 2,
                    store_valued(s, a[i + 1], i as usize, v)->Ok_0,
                    w,
                );
            }
        } else if !"-"@.is_prefix_of(s) {
            lemma_store_in_turn(a, b, i + 1, StoreView { words: v.words.push(s), ..v }, w);
        }
    }
}

/// What a flag with a value does: each setting is changed by its own flags alone.
pub proof fn lemma_store_valued(
    s: Seq<char>,
    value: Seq<char>,
    at: usize,
    v: StoreView,
    w: StoreView,
)
    requires
        takes_value(s),
        store_valued(s, value, at, v) == Ok::<StoreView, ToolStop>(w),
    ensures
        w.dry_run == v.dry_run && w.quick == v.quick && w.yes == v.yes && w.words == v.words,
        w.bucket == (if s == "--bucket"@ {
            Some(value)
        } else {
            v.bucket
        }),
        w.output == (if s == "-o"@ || s == "--output"@ {
            Some(value)
        } else {
            v.output
        }),
        w.index == (if s == "--index"@ {
            Some(value)
        } else {
            v.index
        }),
        w.manifests == (if s == "-p"@ || s == "--pipeline"@ {
            v.manifests.push(value)
        } else {
            v.manifests
        }),
        w.jobs == (if s == "-j"@ || s == "--jobs"@ {
            u64_value(value)
        } else {
            v.jobs
        }),
        s == "-j"@ || s == "--jobs"@ ==> u64_value(value) is Some && u64_value(value)->Some_0 > 0,
{
    reveal_strlit("-");
    reveal_strlit("-h");
    reveal_strlit("--help");
    reveal_strlit("-n");
    reveal_strlit("--dry-run");
    reveal_strlit("--quick");
    reveal_strlit("-y");
    reveal_strlit("--yes");
    reveal_strlit("--bucket");
    reveal_strlit("-o");
    reveal_strlit("--output");
    reveal_strlit("--index");
    reveal_strlit("-p");
    reveal_strlit("--pipeline");
    reveal_strlit("-j");
    reveal_strlit("--jobs");
    lemma_dash(s);
    assert("-h"@[1] == 'h' && "--help"@[1] == '-' && "--help"@[2] == 'h' && "-n"@[1] == 'n' && "--dry-run"@[1] == '-' && "--dry-run"@[2] == 'd' && "--quick"@[1] == '-' && "--quick"@[2] == 'q' && "-y"@[1] == 'y' && "--yes"@[1] == '-' && "--yes"@[2] == 'y' && "--bucket"@[1] == '-' && "--bucket"@[2] == 'b' && "-o"@[1] == 'o' && "--output"@[1] == '-' && "--output"@[2] == 'o' && "--index"@[1] == '-' && "--index"@[2] == 'i' && "-p"@[1] == 'p' && "--pipeline"@[1] == '-' && "--pipeline"@[2] == 'p' && "-j"@[1] == 'j' && "--jobs"@[1] == '-' && "--jobs"@[2] == 'j');
}

/// A number of transfers is refused if and only if it is none or zero.
pub proof fn lemma_store_refused(s: Seq<char>, value: Seq<char>, at: usize, v: StoreView)
    requires
        takes_value(s),
    ensures
        store_valued(s, value, at, v) is Err <==> (s == "-j"@ || s == "--jobs"@) && (u64_value(
            value,
        ) is None || u64_value(value) == Some(0u64)),
        store_valued(s, value, at, v) matches Err(e) ==> e == ToolStop::BadJobs(at),
{
    reveal_strlit("-");
    reveal_strlit("-h");
    reveal_strlit("--help");
    reveal_strlit("-n");
    reveal_strlit("--dry-run");
    reveal_strlit("--quick");
    reveal_strlit("-y");
    reveal_strlit("--yes");
    reveal_strlit("--bucket");
    reveal_strlit("-o");
    reveal_strlit("--output");
    reveal_strlit("--index");
    reveal_strlit("-p");
    reveal_strlit("--pipeline");
    reveal_strlit("-j");
    reveal_strlit("--jobs");
    lemma_dash(s);
    assert("-h"@[1] == 'h' && "--help"@[1] == '-' && "--help"@[2] == 'h' && "-n"@[1] == 'n' && "--dry-run"@[1] == '-' && "--dry-run"@[2] == 'd' && "--quick"@[1] == '-' && "--quick"@[2] == 'q' && "-y"@[1] == 'y' && "--yes"@[1] == '-' && "--yes"@[2] == 'y' && "--bucket"@[1] == '-' && "--bucket"@[2] == 'b' && "-o"@[1] == 'o' && "--output"@[1] == '-' && "--output"@[2] == 'o' && "--index"@[1] == '-' && "--index"@[2] == 'i' && "-p"@[1] == 'p' && "--pipeline"@[1] == '-' && "--pipeline"@[2] == 'p' && "-j"@[1] == 'j' && "--jobs"@[1] == '-' && "--jobs"@[2] == 'j');
}

/// What one word more does: a flag turns its own setting on, and a word without a dash is kept.
pub proof fn lemma_store_word(a: Seq<Seq<char>>, s: Seq<char>, v: StoreView, w: StoreView)
    requires
        store_from(a + seq![s], a.len() as int, v) == Ok::<StoreView, ToolStop>(w),
    ensures
        w.dry_run == (v.dry_run || s == "-n"@ || s == "--dry-run"@),
        w.quick == (v.quick || s == "--quick"@),
        w.yes == (v.yes || s == "-y"@ || s == "--yes"@),
        w.words == (if "-"@.is_prefix_of(s) {
            v.words
        } else {
            v.words.push(s)
        }),
        w.bucket == v.bucket && w.output == v.output && w.index == v.index && w.jobs == v.jobs
            && w.manifests == v.manifests,
        !takes_value(s),
{
    reveal_strlit("-");
    reveal_strlit("-h");
    reveal_strlit("--help");
    reveal_strlit("-n");
    reveal_strlit("--dry-run");
    reveal_strlit("--quick");
    reveal_strlit("-y");
    reveal_strlit("--yes");
    reveal_strlit("--bucket");
    reveal_strlit("-o");
    reveal_strlit("--output");
    reveal_strlit("--index");
    reveal_strlit("-p");
    reveal_strlit("--pipeline");
    reveal_strlit("-j");
    reveal_strlit("--jobs");
    lemma_dash(s);
    assert("-h"@[1] == 'h' && "--help"@[1] == '-' && "--help"@[2] == 'h' && "-n"@[1] == 'n' && "--dry-run"@[1] == '-' && "--dry-run"@[2] == 'd' && "--quick"@[1] == '-' && "--quick"@[2] == 'q' && "-y"@[1] == 'y' && "--yes"@[1] == '-' && "--yes"@[2] == 'y' && "--bucket"@[1] == '-' && "--bucket"@[2] == 'b' && "-o"@[1] == 'o' && "--output"@[1] == '-' && "--output"@[2] == 'o' && "--index"@[1] == '-' && "--index"@[2] == 'i' && "-p"@[1] == 'p' && "--pipeline"@[1] == '-' && "--pipeline"@[2] == 'p' && "-j"@[1] == 'j' && "--jobs"@[1] == '-' && "--jobs"@[2] == 'j');
    let all = a + seq![s];
    let n = a.len() as int;
    assert(all[n] == s);
    assert(all.len() == n + 1);
    reveal_with_fuel(store_from, 2);
}

/// A row is recorded under its own name with the numbers that it has, unless it has none or its name
/// holds a plus between blanks.
pub proof fn lemma_recorded(name: Seq<char>, probe: Option<Seq<char>>, quiz: Option<Seq<char>>, at: int)
    ensures
        recorded(name, probe, quiz) is Some ==> recorded(name, probe, quiz)->Some_0.0 == name && (
        probe is Some || quiz is Some) && !crate::text::occurs_at(name, " + "@, at),
        recorded(name, probe, quiz) is None ==> (probe is None && quiz is None) || has_text(
            name,
            " + "@,
        ),
        crate::text::occurs_at(name, " + "@, at) ==> has_text(name, " + "@),
{
    crate::npy::lemma_first_text(name, " + "@, 0);
}

/// A line without words sets nothing.
pub proof fn lemma_bare_lines()
    ensures
        run_from(Seq::empty(), 0, run_start()) == Ok::<RunView, ToolStop>(run_start()),
        store_from(Seq::empty(), 0, store_start()) == Ok::<StoreView, ToolStop>(store_start()),
        run_start().pipeline == "pipeline-old.toml"@ && run_start().job is None,
        !run_start().list && !run_start().force && !run_start().clean && !run_start().setup,
        store_start().bucket is None && store_start().output is None && store_start().index is None,
        !store_start().dry_run && !store_start().quick && !store_start().yes,
        store_start().jobs is None && store_start().manifests.len() == 0 && store_start().words.len()
            == 0,
{
}

/// The flags of the store that want a value.
pub proof fn lemma_takes_value(s: Seq<char>)
    ensures
        !takes_value(s) <==> s != "--bucket"@ && s != "-o"@ && s != "--output"@ && s != "--index"@ && s != "-j"@ && s != "--jobs"@ && s != "-p"@ && s != "--pipeline"@,
{
}

/// A line of the store stops at help, at a word with a dash that is no flag, and at a flag without
/// its value or with one that is refused; a flag with its value is taken.
pub proof fn lemma_store_stops(
    a: Seq<Seq<char>>,
    s: Seq<char>,
    value: Seq<char>,
    b: Seq<Seq<char>>,
    v: StoreView,
)
    requires
        a.len() <= usize::MAX,
    ensures
        s == "-h"@ || s == "--help"@ ==> store_from(a + seq![s] + b, a.len() as int, v) == Err::<
            StoreView,
            ToolStop,
        >(ToolStop::Help),
        "-"@.is_prefix_of(s) && !takes_value(s) && s != "-h"@ && s != "--help"@ && s != "-n"@ && s != "--dry-run"@ && s != "--quick"@ && s != "-y"@ && s != "--yes"@
            ==> store_from(a + seq![s] + b, a.len() as int, v) == Err::<StoreView, ToolStop>(
            ToolStop::Unknown(a.len() as usize),
        ),
        takes_value(s) ==> store_from(a + seq![s], a.len() as int, v) == Err::<StoreView, ToolStop>(
            ToolStop::NeedsValue(a.len() as usize),
        ),
        takes_value(s) ==> (match store_valued(s, value, a.len() as usize, v) {
            Ok(w) => store_from(a + seq![s, value] + b, a.len() as int, v) == store_from(
                a + seq![s, value] + b,
                a.len() as int + 2,
                w,
            ),
            Err(e) => store_from(a + seq![s, value] + b, a.len() as int, v) == Err::<
                StoreView,
                ToolStop,
            >(e),
        }),
{
    reveal_strlit("-");
    reveal_strlit("-h");
    reveal_strlit("--help");
    reveal_strlit("-n");
    reveal_strlit("--dry-run");
    reveal_strlit("--quick");
    reveal_strlit("-y");
    reveal_strlit("--yes");
    reveal_strlit("--bucket");
    reveal_strlit("-o");
    reveal_strlit("--output");
    reveal_strlit("--index");
    reveal_strlit("-p");
    reveal_strlit("--pipeline");
    reveal_strlit("-j");
    reveal_strlit("--jobs");
    lemma_dash(s);
    assert("-h"@[1] == 'h' && "--help"@[1] == '-' && "--help"@[2] == 'h' && "-n"@[1] == 'n' && "--dry-run"@[1] == '-' && "--dry-run"@[2] == 'd' && "--quick"@[1] == '-' && "--quick"@[2] == 'q' && "-y"@[1] == 'y' && "--yes"@[1] == '-' && "--yes"@[2] == 'y' && "--bucket"@[1] == '-' && "--bucket"@[2] == 'b' && "-o"@[1] == 'o' && "--output"@[1] == '-' && "--output"@[2] == 'o' && "--index"@[1] == '-' && "--index"@[2] == 'i' && "-p"@[1] == 'p' && "--pipeline"@[1] == '-' && "--pipeline"@[2] == 'p' && "-j"@[1] == 'j' && "--jobs"@[1] == '-' && "--jobs"@[2] == 'j');
    let n = a.len() as int;
    assert((a + seq![s] + b)[n] == s);
    assert((a + seq![s])[n] == s);
    let all = a + seq![s, value] + b;
    assert(all[n] == s && all[n + 1] == value);
}

} // verus!
