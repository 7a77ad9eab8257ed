//! Jobs by their names: presets, chains of models over each other's residuals, and the settings of
//! a tuning run.

use crate::args::Program;
use crate::text::after_last_at;
use crate::text::chars_occur_at;
use crate::text::chars_of;
use crate::text::find_char;
use crate::text::first_char;
use crate::text::joined;
use crate::text::occurs_at;
use crate::text::parse_u64;
use crate::text::piece;
use crate::text::same;
use crate::text::split;
use crate::text::split_on;
use crate::text::strip_suffix;
use crate::text::u64_value;
use crate::text::views;
use vstd::prelude::*;
use vstd::string::*;

verus! {

// ---------------------------------------------------------------------------
// Presets
// ---------------------------------------------------------------------------

/// The epoch from which weights are averaged, where nothing else is asked for.
pub const SWA_START: usize = 18;

/// A fit of the neural autoregressive model.
pub struct CfnadeFit {
    pub job: String,
    pub n_hidden: usize,
    pub rank: usize,
    pub n_epochs: usize,
    /// The epoch from which weights are averaged.
    pub swa_start: usize,
}

/// Whether any epoch of a fit averages weights.
pub open spec fn averages(fit: CfnadeFit) -> bool {
    1 <= fit.n_epochs && fit.swa_start <= fit.n_epochs
}

fn run_preset_swa(
    job_name: &str,
    n_hidden: usize,
    rank: usize,
    n_epochs: usize,
    swa_start: usize,
) -> (r: CfnadeFit)
    ensures
        r.job@ == job_name@,
        r.n_hidden == n_hidden,
        r.rank == rank,
        r.n_epochs == n_epochs,
        r.swa_start == swa_start,
{
    CfnadeFit { job: job_name.to_string(), n_hidden, rank, n_epochs, swa_start }
}

/// A preset of a size, with weights averaged from the usual epoch on.
pub fn run_preset(job_name: &str, n_hidden: usize, rank: usize, n_epochs: usize) -> (r: CfnadeFit)
    ensures
        r.job@ == job_name@,
        r.n_hidden == n_hidden,
        r.rank == rank,
        r.n_epochs == n_epochs,
        r.swa_start == SWA_START,
        averages(r) == (n_epochs >= SWA_START),
{
    run_preset_swa(job_name, n_hidden, rank, n_epochs, SWA_START)
}

/// The same without averaging: no epoch of the fit reaches the one from which weights would be
/// averaged.
pub fn run_preset_noswa(job_name: &str, n_hidden: usize, rank: usize, n_epochs: usize) -> (r:
    CfnadeFit)
    ensures
        r.job@ == job_name@,
        r.n_hidden == n_hidden,
        r.rank == rank,
        r.n_epochs == n_epochs,
        r.swa_start == usize::MAX,
        n_epochs < usize::MAX ==> !averages(r),
{
    run_preset_swa(job_name, n_hidden, rank, n_epochs, usize::MAX)
}

/// A job of the neural autoregressive model.
pub enum CfnadeJob {
    Fit(CfnadeFit),
    /// A tuning run.
    Test,
    Unknown,
}

/// The size of a preset: hidden units, rank and epochs, and whether weights are averaged.
pub open spec fn preset_of(s: Seq<char>) -> Option<(usize, usize, usize, bool)> {
    if s == "cfnade-96"@ {
        Some((320usize, 96usize, 95usize, true))
    } else if s == "cfnade-48"@ {
        Some((160usize, 48usize, 95usize, true))
    } else if s == "cfnade-12"@ {
        Some((40usize, 12usize, 40usize, true))
    } else if s == "cfnade-96r"@ {
        Some((320usize, 96usize, 95usize, false))
    } else {
        None
    }
}

/// Finds a job of the neural autoregressive model by its name.
pub fn cfnade_job(name: &str) -> (r: CfnadeJob)
    ensures
        match preset_of(name@) {
            Some((h, k, n, swa)) => r matches CfnadeJob::Fit(f) && f.job@ == name@ && f.n_hidden == h
                && f.rank == k && f.n_epochs == n && f.swa_start == (if swa {
                SWA_START
            } else {
                usize::MAX
            }) && averages(f) == swa,
            None => if name@ == "--test"@ {
                r is Test
            } else {
                r is Unknown
            },
        },
{
    if same(name, "cfnade-96") {
        CfnadeJob::Fit(run_preset(name, 320, 96, 95))
    } else if same(name, "cfnade-48") {
        CfnadeJob::Fit(run_preset(name, 160, 48, 95))
    } else if same(name, "cfnade-12") {
        CfnadeJob::Fit(run_preset(name, 40, 12, 40))
    } else if same(name, "cfnade-96r") {
        CfnadeJob::Fit(run_preset_noswa(name, 320, 96, 95))
    } else if same(name, "--test") {
        CfnadeJob::Test
    } else {
        CfnadeJob::Unknown
    }
}

// ---------------------------------------------------------------------------
// A tuning run
// ---------------------------------------------------------------------------

/// The place of the first word that is a key, or the number of words.
pub open spec fn key_place(args: Seq<Seq<char>>, key: Seq<char>, i: int) -> int
    decreases args.len() - i,
{
    if i < 0 || i >= args.len() {
        args.len() as int
    } else if args[i] == key {
        i
    } else {
        key_place(args, key, i + 1)
    }
}

fn find_key(args: &Vec<String>, key: &str) -> (r: usize)
    ensures
        r == key_place(views(args@), key@, 0),
        r <= args.len(),
{
    let mut i: usize = 0;
    while i < args.len()
        invariant
            i <= args.len(),
            key_place(views(args@), key@, 0) == key_place(views(args@), key@, i as int),
        decreases args.len() - i,
    {
        proof {
            assert(views(args@)[i as int] == args@[i as int]@);
        }
        if same(args[i].as_str(), key) {
            return i;
        }
        i += 1;
    }
    i
}

/// The value of a key on a command line.
pub enum CliArg {
    /// The key is not there.
    Absent,
    /// The key is the last word.
    Missing,
    Value(String),
}

/// Finds the value of a key: the word after its first occurrence.
pub fn cli_arg(args: &Vec<String>, key: &str) -> (r: CliArg)
    ensures
        ({
            let k = key_place(views(args@), key@, 0);
            if k >= args.len() {
                r is Absent
            } else if k + 1 >= args.len() {
                r is Missing
            } else {
                r matches CliArg::Value(v) && v@ == views(args@)[k + 1]
            }
        }),
{
    let k: usize = find_key(args, key);
    if k >= args.len() {
        return CliArg::Absent;
    }
    if args.len() - k < 2 {
        return CliArg::Missing;
    }
    CliArg::Value(args[k + 1].clone())
}

/// Whether a flag is on the command line.
pub fn has_flag(args: &Vec<String>, key: &str) -> (r: bool)
    ensures
        r == views(args@).contains(key@),
{
    let k: usize = find_key(args, key);
    proof {
        lemma_key_place(views(args@), key@, 0);
        if k < args.len() {
            assert(views(args@)[k as int] == key@);
        }
    }
    k < args.len()
}

/// What a tuning run switches on and off.
#[derive(Clone, Copy, PartialEq, Eq, Structural, Debug)]
pub struct CfnadeSwitches {
    pub ctx_target_day_scale: bool,
    pub implicit_probe_ctx: bool,
    /// On unless it is switched off; all others are off unless they are switched on.
    pub user_drift: bool,
    pub user_item_scale: bool,
    pub user_item_scale_bin: bool,
    pub user_day_bias_bin: bool,
    pub user_day_scale_bin: bool,
    pub day_bias: bool,
    pub item_time_bias: bool,
    pub day_freq_bias: bool,
    pub side_features: bool,
}

/// Reads the switches of a tuning run off its command line.
pub fn test_switches(args: &Vec<String>) -> (r: CfnadeSwitches)
    ensures
        r.ctx_target_day_scale == views(args@).contains("--ctx-target-day-scale"@),
        r.implicit_probe_ctx == views(args@).contains("--implicit-probe-ctx"@),
        r.user_drift == !views(args@).contains("--no-user-drift"@),
        r.user_item_scale == views(args@).contains("--user-item-scale"@),
        r.user_item_scale_bin == views(args@).contains("--user-item-scale-bin"@),
        r.user_day_bias_bin == views(args@).contains("--user-day-bias-bin"@),
        r.user_day_scale_bin == views(args@).contains("--user-day-scale-bin"@),
        r.day_bias == views(args@).contains("--day-bias"@),
        r.item_time_bias == views(args@).contains("--item-time-bias"@),
        r.day_freq_bias == views(args@).contains("--day-freq-bias"@),
        r.side_features == views(args@).contains("--wide"@),
{
    CfnadeSwitches {
        ctx_target_day_scale: has_flag(args, "--ctx-target-day-scale"),
        implicit_probe_ctx: has_flag(args, "--implicit-probe-ctx"),
        user_drift: !has_flag(args, "--no-user-drift"),
        user_item_scale: has_flag(args, "--user-item-scale"),
        user_item_scale_bin: has_flag(args, "--user-item-scale-bin"),
        user_day_bias_bin: has_flag(args, "--user-day-bias-bin"),
        user_day_scale_bin: has_flag(args, "--user-day-scale-bin"),
        day_bias: has_flag(args, "--day-bias"),
        item_time_bias: has_flag(args, "--item-time-bias"),
        day_freq_bias: has_flag(args, "--day-freq-bias"),
        side_features: has_flag(args, "--wide"),
    }
}

/// How often a tuning run is evaluated, if the command line says so readably.
pub open spec fn eval_every_spec(args: Seq<Seq<char>>) -> Option<u64> {
    let k = key_place(args, "--eval-every"@, 0);
    if k >= args.len() {
        Some(1u64)
    } else if k + 1 >= args.len() {
        None
    } else {
        u64_value(args[k + 1])
    }
}

/// Reads how often a tuning run is evaluated: after every epoch, where nothing else is asked for.
/// `None` where the key has no number after it.
pub fn eval_every(args: &Vec<String>) -> (r: Option<u64>)
    ensures
        r == eval_every_spec(views(args@)),
{
    match cli_arg(args, "--eval-every") {
        CliArg::Absent => Some(1),
        CliArg::Missing => None,
        CliArg::Value(v) => parse_u64(v.as_str()),
    }
}

proof fn lemma_key_place(args: Seq<Seq<char>>, key: Seq<char>, i: int)
    requires
        0 <= i <= args.len(),
    ensures
        i <= key_place(args, key, i) <= args.len(),
        key_place(args, key, i) < args.len() ==> args[key_place(args, key, i)] == key,
        forall|k: int| i <= k < key_place(args, key, i) ==> #[trigger] args[k] != key,
    decreases args.len() - i,
{
    if i < args.len() && args[i] != key {
        lemma_key_place(args, key, i + 1);
    }
}

/// The numbers of a list with commas, empty entries left out, if each is one.
pub open spec fn milestone_list(parts: Seq<Seq<char>>) -> Option<Seq<u64>>
    decreases parts.len(),
{
    if parts.len() == 0 {
        Some(Seq::empty())
    } else {
        match milestone_list(parts.drop_last()) {
            None => None,
            Some(v) => if parts.last().len() == 0 {
                Some(v)
            } else {
                match u64_value(parts.last()) {
                    Some(n) => Some(v.push(n)),
                    None => None,
                }
            },
        }
    }
}

proof fn lemma_milestones_stuck(parts: Seq<Seq<char>>, i: int)
    requires
        0 <= i <= parts.len(),
        milestone_list(parts.take(i)) is None,
    ensures
        milestone_list(parts) is None,
    decreases parts.len() - i,
{
    if i < parts.len() {
        assert(parts.take(i + 1).drop_last() =~= parts.take(i));
        lemma_milestones_stuck(parts, i + 1);
    } else {
        assert(parts.take(i) =~= parts);
    }
}

/// Reads milestones: the first four numbers of a list with commas.
pub fn read_milestones(s: &str) -> (r: Option<Vec<u64>>)
    ensures
        match milestone_list(split_on(s@, ',')) {
            None => r is None,
            Some(v) => r matches Some(m) && m@ == (if v.len() > 4 {
                v.take(4)
            } else {
                v
            }),
        },
{
    let parts: Vec<String> = split(s, ',');
    let ghost p = split_on(s@, ',');
    let mut all: Vec<u64> = Vec::new();
    let mut i: usize = 0;
    proof {
        assert(p.take(0) =~= Seq::<Seq<char>>::empty());
    }
    while i < parts.len()
        invariant
            i <= parts.len(),
            p == views(parts@),
            p == split_on(s@, ','),
            milestone_list(p.take(i as int)) == Some(all@),
        decreases parts.len() - i,
    {
        proof {
            assert(p[i as int] == parts@[i as int]@);
            assert(p.take(i + 1).drop_last() =~= p.take(i as int));
            assert(p.take(i + 1).last() == p[i as int]);
        }
        if parts[i].as_str().unicode_len() > 0 {
            match parse_u64(parts[i].as_str()) {
                Some(n) => {
                    all.push(n);
                },
                None => {
                    proof {
                        lemma_milestones_stuck(p, i + 1);
                    }
                    return None;
                },
            }
        }
        i += 1;
    }
    proof {
        assert(p.take(p.len() as int) =~= p);
    }
    if all.len() <= 4 {
        return Some(all);
    }
    let mut out: Vec<u64> = Vec::new();
    let mut j: usize = 0;
    while j < 4
        invariant
            j <= 4,
            all.len() > 4,
            out@ =~= all@.take(j as int),
        decreases 4 - j,
    {
        out.push(all[j]);
        j += 1;
    }
    Some(out)
}

/// The datasets of a tuning run: what it trains on, and what it predicts.
pub open spec fn datasets_of(s: Seq<char>) -> (Seq<char>, Seq<char>) {
    if s == "x"@ {
        ("trainx"@, "probex"@)
    } else if s == "full"@ {
        ("train"@, "probe"@)
    } else if s == "qual"@ {
        ("fulltrain"@, "qual"@)
    } else {
        ("train"@ + s, "probe"@ + s)
    }
}

/// The datasets of a tuning run.
pub fn dataset_names(s: &str) -> (r: (String, String))
    ensures
        r.0@ == datasets_of(s@).0,
        r.1@ == datasets_of(s@).1,
{
    if same(s, "x") {
        ("trainx".to_string(), "probex".to_string())
    } else if same(s, "full") {
        ("train".to_string(), "probe".to_string())
    } else if same(s, "qual") {
        ("fulltrain".to_string(), "qual".to_string())
    } else {
        (joined("train", s), joined("probe", s))
    }
}

/// Whether an epoch is evaluated: every so many, and the last.
pub fn is_evaluated(epoch: usize, every: usize, n_epochs: usize) -> (r: bool)
    requires
        every > 0,
    ensures
        r == (epoch as int % every as int == 0 || epoch == n_epochs),
{
    epoch % every == 0 || epoch == n_epochs
}

// ---------------------------------------------------------------------------
// Chains
// ---------------------------------------------------------------------------

/// What follows a base model in a chain.
#[derive(Clone, Copy, PartialEq, Eq, Structural, Debug)]
pub enum ChainKind {
    Knn3,
    Knnf,
    KnnfSharp,
    KnnfLocal,
    Knn3Half,
    Knn3Wide,
    Knn3Narrow,
    Knn3Widest,
    Knn3Steep,
    Nlpp,
}

/// A model over the residuals of a base model.
pub struct Chain {
    pub kind: ChainKind,
    pub base: String,
}

/// A text without its ending.
pub open spec fn without(s: Seq<char>, ending: Seq<char>) -> Seq<char> {
    s.take(s.len() - ending.len())
}

/// The chain that a job's ending names.
pub open spec fn chain_spec(s: Seq<char>) -> Option<(ChainKind, Seq<char>)> {
    if "__knn3"@.is_suffix_of(s) {
        Some((ChainKind::Knn3, without(s, "__knn3"@)))
    } else if "__knnf"@.is_suffix_of(s) {
        Some((ChainKind::Knnf, without(s, "__knnf"@)))
    } else if "__knnfb"@.is_suffix_of(s) {
        Some((ChainKind::KnnfSharp, without(s, "__knnfb"@)))
    } else if "__knnfc"@.is_suffix_of(s) {
        Some((ChainKind::KnnfLocal, without(s, "__knnfc"@)))
    } else if "__knn3p"@.is_suffix_of(s) {
        Some((ChainKind::Knn3Half, without(s, "__knn3p"@)))
    } else if "__knn3b"@.is_suffix_of(s) {
        Some((ChainKind::Knn3Wide, without(s, "__knn3b"@)))
    } else if "__knn3c"@.is_suffix_of(s) {
        Some((ChainKind::Knn3Narrow, without(s, "__knn3c"@)))
    } else if "__knn3d"@.is_suffix_of(s) {
        Some((ChainKind::Knn3Widest, without(s, "__knn3d"@)))
    } else if "__knn3e"@.is_suffix_of(s) {
        Some((ChainKind::Knn3Steep, without(s, "__knn3e"@)))
    } else if "__nlpp"@.is_suffix_of(s) {
        Some((ChainKind::Nlpp, without(s, "__nlpp"@)))
    } else {
        None
    }
}

/// The chain that a job's ending names.
pub fn chain_of(job: &str) -> (r: Option<Chain>)
    ensures
        match chain_spec(job@) {
            Some((kind, base)) => r matches Some(c) && c.kind == kind && c.base@ == base,
            None => r is None,
        },
{
    match strip_suffix(job, "__knn3") {
        Some(base) => {
            proof {
                assert(base@ =~= without(job@, "__knn3"@));
            }
            return Some(Chain { kind: ChainKind::Knn3, base });
        },
        None => {},
    }
    match strip_suffix(job, "__knnf") {
        Some(base) => {
            proof {
                assert(base@ =~= without(job@, "__knnf"@));
            }
            return Some(Chain { kind: ChainKind::Knnf, base });
        },
        None => {},
    }
    match strip_suffix(job, "__knnfb") {
        Some(base) => {
            proof {
                assert(base@ =~= without(job@, "__knnfb"@));
            }
            return Some(Chain { kind: ChainKind::KnnfSharp, base });
        },
        None => {},
    }
    match strip_suffix(job, "__knnfc") {
        Some(base) => {
            proof {
                assert(base@ =~= without(job@, "__knnfc"@));
            }
            return Some(Chain { kind: ChainKind::KnnfLocal, base });
        },
        None => {},
    }
    match strip_suffix(job, "__knn3p") {
        Some(base) => {
            proof {
                assert(base@ =~= without(job@, "__knn3p"@));
            }
            return Some(Chain { kind: ChainKind::Knn3Half, base });
        },
        None => {},
    }
    match strip_suffix(job, "__knn3b") {
        Some(base) => {
            proof {
                assert(base@ =~= without(job@, "__knn3b"@));
            }
            return Some(Chain { kind: ChainKind::Knn3Wide, base });
        },
        None => {},
    }
    match strip_suffix(job, "__knn3c") {
        Some(base) => {
            proof {
                assert(base@ =~= without(job@, "__knn3c"@));
            }
            return Some(Chain { kind: ChainKind::Knn3Narrow, base });
        },
        None => {},
    }
    match strip_suffix(job, "__knn3d") {
        Some(base) => {
            proof {
                assert(base@ =~= without(job@, "__knn3d"@));
            }
            return Some(Chain { kind: ChainKind::Knn3Widest, base });
        },
        None => {},
    }
    match strip_suffix(job, "__knn3e") {
        Some(base) => {
            proof {
                assert(base@ =~= without(job@, "__knn3e"@));
            }
            return Some(Chain { kind: ChainKind::Knn3Steep, base });
        },
        None => {},
    }
    match strip_suffix(job, "__nlpp") {
        Some(base) => {
            proof {
                assert(base@ =~= without(job@, "__nlpp"@));
            }
            return Some(Chain { kind: ChainKind::Nlpp, base });
        },
        None => {},
    }
    None
}

/// The target of a chain over the whole residual of its base, or over half of it.
pub fn chain_target(c: &Chain) -> (r: String)
    ensures
        r@ == (match c.kind {
            ChainKind::Knn3Half => "0.5*"@ + c.base@,
            ChainKind::Nlpp => "rtg"@,
            _ => "1.0*"@ + c.base@,
        }),
{
    match c.kind {
        ChainKind::Knn3Half => joined("0.5*", c.base.as_str()),
        ChainKind::Nlpp => "rtg".to_string(),
        _ => joined("1.0*", c.base.as_str()),
    }
}

/// Where a text occurs last in another, at `i` at the latest, or less than zero.
pub open spec fn last_text(s: Seq<char>, p: Seq<char>, i: int) -> int
    decreases i + 1,
{
    if i < 0 {
        -1
    } else if occurs_at(s, p, i) {
        i
    } else {
        last_text(s, p, i - 1)
    }
}

fn find_last_text(s: &Vec<char>, p: &str) -> (r: Option<usize>)
    ensures
        match r {
            Some(k) => k == last_text(s@, p@, s.len() as int) && occurs_at(s@, p@, k as int),
            None => last_text(s@, p@, s.len() as int) == -1,
        },
{
    let pv: Vec<char> = chars_of(p);
    let mut i: usize = s.len();
    if chars_occur_at(s, &pv, i) {
        return Some(i);
    }
    while i > 0
        invariant
            i <= s.len(),
            pv@ == p@,
            last_text(s@, p@, s.len() as int) == last_text(s@, p@, i - 1),
        decreases i,
    {
        i -= 1;
        if chars_occur_at(s, &pv, i) {
            return Some(i);
        }
    }
    None
}

/// A size and a weight: what stands before the first `p`, and what stands after it, if there is
/// one.
pub open spec fn weight_spec(s: Seq<char>) -> (Seq<char>, Option<Seq<char>>) {
    let k = first_char(s, 'p', 0);
    if k < s.len() {
        (s.take(k), Some(s.skip(k + 1)))
    } else {
        (s, None)
    }
}

/// Splits a size from its weight in per cent.
pub fn split_weight(spec: &str) -> (r: (String, Option<String>))
    ensures
        r.0@ == weight_spec(spec@).0,
        match weight_spec(spec@).1 {
            Some(w) => r.1 matches Some(t) && t@ == w,
            None => r.1 is None,
        },
{
    let v: Vec<char> = chars_of(spec);
    let k: usize = find_char(&v, 'p', 0);
    proof {
        crate::text::lemma_first_char(v@, 'p', 0);
    }
    if k < v.len() {
        proof {
            assert(v@.subrange(0, k as int) =~= v@.take(k as int));
            assert(v@.subrange(k + 1, v.len() as int) =~= v@.skip(k + 1));
        }
        (piece(&v, 0, k), Some(piece(&v, k + 1, v.len())))
    } else {
        (spec.to_string(), None)
    }
}

/// A size and its weight are the text again.
pub proof fn lemma_weight_recombines(s: Seq<char>)
    ensures
        match weight_spec(s) {
            (d, Some(w)) => s == d + "p"@ + w && !d.contains('p'),
            (d, None) => s == d && !d.contains('p'),
        },
{
    reveal_strlit("p");
    crate::text::lemma_first_char(s, 'p', 0);
    let k = first_char(s, 'p', 0);
    if k < s.len() {
        assert(s.take(k) + "p"@ + s.skip(k + 1) =~= s);
        if s.take(k).contains('p') {
            let j = s.take(k).index_of('p');
            assert(s[j] == 'p');
        }
    } else if s.contains('p') {
        let j = s.index_of('p');
        assert(s[j] == 'p');
    }
}

/// A factorisation over a part of a base's residual.
pub struct AsymJob {
    pub base: String,
    pub n_feat: u64,
    /// The weight of the base in per cent, as it was written; all of it where there is none.
    pub percent: Option<String>,
}

/// What a job's name says of a factorisation over a residual, if it names one and its size is a
/// number.
pub open spec fn asym_spec(s: Seq<char>) -> Option<(Seq<char>, u64, Option<Seq<char>>)> {
    let k = last_text(s, "__asym-"@, s.len() as int);
    let rest = s.skip(k + "__asym-"@.len());
    if k < 0 {
        None
    } else {
        match u64_value(weight_spec(rest).0) {
            Some(n) => Some((s.take(k), n, weight_spec(rest).1)),
            None => None,
        }
    }
}

/// Reads a job's name as a factorisation over a residual.
pub fn asym_job(job: &str) -> (r: Option<AsymJob>)
    ensures
        match asym_spec(job@) {
            Some((base, n, w)) => r matches Some(a) && a.base@ == base && a.n_feat == n && (match w {
                Some(t) => a.percent matches Some(p) && p@ == t,
                None => a.percent is None,
            }),
            None => r is None,
        },
{
    proof {
        reveal_strlit("__asym-");
    }
    let v: Vec<char> = chars_of(job);
    let k: usize = match find_last_text(&v, "__asym-") {
        Some(k) => k,
        None => {
            return None;
        },
    };
    proof {
        assert(v@.subrange(0, k as int) =~= v@.take(k as int));
        assert(v@.subrange(k + 7, v.len() as int) =~= v@.skip(k + 7));
    }
    let rest: String = piece(&v, k + 7, v.len());
    let parts: (String, Option<String>) = split_weight(rest.as_str());
    match parse_u64(parts.0.as_str()) {
        Some(n) => Some(AsymJob { base: piece(&v, 0, k), n_feat: n, percent: parts.1 }),
        None => None,
    }
}

/// A job's name split at its last underscore.
pub open spec fn stat_spec(s: Seq<char>) -> Option<(Seq<char>, Seq<char>)> {
    let k = after_last_at(s, '_');
    if k <= 0 {
        None
    } else {
        Some((s.take(k - 1), s.skip(k)))
    }
}

/// Splits the name of a job of neighbourhood statistics: the ratings, and the statistic.
pub fn stat_job(job: &str) -> (r: Option<(String, String)>)
    ensures
        match stat_spec(job@) {
            Some((a, b)) => r matches Some(p) && p.0@ == a && p.1@ == b,
            None => r is None,
        },
{
    let v: Vec<char> = chars_of(job);
    let mut i: usize = v.len();
    proof {
        assert(v@.take(i as int) =~= v@);
    }
    while i > 0 && v[i - 1] != '_'
        invariant
            v@ == job@,
            i <= v.len(),
            after_last_at(v@, '_') == after_last_at(v@.take(i as int), '_'),
        decreases i,
    {
        proof {
            assert(v@.take(i as int).drop_last() =~= v@.take(i - 1));
            assert(v@.take(i as int).last() == v@[i - 1]);
        }
        i -= 1;
    }
    if i == 0 {
        return None;
    }
    proof {
        assert(v@.take(i as int).last() == v@[i - 1]);
        assert(v@.subrange(0, i - 1) =~= v@.take(i - 1));
        assert(v@.subrange(i as int, v.len() as int) =~= v@.skip(i as int));
    }
    Some((piece(&v, 0, i - 1), piece(&v, i, v.len())))
}

// ---------------------------------------------------------------------------
// Blends by name
// ---------------------------------------------------------------------------

/// Which set of real-valued settings a blend takes.
#[derive(Clone, Copy, PartialEq, Eq, Structural, Debug)]
pub enum Tuning {
    /// The usual ones.
    Plain,
    /// Those tuned for regression.
    Regression,
    /// Those tuned for classes.
    Classifier,
    /// Those tuned for ordered classes.
    Ordinal,
}

/// The whole-number settings of boosted trees. All take two folds and sixteen threads.
#[derive(Clone, Copy, PartialEq, Eq, Structural, Debug)]
pub struct BoostPlan {
    pub num_leaves: usize,
    pub iters: usize,
    pub min_data_in_leaf: usize,
    pub bagging_freq: usize,
    pub max_bin: usize,
    pub multiclass: bool,
    pub ordinal: bool,
    pub tuning: Tuning,
}

/// The settings of a program's boosted trees by the blend's name.
pub open spec fn boost_plan_spec(p: Program, s: Seq<char>) -> Option<BoostPlan> {
    match p {
        Program::Gbm => if s == "gbr1"@ || s == "gbr1g"@ || s == "gbr1g1"@ || s == "gbr1g2"@ || s == "gbr1g3"@ || s == "gbr1g4"@ {
            Some((BoostPlan { num_leaves: 63, iters: 200, min_data_in_leaf: 20, bagging_freq: 0, max_bin: 255, multiclass: false, ordinal: false, tuning: Tuning::Plain }))
        } else if s == "gbr2"@ || s == "gbr2x"@ {
            Some((BoostPlan { num_leaves: 63, iters: 50, min_data_in_leaf: 20, bagging_freq: 0, max_bin: 255, multiclass: false, ordinal: false, tuning: Tuning::Plain }))
        } else if s == "gbr3"@ || s == "gbr3x"@ {
            Some((BoostPlan { num_leaves: 63, iters: 10, min_data_in_leaf: 20, bagging_freq: 0, max_bin: 255, multiclass: false, ordinal: false, tuning: Tuning::Plain }))
        } else if s == "gbr4o"@ || s == "gbr4ox"@ || s == "gbr4g1"@ || s == "gbr4g2"@ || s == "gbr4g3"@ || s == "gbr4g4"@ || s == "gbr4x"@ {
            Some((BoostPlan { num_leaves: 95, iters: 192, min_data_in_leaf: 388, bagging_freq: 3, max_bin: 127, multiclass: false, ordinal: false, tuning: Tuning::Regression }))
        } else if s == "gbc1"@ || s == "gbc1x"@ || s == "gbc1y"@ {
            Some((BoostPlan { num_leaves: 63, iters: 200, min_data_in_leaf: 20, bagging_freq: 0, max_bin: 255, multiclass: true, ordinal: false, tuning: Tuning::Plain }))
        } else if s == "gbc2o"@ || s == "gbc2x"@ {
            Some((BoostPlan { num_leaves: 191, iters: 400, min_data_in_leaf: 527, bagging_freq: 3, max_bin: 127, multiclass: true, ordinal: false, tuning: Tuning::Classifier }))
        } else {
            None
        },
        Program::GbmNew => if s == "gbr1"@ {
            Some((BoostPlan { num_leaves: 63, iters: 200, min_data_in_leaf: 20, bagging_freq: 0, max_bin: 255, multiclass: false, ordinal: false, tuning: Tuning::Plain }))
        } else if s == "gbr2"@ {
            Some((BoostPlan { num_leaves: 63, iters: 50, min_data_in_leaf: 20, bagging_freq: 0, max_bin: 255, multiclass: false, ordinal: false, tuning: Tuning::Plain }))
        } else if s == "gbr3"@ {
            Some((BoostPlan { num_leaves: 63, iters: 10, min_data_in_leaf: 20, bagging_freq: 0, max_bin: 255, multiclass: false, ordinal: false, tuning: Tuning::Plain }))
        } else if s == "gbc1"@ {
            Some((BoostPlan { num_leaves: 63, iters: 200, min_data_in_leaf: 20, bagging_freq: 0, max_bin: 255, multiclass: true, ordinal: false, tuning: Tuning::Plain }))
        } else if s == "gbr_opt"@ {
            Some((BoostPlan { num_leaves: 95, iters: 192, min_data_in_leaf: 388, bagging_freq: 3, max_bin: 127, multiclass: false, ordinal: false, tuning: Tuning::Regression }))
        } else {
            None
        },
        Program::GbmOpt => if s == "gbr1"@ {
            Some((BoostPlan { num_leaves: 63, iters: 200, min_data_in_leaf: 20, bagging_freq: 0, max_bin: 255, multiclass: false, ordinal: false, tuning: Tuning::Plain }))
        } else if s == "gbr2"@ {
            Some((BoostPlan { num_leaves: 63, iters: 50, min_data_in_leaf: 20, bagging_freq: 0, max_bin: 255, multiclass: false, ordinal: false, tuning: Tuning::Plain }))
        } else if s == "gbr3"@ {
            Some((BoostPlan { num_leaves: 63, iters: 10, min_data_in_leaf: 20, bagging_freq: 0, max_bin: 255, multiclass: false, ordinal: false, tuning: Tuning::Plain }))
        } else if s == "gbc1"@ {
            Some((BoostPlan { num_leaves: 63, iters: 200, min_data_in_leaf: 20, bagging_freq: 0, max_bin: 255, multiclass: true, ordinal: false, tuning: Tuning::Plain }))
        } else if s == "gbc1_opt"@ || s == "gbc1_opt_cfnade8"@ {
            Some((BoostPlan { num_leaves: 191, iters: 400, min_data_in_leaf: 527, bagging_freq: 3, max_bin: 127, multiclass: true, ordinal: false, tuning: Tuning::Classifier }))
        } else if s == "gbc_ord"@ || s == "gbc_ord_cfnade8"@ {
            Some((BoostPlan { num_leaves: 63, iters: 200, min_data_in_leaf: 20, bagging_freq: 0, max_bin: 255, multiclass: false, ordinal: true, tuning: Tuning::Plain }))
        } else if s == "gbc_ord_opt"@ || s == "gbc_ord_opt_cfnade8"@ {
            Some((BoostPlan { num_leaves: 95, iters: 364, min_data_in_leaf: 59, bagging_freq: 5, max_bin: 127, multiclass: false, ordinal: true, tuning: Tuning::Ordinal }))
        } else if s == "gbr_opt"@ || s == "gbr_opt_cfnade8"@ {
            Some((BoostPlan { num_leaves: 95, iters: 192, min_data_in_leaf: 388, bagging_freq: 3, max_bin: 127, multiclass: false, ordinal: false, tuning: Tuning::Regression }))
        } else {
            None
        },
        _ => None,
    }
}

/// The settings of a program's boosted trees by the blend's name; none where the name is unknown.
pub fn boost_plan(p: Program, s: &str) -> (r: Option<BoostPlan>)
    ensures
        r == boost_plan_spec(p, s@),
{
    match p {
        Program::Gbm => if same(s, "gbr1") || same(s, "gbr1g") || same(s, "gbr1g1") || same(s, "gbr1g2") || same(s, "gbr1g3") || same(s, "gbr1g4") {
            Some((BoostPlan { num_leaves: 63, iters: 200, min_data_in_leaf: 20, bagging_freq: 0, max_bin: 255, multiclass: false, ordinal: false, tuning: Tuning::Plain }))
        } else if same(s, "gbr2") || same(s, "gbr2x") {
            Some((BoostPlan { num_leaves: 63, iters: 50, min_data_in_leaf: 20, bagging_freq: 0, max_bin: 255, multiclass: false, ordinal: false, tuning: Tuning::Plain }))
        } else if same(s, "gbr3") || same(s, "gbr3x") {
            Some((BoostPlan { num_leaves: 63, iters: 10, min_data_in_leaf: 20, bagging_freq: 0, max_bin: 255, multiclass: false, ordinal: false, tuning: Tuning::Plain }))
        } else if same(s, "gbr4o") || same(s, "gbr4ox") || same(s, "gbr4g1") || same(s, "gbr4g2") || same(s, "gbr4g3") || same(s, "gbr4g4") || same(s, "gbr4x") {
            Some((BoostPlan { num_leaves: 95, iters: 192, min_data_in_leaf: 388, bagging_freq: 3, max_bin: 127, multiclass: false, ordinal: false, tuning: Tuning::Regression }))
        } else if same(s, "gbc1") || same(s, "gbc1x") || same(s, "gbc1y") {
            Some((BoostPlan { num_leaves: 63, iters: 200, min_data_in_leaf: 20, bagging_freq: 0, max_bin: 255, multiclass: true, ordinal: false, tuning: Tuning::Plain }))
        } else if same(s, "gbc2o") || same(s, "gbc2x") {
            Some((BoostPlan { num_leaves: 191, iters: 400, min_data_in_leaf: 527, bagging_freq: 3, max_bin: 127, multiclass: true, ordinal: false, tuning: Tuning::Classifier }))
        } else {
            None
        },
        Program::GbmNew => if same(s, "gbr1") {
            Some((BoostPlan { num_leaves: 63, iters: 200, min_data_in_leaf: 20, bagging_freq: 0, max_bin: 255, multiclass: false, ordinal: false, tuning: Tuning::Plain }))
        } else if same(s, "gbr2") {
            Some((BoostPlan { num_leaves: 63, iters: 50, min_data_in_leaf: 20, bagging_freq: 0, max_bin: 255, multiclass: false, ordinal: false, tuning: Tuning::Plain }))
        } else if same(s, "gbr3") {
            Some((BoostPlan { num_leaves: 63, iters: 10, min_data_in_leaf: 20, bagging_freq: 0, max_bin: 255, multiclass: false, ordinal: false, tuning: Tuning::Plain }))
        } else if same(s, "gbc1") {
            Some((BoostPlan { num_leaves: 63, iters: 200, min_data_in_leaf: 20, bagging_freq: 0, max_bin: 255, multiclass: true, ordinal: false, tuning: Tuning::Plain }))
        } else if same(s, "gbr_opt") {
            Some((BoostPlan { num_leaves: 95, iters: 192, min_data_in_leaf: 388, bagging_freq: 3, max_bin: 127, multiclass: false, ordinal: false, tuning: Tuning::Regression }))
        } else {
            None
        },
        Program::GbmOpt => if same(s, "gbr1") {
            Some((BoostPlan { num_leaves: 63, iters: 200, min_data_in_leaf: 20, bagging_freq: 0, max_bin: 255, multiclass: false, ordinal: false, tuning: Tuning::Plain }))
        } else if same(s, "gbr2") {
            Some((BoostPlan { num_leaves: 63, iters: 50, min_data_in_leaf: 20, bagging_freq: 0, max_bin: 255, multiclass: false, ordinal: false, tuning: Tuning::Plain }))
        } else if same(s, "gbr3") {
            Some((BoostPlan { num_leaves: 63, iters: 10, min_data_in_leaf: 20, bagging_freq: 0, max_bin: 255, multiclass: false, ordinal: false, tuning: Tuning::Plain }))
        } else if same(s, "gbc1") {
            Some((BoostPlan { num_leaves: 63, iters: 200, min_data_in_leaf: 20, bagging_freq: 0, max_bin: 255, multiclass: true, ordinal: false, tuning: Tuning::Plain }))
        } else if same(s, "gbc1_opt") || same(s, "gbc1_opt_cfnade8") {
            Some((BoostPlan { num_leaves: 191, iters: 400, min_data_in_leaf: 527, bagging_freq: 3, max_bin: 127, multiclass: true, ordinal: false, tuning: Tuning::Classifier }))
        } else if same(s, "gbc_ord") || same(s, "gbc_ord_cfnade8") {
            Some((BoostPlan { num_leaves: 63, iters: 200, min_data_in_leaf: 20, bagging_freq: 0, max_bin: 255, multiclass: false, ordinal: true, tuning: Tuning::Plain }))
        } else if same(s, "gbc_ord_opt") || same(s, "gbc_ord_opt_cfnade8") {
            Some((BoostPlan { num_leaves: 95, iters: 364, min_data_in_leaf: 59, bagging_freq: 5, max_bin: 127, multiclass: false, ordinal: true, tuning: Tuning::Ordinal }))
        } else if same(s, "gbr_opt") || same(s, "gbr_opt_cfnade8") {
            Some((BoostPlan { num_leaves: 95, iters: 192, min_data_in_leaf: 388, bagging_freq: 3, max_bin: 127, multiclass: false, ordinal: false, tuning: Tuning::Regression }))
        } else {
            None
        },
        _ => None,
    }
}

/// The whole-number settings of a neural network with two hidden layers. All take two folds.
#[derive(Clone, Copy, PartialEq, Eq, Structural, Debug)]
pub struct NetPlan {
    pub hidden_1: usize,
    pub hidden_2: usize,
    pub iters: usize,
    pub batch: usize,
    pub patience: usize,
    pub ordinal: bool,
    pub tuning: Tuning,
}

/// The settings of a program's neural networks by the blend's name.
pub open spec fn net_plan_spec(p: Program, s: Seq<char>) -> Option<NetPlan> {
    match p {
        Program::Mlp => if s == "mlpr1"@ {
            Some((NetPlan { hidden_1: 64, hidden_2: 64, iters: 64, batch: 200, patience: 10, ordinal: false, tuning: Tuning::Plain }))
        } else if s == "mlpr2o"@ {
            Some((NetPlan { hidden_1: 32, hidden_2: 32, iters: 80, batch: 200, patience: 9, ordinal: false, tuning: Tuning::Regression }))
        } else if s == "mlpc3o"@ {
            Some((NetPlan { hidden_1: 64, hidden_2: 32, iters: 80, batch: 400, patience: 7, ordinal: true, tuning: Tuning::Ordinal }))
        } else {
            None
        },
        Program::MlpOrdinal => if s == "mlpc_ord"@ {
            Some((NetPlan { hidden_1: 32, hidden_2: 32, iters: 80, batch: 200, patience: 9, ordinal: true, tuning: Tuning::Regression }))
        } else if s == "mlpc_ord_opt"@ || s == "mlpc_ord_opt_cfnade8"@ {
            Some((NetPlan { hidden_1: 64, hidden_2: 32, iters: 80, batch: 400, patience: 7, ordinal: true, tuning: Tuning::Ordinal }))
        } else if s == "mlpc_ord_base"@ {
            Some((NetPlan { hidden_1: 64, hidden_2: 64, iters: 64, batch: 200, patience: 10, ordinal: true, tuning: Tuning::Plain }))
        } else {
            None
        },
        _ => None,
    }
}

/// The settings of a program's neural networks by the blend's name; none where the name is unknown.
pub fn net_plan(p: Program, s: &str) -> (r: Option<NetPlan>)
    ensures
        r == net_plan_spec(p, s@),
{
    match p {
        Program::Mlp => if same(s, "mlpr1") {
            Some((NetPlan { hidden_1: 64, hidden_2: 64, iters: 64, batch: 200, patience: 10, ordinal: false, tuning: Tuning::Plain }))
        } else if same(s, "mlpr2o") {
            Some((NetPlan { hidden_1: 32, hidden_2: 32, iters: 80, batch: 200, patience: 9, ordinal: false, tuning: Tuning::Regression }))
        } else if same(s, "mlpc3o") {
            Some((NetPlan { hidden_1: 64, hidden_2: 32, iters: 80, batch: 400, patience: 7, ordinal: true, tuning: Tuning::Ordinal }))
        } else {
            None
        },
        Program::MlpOrdinal => if same(s, "mlpc_ord") {
            Some((NetPlan { hidden_1: 32, hidden_2: 32, iters: 80, batch: 200, patience: 9, ordinal: true, tuning: Tuning::Regression }))
        } else if same(s, "mlpc_ord_opt") || same(s, "mlpc_ord_opt_cfnade8") {
            Some((NetPlan { hidden_1: 64, hidden_2: 32, iters: 80, batch: 400, patience: 7, ordinal: true, tuning: Tuning::Ordinal }))
        } else if same(s, "mlpc_ord_base") {
            Some((NetPlan { hidden_1: 64, hidden_2: 64, iters: 64, batch: 200, patience: 10, ordinal: true, tuning: Tuning::Plain }))
        } else {
            None
        },
        _ => None,
    }
}

/// The thresholds that a rating from one to five reaches: the targets of the four ordered classes.
pub fn ordinal_targets(rating: u8) -> (r: [bool; 4])
    ensures
        forall|k: int| 0 <= k < 4 ==> #[trigger] r@[k] == (rating >= k + 2),
{
    [rating >= 2, rating >= 3, rating >= 4, rating >= 5]
}

/// A key is found at its first place.
pub proof fn lemma_first_key(args: Seq<Seq<char>>, key: Seq<char>, k: int)
    requires
        0 <= k < args.len(),
        args[k] == key,
        forall|j: int| 0 <= j < k ==> #[trigger] args[j] != key,
    ensures
        key_place(args, key, 0) == k,
        k + 1 < args.len() && key == "--eval-every"@ ==> eval_every_spec(args) == u64_value(
            args[k + 1],
        ),
        k + 1 == args.len() && key == "--eval-every"@ ==> eval_every_spec(args) is None,
{
    lemma_key_place(args, key, 0);
}

/// A key that is not there is found nowhere, and what it would say is left as it is by itself.
pub proof fn lemma_no_key(args: Seq<Seq<char>>, key: Seq<char>)
    requires
        !args.contains(key),
    ensures
        key_place(args, key, 0) == args.len(),
        key == "--eval-every"@ ==> eval_every_spec(args) == Some(1u64),
{
    lemma_key_place(args, key, 0);
    let k = key_place(args, key, 0);
    if k < args.len() {
        assert(args.contains(args[k]));
    }
}

/// Milestones are read part by part, in order; an empty part gives none, and a part that is no
/// number spoils the list.
pub proof fn lemma_milestones(a: Seq<Seq<char>>, b: Seq<Seq<char>>, s: Seq<char>)
    ensures
        milestone_list(a + b) == (match (milestone_list(a), milestone_list(b)) {
            (Some(x), Some(y)) => Some(x + y),
            _ => None,
        }),
        milestone_list(seq![s]) == (if s.len() == 0 {
            Some(Seq::empty())
        } else {
            match u64_value(s) {
                Some(n) => Some(seq![n]),
                None => None,
            }
        }),
    decreases b.len(),
{
    reveal_with_fuel(milestone_list, 2);
    assert(seq![s].drop_last() =~= Seq::empty());
    if b.len() == 0 {
        assert(a + b =~= a);
        if milestone_list(a) is Some {
            assert(milestone_list(a)->Some_0 + Seq::<u64>::empty() =~= milestone_list(a)->Some_0);
        }
    } else {
        lemma_milestones(a, b.drop_last(), s);
        assert((a + b).drop_last() =~= a + b.drop_last());
        assert((a + b).last() == b.last());
        if milestone_list(a) is Some && milestone_list(b) is Some {
            let x = milestone_list(a)->Some_0;
            let y = milestone_list(b.drop_last())->Some_0;
            if b.last().len() > 0 {
                let n = u64_value(b.last())->Some_0;
                assert((x + y).push(n) =~= x + y.push(n));
            }
        }
    }
}

/// A data set is a training set and a probe set of its own name, but for the two that have names of
/// their own.
pub proof fn lemma_datasets(s: Seq<char>)
    ensures
        s != "full"@ && s != "qual"@ ==> datasets_of(s) == ("train"@ + s, "probe"@ + s),
        datasets_of("full"@) == ("train"@, "probe"@),
        datasets_of("qual"@) == ("fulltrain"@, "qual"@),
{
    reveal_strlit("x");
    reveal_strlit("full");
    reveal_strlit("qual");
    reveal_strlit("train");
    reveal_strlit("probe");
    reveal_strlit("trainx");
    reveal_strlit("probex");
    assert("train"@ + "x"@ =~= "trainx"@);
    assert("probe"@ + "x"@ =~= "probex"@);
    assert("full"@[0] == 'f' && "qual"@[0] == 'q');
}

proof fn lemma_ends(base: Seq<char>, end: Seq<char>)
    ensures
        end.is_suffix_of(base + end),
        without(base + end, end) == base,
{
    assert((base + end).subrange(base.len() as int, (base + end).len() as int) =~= end);
    assert((base + end).take(base.len() as int) =~= base);
}

proof fn lemma_not_end(base: Seq<char>, end: Seq<char>, other: Seq<char>, back: int)
    requires
        0 < back <= end.len(),
        back <= other.len(),
        end[end.len() - back] != other[other.len() - back],
    ensures
        !other.is_suffix_of(base + end),
{
    let s = base + end;
    if other.is_suffix_of(s) {
        let n = s.len() - other.len();
        assert(s.subrange(n, s.len() as int)[other.len() - back] == s[s.len() - back]);
        assert(s[s.len() - back] == end[end.len() - back]);
    }
}

/// A chained job is a base job and the ending of its kind, for every kind.
#[verifier::rlimit(40)]
pub proof fn lemma_chains(base: Seq<char>)
    ensures
        chain_spec(base + "__knn3"@) == Some((ChainKind::Knn3, base)),
        chain_spec(base + "__knnf"@) == Some((ChainKind::Knnf, base)),
        chain_spec(base + "__knnfb"@) == Some((ChainKind::KnnfSharp, base)),
        chain_spec(base + "__knnfc"@) == Some((ChainKind::KnnfLocal, base)),
        chain_spec(base + "__knn3p"@) == Some((ChainKind::Knn3Half, base)),
        chain_spec(base + "__knn3b"@) == Some((ChainKind::Knn3Wide, base)),
        chain_spec(base + "__knn3c"@) == Some((ChainKind::Knn3Narrow, base)),
        chain_spec(base + "__knn3d"@) == Some((ChainKind::Knn3Widest, base)),
        chain_spec(base + "__knn3e"@) == Some((ChainKind::Knn3Steep, base)),
        chain_spec(base + "__nlpp"@) == Some((ChainKind::Nlpp, base)),
{
    reveal_strlit("__knn3");
    reveal_strlit("__knnf");
    reveal_strlit("__knnfb");
    reveal_strlit("__knnfc");
    reveal_strlit("__knn3p");
    reveal_strlit("__knn3b");
    reveal_strlit("__knn3c");
    reveal_strlit("__knn3d");
    reveal_strlit("__knn3e");
    reveal_strlit("__nlpp");
    lemma_ends(base, "__knn3"@);
    lemma_ends(base, "__knnf"@);
    lemma_ends(base, "__knnfb"@);
    lemma_ends(base, "__knnfc"@);
    lemma_ends(base, "__knn3p"@);
    lemma_ends(base, "__knn3b"@);
    lemma_ends(base, "__knn3c"@);
    lemma_ends(base, "__knn3d"@);
    lemma_ends(base, "__knn3e"@);
    lemma_ends(base, "__nlpp"@);
    lemma_not_end(base, "__knnf"@, "__knn3"@, 1);
    lemma_not_end(base, "__knnfb"@, "__knn3"@, 1);
    lemma_not_end(base, "__knnfb"@, "__knnf"@, 1);
    lemma_not_end(base, "__knnfc"@, "__knn3"@, 1);
    lemma_not_end(base, "__knnfc"@, "__knnf"@, 1);
    lemma_not_end(base, "__knnfc"@, "__knnfb"@, 1);
    lemma_not_end(base, "__knn3p"@, "__knn3"@, 1);
    lemma_not_end(base, "__knn3p"@, "__knnf"@, 1);
    lemma_not_end(base, "__knn3p"@, "__knnfb"@, 1);
    lemma_not_end(base, "__knn3p"@, "__knnfc"@, 1);
    lemma_not_end(base, "__knn3b"@, "__knn3"@, 1);
    lemma_not_end(base, "__knn3b"@, "__knnf"@, 1);
    lemma_not_end(base, "__knn3b"@, "__knnfb"@, 2);
    lemma_not_end(base, "__knn3b"@, "__knnfc"@, 1);
    lemma_not_end(base, "__knn3b"@, "__knn3p"@, 1);
    lemma_not_end(base, "__knn3c"@, "__knn3"@, 1);
    lemma_not_end(base, "__knn3c"@, "__knnf"@, 1);
    lemma_not_end(base, "__knn3c"@, "__knnfb"@, 1);
    lemma_not_end(base, "__knn3c"@, "__knnfc"@, 2);
    lemma_not_end(base, "__knn3c"@, "__knn3p"@, 1);
    lemma_not_end(base, "__knn3c"@, "__knn3b"@, 1);
    lemma_not_end(base, "__knn3d"@, "__knn3"@, 1);
    lemma_not_end(base, "__knn3d"@, "__knnf"@, 1);
    lemma_not_end(base, "__knn3d"@, "__knnfb"@, 1);
    lemma_not_end(base, "__knn3d"@, "__knnfc"@, 1);
    lemma_not_end(base, "__knn3d"@, "__knn3p"@, 1);
    lemma_not_end(base, "__knn3d"@, "__knn3b"@, 1);
    lemma_not_end(base, "__knn3d"@, "__knn3c"@, 1);
    lemma_not_end(base, "__knn3e"@, "__knn3"@, 1);
    lemma_not_end(base, "__knn3e"@, "__knnf"@, 1);
    lemma_not_end(base, "__knn3e"@, "__knnfb"@, 1);
    lemma_not_end(base, "__knn3e"@, "__knnfc"@, 1);
    lemma_not_end(base, "__knn3e"@, "__knn3p"@, 1);
    lemma_not_end(base, "__knn3e"@, "__knn3b"@, 1);
    lemma_not_end(base, "__knn3e"@, "__knn3c"@, 1);
    lemma_not_end(base, "__knn3e"@, "__knn3d"@, 1);
    lemma_not_end(base, "__nlpp"@, "__knn3"@, 1);
    lemma_not_end(base, "__nlpp"@, "__knnf"@, 1);
    lemma_not_end(base, "__nlpp"@, "__knnfb"@, 1);
    lemma_not_end(base, "__nlpp"@, "__knnfc"@, 1);
    lemma_not_end(base, "__nlpp"@, "__knn3p"@, 2);
    lemma_not_end(base, "__nlpp"@, "__knn3b"@, 1);
    lemma_not_end(base, "__nlpp"@, "__knn3c"@, 1);
    lemma_not_end(base, "__nlpp"@, "__knn3d"@, 1);
    lemma_not_end(base, "__nlpp"@, "__knn3e"@, 1);
}

/// A job whose name has none of the endings is not chained.
pub proof fn lemma_no_chain(s: Seq<char>)
    ensures
        chain_spec(s) is None <==> !"__knn3"@.is_suffix_of(s) && !"__knnf"@.is_suffix_of(s) && !"__knnfb"@.is_suffix_of(s) && !"__knnfc"@.is_suffix_of(s) && !"__knn3p"@.is_suffix_of(s) && !"__knn3b"@.is_suffix_of(s) && !"__knn3c"@.is_suffix_of(s) && !"__knn3d"@.is_suffix_of(s) && !"__knn3e"@.is_suffix_of(s) && !"__nlpp"@.is_suffix_of(s),
{
}

/// A text is looked for from the end: the last place where it stands.
pub proof fn lemma_last_text(s: Seq<char>, p: Seq<char>, i: int)
    requires
        -1 <= i <= s.len(),
    ensures
        -1 <= last_text(s, p, i) <= i,
        last_text(s, p, i) >= 0 ==> occurs_at(s, p, last_text(s, p, i)),
        forall|k: int| last_text(s, p, i) < k <= i ==> !#[trigger] occurs_at(s, p, k),
    decreases i + 1,
{
    if i >= 0 && !occurs_at(s, p, i) {
        lemma_last_text(s, p, i - 1);
    }
}

/// An asymmetric job is its base, its number of features and, after a `p`, its weight, which holds
/// no underscore.
pub proof fn lemma_asym(base: Seq<char>, n: u64, weight: Seq<char>)
    requires
        !weight.contains('_'),
    ensures
        asym_spec(base + "__asym-"@ + crate::text::decimal(n as nat)) == Some(
            (base, n, None::<Seq<char>>),
        ),
        asym_spec(base + "__asym-"@ + (crate::text::decimal(n as nat) + "p"@ + weight)) == Some(
            (base, n, Some(weight)),
        ),
{
    let d = crate::text::decimal(n as nat);
    crate::text::lemma_u64_reads_back(n);
    crate::text::lemma_decimal_reads_back(n as nat);
    reveal_strlit("p");
    let full = d + "p"@ + weight;
    assert forall|i: int| 0 <= i < d.len() implies d[i] != '_' && d[i] != 'p' by {
        assert(crate::text::is_digit_char(d[i]));
    }
    assert forall|i: int| 0 <= i < full.len() implies full[i] != '_' by {
        if i > d.len() {
            assert(full[i] == weight[i - d.len() - 1]);
            assert(weight.contains(weight[i - d.len() - 1]));
        }
    }
    lemma_asym_rest(base, d);
    lemma_asym_rest(base, full);
    crate::text::lemma_first_char(d, 'p', 0);
    crate::text::lemma_first_char(full, 'p', 0);
    assert(full[d.len() as int] == 'p');
    let k = first_char(full, 'p', 0);
    assert(k == d.len()) by {
        if k < d.len() {
            assert(full[k] == d[k]);
        }
    }
    assert(full.take(k) =~= d);
    assert(full.skip(k + 1) =~= weight);
}

proof fn lemma_asym_rest(base: Seq<char>, rest: Seq<char>)
    requires
        forall|i: int| 0 <= i < rest.len() ==> rest[i] != '_',
    ensures
        ({
            let s = base + "__asym-"@ + rest;
            let k = last_text(s, "__asym-"@, s.len() as int);
            k == base.len() && s.take(k) == base && s.skip(k + "__asym-"@.len()) == rest
        }),
{
    let p = "__asym-"@;
    reveal_strlit("__asym-");
    let s = base + p + rest;
    lemma_last_text(s, p, s.len() as int);
    let k = last_text(s, p, s.len() as int);
    let b = base.len() as int;
    assert(s.subrange(b, b + p.len()) =~= p);
    assert(occurs_at(s, p, b));
    if k > b {
        assert(occurs_at(s, p, k));
        assert(s.subrange(k, k + p.len())[0] == s[k]);
        assert(s.subrange(k, k + p.len())[1] == s[k + 1]);
        assert(s[k] == '_' && s[k + 1] == '_');
        if k >= b + p.len() {
            assert(s[k] == rest[k - b - p.len()]);
        } else {
            assert(s[k] == p[k - b]);
            assert(k == b + 1);
            assert(s[k + 1] == p[2]);
        }
    }
    assert(s.take(k) =~= base);
    assert(s.skip(k + p.len()) =~= rest);
}

/// A statistic's job is the name before its last underscore and what stands after it; a name without
/// one is none.
pub proof fn lemma_stat(a: Seq<char>, b: Seq<char>)
    requires
        !b.contains('_'),
    ensures
        stat_spec(a + seq!['_'] + b) == Some((a, b)),
        stat_spec(b) is None,
{
    let s = a + seq!['_'] + b;
    lemma_no_underscore(b);
    lemma_last_underscore(a, b);
    assert(s.take(a.len() as int) =~= a);
    assert(s.skip(a.len() as int + 1) =~= b);
}

proof fn lemma_no_underscore(s: Seq<char>)
    requires
        !s.contains('_'),
    ensures
        after_last_at(s, '_') == 0,
    decreases s.len(),
{
    if s.len() > 0 {
        assert(s.contains(s[s.len() - 1]));
        let h = s.drop_last();
        assert forall|i: int| 0 <= i < h.len() implies h[i] != '_' by {
            assert(s.contains(s[i]));
        }
        lemma_no_underscore(h);
    }
}

proof fn lemma_last_underscore(a: Seq<char>, b: Seq<char>)
    requires
        !b.contains('_'),
    ensures
        after_last_at(a + seq!['_'] + b, '_') == a.len() + 1,
    decreases b.len(),
{
    let s = a + seq!['_'] + b;
    if b.len() == 0 {
        assert(s.last() == '_');
    } else {
        let h = b.drop_last();
        assert(b.contains(b[b.len() - 1]));
        assert(s.last() == b[b.len() - 1]);
        assert(s.drop_last() =~= a + seq!['_'] + h);
        assert forall|i: int| 0 <= i < h.len() implies h[i] != '_' by {
            assert(b.contains(b[i]));
        }
        lemma_last_underscore(a, h);
    }
}

/// Weights are averaged if and only if the run reaches an epoch from which they are.
pub proof fn lemma_averages(fit: CfnadeFit, epoch: int)
    ensures
        1 <= epoch <= fit.n_epochs && fit.swa_start <= epoch ==> averages(fit),
        !averages(fit) && 1 <= epoch <= fit.n_epochs ==> epoch < fit.swa_start,
        fit.n_epochs == 0 ==> !averages(fit),
        fit.n_epochs < fit.swa_start ==> !averages(fit),
{
}

/// The settings of boosted trees go together: what is tuned for one aim is so in all of them.
pub proof fn lemma_boost_settings(p: Program, s: Seq<char>, b: BoostPlan)
    requires
        boost_plan_spec(p, s) == Some(b),
    ensures
        b.tuning == Tuning::Plain ==> b.num_leaves == 63 && b.min_data_in_leaf == 20
            && b.bagging_freq == 0 && b.max_bin == 255,
        b.tuning == Tuning::Plain ==> b.iters == 200 || (b.iters == 50 && !b.multiclass
            && !b.ordinal) || (b.iters == 10 && !b.multiclass && !b.ordinal),
        b.tuning == Tuning::Regression ==> b.num_leaves == 95 && b.iters == 192
            && b.min_data_in_leaf == 388 && b.bagging_freq == 3 && b.max_bin == 127
            && !b.multiclass && !b.ordinal,
        b.tuning == Tuning::Classifier ==> b.num_leaves == 191 && b.iters == 400
            && b.min_data_in_leaf == 527 && b.bagging_freq == 3 && b.max_bin == 127
            && b.multiclass && !b.ordinal,
        b.tuning == Tuning::Ordinal ==> b.num_leaves == 95 && b.iters == 364 && b.min_data_in_leaf
            == 59 && b.bagging_freq == 5 && b.max_bin == 127 && b.ordinal && !b.multiclass,
        !(b.multiclass && b.ordinal),
{
}

/// Which jobs of boosted trees there are, and which of them have which settings.
pub proof fn lemma_boost_jobs(p: Program, s: Seq<char>)
    ensures
        boost_plan_spec(p, s) is None <==> !((p == Program::Gbm && (s == "gbr1"@ || s == "gbr1g"@ || s == "gbr1g1"@ || s == "gbr1g2"@ || s == "gbr1g3"@ || s == "gbr1g4"@ || s == "gbr2"@ || s == "gbr2x"@ || s == "gbr3"@ || s == "gbr3x"@ || s == "gbr4o"@ || s == "gbr4ox"@ || s == "gbr4g1"@ || s == "gbr4g2"@ || s == "gbr4g3"@ || s == "gbr4g4"@ || s == "gbr4x"@ || s == "gbc1"@ || s == "gbc1x"@ || s == "gbc1y"@ || s == "gbc2o"@ || s == "gbc2x"@)) || (p == Program::GbmNew && (s == "gbr1"@ || s == "gbr2"@ || s == "gbr3"@ || s == "gbc1"@ || s == "gbr_opt"@)) || (p == Program::GbmOpt && (s == "gbr1"@ || s == "gbr2"@ || s == "gbr3"@ || s == "gbc1"@ || s == "gbc1_opt"@ || s == "gbc1_opt_cfnade8"@ || s == "gbc_ord"@ || s == "gbc_ord_cfnade8"@ || s == "gbc_ord_opt"@ || s == "gbc_ord_opt_cfnade8"@ || s == "gbr_opt"@ || s == "gbr_opt_cfnade8"@))),
        boost_plan_spec(p, s) matches Some(b) ==> {
            &&& b.tuning == Tuning::Regression ==> (p == Program::Gbm && (s == "gbr4o"@ || s == "gbr4ox"@ || s == "gbr4g1"@ || s == "gbr4g2"@ || s == "gbr4g3"@ || s == "gbr4g4"@ || s == "gbr4x"@)) || (p == Program::GbmNew && (s == "gbr_opt"@)) || (p == Program::GbmOpt && (s == "gbr_opt"@ || s == "gbr_opt_cfnade8"@))
            &&& b.tuning == Tuning::Classifier ==> (p == Program::Gbm && (s == "gbc2o"@ || s == "gbc2x"@)) || (p == Program::GbmOpt && (s == "gbc1_opt"@ || s == "gbc1_opt_cfnade8"@))
            &&& b.tuning == Tuning::Ordinal ==> (p == Program::GbmOpt && (s == "gbc_ord_opt"@ || s == "gbc_ord_opt_cfnade8"@))
            &&& b.tuning == Tuning::Plain ==> (p == Program::Gbm && (s == "gbr1"@ || s == "gbr1g"@ || s == "gbr1g1"@ || s == "gbr1g2"@ || s == "gbr1g3"@ || s == "gbr1g4"@ || s == "gbr2"@ || s == "gbr2x"@ || s == "gbr3"@ || s == "gbr3x"@ || s == "gbc1"@ || s == "gbc1x"@ || s == "gbc1y"@)) || (p == Program::GbmNew && (s == "gbr1"@ || s == "gbr2"@ || s == "gbr3"@ || s == "gbc1"@)) || (p == Program::GbmOpt && (s == "gbr1"@ || s == "gbr2"@ || s == "gbr3"@ || s == "gbc1"@ || s == "gbc_ord"@ || s == "gbc_ord_cfnade8"@))
            &&& b.multiclass ==> (p == Program::Gbm && (s == "gbc1"@ || s == "gbc1x"@ || s == "gbc1y"@ || s == "gbc2o"@ || s == "gbc2x"@)) || (p == Program::GbmNew && (s == "gbc1"@)) || (p == Program::GbmOpt && (s == "gbc1"@ || s == "gbc1_opt"@ || s == "gbc1_opt_cfnade8"@))
            &&& b.ordinal ==> (p == Program::GbmOpt && (s == "gbc_ord"@ || s == "gbc_ord_cfnade8"@ || s == "gbc_ord_opt"@ || s == "gbc_ord_opt_cfnade8"@))
            &&& b.iters == 200 ==> (p == Program::Gbm && (s == "gbr1"@ || s == "gbr1g"@ || s == "gbr1g1"@ || s == "gbr1g2"@ || s == "gbr1g3"@ || s == "gbr1g4"@ || s == "gbc1"@ || s == "gbc1x"@ || s == "gbc1y"@)) || (p == Program::GbmNew && (s == "gbr1"@ || s == "gbc1"@)) || (p == Program::GbmOpt && (s == "gbr1"@ || s == "gbc1"@ || s == "gbc_ord"@ || s == "gbc_ord_cfnade8"@))
            &&& b.iters == 50 ==> (p == Program::Gbm && (s == "gbr2"@ || s == "gbr2x"@)) || (p == Program::GbmNew && (s == "gbr2"@)) || (p == Program::GbmOpt && (s == "gbr2"@))
            &&& b.iters == 10 ==> (p == Program::Gbm && (s == "gbr3"@ || s == "gbr3x"@)) || (p == Program::GbmNew && (s == "gbr3"@)) || (p == Program::GbmOpt && (s == "gbr3"@))
        },
{
}

/// The settings of neural networks go together, and which jobs there are.
pub proof fn lemma_net_jobs(p: Program, s: Seq<char>)
    ensures
        net_plan_spec(p, s) matches Some(n) ==> {
            &&& n.tuning == Tuning::Plain ==> n.hidden_1 == 64 && n.hidden_2 == 64 && n.iters == 64
                && n.batch == 200 && n.patience == 10 && ((p == Program::Mlp && s == "mlpr1"@) || (p
                == Program::MlpOrdinal && s == "mlpc_ord_base"@))
            &&& n.tuning == Tuning::Regression ==> n.hidden_1 == 32 && n.hidden_2 == 32 && n.iters
                == 80 && n.batch == 200 && n.patience == 9 && ((p == Program::Mlp && s
                == "mlpr2o"@) || (p == Program::MlpOrdinal && s == "mlpc_ord"@))
            &&& n.tuning == Tuning::Ordinal ==> n.hidden_1 == 64 && n.hidden_2 == 32 && n.iters == 80
                && n.batch == 400 && n.patience == 7 && ((p == Program::Mlp && s == "mlpc3o"@) || (p
                == Program::MlpOrdinal && (s == "mlpc_ord_opt"@ || s == "mlpc_ord_opt_cfnade8"@)))
            &&& n.tuning != Tuning::Classifier
            &&& p == Program::MlpOrdinal ==> n.ordinal
            &&& p == Program::Mlp ==> (n.ordinal <==> n.tuning == Tuning::Ordinal)
        },
        net_plan_spec(p, s) is None ==> (p == Program::Mlp ==> s != "mlpr1"@ && s != "mlpr2o"@ && s
            != "mlpc3o"@) && (p == Program::MlpOrdinal ==> s != "mlpc_ord"@ && s != "mlpc_ord_opt"@
            && s != "mlpc_ord_opt_cfnade8"@ && s != "mlpc_ord_base"@),
        net_plan_spec(p, s) is Some ==> p == Program::Mlp || p == Program::MlpOrdinal,
{
}

/// The preset fits: ten hidden units to three of the rank, and which there are.
pub proof fn lemma_presets(s: Seq<char>)
    ensures
        preset_of(s) matches Some((hidden, rank, epochs, swa)) ==> {
            &&& 3 * hidden == 10 * rank
            &&& rank == 96 || rank == 48 || rank == 12
            &&& rank == 96 ==> (swa <==> s == "cfnade-96"@)
            &&& !swa ==> s == "cfnade-96r"@ && rank == 96
            &&& rank == 48 ==> s == "cfnade-48"@ && epochs == 95
            &&& rank == 12 ==> s == "cfnade-12"@ && epochs == 40
            &&& rank == 96 ==> epochs == 95
        },
        preset_of(s) is None <==> s != "cfnade-96"@ && s != "cfnade-48"@ && s != "cfnade-12"@ && s
            != "cfnade-96r"@,
{
    reveal_strlit("cfnade-96");
    reveal_strlit("cfnade-96r");
    assert("cfnade-96"@.len() != "cfnade-96r"@.len());
}

} // verus!
