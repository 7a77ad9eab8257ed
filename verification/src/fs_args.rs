//! The settings of the selection of interaction columns.

use crate::args::end_from;
use crate::args::items_from;
use crate::args::read_line;
use crate::args::End;
use crate::args::Flag;
use crate::args::Item;
use crate::args::Numeral;
use crate::args::Program;
use crate::args::Reading;
use crate::blend_args::entries;
use crate::blend_args::push_entries;
use crate::text::no_names;
use crate::text::parse_u64;
use crate::text::push_name;
use crate::text::same;
use crate::text::split;
use crate::text::split_on;
use crate::text::text_view;
use crate::text::u64_value;
use crate::text::views;
use vstd::prelude::*;
use vstd::string::*;

verus! {

/// What a step of the selection adds.
#[derive(Clone, Copy, PartialEq, Eq, Structural, Debug)]
pub enum SelectMode {
    /// One interaction of two columns.
    Pairs,
    /// One column, as a model or as a feature, with its interactions with the other side.
    Column,
}

/// The split that the default lists belong to.
#[derive(Clone, Copy, PartialEq, Eq, Structural, Debug)]
pub enum SplitHint {
    Old,
    New,
    Unknown,
}

/// Why a command line is refused, with the word at fault.
#[derive(Clone, Copy, PartialEq, Eq, Structural, Debug)]
pub enum FsError {
    /// Help is asked for.
    Help,
    /// The word is no flag.
    Unknown(usize),
    /// The flag has no value.
    NeedsValue(usize),
    /// The flag's value is no number of the kind it takes.
    BadNumber(usize),
    /// The flag's value is not two texts with a comma between them.
    ClipShape(usize),
    /// The lower bound is no number.
    BadMin(usize),
    /// The upper bound is no number.
    BadMax(usize),
    /// There is no such way to select.
    BadMode(usize),
    /// The share of the probe rows is not above zero and at most one.
    BadFraction,
    /// No fold at all.
    NoFolds,
}

/// The settings. Numbers with a fraction are kept as they were written.
pub struct FsArgs {
    pub pipeline: String,
    pub split_hint: SplitHint,
    pub models_toml: Option<String>,
    pub model_groups: Vec<String>,
    pub model_manual: Vec<String>,
    pub features_toml: Option<String>,
    pub feature_groups: Vec<String>,
    pub feature_manual: Vec<String>,
    pub exclude: Vec<String>,
    pub lambda: Option<String>,
    pub max_features: Option<u64>,
    pub in_clip: Option<String>,
    pub out_clip: Option<String>,
    pub probe_frac: Option<String>,
    /// Whether the share of the probe rows is above zero and at most one.
    pub frac_ok: bool,
    pub seed: u64,
    pub cv_folds: u64,
    pub cv_seed: Option<u64>,
    pub cv_patience: Option<u64>,
    pub select: SelectMode,
    pub force_models: u64,
    pub save_state: Option<String>,
    pub load_state: Option<String>,
    pub no_score: bool,
}

#[verifier::ext_equal]
pub struct FsView {
    pub pipeline: Seq<char>,
    pub split_hint: SplitHint,
    pub models_toml: Option<Seq<char>>,
    pub model_groups: Seq<Seq<char>>,
    pub model_manual: Seq<Seq<char>>,
    pub features_toml: Option<Seq<char>>,
    pub feature_groups: Seq<Seq<char>>,
    pub feature_manual: Seq<Seq<char>>,
    pub exclude: Seq<Seq<char>>,
    pub lambda: Option<Seq<char>>,
    pub max_features: Option<u64>,
    pub in_clip: Option<Seq<char>>,
    pub out_clip: Option<Seq<char>>,
    pub probe_frac: Option<Seq<char>>,
    pub frac_ok: bool,
    pub seed: u64,
    pub cv_folds: u64,
    pub cv_seed: Option<u64>,
    pub cv_patience: Option<u64>,
    pub select: SelectMode,
    pub force_models: u64,
    pub save_state: Option<Seq<char>>,
    pub load_state: Option<Seq<char>>,
    pub no_score: bool,
}

impl View for FsArgs {
    type V = FsView;

    open spec fn view(&self) -> FsView {
        FsView {
            pipeline: self.pipeline@,
            split_hint: self.split_hint,
            models_toml: text_view(self.models_toml),
            model_groups: views(self.model_groups@),
            model_manual: views(self.model_manual@),
            features_toml: text_view(self.features_toml),
            feature_groups: views(self.feature_groups@),
            feature_manual: views(self.feature_manual@),
            exclude: views(self.exclude@),
            lambda: text_view(self.lambda),
            max_features: self.max_features,
            in_clip: text_view(self.in_clip),
            out_clip: text_view(self.out_clip),
            probe_frac: text_view(self.probe_frac),
            frac_ok: self.frac_ok,
            seed: self.seed,
            cv_folds: self.cv_folds,
            cv_seed: self.cv_seed,
            cv_patience: self.cv_patience,
            select: self.select,
            force_models: self.force_models,
            save_state: text_view(self.save_state),
            load_state: text_view(self.load_state),
            no_score: self.no_score,
        }
    }
}

/// The settings before any flag.
pub open spec fn fs_start() -> FsView {
    FsView {
        pipeline: "pipeline-old.toml"@,
        split_hint: SplitHint::Old,
        models_toml: None,
        model_groups: Seq::empty(),
        model_manual: Seq::empty(),
        features_toml: None,
        feature_groups: Seq::empty(),
        feature_manual: Seq::empty(),
        exclude: Seq::empty(),
        lambda: None,
        max_features: None,
        in_clip: None,
        out_clip: None,
        probe_frac: None,
        frac_ok: true,
        seed: 0,
        cv_folds: 1,
        cv_seed: None,
        cv_patience: None,
        select: SelectMode::Pairs,
        force_models: 0,
        save_state: None,
        load_state: None,
        no_score: false,
    }
}

fn start_args() -> (r: FsArgs)
    ensures
        r@ == fs_start(),
{
    FsArgs {
        pipeline: "pipeline-old.toml".to_string(),
        split_hint: SplitHint::Old,
        models_toml: None,
        model_groups: no_names(),
        model_manual: no_names(),
        features_toml: None,
        feature_groups: no_names(),
        feature_manual: no_names(),
        exclude: no_names(),
        lambda: None,
        max_features: None,
        in_clip: None,
        out_clip: None,
        probe_frac: None,
        frac_ok: true,
        seed: 0,
        cv_folds: 1,
        cv_seed: None,
        cv_patience: None,
        select: SelectMode::Pairs,
        force_models: 0,
        save_state: None,
        load_state: None,
        no_score: false,
    }
}

/// What is wrong with a pair of bounds.
pub open spec fn bounds_error(value: Seq<char>, num: Numeral, at: usize) -> Option<FsError> {
    if split_on(value, ',').len() != 2 {
        Some(FsError::ClipShape(at))
    } else if !num.low {
        Some(FsError::BadMin(at))
    } else if !num.high {
        Some(FsError::BadMax(at))
    } else {
        None
    }
}

/// Checks a pair of bounds: two texts with a comma between them, both numbers.
pub fn check_bounds(value: &str, num: Numeral, at: usize) -> (r: Option<FsError>)
    ensures
        r == bounds_error(value@, num, at),
{
    let parts: Vec<String> = split(value, ',');
    proof {
        assert(views(parts@).len() == parts.len());
    }
    if parts.len() != 2 {
        Some(FsError::ClipShape(at))
    } else if !num.low {
        Some(FsError::BadMin(at))
    } else if !num.high {
        Some(FsError::BadMax(at))
    } else {
        None
    }
}

/// The settings after one more flag.
pub open spec fn fs_apply(
    argv: Seq<Seq<char>>,
    nums: Seq<Numeral>,
    it: Item,
    v: FsView,
) -> Result<FsView, FsError> {
    let value = argv[it.value as int];
    let num = nums[it.value as int];
    let bad = Err::<FsView, FsError>(FsError::BadNumber(it.at));
    match it.flag {
        Flag::Old => Ok(
            FsView { pipeline: "pipeline-old.toml"@, split_hint: SplitHint::Old, ..v },
        ),
        Flag::New => Ok(
            FsView { pipeline: "pipeline-new.toml"@, split_hint: SplitHint::New, ..v },
        ),
        Flag::Pipeline => Ok(FsView { pipeline: value, split_hint: SplitHint::Unknown, ..v }),
        Flag::Models => Ok(FsView { models_toml: Some(value), ..v }),
        Flag::Groups | Flag::GroupsShort => Ok(
            FsView { model_groups: v.model_groups + entries(value), ..v },
        ),
        Flag::Model => Ok(FsView { model_manual: v.model_manual.push(value), ..v }),
        Flag::FeaturesToml => Ok(FsView { features_toml: Some(value), ..v }),
        Flag::FeatureGroups => Ok(
            FsView { feature_groups: v.feature_groups + entries(value), ..v },
        ),
        Flag::Feature => Ok(FsView { feature_manual: v.feature_manual.push(value), ..v }),
        Flag::Exclude => Ok(FsView { exclude: v.exclude.push(value), ..v }),
        Flag::Lambda => if num.plain {
            Ok(FsView { lambda: Some(value), ..v })
        } else {
            bad
        },
        Flag::MaxFeatures => match u64_value(value) {
            Some(n) => Ok(FsView { max_features: Some(n), ..v }),
            None => bad,
        },
        Flag::ForceModels => match u64_value(value) {
            Some(n) => Ok(FsView { force_models: n, ..v }),
            None => bad,
        },
        Flag::CvFolds => match u64_value(value) {
            Some(n) => Ok(FsView { cv_folds: n, ..v }),
            None => bad,
        },
        Flag::CvSeed => match u64_value(value) {
            Some(n) => Ok(FsView { cv_seed: Some(n), ..v }),
            None => bad,
        },
        Flag::CvPatience => match u64_value(value) {
            Some(n) => Ok(FsView { cv_patience: Some(n), ..v }),
            None => bad,
        },
        Flag::SaveState => Ok(FsView { save_state: Some(value), ..v }),
        Flag::LoadState => Ok(FsView { load_state: Some(value), ..v }),
        Flag::NoScore => Ok(FsView { no_score: true, ..v }),
        Flag::Select => if value == "pairs"@ {
            Ok(FsView { select: SelectMode::Pairs, ..v })
        } else if value == "column"@ || value == "columns"@ {
            Ok(FsView { select: SelectMode::Column, ..v })
        } else {
            Err(FsError::BadMode(it.at))
        },
        Flag::ProbeFrac => if num.plain {
            Ok(FsView { probe_frac: Some(value), frac_ok: num.fraction, ..v })
        } else {
            bad
        },
        Flag::Seed => match u64_value(value) {
            Some(n) => Ok(FsView { seed: n, ..v }),
            None => bad,
        },
        Flag::InClip => match bounds_error(value, num, it.at) {
            Some(e) => Err(e),
            None => Ok(FsView { in_clip: Some(value), ..v }),
        },
        Flag::OutClip => match bounds_error(value, num, it.at) {
            Some(e) => Err(e),
            None => Ok(FsView { out_clip: Some(value), ..v }),
        },
        _ => Ok(v),
    }
}

fn apply_number(it: Item, n: u64, a: &mut FsArgs)
    ensures
        final(a)@ == (match it.flag {
            Flag::MaxFeatures => FsView { max_features: Some(n), ..old(a)@ },
            Flag::ForceModels => FsView { force_models: n, ..old(a)@ },
            Flag::CvFolds => FsView { cv_folds: n, ..old(a)@ },
            Flag::CvSeed => FsView { cv_seed: Some(n), ..old(a)@ },
            Flag::CvPatience => FsView { cv_patience: Some(n), ..old(a)@ },
            Flag::Seed => FsView { seed: n, ..old(a)@ },
            _ => old(a)@,
        }),
{
    match it.flag {
        Flag::MaxFeatures => {
            a.max_features = Some(n);
        },
        Flag::ForceModels => {
            a.force_models = n;
        },
        Flag::CvFolds => {
            a.cv_folds = n;
        },
        Flag::CvSeed => {
            a.cv_seed = Some(n);
        },
        Flag::CvPatience => {
            a.cv_patience = Some(n);
        },
        Flag::Seed => {
            a.seed = n;
        },
        _ => {},
    }
}

fn apply(argv: &Vec<String>, nums: &Vec<Numeral>, it: Item, a: &mut FsArgs) -> (r: Result<
    (),
    FsError,
>)
    requires
        it.value < argv.len(),
        nums.len() == argv.len(),
    ensures
        match fs_apply(views(argv@), nums@, it, old(a)@) {
            Ok(v) => r is Ok && final(a)@ == v,
            Err(e) => r == Err::<(), FsError>(e),
        },
{
    proof {
        assert(views(argv@)[it.value as int] == argv@[it.value as int]@);
    }
    let value: &String = &argv[it.value];
    let num: Numeral = nums[it.value];
    match it.flag {
        Flag::Old => {
            a.pipeline = "pipeline-old.toml".to_string();
            a.split_hint = SplitHint::Old;
        },
        Flag::New => {
            a.pipeline = "pipeline-new.toml".to_string();
            a.split_hint = SplitHint::New;
        },
        Flag::Pipeline => {
            a.pipeline = value.clone();
            a.split_hint = SplitHint::Unknown;
        },
        Flag::Models => {
            a.models_toml = Some(value.clone());
        },
        Flag::Groups | Flag::GroupsShort => {
            push_entries(&mut a.model_groups, value.as_str());
        },
        Flag::Model => {
            push_name(&mut a.model_manual, value);
        },
        Flag::FeaturesToml => {
            a.features_toml = Some(value.clone());
        },
        Flag::FeatureGroups => {
            push_entries(&mut a.feature_groups, value.as_str());
        },
        Flag::Feature => {
            push_name(&mut a.feature_manual, value);
        },
        Flag::Exclude => {
            push_name(&mut a.exclude, value);
        },
        Flag::Lambda => {
            if !num.plain {
                return Err(FsError::BadNumber(it.at));
            }
            a.lambda = Some(value.clone());
        },
        Flag::MaxFeatures
        | Flag::ForceModels
        | Flag::CvFolds
        | Flag::CvSeed
        | Flag::CvPatience
        | Flag::Seed => {
            match parse_u64(value.as_str()) {
                Some(n) => {
                    apply_number(it, n, a);
                },
                None => {
                    return Err(FsError::BadNumber(it.at));
                },
            }
        },
        Flag::SaveState => {
            a.save_state = Some(value.clone());
        },
        Flag::LoadState => {
            a.load_state = Some(value.clone());
        },
        Flag::NoScore => {
            a.no_score = true;
        },
        Flag::Select => {
            if same(value.as_str(), "pairs") {
                a.select = SelectMode::Pairs;
            } else if same(value.as_str(), "column") || same(value.as_str(), "columns") {
                a.select = SelectMode::Column;
            } else {
                return Err(FsError::BadMode(it.at));
            }
        },
        Flag::ProbeFrac => {
            if !num.plain {
                return Err(FsError::BadNumber(it.at));
            }
            a.probe_frac = Some(value.clone());
            a.frac_ok = num.fraction;
        },
        Flag::InClip => {
            match check_bounds(value.as_str(), num, it.at) {
                Some(e) => {
                    return Err(e);
                },
                None => {
                    a.in_clip = Some(value.clone());
                },
            }
        },
        Flag::OutClip => {
            match check_bounds(value.as_str(), num, it.at) {
                Some(e) => {
                    return Err(e);
                },
                None => {
                    a.out_clip = Some(value.clone());
                },
            }
        },
        _ => {},
    }
    Ok(())
}

/// The settings after some flags, or what is wrong with the first that is wrong.
pub open spec fn fs_after(
    argv: Seq<Seq<char>>,
    nums: Seq<Numeral>,
    items: Seq<Item>,
) -> Result<FsView, FsError>
    decreases items.len(),
{
    if items.len() == 0 {
        Ok(fs_start())
    } else {
        match fs_after(argv, nums, items.drop_last()) {
            Ok(v) => fs_apply(argv, nums, items.last(), v),
            Err(e) => Err(e),
        }
    }
}

/// What a command line gives: the first thing that is wrong in it, from left to right, then a
/// share or a number of folds that cannot be, else the settings.
pub open spec fn fs_outcome(argv: Seq<Seq<char>>, nums: Seq<Numeral>) -> Result<FsView, FsError> {
    match fs_after(argv, nums, items_from(Program::FwlsFs, argv, 0)) {
        Err(e) => Err(e),
        Ok(v) => match end_from(Program::FwlsFs, argv, 0) {
            End::Help => Err(FsError::Help),
            End::Unknown(at) => Err(FsError::Unknown(at)),
            End::NeedsValue(at) => Err(FsError::NeedsValue(at)),
            End::Done => if !v.frac_ok {
                Err(FsError::BadFraction)
            } else if v.cv_folds < 1 {
                Err(FsError::NoFolds)
            } else {
                Ok(v)
            },
        },
    }
}

proof fn lemma_fs_stuck(argv: Seq<Seq<char>>, nums: Seq<Numeral>, items: Seq<Item>, i: int)
    requires
        0 <= i <= items.len(),
        fs_after(argv, nums, items.take(i)) is Err,
    ensures
        fs_after(argv, nums, items) == fs_after(argv, nums, items.take(i)),
    decreases items.len() - i,
{
    if i < items.len() {
        assert(items.take(i + 1).drop_last() =~= items.take(i));
        lemma_fs_stuck(argv, nums, items, i + 1);
    } else {
        assert(items.take(i) =~= items);
    }
}

/// Reads the command line of the selection of interaction columns. `nums` says of each word what
/// it is as a floating-point text.
pub fn parse_fs(argv: &Vec<String>, nums: &Vec<Numeral>) -> (r: Result<FsArgs, FsError>)
    requires
        nums.len() == argv.len(),
    ensures
        match r {
            Ok(a) => fs_outcome(views(argv@), nums@) == Ok::<FsView, FsError>(a@),
            Err(e) => fs_outcome(views(argv@), nums@) == Err::<FsView, FsError>(e),
        },
{
    let reading: Reading = read_line(Program::FwlsFs, argv);
    let mut a: FsArgs = start_args();
    let ghost v = views(argv@);
    let ghost items = reading.items@;
    proof {
        assert(argv.len() <= usize::MAX);
        crate::args::lemma_items_stand(Program::FwlsFs, v, 0);
    }
    let mut i: usize = 0;
    while i < reading.items.len()
        invariant
            i <= reading.items.len(),
            nums.len() == argv.len(),
            v == views(argv@),
            items == reading.items@,
            items == items_from(Program::FwlsFs, v, 0),
            forall|k: int| 0 <= k < items.len() ==> (#[trigger] items[k]).value < argv.len(),
            fs_after(v, nums@, items.take(i as int)) == Ok::<FsView, FsError>(a@),
        decreases reading.items.len() - i,
    {
        proof {
            assert(items.take(i + 1).drop_last() =~= items.take(i as int));
            assert(items.take(i + 1).last() == items[i as int]);
        }
        match apply(argv, nums, reading.items[i], &mut a) {
            Ok(_) => {},
            Err(e) => {
                proof {
                    lemma_fs_stuck(v, nums@, items, i + 1);
                }
                return Err(e);
            },
        }
        i += 1;
    }
    proof {
        assert(items.take(items.len() as int) =~= items);
    }
    match reading.end {
        End::Help => Err(FsError::Help),
        End::Unknown(at) => Err(FsError::Unknown(at)),
        End::NeedsValue(at) => Err(FsError::NeedsValue(at)),
        End::Done => {
            if !a.frac_ok {
                Err(FsError::BadFraction)
            } else if a.cv_folds < 1 {
                Err(FsError::NoFolds)
            } else {
                Ok(a)
            }
        },
    }
}

/// The list of models where none is given.
pub fn default_models(hint: SplitHint) -> (r: &'static str)
    ensures
        r@ == (if hint == SplitHint::New {
            "models-new.toml"@
        } else {
            "models-old.toml"@
        }),
{
    match hint {
        SplitHint::New => "models-new.toml",
        _ => "models-old.toml",
    }
}

/// The list of voting features where none is given.
pub fn default_features(hint: SplitHint) -> (r: &'static str)
    ensures
        r@ == (if hint == SplitHint::New {
            "voting-new.toml"@
        } else {
            "voting-old.toml"@
        }),
{
    match hint {
        SplitHint::New => "voting-new.toml",
        _ => "voting-old.toml",
    }
}

/// A setting is changed by its own flags alone, and by each of them to what the flag's value says.
pub proof fn lemma_fs_settings(
    argv: Seq<Seq<char>>,
    nums: Seq<Numeral>,
    it: Item,
    v: FsView,
    w: FsView,
)
    requires
        fs_apply(argv, nums, it, v) == Ok::<FsView, FsError>(w),
    ensures
        w.pipeline == (if it.flag == Flag::Old {
            "pipeline-old.toml"@
        } else if it.flag == Flag::New {
            "pipeline-new.toml"@
        } else if it.flag == Flag::Pipeline {
            argv[it.value as int]
        } else {
            v.pipeline
        }),
        w.split_hint == (if it.flag == Flag::Old {
            SplitHint::Old
        } else if it.flag == Flag::New {
            SplitHint::New
        } else if it.flag == Flag::Pipeline {
            SplitHint::Unknown
        } else {
            v.split_hint
        }),
        w.models_toml == (if it.flag == Flag::Models {
            Some(argv[it.value as int])
        } else {
            v.models_toml
        }),
        w.model_groups == (if it.flag == Flag::Groups || it.flag == Flag::GroupsShort {
            v.model_groups + entries(argv[it.value as int])
        } else {
            v.model_groups
        }),
        w.model_manual == (if it.flag == Flag::Model {
            v.model_manual.push(argv[it.value as int])
        } else {
            v.model_manual
        }),
        w.features_toml == (if it.flag == Flag::FeaturesToml {
            Some(argv[it.value as int])
        } else {
            v.features_toml
        }),
        w.feature_groups == (if it.flag == Flag::FeatureGroups {
            v.feature_groups + entries(argv[it.value as int])
        } else {
            v.feature_groups
        }),
        w.feature_manual == (if it.flag == Flag::Feature {
            v.feature_manual.push(argv[it.value as int])
        } else {
            v.feature_manual
        }),
        w.exclude == (if it.flag == Flag::Exclude {
            v.exclude.push(argv[it.value as int])
        } else {
            v.exclude
        }),
        w.lambda == (if it.flag == Flag::Lambda {
            Some(argv[it.value as int])
        } else {
            v.lambda
        }),
        w.max_features == (if it.flag == Flag::MaxFeatures {
            u64_value(argv[it.value as int])
        } else {
            v.max_features
        }),
        w.in_clip == (if it.flag == Flag::InClip {
            Some(argv[it.value as int])
        } else {
            v.in_clip
        }),
        w.out_clip == (if it.flag == Flag::OutClip {
            Some(argv[it.value as int])
        } else {
            v.out_clip
        }),
        w.probe_frac == (if it.flag == Flag::ProbeFrac {
            Some(argv[it.value as int])
        } else {
            v.probe_frac
        }),
        w.frac_ok == (if it.flag == Flag::ProbeFrac {
            nums[it.value as int].fraction
        } else {
            v.frac_ok
        }),
        w.seed == (if it.flag == Flag::Seed {
            u64_value(argv[it.value as int])->Some_0
        } else {
            v.seed
        }),
        w.cv_folds == (if it.flag == Flag::CvFolds {
            u64_value(argv[it.value as int])->Some_0
        } else {
            v.cv_folds
        }),
        w.cv_seed == (if it.flag == Flag::CvSeed {
            u64_value(argv[it.value as int])
        } else {
            v.cv_seed
        }),
        w.cv_patience == (if it.flag == Flag::CvPatience {
            u64_value(argv[it.value as int])
        } else {
            v.cv_patience
        }),
        w.select == (if (it.flag == Flag::Select) && argv[it.value as int] == "pairs"@ {
            SelectMode::Pairs
        } else if it.flag == Flag::Select {
            SelectMode::Column
        } else {
            v.select
        }),
        w.force_models == (if it.flag == Flag::ForceModels {
            u64_value(argv[it.value as int])->Some_0
        } else {
            v.force_models
        }),
        w.save_state == (if it.flag == Flag::SaveState {
            Some(argv[it.value as int])
        } else {
            v.save_state
        }),
        w.load_state == (if it.flag == Flag::LoadState {
            Some(argv[it.value as int])
        } else {
            v.load_state
        }),
        w.no_score == (if it.flag == Flag::NoScore {
            true
        } else {
            v.no_score
        }),
{
}

/// A flag is refused if and only if its value is no number where one is wanted, no bounds, or no way
/// to select.
pub proof fn lemma_fs_refused(argv: Seq<Seq<char>>, nums: Seq<Numeral>, it: Item, v: FsView)
    ensures
        ({
            let value = argv[it.value as int];
            let num = nums[it.value as int];
            let clip = it.flag == Flag::InClip || it.flag == Flag::OutClip;
            let two = split_on(value, ',').len() == 2;
            let r = fs_apply(argv, nums, it, v);
            &&& r == Err::<FsView, FsError>(FsError::BadNumber(it.at)) <==> ((it.flag
                == Flag::Lambda || it.flag == Flag::ProbeFrac) && !num.plain) || ((it.flag == Flag::MaxFeatures || it.flag == Flag::ForceModels || it.flag == Flag::CvFolds || it.flag == Flag::CvSeed || it.flag == Flag::CvPatience || it.flag == Flag::Seed)
                && u64_value(value) is None)
            &&& r == Err::<FsView, FsError>(FsError::BadMode(it.at)) <==> it.flag == Flag::Select
                && value != "pairs"@ && value != "column"@ && value != "columns"@
            &&& r == Err::<FsView, FsError>(FsError::ClipShape(it.at)) <==> clip && !two
            &&& r == Err::<FsView, FsError>(FsError::BadMin(it.at)) <==> clip && two && !num.low
            &&& r == Err::<FsView, FsError>(FsError::BadMax(it.at)) <==> clip && two && num.low
                && !num.high
            &&& r matches Err(e) ==> e == FsError::BadNumber(it.at) || e == FsError::BadMode(it.at)
                || e == FsError::ClipShape(it.at) || e == FsError::BadMin(it.at) || e
                == FsError::BadMax(it.at)
        }),
{
}

/// Flags are taken one after the other, and the first that is refused ends the reading.
pub proof fn lemma_fs_in_turn(
    argv: Seq<Seq<char>>,
    nums: Seq<Numeral>,
    a: Seq<Item>,
    b: Seq<Item>,
    it: Item,
)
    ensures
        fs_after(argv, nums, a) is Err ==> fs_after(argv, nums, a + b) == fs_after(argv, nums, a),
        fs_after(argv, nums, a) matches Ok(v) ==> fs_after(argv, nums, a + seq![it]) == fs_apply(
            argv,
            nums,
            it,
            v,
        ),
        fs_after(argv, nums, Seq::empty()) == Ok::<FsView, FsError>(fs_start()),
    decreases b.len(),
{
    assert((a + seq![it]).drop_last() =~= a);
    assert((a + seq![it]).last() == it);
    if b.len() == 0 {
        assert(a + b =~= a);
    } else {
        lemma_fs_in_turn(argv, nums, a, b.drop_last(), it);
        assert((a + b).drop_last() =~= a + b.drop_last());
    }
}

/// A line is taken if and only if every flag is, the line is read to its end, the share of the probe
/// rows is one and there is a fold; the flags are looked at first, then the end of the line.
pub proof fn lemma_fs_outcome(argv: Seq<Seq<char>>, nums: Seq<Numeral>, v: FsView)
    ensures
        ({
            let after = fs_after(argv, nums, items_from(Program::FwlsFs, argv, 0));
            let end = end_from(Program::FwlsFs, argv, 0);
            let r = fs_outcome(argv, nums);
            &&& r == Ok::<FsView, FsError>(v) <==> after == Ok::<FsView, FsError>(v) && end
                == End::Done && v.frac_ok && v.cv_folds >= 1
            &&& after is Err ==> r == after
            &&& after is Ok && end == End::Help ==> r == Err::<FsView, FsError>(FsError::Help)
            &&& after is Ok ==> (end matches End::Unknown(k) ==> r == Err::<FsView, FsError>(
                FsError::Unknown(k),
            ))
            &&& after is Ok ==> (end matches End::NeedsValue(k) ==> r == Err::<FsView, FsError>(
                FsError::NeedsValue(k),
            ))
            &&& after is Ok && end == End::Done && !after->Ok_0.frac_ok ==> r == Err::<
                FsView,
                FsError,
            >(FsError::BadFraction)
        }),
{
}

/// What a search starts from: the old split, nothing selected, one fold, pairs, and every switch
/// off.
pub proof fn lemma_fs_start()
    ensures
        ({
            let v = fs_start();
            &&& v.pipeline == "pipeline-old.toml"@ && v.split_hint == SplitHint::Old
            &&& v.models_toml is None && v.features_toml is None && v.lambda is None
            &&& v.model_groups.len() == 0 && v.model_manual.len() == 0 && v.exclude.len() == 0
            &&& v.feature_groups.len() == 0 && v.feature_manual.len() == 0
            &&& v.max_features is None && v.in_clip is None && v.out_clip is None
            &&& v.probe_frac is None && v.frac_ok && v.seed == 0 && v.cv_folds == 1
            &&& v.cv_seed is None && v.cv_patience is None && v.select == SelectMode::Pairs
            &&& v.force_models == 0 && v.save_state is None && v.load_state is None && !v.no_score
        }),
{
}

} // verus!
