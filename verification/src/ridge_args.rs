//! The settings of the ridge blend: which predictions it takes from which split, how it selects
//! among them, and what a stored ensemble puts in their place.

use crate::args::end_from;
use crate::args::items_from;
use crate::args::read_line;
use crate::args::read_word;
use crate::args::span;
use crate::args::word_of;
use crate::args::End;
use crate::args::Flag;
use crate::args::Item;
use crate::args::Numeral;
use crate::args::Program;
use crate::args::Reading;
use crate::args::Word;
use crate::blend_args::entries;
use crate::blend_args::push_entries;
use crate::text::copy_names;
use crate::text::i32_value;
use crate::text::joined3;
use crate::text::no_names;
use crate::text::parse_i32_text;
use crate::text::parse_u64;
use crate::text::push_name;
use crate::text::same;
use crate::text::split;
use crate::text::split_on;
use crate::text::text_view;
use crate::text::u64_value;
use crate::text::views;
use vstd::prelude::*;
use vstd::string::*;

verus! {

/// The seed of the folds where none is given.
pub const CV_SEED: u64 = 42;

/// The settings that a stored ensemble does not go together with.
#[derive(Clone, Copy, PartialEq, Eq, Structural, Debug)]
pub enum Clash {
    From,
    Selection,
    Forward,
    QuizBlend,
    CvFolds,
}

/// Why a command line is refused, with the word at fault.
#[derive(Clone, Copy, PartialEq, Eq, Structural, Debug)]
pub enum RidgeError {
    /// Help is asked for.
    Help,
    /// The word is no flag.
    Unknown(usize),
    /// The flag has no value.
    NeedsValue(usize),
    /// The flag's value is no number of the kind it takes.
    BadNumber(usize),
    /// The flag's value is not two texts with a comma between them.
    ClipShape(usize),
    /// The lower bound is no number.
    BadMin(usize),
    /// The upper bound is no number.
    BadMax(usize),
    /// The lower bound is above the upper one.
    Crossed(usize),
    /// The split is neither the old nor the new one.
    BadSplit(usize),
    /// A scope is opened after flags that stand outside every scope.
    MixedScopes(usize),
    /// The flag does not go together with a scope.
    WithFrom(usize),
    /// There is a list of models already.
    ModelsTwice(usize),
    /// No fold at all.
    NoFolds,
    /// Patience without folds to wait for.
    PatienceAlone,
    /// The setting does not go together with a stored ensemble.
    WithEnsemble(Clash),
    /// The stored ensemble has no source.
    NoSources,
    /// Expected values are to be written without a stored ensemble.
    UpdateAlone,
    /// No predictions are selected.
    NoSelection,
    /// Groups are named without a list of models.
    GroupsAlone,
    /// Folds with a blend that is fitted to the qualifying set.
    FoldsWithQuiz,
}

/// Where some of the predictions come from.
#[derive(Clone, Debug)]
pub struct Source {
    pub label: String,
    pub pipeline: String,
    pub models_toml: Option<String>,
    pub models_manual: Vec<String>,
    pub models_exclude: Vec<String>,
    pub groups: Vec<String>,
}

#[verifier::ext_equal]
pub struct SourceView {
    pub label: Seq<char>,
    pub pipeline: Seq<char>,
    pub models_toml: Option<Seq<char>>,
    pub models_manual: Seq<Seq<char>>,
    pub models_exclude: Seq<Seq<char>>,
    pub groups: Seq<Seq<char>>,
}

impl View for Source {
    type V = SourceView;

    open spec fn view(&self) -> SourceView {
        SourceView {
            label: self.label@,
            pipeline: self.pipeline@,
            models_toml: text_view(self.models_toml),
            models_manual: views(self.models_manual@),
            models_exclude: views(self.models_exclude@),
            groups: views(self.groups@),
        }
    }
}

/// The list of models of a source: the one it names, or that of its split where several splits go
/// together.
pub open spec fn models_list(s: SourceView, cross: bool) -> Option<Seq<char>> {
    match s.models_toml {
        Some(p) => Some(p),
        None => if !cross {
            None
        } else if s.label == "new"@ {
            Some("models-new.toml"@)
        } else {
            Some("models-old.toml"@)
        },
    }
}

/// Finds the list of models of a source.
pub fn source_models(s: &Source, cross: bool) -> (r: Option<String>)
    ensures
        text_view(r) == models_list(s@, cross),
{
    match &s.models_toml {
        Some(p) => Some(p.clone()),
        None => if !cross {
            None
        } else if same(s.label.as_str(), "new") {
            Some("models-new.toml".to_string())
        } else {
            Some("models-old.toml".to_string())
        },
    }
}

/// The contents of some sources.
pub open spec fn source_views(s: Seq<Source>) -> Seq<SourceView> {
    s.map_values(|x: Source| x@)
}

/// A split's source before anything is selected from it.
pub open spec fn bare_source(label: Seq<char>, pipeline: Seq<char>) -> SourceView {
    SourceView {
        label,
        pipeline,
        models_toml: None,
        models_manual: Seq::empty(),
        models_exclude: Seq::empty(),
        groups: Seq::empty(),
    }
}

fn new_source(label: &str, pipeline: &str) -> (r: Source)
    ensures
        r@ == bare_source(label@, pipeline@),
{
    let r: Source = Source {
        label: label.to_string(),
        pipeline: pipeline.to_string(),
        models_toml: None,
        models_manual: no_names(),
        models_exclude: no_names(),
        groups: no_names(),
    };
    proof {
        assert(r@ =~= bare_source(label@, pipeline@));
    }
    r
}

/// The selection that stands outside every scope, on the old split.
pub fn legacy_source() -> (r: Source)
    ensures
        r@ == bare_source("old"@, "pipeline-old.toml"@),
{
    new_source("old", "pipeline-old.toml")
}

/// The flags of a ridge blend. Numbers with a fraction are kept as they were written.
#[derive(Clone, Debug)]
pub struct RidgeFlags {
    pub lambda: Option<String>,
    pub forward: bool,
    pub max_features: Option<u64>,
    pub fixed_group: Option<String>,
    pub cv_folds: u64,
    pub cv_seed: u64,
    pub cv_patience: Option<u64>,
    pub in_clip: Option<String>,
    pub out_clip: Option<String>,
    pub quiz_blend: bool,
    pub raw_probes: bool,
    pub decimals: i32,
    pub ensemble: Option<String>,
    pub update_expected: bool,
    pub legacy: Source,
    pub legacy_touched: bool,
    pub from_sources: Vec<Source>,
}

#[verifier::ext_equal]
pub struct RidgeView {
    pub lambda: Option<Seq<char>>,
    pub forward: bool,
    pub max_features: Option<u64>,
    pub fixed_group: Option<Seq<char>>,
    pub cv_folds: u64,
    pub cv_seed: u64,
    pub cv_patience: Option<u64>,
    pub in_clip: Option<Seq<char>>,
    pub out_clip: Option<Seq<char>>,
    pub quiz_blend: bool,
    pub raw_probes: bool,
    pub decimals: i32,
    pub ensemble: Option<Seq<char>>,
    pub update_expected: bool,
    pub legacy: SourceView,
    pub legacy_touched: bool,
    pub from_sources: Seq<SourceView>,
}

impl View for RidgeFlags {
    type V = RidgeView;

    open spec fn view(&self) -> RidgeView {
        RidgeView {
            lambda: text_view(self.lambda),
            forward: self.forward,
            max_features: self.max_features,
            fixed_group: text_view(self.fixed_group),
            cv_folds: self.cv_folds,
            cv_seed: self.cv_seed,
            cv_patience: self.cv_patience,
            in_clip: text_view(self.in_clip),
            out_clip: text_view(self.out_clip),
            quiz_blend: self.quiz_blend,
            raw_probes: self.raw_probes,
            decimals: self.decimals,
            ensemble: text_view(self.ensemble),
            update_expected: self.update_expected,
            legacy: self.legacy@,
            legacy_touched: self.legacy_touched,
            from_sources: source_views(self.from_sources@),
        }
    }
}

/// The flags before any is read.
pub open spec fn ridge_start() -> RidgeView {
    RidgeView {
        lambda: None,
        forward: false,
        max_features: None,
        fixed_group: None,
        cv_folds: 1,
        cv_seed: CV_SEED,
        cv_patience: None,
        in_clip: None,
        out_clip: None,
        quiz_blend: false,
        raw_probes: false,
        decimals: 4,
        ensemble: None,
        update_expected: false,
        legacy: bare_source("old"@, "pipeline-old.toml"@),
        legacy_touched: false,
        from_sources: Seq::empty(),
    }
}

fn start_flags() -> (r: RidgeFlags)
    ensures
        r@ == ridge_start(),
{
    let from_sources: Vec<Source> = Vec::new();
    proof {
        assert(source_views(from_sources@) =~= Seq::<SourceView>::empty());
    }
    RidgeFlags {
        lambda: None,
        forward: false,
        max_features: None,
        fixed_group: None,
        cv_folds: 1,
        cv_seed: CV_SEED,
        cv_patience: None,
        in_clip: None,
        out_clip: None,
        quiz_blend: false,
        raw_probes: false,
        decimals: 4,
        ensemble: None,
        update_expected: false,
        legacy: legacy_source(),
        legacy_touched: false,
        from_sources,
    }
}

// ---------------------------------------------------------------------------
// One flag
// ---------------------------------------------------------------------------

/// What is wrong with a pair of bounds.
pub open spec fn clip_error(value: Seq<char>, num: Numeral, at: usize) -> Option<RidgeError> {
    if split_on(value, ',').len() != 2 {
        Some(RidgeError::ClipShape(at))
    } else if !num.low {
        Some(RidgeError::BadMin(at))
    } else if !num.high {
        Some(RidgeError::BadMax(at))
    } else if !num.ordered {
        Some(RidgeError::Crossed(at))
    } else {
        None
    }
}

/// Checks a pair of bounds: two texts with a comma between them, both numbers, and in order.
pub fn parse_clip(value: &str, num: Numeral, at: usize) -> (r: Option<RidgeError>)
    ensures
        r == clip_error(value@, num, at),
{
    let parts: Vec<String> = split(value, ',');
    proof {
        assert(views(parts@).len() == parts.len());
    }
    if parts.len() != 2 {
        Some(RidgeError::ClipShape(at))
    } else if !num.low {
        Some(RidgeError::BadMin(at))
    } else if !num.high {
        Some(RidgeError::BadMax(at))
    } else if !num.ordered {
        Some(RidgeError::Crossed(at))
    } else {
        None
    }
}

/// A source with one more thing selected, by a flag that a scope may hold.
pub open spec fn selected(s: SourceView, flag: Flag, value: Seq<char>) -> SourceView {
    match flag {
        Flag::Models => SourceView { models_toml: Some(value), ..s },
        Flag::Groups | Flag::GroupsShort => SourceView { groups: s.groups + entries(value), ..s },
        Flag::Model => SourceView { models_manual: s.models_manual.push(value), ..s },
        _ => SourceView { models_exclude: s.models_exclude.push(value), ..s },
    }
}

/// The selection outside every scope, moved to a split.
pub open spec fn on_split(s: SourceView, label: Seq<char>, pipeline: Seq<char>) -> SourceView {
    SourceView { label, pipeline, ..s }
}

/// The flags after one more.
pub open spec fn ridge_apply(
    argv: Seq<Seq<char>>,
    nums: Seq<Numeral>,
    it: Item,
    v: RidgeView,
) -> Result<RidgeView, RidgeError> {
    let value = argv[it.value as int];
    let num = nums[it.value as int];
    let scoped = v.from_sources.len() > 0;
    match it.flag {
        Flag::From => if value != "old"@ && value != "new"@ {
            Err(RidgeError::BadSplit(it.at))
        } else if v.legacy_touched {
            Err(RidgeError::MixedScopes(it.at))
        } else {
            let pipeline = if value == "old"@ {
                "pipeline-old.toml"@
            } else {
                "pipeline-new.toml"@
            };
            Ok(
                RidgeView {
                    from_sources: v.from_sources.push(bare_source(value, pipeline)),
                    ..v
                },
            )
        },
        Flag::Old | Flag::New | Flag::OldModels | Flag::NewModels | Flag::Pipeline => if scoped {
            Err(RidgeError::WithFrom(it.at))
        } else {
            match it.flag {
                Flag::Old => Ok(
                    RidgeView {
                        legacy: on_split(v.legacy, "old"@, "pipeline-old.toml"@),
                        legacy_touched: true,
                        ..v
                    },
                ),
                Flag::New => Ok(
                    RidgeView {
                        legacy: on_split(v.legacy, "new"@, "pipeline-new.toml"@),
                        legacy_touched: true,
                        ..v
                    },
                ),
                Flag::OldModels => if v.legacy.models_toml is Some {
                    Err(RidgeError::ModelsTwice(it.at))
                } else {
                    Ok(
                        RidgeView {
                            legacy: SourceView {
                                models_toml: Some("models-old.toml"@),
                                ..on_split(v.legacy, "old"@, "pipeline-old.toml"@)
                            },
                            legacy_touched: true,
                            ..v
                        },
                    )
                },
                Flag::NewModels => if v.legacy.models_toml is Some {
                    Err(RidgeError::ModelsTwice(it.at))
                } else {
                    Ok(
                        RidgeView {
                            legacy: SourceView {
                                models_toml: Some("models-new.toml"@),
                                ..on_split(v.legacy, "new"@, "pipeline-new.toml"@)
                            },
                            legacy_touched: true,
                            ..v
                        },
                    )
                },
                _ => Ok(
                    RidgeView {
                        legacy: SourceView { pipeline: value, ..v.legacy },
                        legacy_touched: true,
                        ..v
                    },
                ),
            }
        },
        Flag::Models
        | Flag::Groups
        | Flag::GroupsShort
        | Flag::Model
        | Flag::Exclude => if scoped {
            Ok(
                RidgeView {
                    from_sources: v.from_sources.update(
                        v.from_sources.len() - 1,
                        selected(v.from_sources.last(), it.flag, value),
                    ),
                    ..v
                },
            )
        } else if it.flag == Flag::Models && v.legacy.models_toml is Some {
            Err(RidgeError::ModelsTwice(it.at))
        } else {
            Ok(
                RidgeView {
                    legacy: selected(v.legacy, it.flag, value),
                    legacy_touched: true,
                    ..v
                },
            )
        },
        Flag::Ensemble => Ok(
            RidgeView {
                ensemble: Some(
                    if it.value == it.at {
                        Seq::empty()
                    } else {
                        value
                    },
                ),
                ..v
            },
        ),
        Flag::UpdateExpected => Ok(RidgeView { update_expected: true, ..v }),
        Flag::Lambda => if num.plain {
            Ok(RidgeView { lambda: Some(value), ..v })
        } else {
            Err(RidgeError::BadNumber(it.at))
        },
        Flag::Forward => Ok(RidgeView { forward: true, ..v }),
        Flag::MaxFeatures => match u64_value(value) {
            Some(n) => Ok(RidgeView { max_features: Some(n), ..v }),
            None => Err(RidgeError::BadNumber(it.at)),
        },
        Flag::Fixed => Ok(RidgeView { fixed_group: Some(value), ..v }),
        Flag::CvFolds => match u64_value(value) {
            Some(n) => Ok(RidgeView { cv_folds: n, ..v }),
            None => Err(RidgeError::BadNumber(it.at)),
        },
        Flag::CvSeed => match u64_value(value) {
            Some(n) => Ok(RidgeView { cv_seed: n, ..v }),
            None => Err(RidgeError::BadNumber(it.at)),
        },
        Flag::CvPatience => match u64_value(value) {
            Some(n) => Ok(RidgeView { cv_patience: Some(n), ..v }),
            None => Err(RidgeError::BadNumber(it.at)),
        },
        Flag::QuizBlend => Ok(RidgeView { quiz_blend: true, ..v }),
        Flag::RawProbes => Ok(RidgeView { raw_probes: true, ..v }),
        Flag::Decimals => match i32_value(value) {
            Some(n) => Ok(RidgeView { decimals: n, ..v }),
            None => Err(RidgeError::BadNumber(it.at)),
        },
        Flag::InClip => match clip_error(value, num, it.at) {
            Some(e) => Err(e),
            None => Ok(RidgeView { in_clip: Some(value), ..v }),
        },
        Flag::OutClip => match clip_error(value, num, it.at) {
            Some(e) => Err(e),
            None => Ok(RidgeView { out_clip: Some(value), ..v }),
        },
        _ => Ok(v),
    }
}

/// Sets the list of models of a source that has none; tells whether it had one.
pub fn set_models_toml(dst: &mut Option<String>, path: &str) -> (r: bool)
    ensures
        r == (*old(dst) is None),
        *old(dst) is None ==> text_view(*final(dst)) == Some(path@),
        *old(dst) is Some ==> *final(dst) == *old(dst),
{
    if dst.is_some() {
        return false;
    }
    *dst = Some(path.to_string());
    true
}

fn select(s: &mut Source, flag: Flag, value: &String)
    ensures
        final(s)@ == selected(old(s)@, flag, value@),
{
    match flag {
        Flag::Models => {
            s.models_toml = Some(value.clone());
        },
        Flag::Groups | Flag::GroupsShort => {
            push_entries(&mut s.groups, value.as_str());
        },
        Flag::Model => {
            push_name(&mut s.models_manual, value);
        },
        _ => {
            push_name(&mut s.models_exclude, value);
        },
    }
    proof {
        assert(s@ =~= selected(old(s)@, flag, value@));
    }
}

fn apply_split(it: Item, value: &String, f: &mut RidgeFlags) -> (r: Result<(), RidgeError>)
    requires
        matches!(
            it.flag,
            Flag::Old | Flag::New | Flag::OldModels | Flag::NewModels | Flag::Pipeline
        ),
        old(f).from_sources.len() == 0,
    ensures
        forall|argv: Seq<Seq<char>>, nums: Seq<Numeral>|
            argv[it.value as int] == value@ ==> match #[trigger] ridge_apply(
                argv,
                nums,
                it,
                old(f)@,
            ) {
                Ok(v) => r is Ok && final(f)@ == v,
                Err(e) => r == Err::<(), RidgeError>(e),
            },
{
    f.legacy_touched = true;
    match it.flag {
        Flag::Old => {
            f.legacy.pipeline = "pipeline-old.toml".to_string();
            f.legacy.label = "old".to_string();
        },
        Flag::New => {
            f.legacy.pipeline = "pipeline-new.toml".to_string();
            f.legacy.label = "new".to_string();
        },
        Flag::OldModels => {
            f.legacy.pipeline = "pipeline-old.toml".to_string();
            f.legacy.label = "old".to_string();
            if !set_models_toml(&mut f.legacy.models_toml, "models-old.toml") {
                return Err(RidgeError::ModelsTwice(it.at));
            }
        },
        Flag::NewModels => {
            f.legacy.pipeline = "pipeline-new.toml".to_string();
            f.legacy.label = "new".to_string();
            if !set_models_toml(&mut f.legacy.models_toml, "models-new.toml") {
                return Err(RidgeError::ModelsTwice(it.at));
            }
        },
        _ => {
            f.legacy.pipeline = value.clone();
        },
    }
    Ok(())
}

fn apply_selection(it: Item, value: &String, f: &mut RidgeFlags) -> (r: Result<(), RidgeError>)
    requires
        matches!(
            it.flag,
            Flag::Models | Flag::Groups | Flag::GroupsShort | Flag::Model | Flag::Exclude
        ),
    ensures
        forall|argv: Seq<Seq<char>>, nums: Seq<Numeral>|
            argv[it.value as int] == value@ ==> match #[trigger] ridge_apply(
                argv,
                nums,
                it,
                old(f)@,
            ) {
                Ok(v) => r is Ok && final(f)@ == v,
                Err(e) => r == Err::<(), RidgeError>(e),
            },
{
    let n: usize = f.from_sources.len();
    if n > 0 {
        let ghost before = f.from_sources@;
        let ghost fresh = selected(before[n - 1]@, it.flag, value@);
        select(&mut f.from_sources[n - 1], it.flag, value);
        proof {
            assert(source_views(f.from_sources@) =~= source_views(before).update(n - 1, fresh));
            assert(source_views(before).last() == before[n - 1]@);
        }
        return Ok(());
    }
    if it.flag == Flag::Models && f.legacy.models_toml.is_some() {
        return Err(RidgeError::ModelsTwice(it.at));
    }
    f.legacy_touched = true;
    select(&mut f.legacy, it.flag, value);
    Ok(())
}

fn apply(argv: &Vec<String>, nums: &Vec<Numeral>, it: Item, f: &mut RidgeFlags) -> (r: Result<
    (),
    RidgeError,
>)
    requires
        it.value < argv.len(),
        nums.len() == argv.len(),
    ensures
        match ridge_apply(views(argv@), nums@, it, old(f)@) {
            Ok(v) => r is Ok && final(f)@ == v,
            Err(e) => r == Err::<(), RidgeError>(e),
        },
{
    proof {
        assert(views(argv@)[it.value as int] == argv@[it.value as int]@);
    }
    let value: &String = &argv[it.value];
    let num: Numeral = nums[it.value];
    match it.flag {
        Flag::From => {
            let old: bool = same(value.as_str(), "old");
            if !old && !same(value.as_str(), "new") {
                return Err(RidgeError::BadSplit(it.at));
            }
            if f.legacy_touched {
                return Err(RidgeError::MixedScopes(it.at));
            }
            let pipeline: &str = if old {
                "pipeline-old.toml"
            } else {
                "pipeline-new.toml"
            };
            let ghost before = f.from_sources@;
            let s: Source = new_source(value.as_str(), pipeline);
            f.from_sources.push(s);
            proof {
                assert(source_views(f.from_sources@) =~= source_views(before).push(s@));
            }
        },
        Flag::Old | Flag::New | Flag::OldModels | Flag::NewModels | Flag::Pipeline => {
            if f.from_sources.len() > 0 {
                return Err(RidgeError::WithFrom(it.at));
            }
            return apply_split(it, value, f);
        },
        Flag::Models | Flag::Groups | Flag::GroupsShort | Flag::Model | Flag::Exclude => {
            return apply_selection(it, value, f);
        },
        Flag::Ensemble => {
            if it.value == it.at {
                proof {
                    reveal_strlit("");
                    assert(""@ =~= Seq::<char>::empty());
                }
                f.ensemble = Some("".to_string());
            } else {
                f.ensemble = Some(value.clone());
            }
        },
        Flag::UpdateExpected => {
            f.update_expected = true;
        },
        Flag::Lambda => {
            if !num.plain {
                return Err(RidgeError::BadNumber(it.at));
            }
            f.lambda = Some(value.clone());
        },
        Flag::Forward => {
            f.forward = true;
        },
        Flag::MaxFeatures => {
            match parse_u64(value.as_str()) {
                Some(n) => {
                    f.max_features = Some(n);
                },
                None => {
                    return Err(RidgeError::BadNumber(it.at));
                },
            }
        },
        Flag::Fixed => {
            f.fixed_group = Some(value.clone());
        },
        Flag::CvFolds => {
            match parse_u64(value.as_str()) {
                Some(n) => {
                    f.cv_folds = n;
                },
                None => {
                    return Err(RidgeError::BadNumber(it.at));
                },
            }
        },
        Flag::CvSeed => {
            match parse_u64(value.as_str()) {
                Some(n) => {
                    f.cv_seed = n;
                },
                None => {
                    return Err(RidgeError::BadNumber(it.at));
                },
            }
        },
        Flag::CvPatience => {
            match parse_u64(value.as_str()) {
                Some(n) => {
                    f.cv_patience = Some(n);
                },
                None => {
                    return Err(RidgeError::BadNumber(it.at));
                },
            }
        },
        Flag::QuizBlend => {
            f.quiz_blend = true;
        },
        Flag::RawProbes => {
            f.raw_probes = true;
        },
        Flag::Decimals => {
            match parse_i32_text(value.as_str()) {
                Some(n) => {
                    f.decimals = n;
                },
                None => {
                    return Err(RidgeError::BadNumber(it.at));
                },
            }
        },
        Flag::InClip => {
            match parse_clip(value.as_str(), num, it.at) {
                Some(e) => {
                    return Err(e);
                },
                None => {
                    f.in_clip = Some(value.clone());
                },
            }
        },
        Flag::OutClip => {
            match parse_clip(value.as_str(), num, it.at) {
                Some(e) => {
                    return Err(e);
                },
                None => {
                    f.out_clip = Some(value.clone());
                },
            }
        },
        _ => {},
    }
    Ok(())
}

// ---------------------------------------------------------------------------
// The command line
// ---------------------------------------------------------------------------

/// The flags after some, or what is wrong with the first that is wrong.
pub open spec fn ridge_after(
    argv: Seq<Seq<char>>,
    nums: Seq<Numeral>,
    items: Seq<Item>,
) -> Result<RidgeView, RidgeError>
    decreases items.len(),
{
    if items.len() == 0 {
        Ok(ridge_start())
    } else {
        match ridge_after(argv, nums, items.drop_last()) {
            Ok(v) => ridge_apply(argv, nums, items.last(), v),
            Err(e) => Err(e),
        }
    }
}

/// What the end of the reading says: a pipeline without its value is first of all one too many
/// inside a scope.
pub open spec fn ridge_end(argv: Seq<Seq<char>>, end: End, v: RidgeView) -> Option<RidgeError> {
    match end {
        End::Done => None,
        End::Help => Some(RidgeError::Help),
        End::Unknown(at) => Some(RidgeError::Unknown(at)),
        End::NeedsValue(at) => if word_of(Program::Ridge, argv[at as int]) == Word::Is(
            Flag::Pipeline,
        ) && v.from_sources.len() > 0 {
            Some(RidgeError::WithFrom(at))
        } else {
            Some(RidgeError::NeedsValue(at))
        },
    }
}

/// What a command line gives: the first thing that is wrong in it, from left to right, else the
/// flags.
pub open spec fn ridge_read(argv: Seq<Seq<char>>, nums: Seq<Numeral>) -> Result<
    RidgeView,
    RidgeError,
> {
    match ridge_after(argv, nums, items_from(Program::Ridge, argv, 0)) {
        Err(e) => Err(e),
        Ok(v) => match ridge_end(argv, end_from(Program::Ridge, argv, 0), v) {
            Some(e) => Err(e),
            None => Ok(v),
        },
    }
}

proof fn lemma_ridge_stuck(argv: Seq<Seq<char>>, nums: Seq<Numeral>, items: Seq<Item>, i: int)
    requires
        0 <= i <= items.len(),
        ridge_after(argv, nums, items.take(i)) is Err,
    ensures
        ridge_after(argv, nums, items) == ridge_after(argv, nums, items.take(i)),
    decreases items.len() - i,
{
    if i < items.len() {
        assert(items.take(i + 1).drop_last() =~= items.take(i));
        lemma_ridge_stuck(argv, nums, items, i + 1);
    } else {
        assert(items.take(i) =~= items);
    }
}

/// A reading that stops for want of a value stops at a word of the line.
proof fn lemma_needs_value_stands(argv: Seq<Seq<char>>, i: int)
    requires
        0 <= i,
        argv.len() <= usize::MAX,
    ensures
        match end_from(Program::Ridge, argv, i) {
            End::NeedsValue(at) => at < argv.len(),
            _ => true,
        },
    decreases argv.len() - i,
{
    if i < argv.len() && i + span(Program::Ridge, argv, i) <= argv.len() {
        lemma_needs_value_stands(argv, i + span(Program::Ridge, argv, i));
    }
}

/// Reads the command line of a ridge blend. `nums` says of each word what it is as a
/// floating-point text.
pub fn parse_args(argv: &Vec<String>, nums: &Vec<Numeral>) -> (r: Result<RidgeFlags, RidgeError>)
    requires
        nums.len() == argv.len(),
    ensures
        match r {
            Ok(f) => ridge_read(views(argv@), nums@) == Ok::<RidgeView, RidgeError>(f@),
            Err(e) => ridge_read(views(argv@), nums@) == Err::<RidgeView, RidgeError>(e),
        },
{
    let reading: Reading = read_line(Program::Ridge, argv);
    let mut f: RidgeFlags = start_flags();
    let ghost v = views(argv@);
    let ghost items = reading.items@;
    proof {
        assert(argv.len() <= usize::MAX);
        crate::args::lemma_items_stand(Program::Ridge, v, 0);
        lemma_needs_value_stands(v, 0);
    }
    let mut i: usize = 0;
    while i < reading.items.len()
        invariant
            i <= reading.items.len(),
            nums.len() == argv.len(),
            v == views(argv@),
            items == reading.items@,
            items == items_from(Program::Ridge, v, 0),
            forall|k: int| 0 <= k < items.len() ==> (#[trigger] items[k]).value < argv.len(),
            ridge_after(v, nums@, items.take(i as int)) == Ok::<RidgeView, RidgeError>(f@),
        decreases reading.items.len() - i,
    {
        proof {
            assert(items.take(i + 1).drop_last() =~= items.take(i as int));
            assert(items.take(i + 1).last() == items[i as int]);
        }
        match apply(argv, nums, reading.items[i], &mut f) {
            Ok(_) => {},
            Err(e) => {
                proof {
                    lemma_ridge_stuck(v, nums@, items, i + 1);
                }
                return Err(e);
            },
        }
        i += 1;
    }
    proof {
        assert(items.take(items.len() as int) =~= items);
    }
    match reading.end {
        End::Done => Ok(f),
        End::Help => Err(RidgeError::Help),
        End::Unknown(at) => Err(RidgeError::Unknown(at)),
        End::NeedsValue(at) => {
            proof {
                assert(v[at as int] == argv@[at as int]@);
            }
            let word: Word = read_word(Program::Ridge, argv[at].as_str());
            if word == Word::Is(Flag::Pipeline) && f.from_sources.len() > 0 {
                Err(RidgeError::WithFrom(at))
            } else {
                Err(RidgeError::NeedsValue(at))
            }
        },
    }
}

// ---------------------------------------------------------------------------
// What goes together
// ---------------------------------------------------------------------------

/// Flags of the forward selection without the selection: they have no effect.
pub open spec fn idle_selection(v: RidgeView) -> bool {
    !v.forward && (v.max_features is Some || v.fixed_group is Some || v.cv_folds > 1)
}

/// Whether flags of the forward selection are given without it.
pub fn warns_of_selection(f: &RidgeFlags) -> (r: bool)
    ensures
        r == idle_selection(f@),
{
    !f.forward && (f.max_features.is_some() || f.fixed_group.is_some() || f.cv_folds > 1)
}

/// What does not go together with a stored ensemble.
pub open spec fn ensemble_clash(v: RidgeView) -> Option<Clash> {
    if v.from_sources.len() > 0 {
        Some(Clash::From)
    } else if v.legacy.models_toml is Some || v.legacy.groups.len() > 0
        || v.legacy.models_exclude.len() > 0 {
        Some(Clash::Selection)
    } else if v.forward {
        Some(Clash::Forward)
    } else if v.quiz_blend {
        Some(Clash::QuizBlend)
    } else if v.cv_folds > 1 {
        Some(Clash::CvFolds)
    } else {
        None
    }
}

/// What is wrong with the flags before the stored ensembles are looked at.
pub open spec fn early_error(v: RidgeView) -> Option<RidgeError> {
    if v.cv_folds < 1 {
        Some(RidgeError::NoFolds)
    } else if v.cv_patience is Some && v.cv_folds < 2 {
        Some(RidgeError::PatienceAlone)
    } else if v.ensemble is Some {
        match ensemble_clash(v) {
            Some(c) => Some(RidgeError::WithEnsemble(c)),
            None => None,
        }
    } else if v.update_expected {
        Some(RidgeError::UpdateAlone)
    } else {
        None
    }
}

fn clash_of(f: &RidgeFlags) -> (r: Option<Clash>)
    ensures
        r == ensemble_clash(f@),
{
    if f.from_sources.len() > 0 {
        Some(Clash::From)
    } else if f.legacy.models_toml.is_some() || f.legacy.groups.len() > 0
        || f.legacy.models_exclude.len() > 0 {
        Some(Clash::Selection)
    } else if f.forward {
        Some(Clash::Forward)
    } else if f.quiz_blend {
        Some(Clash::QuizBlend)
    } else if f.cv_folds > 1 {
        Some(Clash::CvFolds)
    } else {
        None
    }
}

/// What is wrong with the flags before the stored ensembles are looked at.
pub fn check_flags(f: &RidgeFlags) -> (r: Option<RidgeError>)
    ensures
        r == early_error(f@),
{
    if f.cv_folds < 1 {
        return Some(RidgeError::NoFolds);
    }
    if f.cv_patience.is_some() && f.cv_folds < 2 {
        return Some(RidgeError::PatienceAlone);
    }
    if f.ensemble.is_some() {
        match clash_of(f) {
            Some(c) => Some(RidgeError::WithEnsemble(c)),
            None => None,
        }
    } else if f.update_expected {
        Some(RidgeError::UpdateAlone)
    } else {
        None
    }
}

// ---------------------------------------------------------------------------
// Stored ensembles
// ---------------------------------------------------------------------------

/// What a stored ensemble takes from one split.
pub struct EnsembleSource {
    pub split: String,
    pub groups: Vec<String>,
    pub models: Vec<String>,
}

/// A stored ensemble, as far as the selection goes.
pub struct EnsembleDef {
    pub name: String,
    pub is_default: bool,
    pub source: Vec<EnsembleSource>,
}

/// The place of the first ensemble from `i` on that is wanted, or the number of them: the one of
/// a name, or the one marked as the default.
pub open spec fn first_wanted(
    defs: Seq<EnsembleDef>,
    name: Seq<char>,
    i: int,
) -> int
    decreases defs.len() - i,
{
    if i < 0 || i >= defs.len() {
        defs.len() as int
    } else if (if name.len() == 0 {
        defs[i].is_default
    } else {
        defs[i].name@ == name
    }) {
        i
    } else {
        first_wanted(defs, name, i + 1)
    }
}

/// The ensemble of a name; without a name the one marked as the default, or else the first.
pub open spec fn picked(defs: Seq<EnsembleDef>, name: Seq<char>) -> Option<int> {
    if first_wanted(defs, name, 0) < defs.len() {
        Some(first_wanted(defs, name, 0))
    } else if name.len() == 0 && defs.len() > 0 {
        Some(0)
    } else {
        None
    }
}

/// The place of the ensemble of a name; without a name that of the one marked as the default, or
/// else of the first.
pub fn pick_ensemble(defs: &Vec<EnsembleDef>, name: &str) -> (r: Option<usize>)
    ensures
        match r {
            Some(k) => picked(defs@, name@) == Some(k as int) && k < defs.len(),
            None => picked(defs@, name@) is None,
        },
{
    let unnamed: bool = name.unicode_len() == 0;
    let mut i: usize = 0;
    while i < defs.len()
        invariant
            i <= defs.len(),
            unnamed == (name@.len() == 0),
            first_wanted(defs@, name@, 0) == first_wanted(defs@, name@, i as int),
        decreases defs.len() - i,
    {
        let wanted: bool = if unnamed {
            defs[i].is_default
        } else {
            same(defs[i].name.as_str(), name)
        };
        if wanted {
            return Some(i);
        }
        i += 1;
    }
    if unnamed && defs.len() > 0 {
        Some(0)
    } else {
        None
    }
}

/// What a stored source selects.
pub open spec fn stored_source(s: EnsembleSource) -> SourceView {
    SourceView {
        label: s.split@,
        pipeline: "pipeline-"@ + s.split@ + ".toml"@,
        models_toml: Some("models-"@ + s.split@ + ".toml"@),
        models_manual: views(s.models@),
        models_exclude: Seq::empty(),
        groups: views(s.groups@),
    }
}

fn source_of(s: &EnsembleSource) -> (r: Source)
    ensures
        r@ == stored_source(*s),
{
    let r: Source = Source {
        label: s.split.clone(),
        pipeline: joined3("pipeline-", s.split.as_str(), ".toml"),
        models_toml: Some(joined3("models-", s.split.as_str(), ".toml")),
        models_manual: copy_names(&s.models),
        models_exclude: no_names(),
        groups: copy_names(&s.groups),
    };
    proof {
        assert(r@ =~= stored_source(*s));
    }
    r
}

/// What the sources of a stored ensemble select.
pub open spec fn stored_sources(s: Seq<EnsembleSource>) -> Seq<SourceView> {
    s.map_values(|x: EnsembleSource| stored_source(x))
}

fn sources_of(s: &Vec<EnsembleSource>) -> (r: Vec<Source>)
    ensures
        source_views(r@) == stored_sources(s@),
{
    let mut out: Vec<Source> = Vec::new();
    let mut i: usize = 0;
    while i < s.len()
        invariant
            i <= s.len(),
            source_views(out@) =~= stored_sources(s@).take(i as int),
        decreases s.len() - i,
    {
        let ghost before = out@;
        let x: Source = source_of(&s[i]);
        out.push(x);
        proof {
            assert(source_views(out@) =~= source_views(before).push(x@));
            assert(stored_sources(s@).take(i + 1) =~= stored_sources(s@).take(i as int).push(
                stored_source(s@[i as int]),
            ));
        }
        i += 1;
    }
    proof {
        assert(stored_sources(s@).take(s.len() as int) =~= stored_sources(s@));
    }
    out
}

// ---------------------------------------------------------------------------
// The settings
// ---------------------------------------------------------------------------

/// Which bounds the predictions are clipped to on their way in.
#[derive(Clone, Copy, PartialEq, Eq, Structural, Debug)]
pub enum InClip {
    /// Those that were given.
    Given,
    /// The rating scale: each column stands for ratings that could be submitted.
    Ratings,
    /// Wide ones, against outliers.
    Wide,
}

/// The settings of a ridge blend.
pub struct RidgeArgs {
    pub sources: Vec<Source>,
    /// Predictions of several splits go together.
    pub cross_split: bool,
    /// The blend is fitted to the qualifying set.
    pub quiz_blend: bool,
    pub in_clip: InClip,
    /// Columns measured on top of a stored ensemble.
    pub extras: Vec<String>,
}

#[verifier::ext_equal]
pub struct RidgeArgsView {
    pub sources: Seq<SourceView>,
    pub cross_split: bool,
    pub quiz_blend: bool,
    pub in_clip: InClip,
    pub extras: Seq<Seq<char>>,
}

impl View for RidgeArgs {
    type V = RidgeArgsView;

    open spec fn view(&self) -> RidgeArgsView {
        RidgeArgsView {
            sources: source_views(self.sources@),
            cross_split: self.cross_split,
            quiz_blend: self.quiz_blend,
            in_clip: self.in_clip,
            extras: views(self.extras@),
        }
    }
}

/// The bounds for the predictions on their way in.
pub open spec fn in_clip_spec(v: RidgeView, quiz_blend: bool) -> InClip {
    if v.in_clip is Some {
        InClip::Given
    } else if quiz_blend && !v.raw_probes {
        InClip::Ratings
    } else {
        InClip::Wide
    }
}

/// The settings that the flags, and the stored ensemble they name, amount to.
pub open spec fn ridge_settled(v: RidgeView, stored: Seq<EnsembleSource>) -> Result<
    RidgeArgsView,
    RidgeError,
> {
    let ensemble = v.ensemble is Some;
    let cross = if ensemble {
        stored.len() > 1
    } else {
        v.from_sources.len() > 0
    };
    let quiz = v.quiz_blend || cross;
    match early_error(v) {
        Some(e) => Err(e),
        None => if ensemble && stored.len() == 0 {
            Err(RidgeError::NoSources)
        } else if !ensemble && !cross && v.legacy.models_toml is None
            && v.legacy.models_manual.len() == 0 {
            Err(RidgeError::NoSelection)
        } else if !ensemble && !cross && v.legacy.groups.len() > 0 && v.legacy.models_toml is None {
            Err(RidgeError::GroupsAlone)
        } else if quiz && v.cv_folds > 1 {
            Err(RidgeError::FoldsWithQuiz)
        } else {
            Ok(
                RidgeArgsView {
                    sources: if ensemble {
                        stored_sources(stored)
                    } else if cross {
                        v.from_sources
                    } else {
                        seq![v.legacy]
                    },
                    cross_split: cross,
                    quiz_blend: quiz,
                    in_clip: in_clip_spec(v, quiz),
                    extras: if ensemble {
                        v.legacy.models_manual
                    } else {
                        Seq::empty()
                    },
                },
            )
        },
    }
}

/// Raw probes without a blend that is fitted to the qualifying set: they have no effect.
pub fn warns_of_raw_probes(f: &RidgeFlags, quiz_blend: bool) -> (r: bool)
    ensures
        r == (f@.raw_probes && !quiz_blend),
{
    f.raw_probes && !quiz_blend
}

/// Settles what the flags, and the stored ensemble they name, amount to. `stored` is the source
/// list of that ensemble, and is not looked at where none is named.
pub fn settle(f: RidgeFlags, stored: &Vec<EnsembleSource>) -> (r: Result<RidgeArgs, RidgeError>)
    ensures
        match r {
            Ok(a) => ridge_settled(f@, stored@) == Ok::<RidgeArgsView, RidgeError>(a@),
            Err(e) => ridge_settled(f@, stored@) == Err::<RidgeArgsView, RidgeError>(e),
        },
{
    match check_flags(&f) {
        Some(e) => {
            return Err(e);
        },
        None => {},
    }
    let ensemble: bool = f.ensemble.is_some();
    if ensemble && stored.len() == 0 {
        return Err(RidgeError::NoSources);
    }
    let cross: bool = if ensemble {
        stored.len() > 1
    } else {
        f.from_sources.len() > 0
    };
    if !ensemble && !cross {
        if f.legacy.models_toml.is_none() && f.legacy.models_manual.len() == 0 {
            return Err(RidgeError::NoSelection);
        }
        if f.legacy.groups.len() > 0 && f.legacy.models_toml.is_none() {
            return Err(RidgeError::GroupsAlone);
        }
    }
    let quiz: bool = f.quiz_blend || cross;
    if quiz && f.cv_folds > 1 {
        return Err(RidgeError::FoldsWithQuiz);
    }
    let in_clip: InClip = if f.in_clip.is_some() {
        InClip::Given
    } else if quiz && !f.raw_probes {
        InClip::Ratings
    } else {
        InClip::Wide
    };
    let extras: Vec<String> = if ensemble {
        copy_names(&f.legacy.models_manual)
    } else {
        no_names()
    };
    let sources: Vec<Source> = if ensemble {
        sources_of(stored)
    } else if cross {
        f.from_sources
    } else {
        let mut one: Vec<Source> = Vec::new();
        one.push(f.legacy);
        proof {
            assert(source_views(one@) =~= seq![f@.legacy]);
        }
        one
    };
    Ok(RidgeArgs { sources, cross_split: cross, quiz_blend: quiz, in_clip, extras })
}

/// Settled settings have a source; they cross splits only with a fit to the qualifying set, never
/// have folds with that fit, and have extra columns only with a stored ensemble.
pub proof fn lemma_settled_consistent(v: RidgeView, stored: Seq<EnsembleSource>, a: RidgeArgsView)
    requires
        ridge_settled(v, stored) == Ok::<RidgeArgsView, RidgeError>(a),
    ensures
        a.sources.len() > 0,
        a.cross_split ==> a.quiz_blend,
        a.quiz_blend ==> v.cv_folds == 1,
        a.extras.len() > 0 ==> v.ensemble is Some,
        v.cv_folds >= 1,
        v.update_expected ==> v.ensemble is Some,
        a.sources.len() > 1 ==> a.cross_split,
{
}

/// A scope holds what follows it: a selection inside a scope leaves the selection outside every
/// scope as it was, and every earlier scope.
pub proof fn lemma_scopes_apart(
    argv: Seq<Seq<char>>,
    nums: Seq<Numeral>,
    it: Item,
    v: RidgeView,
    w: RidgeView,
)
    requires
        v.from_sources.len() > 0,
        ridge_apply(argv, nums, it, v) == Ok::<RidgeView, RidgeError>(w),
    ensures
        w.legacy == v.legacy,
        w.from_sources.len() >= v.from_sources.len(),
        forall|k: int|
            0 <= k < v.from_sources.len() - 1 ==> #[trigger] w.from_sources[k] == v.from_sources[k],
{
}

/// A setting is changed by its own flags alone, and by each of them to what the flag's value says.
pub proof fn lemma_ridge_settings(
    argv: Seq<Seq<char>>,
    nums: Seq<Numeral>,
    it: Item,
    v: RidgeView,
    w: RidgeView,
)
    requires
        ridge_apply(argv, nums, it, v) == Ok::<RidgeView, RidgeError>(w),
    ensures
        w.lambda == (if it.flag == Flag::Lambda {
            Some(argv[it.value as int])
        } else {
            v.lambda
        }),
        w.forward == (if it.flag == Flag::Forward {
            true
        } else {
            v.forward
        }),
        w.max_features == (if it.flag == Flag::MaxFeatures {
            u64_value(argv[it.value as int])
        } else {
            v.max_features
        }),
        w.fixed_group == (if it.flag == Flag::Fixed {
            Some(argv[it.value as int])
        } else {
            v.fixed_group
        }),
        w.cv_folds == (if it.flag == Flag::CvFolds {
            u64_value(argv[it.value as int])->Some_0
        } else {
            v.cv_folds
        }),
        w.cv_seed == (if it.flag == Flag::CvSeed {
            u64_value(argv[it.value as int])->Some_0
        } else {
            v.cv_seed
        }),
        w.cv_patience == (if it.flag == Flag::CvPatience {
            u64_value(argv[it.value as int])
        } else {
            v.cv_patience
        }),
        w.in_clip == (if it.flag == Flag::InClip {
            Some(argv[it.value as int])
        } else {
            v.in_clip
        }),
        w.out_clip == (if it.flag == Flag::OutClip {
            Some(argv[it.value as int])
        } else {
            v.out_clip
        }),
        w.quiz_blend == (if it.flag == Flag::QuizBlend {
            true
        } else {
            v.quiz_blend
        }),
        w.raw_probes == (if it.flag == Flag::RawProbes {
            true
        } else {
            v.raw_probes
        }),
        w.decimals == (if it.flag == Flag::Decimals {
            i32_value(argv[it.value as int])->Some_0
        } else {
            v.decimals
        }),
        w.ensemble == (if (it.flag == Flag::Ensemble) && it.value == it.at {
            Some(Seq::empty())
        } else if it.flag == Flag::Ensemble {
            Some(argv[it.value as int])
        } else {
            v.ensemble
        }),
        w.update_expected == (if it.flag == Flag::UpdateExpected {
            true
        } else {
            v.update_expected
        }),
        w.legacy_touched == (if it.flag == Flag::Old || it.flag == Flag::New || it.flag == Flag::OldModels || it.flag == Flag::NewModels || it.flag == Flag::Pipeline || ((it.flag == Flag::Models || it.flag == Flag::Groups || it.flag == Flag::GroupsShort || it.flag == Flag::Model || it.flag == Flag::Exclude) && v.from_sources.len() == 0) {
            true
        } else {
            v.legacy_touched
        }),
{
}

/// Outside every scope a flag on the split names it and its pipeline, those with models its list
/// too, and no flag changes anything else of the source but what it selects.
pub proof fn lemma_ridge_legacy(
    argv: Seq<Seq<char>>,
    nums: Seq<Numeral>,
    it: Item,
    v: RidgeView,
    w: RidgeView,
)
    requires
        ridge_apply(argv, nums, it, v) == Ok::<RidgeView, RidgeError>(w),
        v.from_sources.len() == 0,
    ensures
        w.legacy.label == (if it.flag == Flag::Old || it.flag == Flag::OldModels {
            "old"@
        } else if it.flag == Flag::New || it.flag == Flag::NewModels {
            "new"@
        } else {
            v.legacy.label
        }),
        w.legacy.pipeline == (if it.flag == Flag::Old || it.flag == Flag::OldModels {
            "pipeline-old.toml"@
        } else if it.flag == Flag::New || it.flag == Flag::NewModels {
            "pipeline-new.toml"@
        } else if it.flag == Flag::Pipeline {
            argv[it.value as int]
        } else {
            v.legacy.pipeline
        }),
        w.legacy.models_toml == (if it.flag == Flag::OldModels {
            Some("models-old.toml"@)
        } else if it.flag == Flag::NewModels {
            Some("models-new.toml"@)
        } else if it.flag == Flag::Models {
            Some(argv[it.value as int])
        } else {
            v.legacy.models_toml
        }),
        w.legacy.groups == (if it.flag == Flag::Groups || it.flag == Flag::GroupsShort {
            v.legacy.groups + entries(argv[it.value as int])
        } else {
            v.legacy.groups
        }),
        w.legacy.models_manual == (if it.flag == Flag::Model {
            v.legacy.models_manual.push(argv[it.value as int])
        } else {
            v.legacy.models_manual
        }),
        w.legacy.models_exclude == (if it.flag == Flag::Exclude {
            v.legacy.models_exclude.push(argv[it.value as int])
        } else {
            v.legacy.models_exclude
        }),
        it.flag == Flag::From ==> w.from_sources.len() == 1 && w.from_sources[0].label
            == argv[it.value as int],
        it.flag != Flag::From ==> w.from_sources.len() == 0,
{
}

/// In a scope a flag that selects works on the last scope, and one that opens a scope adds one of
/// its split with nothing selected.
pub proof fn lemma_ridge_scoped(
    argv: Seq<Seq<char>>,
    nums: Seq<Numeral>,
    it: Item,
    v: RidgeView,
    w: RidgeView,
)
    requires
        ridge_apply(argv, nums, it, v) == Ok::<RidgeView, RidgeError>(w),
        v.from_sources.len() > 0,
    ensures
        ({
            let value = argv[it.value as int];
            let old_last = v.from_sources.last();
            let new_last = w.from_sources.last();
            &&& it.flag == Flag::From ==> {
                &&& w.from_sources.len() == v.from_sources.len() + 1
                &&& new_last.label == value
                &&& value == "old"@ ==> new_last.pipeline == "pipeline-old.toml"@
                &&& value != "old"@ ==> value == "new"@ && new_last.pipeline
                    == "pipeline-new.toml"@
                &&& new_last.models_toml is None && new_last.groups.len() == 0
                &&& new_last.models_manual.len() == 0 && new_last.models_exclude.len() == 0
            }
            &&& it.flag != Flag::From ==> {
                &&& w.from_sources.len() == v.from_sources.len()
                &&& new_last.label == old_last.label && new_last.pipeline == old_last.pipeline
                &&& new_last.models_toml == (if it.flag == Flag::Models {
                    Some(value)
                } else {
                    old_last.models_toml
                })
                &&& new_last.groups == (if it.flag == Flag::Groups || it.flag
                    == Flag::GroupsShort {
                    old_last.groups + entries(value)
                } else {
                    old_last.groups
                })
                &&& new_last.models_manual == (if it.flag == Flag::Model {
                    old_last.models_manual.push(value)
                } else {
                    old_last.models_manual
                })
                &&& new_last.models_exclude == (if it.flag == Flag::Exclude {
                    old_last.models_exclude.push(value)
                } else {
                    old_last.models_exclude
                })
            }
        }),
{
}

/// When a flag is refused.
pub proof fn lemma_ridge_refused(
    argv: Seq<Seq<char>>,
    nums: Seq<Numeral>,
    it: Item,
    v: RidgeView,
)
    ensures
        ({
            let value = argv[it.value as int];
            let num = nums[it.value as int];
            let clip = it.flag == Flag::InClip || it.flag == Flag::OutClip;
            let two = split_on(value, ',').len() == 2;
            let scoped = v.from_sources.len() > 0;
            let r = ridge_apply(argv, nums, it, v);
            &&& r == Err::<RidgeView, RidgeError>(RidgeError::BadSplit(it.at)) <==> it.flag
                == Flag::From && value != "old"@ && value != "new"@
            &&& r == Err::<RidgeView, RidgeError>(RidgeError::MixedScopes(it.at)) <==> it.flag
                == Flag::From && (value == "old"@ || value == "new"@) && v.legacy_touched
            &&& r == Err::<RidgeView, RidgeError>(RidgeError::WithFrom(it.at)) <==> scoped && (
            it.flag == Flag::Old || it.flag == Flag::New || it.flag == Flag::OldModels || it.flag
                == Flag::NewModels || it.flag == Flag::Pipeline)
            &&& r == Err::<RidgeView, RidgeError>(RidgeError::ModelsTwice(it.at)) <==> !scoped
                && v.legacy.models_toml is Some && (it.flag == Flag::OldModels || it.flag
                == Flag::NewModels || it.flag == Flag::Models)
            &&& r == Err::<RidgeView, RidgeError>(RidgeError::BadNumber(it.at)) <==> (it.flag
                == Flag::Lambda && !num.plain) || ((it.flag == Flag::MaxFeatures || it.flag
                == Flag::CvFolds || it.flag == Flag::CvSeed || it.flag == Flag::CvPatience)
                && u64_value(value) is None) || (it.flag == Flag::Decimals && i32_value(
                value,
            ) is None)
            &&& r == Err::<RidgeView, RidgeError>(RidgeError::ClipShape(it.at)) <==> clip && !two
            &&& r == Err::<RidgeView, RidgeError>(RidgeError::BadMin(it.at)) <==> clip && two
                && !num.low
            &&& r == Err::<RidgeView, RidgeError>(RidgeError::BadMax(it.at)) <==> clip && two
                && num.low && !num.high
            &&& r == Err::<RidgeView, RidgeError>(RidgeError::Crossed(it.at)) <==> clip && two
                && num.low && num.high && !num.ordered
            &&& r matches Err(e) ==> e is BadSplit || e is MixedScopes || e is WithFrom
                || e is ModelsTwice || e is BadNumber || e is ClipShape || e is BadMin || e is BadMax
                || e is Crossed
        }),
{
}

/// Flags are taken one after the other, and the first that is refused ends the reading.
pub proof fn lemma_ridge_in_turn(
    argv: Seq<Seq<char>>,
    nums: Seq<Numeral>,
    a: Seq<Item>,
    b: Seq<Item>,
    it: Item,
)
    ensures
        ridge_after(argv, nums, a) is Err ==> ridge_after(argv, nums, a + b) == ridge_after(
            argv,
            nums,
            a,
        ),
        ridge_after(argv, nums, a) matches Ok(v) ==> ridge_after(argv, nums, a + seq![it])
            == ridge_apply(argv, nums, it, v),
        ridge_after(argv, nums, Seq::empty()) == Ok::<RidgeView, RidgeError>(ridge_start()),
    decreases b.len(),
{
    assert((a + seq![it]).drop_last() =~= a);
    assert((a + seq![it]).last() == it);
    if b.len() == 0 {
        assert(a + b =~= a);
    } else {
        lemma_ridge_in_turn(argv, nums, a, b.drop_last(), it);
        assert((a + b).drop_last() =~= a + b.drop_last());
    }
}

/// A line is read if and only if every flag is taken and the line is read to its end.
pub proof fn lemma_ridge_read(argv: Seq<Seq<char>>, nums: Seq<Numeral>, v: RidgeView)
    ensures
        ({
            let after = ridge_after(argv, nums, items_from(Program::Ridge, argv, 0));
            let end = end_from(Program::Ridge, argv, 0);
            let r = ridge_read(argv, nums);
            &&& r == Ok::<RidgeView, RidgeError>(v) <==> after == Ok::<RidgeView, RidgeError>(v)
                && end == End::Done
            &&& after is Err ==> r == after
            &&& after is Ok && end == End::Help ==> r == Err::<RidgeView, RidgeError>(
                RidgeError::Help,
            )
            &&& after is Ok ==> (end matches End::Unknown(k) ==> r == Err::<RidgeView, RidgeError>(
                RidgeError::Unknown(k),
            ))
            &&& after is Ok ==> (end matches End::NeedsValue(k) ==> if after->Ok_0.from_sources.len()
                > 0 && word_of(Program::Ridge, argv[k as int]) == Word::Is(Flag::Pipeline) {
                r == Err::<RidgeView, RidgeError>(RidgeError::WithFrom(k))
            } else {
                r == Err::<RidgeView, RidgeError>(RidgeError::NeedsValue(k))
            })
        }),
{
}

/// Settings that go together: folds, patience only with folds to wait for, expected values only with
/// a stored ensemble, and with one neither scopes nor a selection of models nor a search, a quiz
/// blend or folds.
pub proof fn lemma_flags_together(v: RidgeView)
    ensures
        early_error(v) is None <==> v.cv_folds >= 1 && (v.cv_patience is Some ==> v.cv_folds >= 2)
            && (v.update_expected ==> v.ensemble is Some) && (v.ensemble is Some
            ==> v.from_sources.len() == 0 && v.legacy.models_toml is None && v.legacy.groups.len()
            == 0 && v.legacy.models_exclude.len() == 0 && !v.forward && !v.quiz_blend && v.cv_folds
            <= 1),
        v.cv_folds == 0 <==> early_error(v) == Some(RidgeError::NoFolds),
        v.cv_folds == 1 && v.cv_patience is Some <==> early_error(v) == Some(
            RidgeError::PatienceAlone,
        ),
        early_error(v) == Some(RidgeError::UpdateAlone) ==> v.update_expected && v.ensemble is None,
        early_error(v) matches Some(RidgeError::WithEnsemble(c)) ==> v.ensemble is Some && (match c {
            Clash::From => v.from_sources.len() > 0,
            Clash::Selection => v.legacy.models_toml is Some || v.legacy.groups.len() > 0
                || v.legacy.models_exclude.len() > 0,
            Clash::Forward => v.forward,
            Clash::QuizBlend => v.quiz_blend,
            Clash::CvFolds => v.cv_folds > 1,
        }),
        idle_selection(v) <==> !v.forward && !(v.max_features is None && v.fixed_group is None
            && v.cv_folds <= 1),
{
}

/// An ensemble is picked by its name, the first that has it; without a name the first that is marked
/// as the usual one, and the first of all where none is.
pub proof fn lemma_picked(defs: Seq<EnsembleDef>, name: Seq<char>)
    ensures
        name.len() > 0 ==> (match picked(defs, name) {
            Some(k) => 0 <= k < defs.len() && defs[k].name@ == name && forall|j: int|
                0 <= j < k ==> (#[trigger] defs[j]).name@ != name,
            None => forall|j: int| 0 <= j < defs.len() ==> (#[trigger] defs[j]).name@ != name,
        }),
        name.len() == 0 ==> (match picked(defs, name) {
            Some(k) => 0 <= k < defs.len() && (forall|j: int|
                0 <= j < k ==> !(#[trigger] defs[j]).is_default) && (defs[k].is_default || (k == 0
                && forall|j: int| 0 <= j < defs.len() ==> !(#[trigger] defs[j]).is_default)),
            None => defs.len() == 0,
        }),
{
    lemma_wanted(defs, name, 0);
}

proof fn lemma_wanted(defs: Seq<EnsembleDef>, name: Seq<char>, i: int)
    requires
        0 <= i <= defs.len(),
    ensures
        i <= first_wanted(defs, name, i) <= defs.len(),
        forall|j: int|
            i <= j < first_wanted(defs, name, i) ==> if name.len() == 0 {
                !(#[trigger] defs[j]).is_default
            } else {
                defs[j].name@ != name
            },
        first_wanted(defs, name, i) < defs.len() ==> if name.len() == 0 {
            defs[first_wanted(defs, name, i)].is_default
        } else {
            defs[first_wanted(defs, name, i)].name@ == name
        },
    decreases defs.len() - i,
{
    if i < defs.len() && !(if name.len() == 0 {
        defs[i].is_default
    } else {
        defs[i].name@ == name
    }) {
        lemma_wanted(defs, name, i + 1);
    }
}

/// A stored source reads the pipeline and the models of its own split, with its own groups and
/// models, and leaves nothing out.
pub proof fn lemma_stored_source(s: Seq<EnsembleSource>, i: int)
    requires
        0 <= i < s.len(),
    ensures
        stored_sources(s).len() == s.len(),
        stored_sources(s)[i].label == s[i].split@,
        stored_sources(s)[i].pipeline == "pipeline-"@ + s[i].split@ + ".toml"@,
        stored_sources(s)[i].models_toml == Some("models-"@ + s[i].split@ + ".toml"@),
        stored_sources(s)[i].models_manual == views(s[i].models@),
        stored_sources(s)[i].groups == views(s[i].groups@),
        stored_sources(s)[i].models_exclude.len() == 0,
{
}

/// What a run is settled to: the stored sources, or the scopes, or the one source outside every
/// scope; a quiz blend where one is asked for or splits go together; and the extra columns only on
/// top of a stored ensemble.
pub proof fn lemma_settled(v: RidgeView, stored: Seq<EnsembleSource>, a: RidgeArgsView)
    requires
        ridge_settled(v, stored) == Ok::<RidgeArgsView, RidgeError>(a),
    ensures
        v.ensemble is Some ==> a.sources == stored_sources(stored) && a.extras
            == v.legacy.models_manual && (a.cross_split <==> stored.len() > 1),
        v.ensemble is None && v.from_sources.len() > 0 ==> a.sources == v.from_sources
            && a.cross_split && a.extras.len() == 0,
        v.ensemble is None && v.from_sources.len() == 0 ==> a.sources == seq![v.legacy]
            && !a.cross_split && a.extras.len() == 0,
        a.quiz_blend <==> v.quiz_blend || a.cross_split,
        a.in_clip == InClip::Given <==> v.in_clip is Some,
        a.in_clip == InClip::Ratings <==> v.in_clip is None && a.quiz_blend && !v.raw_probes,
{
}

/// A run is settled if and only if its settings go together, it has something to read, groups come
/// with a list of models, and there are no folds with a quiz blend.
pub proof fn lemma_settles(v: RidgeView, stored: Seq<EnsembleSource>)
    ensures
        ({
            let one = v.ensemble is None && v.from_sources.len() == 0;
            let cross = (v.ensemble is Some && stored.len() > 1) || (v.ensemble is None
                && v.from_sources.len() > 0);
            ridge_settled(v, stored) is Ok <==> early_error(v) is None && (v.ensemble is Some
                ==> stored.len() > 0) && (one ==> v.legacy.models_toml is Some || (
            v.legacy.models_manual.len() > 0 && v.legacy.groups.len() == 0)) && (v.quiz_blend || cross
                ==> v.cv_folds <= 1)
        }),
        early_error(v) matches Some(e) ==> ridge_settled(v, stored) == Err::<
            RidgeArgsView,
            RidgeError,
        >(e),
        ridge_settled(v, stored) == Err::<RidgeArgsView, RidgeError>(RidgeError::NoSources)
            ==> v.ensemble is Some && stored.len() == 0,
        ridge_settled(v, stored) == Err::<RidgeArgsView, RidgeError>(RidgeError::NoSelection)
            ==> v.legacy.models_toml is None && v.legacy.models_manual.len() == 0,
        ridge_settled(v, stored) == Err::<RidgeArgsView, RidgeError>(RidgeError::GroupsAlone)
            ==> v.legacy.groups.len() > 0 && v.legacy.models_toml is None,
        ridge_settled(v, stored) == Err::<RidgeArgsView, RidgeError>(RidgeError::FoldsWithQuiz)
            ==> v.cv_folds > 1,
{
}

/// A source reads the list of models that it names; across splits it reads that of its split where it
/// names none.
pub proof fn lemma_models_list(s: SourceView)
    ensures
        s.models_toml is Some ==> models_list(s, true) == s.models_toml && models_list(s, false)
            == s.models_toml,
        s.models_toml is None ==> models_list(s, false) is None,
        s.models_toml is None && s.label == "new"@ ==> models_list(s, true) == Some(
            "models-new.toml"@,
        ),
        s.models_toml is None && s.label != "new"@ ==> models_list(s, true) == Some(
            "models-old.toml"@,
        ),
{
}

/// What a run starts from: the old split, nothing selected, one fold, four decimals, and every switch
/// off.
pub proof fn lemma_ridge_start()
    ensures
        ({
            let v = ridge_start();
            &&& v.lambda is None && v.max_features is None && v.fixed_group is None
            &&& v.cv_patience is None && v.in_clip is None && v.out_clip is None && v.ensemble is None
            &&& !v.forward && !v.quiz_blend && !v.raw_probes && !v.update_expected
            &&& !v.legacy_touched && v.from_sources.len() == 0
            &&& v.cv_folds == 1 && v.cv_seed == 42 && v.decimals == 4
            &&& v.legacy.label == "old"@ && v.legacy.pipeline == "pipeline-old.toml"@
            &&& v.legacy.models_toml is None && v.legacy.models_manual.len() == 0
            &&& v.legacy.models_exclude.len() == 0 && v.legacy.groups.len() == 0
        }),
{
}

} // verus!
