//! The settings of the programs that run a named blend.

use crate::args::end_from;
use crate::args::items_from;
use crate::args::read_line;
use crate::args::takes_name;
use crate::args::End;
use crate::args::Flag;
use crate::args::Item;
use crate::args::Numeral;
use crate::args::Program;
use crate::args::Reading;
use crate::text::chars_of;
use crate::text::find_char;
use crate::text::no_names;
use crate::text::parse_u64;
use crate::text::push_name;
use crate::text::split;
use crate::text::split_on;
use crate::text::text_view;
use crate::text::trim;
use crate::text::trimmed;
use crate::text::u64_value;
use crate::text::views;
use vstd::prelude::*;
use vstd::string::*;

verus! {

/// Why a command line is refused, with the word at fault.
#[derive(Clone, Copy, PartialEq, Eq, Structural, Debug)]
pub enum ArgError {
    /// Help is asked for.
    Help,
    /// The word is no flag.
    Unknown(usize),
    /// The flag has no value.
    NeedsValue(usize),
    /// There is a name already.
    SecondName(usize),
    /// The flag's value is no number of the kind it takes.
    BadNumber(usize),
    /// The flag's value is not two texts with a comma between them.
    ClipShape(usize),
    /// The lower bound is no number.
    BadMin(usize),
    /// The upper bound is no number.
    BadMax(usize),
    /// The lower bound is above the upper one.
    Crossed(usize),
    /// Fewer than two folds.
    FewFolds(usize),
    /// There is no name.
    NoName,
    /// There is no pipeline.
    NoPipeline,
    /// There is no list of models.
    NoModels,
    /// There is no list of voting features.
    NoVotingModels,
    /// There is no seed.
    NoSeeds,
    /// There is no group of voting features.
    NoVoting,
    /// There is no voting feature at all.
    NoFeatures,
}

/// The settings of a blend. Numbers with a fraction are kept as they were written.
pub struct BlendArgs {
    pub name: String,
    pub pipeline: String,
    pub models: String,
    pub groups: Vec<String>,
    pub model_manual: Vec<String>,
    pub exclude: Vec<String>,
    pub voting_models: String,
    pub voting: Vec<String>,
    pub feature_manual: Vec<String>,
    pub lambda: Option<String>,
    pub in_clip: Option<String>,
    pub folds: u64,
    pub seeds: Vec<u64>,
}

#[verifier::ext_equal]
pub struct BlendView {
    pub name: Seq<char>,
    pub pipeline: Seq<char>,
    pub models: Seq<char>,
    pub groups: Seq<Seq<char>>,
    pub model_manual: Seq<Seq<char>>,
    pub exclude: Seq<Seq<char>>,
    pub voting_models: Seq<char>,
    pub voting: Seq<Seq<char>>,
    pub feature_manual: Seq<Seq<char>>,
    pub lambda: Option<Seq<char>>,
    pub in_clip: Option<Seq<char>>,
    pub folds: u64,
    pub seeds: Seq<u64>,
}

impl View for BlendArgs {
    type V = BlendView;

    open spec fn view(&self) -> BlendView {
        BlendView {
            name: self.name@,
            pipeline: self.pipeline@,
            models: self.models@,
            groups: views(self.groups@),
            model_manual: views(self.model_manual@),
            exclude: views(self.exclude@),
            voting_models: self.voting_models@,
            voting: views(self.voting@),
            feature_manual: views(self.feature_manual@),
            lambda: text_view(self.lambda),
            in_clip: text_view(self.in_clip),
            folds: self.folds,
            seeds: self.seeds@,
        }
    }
}

// ---------------------------------------------------------------------------
// Lists with commas
// ---------------------------------------------------------------------------

/// The entries of a list with commas, without the white space around them.
pub open spec fn entries(s: Seq<char>) -> Seq<Seq<char>> {
    split_on(s, ',').map_values(|t: Seq<char>| trimmed(t))
}

/// Adds the entries of a list with commas.
pub fn push_entries(list: &mut Vec<String>, s: &str)
    ensures
        views(final(list)@) == views(old(list)@) + entries(s@),
{
    let parts: Vec<String> = split(s, ',');
    let ghost start = views(list@);
    let ghost e = entries(s@);
    let mut i: usize = 0;
    proof {
        assert(start + e.take(0) =~= start);
    }
    while i < parts.len()
        invariant
            i <= parts.len(),
            views(parts@) == split_on(s@, ','),
            e == entries(s@),
            views(list@) == start + e.take(i as int),
        decreases parts.len() - i,
    {
        let ghost before = list@;
        list.push(trim(parts[i].as_str()));
        proof {
            assert(views(parts@)[i as int] == parts@[i as int]@);
            assert(views(list@) =~= views(before).push(e[i as int]));
            assert(start + e.take(i + 1) =~= (start + e.take(i as int)).push(e[i as int]));
        }
        i += 1;
    }
    proof {
        assert(e.take(e.len() as int) =~= e);
    }
}

/// The numbers of a list with commas, if each entry is one.
pub open spec fn number_list(parts: Seq<Seq<char>>) -> Option<Seq<u64>>
    decreases parts.len(),
{
    if parts.len() == 0 {
        Some(Seq::empty())
    } else {
        match (number_list(parts.drop_last()), u64_value(parts.last())) {
            (Some(v), Some(n)) => Some(v.push(n)),
            _ => None,
        }
    }
}

proof fn lemma_number_list_stuck(parts: Seq<Seq<char>>, i: int)
    requires
        0 <= i <= parts.len(),
        number_list(parts.take(i)) is None,
    ensures
        number_list(parts) is None,
    decreases parts.len() - i,
{
    if i < parts.len() {
        assert(parts.take(i + 1).drop_last() =~= parts.take(i));
        lemma_number_list_stuck(parts, i + 1);
    } else {
        assert(parts.take(i) =~= parts);
    }
}

/// Reads a list of numbers with commas.
pub fn read_numbers(s: &str) -> (r: Option<Vec<u64>>)
    ensures
        match r {
            Some(v) => number_list(entries(s@)) == Some(v@),
            None => number_list(entries(s@)) is None,
        },
{
    let mut list: Vec<String> = Vec::new();
    push_entries(&mut list, s);
    let ghost e = entries(s@);
    proof {
        assert(views(list@) =~= e);
    }
    let mut out: Vec<u64> = Vec::new();
    let mut i: usize = 0;
    while i < list.len()
        invariant
            i <= list.len(),
            views(list@) == e,
            e == entries(s@),
            number_list(e.take(i as int)) == Some(out@),
        decreases list.len() - i,
    {
        proof {
            assert(views(list@)[i as int] == list@[i as int]@);
            assert(e.take(i + 1).drop_last() =~= e.take(i as int));
            assert(e.take(i + 1).last() == e[i as int]);
        }
        match parse_u64(list[i].as_str()) {
            Some(n) => {
                out.push(n);
            },
            None => {
                proof {
                    lemma_number_list_stuck(e, i + 1);
                }
                return None;
            },
        }
        i += 1;
    }
    proof {
        assert(e.take(e.len() as int) =~= e);
    }
    Some(out)
}

/// Whether a text holds a comma.
pub open spec fn has_comma(s: Seq<char>) -> bool {
    s.contains(',')
}

/// Whether a text holds a comma.
pub fn holds_comma(s: &str) -> (r: bool)
    ensures
        r == has_comma(s@),
{
    let v: Vec<char> = chars_of(s);
    let k: usize = find_char(&v, ',', 0);
    proof {
        crate::text::lemma_first_char(v@, ',', 0);
        if k < v.len() {
            assert(v@[k as int] == ',');
        } else if v@.contains(',') {
            let j = v@.index_of(',');
            assert(v@[j] == ',');
        }
    }
    k < v.len()
}

// ---------------------------------------------------------------------------
// Reading the settings
// ---------------------------------------------------------------------------

/// The settings before any flag.
pub open spec fn blend_start(p: Program) -> BlendView {
    let strict = p == Program::Gbm || p == Program::Mlp;
    BlendView {
        name: Seq::empty(),
        pipeline: if strict {
            Seq::empty()
        } else {
            "pipeline-old.toml"@
        },
        models: if strict {
            Seq::empty()
        } else {
            "models-new.toml"@
        },
        groups: Seq::empty(),
        model_manual: Seq::empty(),
        exclude: Seq::empty(),
        voting_models: if strict {
            Seq::empty()
        } else {
            "voting-new.toml"@
        },
        voting: Seq::empty(),
        feature_manual: Seq::empty(),
        lambda: None,
        in_clip: None,
        folds: 2,
        seeds: Seq::empty(),
    }
}

/// The settings after one more flag.
pub open spec fn blend_apply(
    argv: Seq<Seq<char>>,
    nums: Seq<Numeral>,
    it: Item,
    v: BlendView,
) -> Result<BlendView, ArgError> {
    let value = argv[it.value as int];
    let num = nums[it.value as int];
    match it.flag {
        Flag::Name => if v.name.len() > 0 {
            Err(ArgError::SecondName(it.at))
        } else {
            Ok(BlendView { name: value, ..v })
        },
        Flag::New => Ok(BlendView { pipeline: "pipeline-new.toml"@, ..v }),
        Flag::Pipeline => Ok(BlendView { pipeline: value, ..v }),
        Flag::Models => Ok(BlendView { models: value, ..v }),
        Flag::Groups => Ok(BlendView { groups: v.groups + entries(value), ..v }),
        Flag::Model => Ok(BlendView { model_manual: v.model_manual.push(value), ..v }),
        Flag::Exclude => Ok(BlendView { exclude: v.exclude.push(value), ..v }),
        Flag::Feature => Ok(BlendView { feature_manual: v.feature_manual.push(value), ..v }),
        Flag::VotingModels => Ok(BlendView { voting_models: value, ..v }),
        Flag::Voting => Ok(BlendView { voting: v.voting + entries(value), ..v }),
        Flag::Lambda => if num.plain {
            Ok(BlendView { lambda: Some(value), ..v })
        } else {
            Err(ArgError::BadNumber(it.at))
        },
        Flag::InClip => if !has_comma(value) {
            Err(ArgError::ClipShape(it.at))
        } else if !num.low {
            Err(ArgError::BadMin(it.at))
        } else if !num.high {
            Err(ArgError::BadMax(it.at))
        } else {
            Ok(BlendView { in_clip: Some(value), ..v })
        },
        Flag::Folds => match u64_value(value) {
            None => Err(ArgError::BadNumber(it.at)),
            Some(k) => if k < 2 {
                Err(ArgError::FewFolds(it.at))
            } else {
                Ok(BlendView { folds: k, ..v })
            },
        },
        Flag::Seed => match u64_value(value) {
            None => Err(ArgError::BadNumber(it.at)),
            Some(n) => Ok(BlendView { seeds: v.seeds.push(n), ..v }),
        },
        Flag::Seeds => match number_list(entries(value)) {
            None => Err(ArgError::BadNumber(it.at)),
            Some(n) => Ok(BlendView { seeds: v.seeds + n, ..v }),
        },
        _ => Ok(v),
    }
}

/// The settings after some flags, or what is wrong with the first that is wrong.
pub open spec fn blend_after(
    argv: Seq<Seq<char>>,
    nums: Seq<Numeral>,
    items: Seq<Item>,
    start: BlendView,
) -> Result<BlendView, ArgError>
    decreases items.len(),
{
    if items.len() == 0 {
        Ok(start)
    } else {
        match blend_after(argv, nums, items.drop_last(), start) {
            Ok(v) => blend_apply(argv, nums, items.last(), v),
            Err(e) => Err(e),
        }
    }
}

/// What a program misses in its settings.
pub open spec fn blend_lacks(p: Program, v: BlendView) -> Option<ArgError> {
    let strict = p == Program::Gbm || p == Program::Mlp;
    let stacks = p == Program::Fwls || p == Program::FwlsDisk;
    if v.name.len() == 0 {
        Some(ArgError::NoName)
    } else if strict && v.pipeline.len() == 0 {
        Some(ArgError::NoPipeline)
    } else if strict && v.models.len() == 0 {
        Some(ArgError::NoModels)
    } else if strict && v.voting_models.len() == 0 {
        Some(ArgError::NoVotingModels)
    } else if v.seeds.len() == 0 {
        Some(ArgError::NoSeeds)
    } else if strict && v.voting.len() == 0 {
        Some(ArgError::NoVoting)
    } else if stacks && v.voting.len() == 0 && v.feature_manual.len() == 0 {
        Some(ArgError::NoFeatures)
    } else {
        None
    }
}

/// What the end of the reading says.
pub open spec fn end_error(end: End) -> Option<ArgError> {
    match end {
        End::Done => None,
        End::Help => Some(ArgError::Help),
        End::Unknown(at) => Some(ArgError::Unknown(at)),
        End::NeedsValue(at) => Some(ArgError::NeedsValue(at)),
    }
}

/// What a command line gives: the first thing that is wrong in it, from left to right, then what
/// is missing, else the settings.
pub open spec fn blend_outcome(
    p: Program,
    argv: Seq<Seq<char>>,
    nums: Seq<Numeral>,
) -> Result<BlendView, ArgError> {
    match blend_after(argv, nums, items_from(p, argv, 0), blend_start(p)) {
        Err(e) => Err(e),
        Ok(v) => match end_error(end_from(p, argv, 0)) {
            Some(e) => Err(e),
            None => match blend_lacks(p, v) {
                Some(e) => Err(e),
                None => Ok(v),
            },
        },
    }
}

proof fn lemma_blend_stuck(
    argv: Seq<Seq<char>>,
    nums: Seq<Numeral>,
    items: Seq<Item>,
    start: BlendView,
    i: int,
)
    requires
        0 <= i <= items.len(),
        blend_after(argv, nums, items.take(i), start) is Err,
    ensures
        blend_after(argv, nums, items, start) == blend_after(argv, nums, items.take(i), start),
    decreases items.len() - i,
{
    if i < items.len() {
        assert(items.take(i + 1).drop_last() =~= items.take(i));
        lemma_blend_stuck(argv, nums, items, start, i + 1);
    } else {
        assert(items.take(i) =~= items);
    }
}

fn first_settings(p: Program) -> (r: BlendArgs)
    ensures
        r@ == blend_start(p),
{
    let strict: bool = p == Program::Gbm || p == Program::Mlp;
    proof {
        reveal_strlit("");
        assert(""@ =~= Seq::<char>::empty());
    }
    let pipeline: String = if strict {
        "".to_string()
    } else {
        "pipeline-old.toml".to_string()
    };
    let models: String = if strict {
        "".to_string()
    } else {
        "models-new.toml".to_string()
    };
    let voting_models: String = if strict {
        "".to_string()
    } else {
        "voting-new.toml".to_string()
    };
    let r: BlendArgs = BlendArgs {
        name: "".to_string(),
        pipeline,
        models,
        groups: no_names(),
        model_manual: no_names(),
        exclude: no_names(),
        voting_models,
        voting: no_names(),
        feature_manual: no_names(),
        lambda: None,
        in_clip: None,
        folds: 2,
        seeds: Vec::new(),
    };
    proof {
        assert(r@ =~= blend_start(p));
    }
    r
}

fn apply(argv: &Vec<String>, nums: &Vec<Numeral>, it: Item, a: &mut BlendArgs) -> (r: Result<
    (),
    ArgError,
>)
    requires
        it.value < argv.len(),
        nums.len() == argv.len(),
    ensures
        match blend_apply(views(argv@), nums@, it, old(a)@) {
            Ok(v) => r is Ok && final(a)@ == v,
            Err(e) => r == Err::<(), ArgError>(e),
        },
{
    proof {
        assert(views(argv@)[it.value as int] == argv@[it.value as int]@);
    }
    let value: &String = &argv[it.value];
    let num: Numeral = nums[it.value];
    match it.flag {
        Flag::Name => {
            if a.name.as_str().unicode_len() > 0 {
                return Err(ArgError::SecondName(it.at));
            }
            a.name = value.clone();
        },
        Flag::New => {
            a.pipeline = "pipeline-new.toml".to_string();
        },
        Flag::Pipeline => {
            a.pipeline = value.clone();
        },
        Flag::Models => {
            a.models = value.clone();
        },
        Flag::Groups => {
            push_entries(&mut a.groups, value.as_str());
        },
        Flag::Model => {
            push_name(&mut a.model_manual, value);
        },
        Flag::Exclude => {
            push_name(&mut a.exclude, value);
        },
        Flag::Feature => {
            push_name(&mut a.feature_manual, value);
        },
        Flag::VotingModels => {
            a.voting_models = value.clone();
        },
        Flag::Voting => {
            push_entries(&mut a.voting, value.as_str());
        },
        Flag::Lambda => {
            if !num.plain {
                return Err(ArgError::BadNumber(it.at));
            }
            a.lambda = Some(value.clone());
        },
        Flag::InClip => {
            if !holds_comma(value.as_str()) {
                return Err(ArgError::ClipShape(it.at));
            }
            if !num.low {
                return Err(ArgError::BadMin(it.at));
            }
            if !num.high {
                return Err(ArgError::BadMax(it.at));
            }
            a.in_clip = Some(value.clone());
        },
        Flag::Folds => {
            match parse_u64(value.as_str()) {
                None => {
                    return Err(ArgError::BadNumber(it.at));
                },
                Some(k) => {
                    if k < 2 {
                        return Err(ArgError::FewFolds(it.at));
                    }
                    a.folds = k;
                },
            }
        },
        Flag::Seed => {
            match parse_u64(value.as_str()) {
                None => {
                    return Err(ArgError::BadNumber(it.at));
                },
                Some(n) => {
                    a.seeds.push(n);
                },
            }
        },
        Flag::Seeds => {
            match read_numbers(value.as_str()) {
                None => {
                    return Err(ArgError::BadNumber(it.at));
                },
                Some(n) => {
                    let mut more: Vec<u64> = n;
                    a.seeds.append(&mut more);
                },
            }
        },
        _ => {},
    }
    Ok(())
}

fn missing(p: Program, a: &BlendArgs) -> (r: Option<ArgError>)
    ensures
        r == blend_lacks(p, a@),
{
    let strict: bool = p == Program::Gbm || p == Program::Mlp;
    let stacks: bool = p == Program::Fwls || p == Program::FwlsDisk;
    if a.name.as_str().unicode_len() == 0 {
        Some(ArgError::NoName)
    } else if strict && a.pipeline.as_str().unicode_len() == 0 {
        Some(ArgError::NoPipeline)
    } else if strict && a.models.as_str().unicode_len() == 0 {
        Some(ArgError::NoModels)
    } else if strict && a.voting_models.as_str().unicode_len() == 0 {
        Some(ArgError::NoVotingModels)
    } else if a.seeds.len() == 0 {
        Some(ArgError::NoSeeds)
    } else if strict && a.voting.len() == 0 {
        Some(ArgError::NoVoting)
    } else if stacks && a.voting.len() == 0 && a.feature_manual.len() == 0 {
        Some(ArgError::NoFeatures)
    } else {
        None
    }
}

/// Reads the command line of a program that runs a named blend. `nums` says of each word what it
/// is as a floating-point text.
pub fn parse_blend(p: Program, argv: &Vec<String>, nums: &Vec<Numeral>) -> (r: Result<
    BlendArgs,
    ArgError,
>)
    requires
        takes_name(p),
        nums.len() == argv.len(),
    ensures
        match r {
            Ok(a) => blend_outcome(p, views(argv@), nums@) == Ok::<BlendView, ArgError>(a@),
            Err(e) => blend_outcome(p, views(argv@), nums@) == Err::<BlendView, ArgError>(e),
        },
{
    let reading: Reading = read_line(p, argv);
    let mut a: BlendArgs = first_settings(p);
    let ghost v = views(argv@);
    let ghost start = a@;
    let ghost items = reading.items@;
    proof {
        assert(argv.len() <= usize::MAX);
        crate::args::lemma_items_stand(p, v, 0);
    }
    let mut i: usize = 0;
    while i < reading.items.len()
        invariant
            i <= reading.items.len(),
            nums.len() == argv.len(),
            v == views(argv@),
            items == reading.items@,
            items == items_from(p, v, 0),
            start == blend_start(p),
            forall|k: int| 0 <= k < items.len() ==> (#[trigger] items[k]).value < argv.len(),
            blend_after(v, nums@, items.take(i as int), start) == Ok::<BlendView, ArgError>(a@),
        decreases reading.items.len() - i,
    {
        proof {
            assert(items.take(i + 1).drop_last() =~= items.take(i as int));
            assert(items.take(i + 1).last() == items[i as int]);
        }
        match apply(argv, nums, reading.items[i], &mut a) {
            Ok(_) => {},
            Err(e) => {
                proof {
                    lemma_blend_stuck(v, nums@, items, start, i + 1);
                }
                return Err(e);
            },
        }
        i += 1;
    }
    proof {
        assert(items.take(items.len() as int) =~= items);
    }
    match reading.end {
        End::Done => {},
        End::Help => {
            return Err(ArgError::Help);
        },
        End::Unknown(at) => {
            return Err(ArgError::Unknown(at));
        },
        End::NeedsValue(at) => {
            return Err(ArgError::NeedsValue(at));
        },
    }
    match missing(p, &a) {
        Some(e) => Err(e),
        None => Ok(a),
    }
}

/// Settings that are accepted have a name and a seed, two folds at least, and for the programs
/// that need them a pipeline, the lists of models and of voting features, and a feature.
pub proof fn lemma_blend_complete(p: Program, argv: Seq<Seq<char>>, nums: Seq<Numeral>, v: BlendView)
    requires
        blend_outcome(p, argv, nums) == Ok::<BlendView, ArgError>(v),
    ensures
        v.name.len() > 0,
        v.seeds.len() > 0,
        v.folds >= 2,
        (p == Program::Gbm || p == Program::Mlp) ==> v.pipeline.len() > 0 && v.models.len() > 0
            && v.voting_models.len() > 0 && v.voting.len() > 0,
        (p == Program::Fwls || p == Program::FwlsDisk) ==> v.voting.len() > 0
            || v.feature_manual.len() > 0,
{
    lemma_folds_kept(argv, nums, items_from(p, argv, 0), blend_start(p));
}

proof fn lemma_folds_kept(
    argv: Seq<Seq<char>>,
    nums: Seq<Numeral>,
    items: Seq<Item>,
    start: BlendView,
)
    requires
        start.folds >= 2,
    ensures
        match blend_after(argv, nums, items, start) {
            Ok(v) => v.folds >= 2,
            Err(_) => true,
        },
    decreases items.len(),
{
    if items.len() > 0 {
        lemma_folds_kept(argv, nums, items.drop_last(), start);
    }
}

/// A setting is changed by its own flags alone, and by each of them to what the flag's value says.
pub proof fn lemma_blend_settings(
    argv: Seq<Seq<char>>,
    nums: Seq<Numeral>,
    it: Item,
    v: BlendView,
    w: BlendView,
)
    requires
        blend_apply(argv, nums, it, v) == Ok::<BlendView, ArgError>(w),
    ensures
        w.name == (if it.flag == Flag::Name {
            argv[it.value as int]
        } else {
            v.name
        }),
        w.pipeline == (if it.flag == Flag::New {
            "pipeline-new.toml"@
        } else if it.flag == Flag::Pipeline {
            argv[it.value as int]
        } else {
            v.pipeline
        }),
        w.models == (if it.flag == Flag::Models {
            argv[it.value as int]
        } else {
            v.models
        }),
        w.groups == (if it.flag == Flag::Groups {
            v.groups + entries(argv[it.value as int])
        } else {
            v.groups
        }),
        w.model_manual == (if it.flag == Flag::Model {
            v.model_manual.push(argv[it.value as int])
        } else {
            v.model_manual
        }),
        w.exclude == (if it.flag == Flag::Exclude {
            v.exclude.push(argv[it.value as int])
        } else {
            v.exclude
        }),
        w.voting_models == (if it.flag == Flag::VotingModels {
            argv[it.value as int]
        } else {
            v.voting_models
        }),
        w.voting == (if it.flag == Flag::Voting {
            v.voting + entries(argv[it.value as int])
        } else {
            v.voting
        }),
        w.feature_manual == (if it.flag == Flag::Feature {
            v.feature_manual.push(argv[it.value as int])
        } else {
            v.feature_manual
        }),
        w.lambda == (if it.flag == Flag::Lambda {
            Some(argv[it.value as int])
        } else {
            v.lambda
        }),
        w.in_clip == (if it.flag == Flag::InClip {
            Some(argv[it.value as int])
        } else {
            v.in_clip
        }),
        w.folds == (if it.flag == Flag::Folds {
            u64_value(argv[it.value as int])->Some_0
        } else {
            v.folds
        }),
        w.seeds == (if it.flag == Flag::Seed {
            v.seeds.push(u64_value(argv[it.value as int])->Some_0)
        } else if it.flag == Flag::Seeds {
            v.seeds + number_list(entries(argv[it.value as int]))->Some_0
        } else {
            v.seeds
        }),
{
}

/// A flag is refused if and only if it is a second name, a value that is no number where one is
/// wanted, fewer than two folds, or bounds that are not two numbers with a comma between them.
pub proof fn lemma_blend_refused(
    argv: Seq<Seq<char>>,
    nums: Seq<Numeral>,
    it: Item,
    v: BlendView,
)
    ensures
        ({
            let value = argv[it.value as int];
            let num = nums[it.value as int];
            let r = blend_apply(argv, nums, it, v);
            &&& r == Err::<BlendView, ArgError>(ArgError::SecondName(it.at)) <==> it.flag
                == Flag::Name && v.name.len() > 0
            &&& r == Err::<BlendView, ArgError>(ArgError::BadNumber(it.at)) <==> (it.flag
                == Flag::Lambda && !num.plain) || ((it.flag == Flag::Folds || it.flag == Flag::Seed)
                && u64_value(value) is None) || (it.flag == Flag::Seeds && number_list(
                entries(value),
            ) is None)
            &&& r == Err::<BlendView, ArgError>(ArgError::FewFolds(it.at)) <==> it.flag
                == Flag::Folds && (u64_value(value) matches Some(k) && k < 2)
            &&& r == Err::<BlendView, ArgError>(ArgError::ClipShape(it.at)) <==> it.flag
                == Flag::InClip && !value.contains(',')
            &&& r == Err::<BlendView, ArgError>(ArgError::BadMin(it.at)) <==> it.flag
                == Flag::InClip && value.contains(',') && !num.low
            &&& r == Err::<BlendView, ArgError>(ArgError::BadMax(it.at)) <==> it.flag
                == Flag::InClip && value.contains(',') && num.low && !num.high
            &&& r matches Err(e) ==> e == ArgError::SecondName(it.at) || e == ArgError::BadNumber(
                it.at,
            ) || e == ArgError::FewFolds(it.at) || e == ArgError::ClipShape(it.at) || e
                == ArgError::BadMin(it.at) || e == ArgError::BadMax(it.at)
        }),
{
}

/// Flags are taken one after the other, and the first that is refused ends the reading.
pub proof fn lemma_blend_in_turn(
    argv: Seq<Seq<char>>,
    nums: Seq<Numeral>,
    a: Seq<Item>,
    b: Seq<Item>,
    it: Item,
    start: BlendView,
)
    ensures
        blend_after(argv, nums, a + b, start) == (match blend_after(argv, nums, a, start) {
            Ok(v) => blend_after(argv, nums, b, v),
            Err(e) => Err(e),
        }),
        blend_after(argv, nums, seq![it], start) == blend_apply(argv, nums, it, start),
        blend_after(argv, nums, Seq::empty(), start) == Ok::<BlendView, ArgError>(start),
    decreases b.len(),
{
    reveal_with_fuel(blend_after, 2);
    assert(seq![it].drop_last() =~= Seq::empty());
    if b.len() == 0 {
        assert(a + b =~= a);
    } else {
        lemma_blend_in_turn(argv, nums, a, b.drop_last(), it, start);
        assert((a + b).drop_last() =~= a + b.drop_last());
        assert((a + b).last() == b.last());
    }
}

/// Nothing is missing if and only if there is a name and a seed, the strict programs have their
/// lists and a group of voting features, and the stacking ones some feature.
pub proof fn lemma_blend_lacks(p: Program, v: BlendView)
    ensures
        blend_lacks(p, v) is None <==> v.name.len() > 0 && v.seeds.len() > 0 && (p == Program::Gbm
            || p == Program::Mlp ==> v.pipeline.len() > 0 && v.models.len() > 0
            && v.voting_models.len() > 0 && v.voting.len() > 0) && (p == Program::Fwls || p
            == Program::FwlsDisk ==> v.voting.len() > 0 || v.feature_manual.len() > 0),
        v.name.len() == 0 ==> blend_lacks(p, v) == Some(ArgError::NoName),
        blend_lacks(p, v) == Some(ArgError::NoSeeds) ==> v.seeds.len() == 0,
        blend_lacks(p, v) == Some(ArgError::NoVoting) ==> v.seeds.len() > 0 && v.voting.len() == 0,
        blend_lacks(p, v) == Some(ArgError::NoFeatures) ==> v.voting.len() == 0
            && v.feature_manual.len() == 0,
{
}

/// A line is taken if and only if every flag is, the line is read to its end and nothing is missing;
/// the flags are looked at first, then the end of the line.
pub proof fn lemma_blend_outcome(p: Program, argv: Seq<Seq<char>>, nums: Seq<Numeral>, v: BlendView)
    ensures
        ({
            let after = blend_after(argv, nums, items_from(p, argv, 0), blend_start(p));
            let end = end_from(p, argv, 0);
            let r = blend_outcome(p, argv, nums);
            &&& r == Ok::<BlendView, ArgError>(v) <==> after == Ok::<BlendView, ArgError>(v) && end
                == End::Done && blend_lacks(p, v) is None
            &&& after is Err ==> r == after
            &&& after is Ok && end == End::Help ==> r == Err::<BlendView, ArgError>(ArgError::Help)
            &&& after is Ok ==> (end matches End::Unknown(k) ==> r == Err::<BlendView, ArgError>(
                ArgError::Unknown(k),
            ))
            &&& after is Ok ==> (end matches End::NeedsValue(k) ==> r == Err::<
                BlendView,
                ArgError,
            >(ArgError::NeedsValue(k)))
        }),
{
}

/// What a blend starts from: nothing is chosen, two folds, and lists of the usual names but for the
/// strict programs.
pub proof fn lemma_blend_start(p: Program)
    ensures
        ({
            let v = blend_start(p);
            &&& v.name.len() == 0 && v.groups.len() == 0 && v.model_manual.len() == 0
            &&& v.exclude.len() == 0 && v.voting.len() == 0 && v.feature_manual.len() == 0
            &&& v.seeds.len() == 0 && v.lambda is None && v.in_clip is None && v.folds == 2
            &&& p == Program::Gbm || p == Program::Mlp ==> v.pipeline.len() == 0 && v.models.len()
                == 0 && v.voting_models.len() == 0
            &&& p != Program::Gbm && p != Program::Mlp ==> v.pipeline == "pipeline-old.toml"@
                && v.models == "models-new.toml"@ && v.voting_models == "voting-new.toml"@
        }),
{
}

/// A list of numbers is read entry by entry, and an entry that is none spoils it.
pub proof fn lemma_number_list(a: Seq<Seq<char>>, b: Seq<Seq<char>>, s: Seq<char>)
    ensures
        number_list(a + b) == (match (number_list(a), number_list(b)) {
            (Some(x), Some(y)) => Some(x + y),
            _ => None,
        }),
        number_list(seq![s]) == (match u64_value(s) {
            Some(n) => Some(seq![n]),
            None => None,
        }),
    decreases b.len(),
{
    reveal_with_fuel(number_list, 2);
    assert(seq![s].drop_last() =~= Seq::empty());
    if b.len() == 0 {
        assert(a + b =~= a);
        if number_list(a) is Some {
            assert(number_list(a)->Some_0 + Seq::<u64>::empty() =~= number_list(a)->Some_0);
        }
    } else {
        lemma_number_list(a, b.drop_last(), s);
        assert((a + b).drop_last() =~= a + b.drop_last());
        assert((a + b).last() == b.last());
        if number_list(a) is Some && number_list(b) is Some {
            let x = number_list(a)->Some_0;
            let y = number_list(b.drop_last())->Some_0;
            let n = u64_value(b.last())->Some_0;
            assert((x + y).push(n) =~= x + y.push(n));
        }
    }
}

/// The entries of a list are what stands between its commas, without the white space around it.
pub proof fn lemma_entries(s: Seq<char>, i: int)
    requires
        0 <= i < entries(s).len(),
    ensures
        entries(s).len() == split_on(s, ',').len(),
        entries(s)[i] == trimmed(split_on(s, ',')[i]),
        !split_on(s, ',')[i].contains(','),
{
    crate::text::lemma_split_pieces(s, ',');
}

} // verus!
