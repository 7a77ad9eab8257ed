//! Command lines: the flags of each program, and how the words of a command line divide into them.

use crate::text::same;
use crate::text::starts_with;
use crate::text::views;
use vstd::prelude::*;
use vstd::string::*;

verus! {

/// The programs that blend predictions.
#[derive(Clone, Copy, PartialEq, Eq, Structural, Debug)]
pub enum Program {
    /// Ridge regression over shared sums.
    Ridge,
    /// Selection of interaction columns.
    FwlsFs,
    /// Stacking with feature weights.
    Fwls,
    /// The same with its sums on disk.
    FwlsDisk,
    /// Boosted trees.
    Gbm,
    /// Neural networks.
    Mlp,
    /// Boosted trees over a group selection.
    GbmNew,
    /// Boosted trees with tuned settings.
    GbmOpt,
    /// Neural networks with ordinal heads.
    MlpOrdinal,
}

/// The flags that a program may have.
#[derive(Clone, Copy, PartialEq, Eq, Structural, Debug)]
pub enum Flag {
    /// A word that is no flag: the name of the blend.
    Name,
    Old,
    New,
    OldModels,
    NewModels,
    Pipeline,
    Models,
    GroupsShort,
    Groups,
    Model,
    Exclude,
    Feature,
    FeaturesToml,
    FeatureGroups,
    VotingModels,
    Voting,
    Lambda,
    InClip,
    OutClip,
    Folds,
    Seed,
    Seeds,
    From,
    Ensemble,
    UpdateExpected,
    Forward,
    MaxFeatures,
    Fixed,
    CvFolds,
    CvSeed,
    CvPatience,
    QuizBlend,
    RawProbes,
    Decimals,
    ForceModels,
    SaveState,
    LoadState,
    NoScore,
    Select,
    ProbeFrac,
}

/// The flag that a word spells.
pub open spec fn flag_named(s: Seq<char>) -> Option<Flag> {
    if s == "-o"@ || s == "--old"@ {
        Some(Flag::Old)
    } else if s == "-n"@ || s == "--new"@ {
        Some(Flag::New)
    } else if s == "-O"@ {
        Some(Flag::OldModels)
    } else if s == "-N"@ {
        Some(Flag::NewModels)
    } else if s == "-p"@ || s == "--pipeline"@ {
        Some(Flag::Pipeline)
    } else if s == "-t"@ || s == "--models"@ {
        Some(Flag::Models)
    } else if s == "-g"@ {
        Some(Flag::GroupsShort)
    } else if s == "--groups"@ {
        Some(Flag::Groups)
    } else if s == "-m"@ || s == "--model"@ {
        Some(Flag::Model)
    } else if s == "-x"@ || s == "--exclude"@ {
        Some(Flag::Exclude)
    } else if s == "-f"@ || s == "--feature"@ {
        Some(Flag::Feature)
    } else if s == "-T"@ || s == "--features-toml"@ {
        Some(Flag::FeaturesToml)
    } else if s == "-G"@ || s == "--feature-groups"@ {
        Some(Flag::FeatureGroups)
    } else if s == "--voting-models"@ {
        Some(Flag::VotingModels)
    } else if s == "--voting"@ {
        Some(Flag::Voting)
    } else if s == "--lambda"@ {
        Some(Flag::Lambda)
    } else if s == "--in-clip"@ {
        Some(Flag::InClip)
    } else if s == "--out-clip"@ {
        Some(Flag::OutClip)
    } else if s == "--folds"@ {
        Some(Flag::Folds)
    } else if s == "--seed"@ {
        Some(Flag::Seed)
    } else if s == "--seeds"@ {
        Some(Flag::Seeds)
    } else if s == "--from"@ {
        Some(Flag::From)
    } else if s == "--ensemble"@ {
        Some(Flag::Ensemble)
    } else if s == "--update-expected"@ {
        Some(Flag::UpdateExpected)
    } else if s == "--forward"@ {
        Some(Flag::Forward)
    } else if s == "--max-features"@ {
        Some(Flag::MaxFeatures)
    } else if s == "--fixed"@ {
        Some(Flag::Fixed)
    } else if s == "--cv-folds"@ {
        Some(Flag::CvFolds)
    } else if s == "--cv-seed"@ {
        Some(Flag::CvSeed)
    } else if s == "--cv-patience"@ {
        Some(Flag::CvPatience)
    } else if s == "--quiz-blend"@ {
        Some(Flag::QuizBlend)
    } else if s == "--raw-probes"@ {
        Some(Flag::RawProbes)
    } else if s == "--decimals"@ {
        Some(Flag::Decimals)
    } else if s == "--force-models"@ {
        Some(Flag::ForceModels)
    } else if s == "--save-state"@ {
        Some(Flag::SaveState)
    } else if s == "--load-state"@ {
        Some(Flag::LoadState)
    } else if s == "--no-score"@ {
        Some(Flag::NoScore)
    } else if s == "--select"@ {
        Some(Flag::Select)
    } else if s == "--probe-frac"@ {
        Some(Flag::ProbeFrac)
    } else {
        None
    }
}

/// The flag that a word spells.
pub fn flag_of(s: &str) -> (r: Option<Flag>)
    ensures
        r == flag_named(s@),
{
    if same(s, "-o") || same(s, "--old") {
        Some(Flag::Old)
    } else if same(s, "-n") || same(s, "--new") {
        Some(Flag::New)
    } else if same(s, "-O") {
        Some(Flag::OldModels)
    } else if same(s, "-N") {
        Some(Flag::NewModels)
    } else if same(s, "-p") || same(s, "--pipeline") {
        Some(Flag::Pipeline)
    } else if same(s, "-t") || same(s, "--models") {
        Some(Flag::Models)
    } else if same(s, "-g") {
        Some(Flag::GroupsShort)
    } else if same(s, "--groups") {
        Some(Flag::Groups)
    } else if same(s, "-m") || same(s, "--model") {
        Some(Flag::Model)
    } else if same(s, "-x") || same(s, "--exclude") {
        Some(Flag::Exclude)
    } else if same(s, "-f") || same(s, "--feature") {
        Some(Flag::Feature)
    } else if same(s, "-T") || same(s, "--features-toml") {
        Some(Flag::FeaturesToml)
    } else if same(s, "-G") || same(s, "--feature-groups") {
        Some(Flag::FeatureGroups)
    } else if same(s, "--voting-models") {
        Some(Flag::VotingModels)
    } else if same(s, "--voting") {
        Some(Flag::Voting)
    } else if same(s, "--lambda") {
        Some(Flag::Lambda)
    } else if same(s, "--in-clip") {
        Some(Flag::InClip)
    } else if same(s, "--out-clip") {
        Some(Flag::OutClip)
    } else if same(s, "--folds") {
        Some(Flag::Folds)
    } else if same(s, "--seed") {
        Some(Flag::Seed)
    } else if same(s, "--seeds") {
        Some(Flag::Seeds)
    } else if same(s, "--from") {
        Some(Flag::From)
    } else if same(s, "--ensemble") {
        Some(Flag::Ensemble)
    } else if same(s, "--update-expected") {
        Some(Flag::UpdateExpected)
    } else if same(s, "--forward") {
        Some(Flag::Forward)
    } else if same(s, "--max-features") {
        Some(Flag::MaxFeatures)
    } else if same(s, "--fixed") {
        Some(Flag::Fixed)
    } else if same(s, "--cv-folds") {
        Some(Flag::CvFolds)
    } else if same(s, "--cv-seed") {
        Some(Flag::CvSeed)
    } else if same(s, "--cv-patience") {
        Some(Flag::CvPatience)
    } else if same(s, "--quiz-blend") {
        Some(Flag::QuizBlend)
    } else if same(s, "--raw-probes") {
        Some(Flag::RawProbes)
    } else if same(s, "--decimals") {
        Some(Flag::Decimals)
    } else if same(s, "--force-models") {
        Some(Flag::ForceModels)
    } else if same(s, "--save-state") {
        Some(Flag::SaveState)
    } else if same(s, "--load-state") {
        Some(Flag::LoadState)
    } else if same(s, "--no-score") {
        Some(Flag::NoScore)
    } else if same(s, "--select") {
        Some(Flag::Select)
    } else if same(s, "--probe-frac") {
        Some(Flag::ProbeFrac)
    } else {
        None
    }
}

/// Whether a program has a flag.
pub open spec fn accepts(p: Program, f: Flag) -> bool {
    match p {
        Program::Ridge => matches!(
            f,
            Flag::Old | Flag::New | Flag::OldModels | Flag::NewModels | Flag::Pipeline | Flag::Models | Flag::GroupsShort | Flag::Groups | Flag::Model | Flag::Exclude | Flag::Lambda | Flag::InClip | Flag::OutClip | Flag::From | Flag::Ensemble | Flag::UpdateExpected | Flag::Forward | Flag::MaxFeatures | Flag::Fixed | Flag::CvFolds | Flag::CvSeed | Flag::CvPatience | Flag::QuizBlend | Flag::RawProbes | Flag::Decimals
        ),
        Program::FwlsFs => matches!(
            f,
            Flag::Old | Flag::New | Flag::Pipeline | Flag::Models | Flag::GroupsShort | Flag::Groups | Flag::Model | Flag::FeaturesToml | Flag::FeatureGroups | Flag::Feature | Flag::Exclude | Flag::Lambda | Flag::MaxFeatures | Flag::ForceModels | Flag::CvFolds | Flag::CvSeed | Flag::CvPatience | Flag::SaveState | Flag::LoadState | Flag::NoScore | Flag::Select | Flag::ProbeFrac | Flag::Seed | Flag::InClip | Flag::OutClip
        ),
        Program::Fwls => matches!(
            f,
            Flag::New | Flag::Pipeline | Flag::Models | Flag::Groups | Flag::Model | Flag::Feature | Flag::Lambda | Flag::Exclude | Flag::VotingModels | Flag::Voting | Flag::Seed | Flag::Seeds
        ),
        Program::FwlsDisk => matches!(
            f,
            Flag::New | Flag::Pipeline | Flag::Models | Flag::Groups | Flag::Model | Flag::Feature | Flag::Lambda | Flag::InClip | Flag::Exclude | Flag::VotingModels | Flag::Voting | Flag::Folds | Flag::Seed | Flag::Seeds
        ),
        Program::Gbm => matches!(
            f,
            Flag::Pipeline | Flag::Models | Flag::Groups | Flag::Model | Flag::Exclude | Flag::InClip | Flag::VotingModels | Flag::Voting | Flag::Seed | Flag::Seeds
        ),
        Program::Mlp => matches!(
            f,
            Flag::Pipeline | Flag::Models | Flag::Groups | Flag::Model | Flag::Exclude | Flag::VotingModels | Flag::Voting | Flag::Seed | Flag::Seeds
        ),
        Program::GbmNew => matches!(
            f,
            Flag::New | Flag::Pipeline | Flag::Models | Flag::Groups | Flag::Exclude | Flag::Seed | Flag::Seeds
        ),
        Program::GbmOpt => matches!(
            f,
            Flag::New | Flag::Pipeline | Flag::Models | Flag::Seed | Flag::Seeds
        ),
        Program::MlpOrdinal => matches!(
            f,
            Flag::New | Flag::Pipeline | Flag::Models | Flag::Seed | Flag::Seeds
        ),
    }
}

/// Whether a flag stands alone.
pub open spec fn stands_alone(f: Flag) -> bool {
    matches!(
        f,
        Flag::Name | Flag::Old | Flag::New | Flag::OldModels | Flag::NewModels | Flag::UpdateExpected | Flag::Forward | Flag::QuizBlend | Flag::RawProbes | Flag::NoScore
    )
}

/// Whether a program takes the name of a blend.
pub open spec fn takes_name(p: Program) -> bool {
    !(p == Program::Ridge || p == Program::FwlsFs)
}

/// Whether a program has a flag.
pub fn has_flag(p: Program, f: Flag) -> (r: bool)
    ensures
        r == accepts(p, f),
{
    match p {
        Program::Ridge => matches!(
            f,
            Flag::Old | Flag::New | Flag::OldModels | Flag::NewModels | Flag::Pipeline | Flag::Models | Flag::GroupsShort | Flag::Groups | Flag::Model | Flag::Exclude | Flag::Lambda | Flag::InClip | Flag::OutClip | Flag::From | Flag::Ensemble | Flag::UpdateExpected | Flag::Forward | Flag::MaxFeatures | Flag::Fixed | Flag::CvFolds | Flag::CvSeed | Flag::CvPatience | Flag::QuizBlend | Flag::RawProbes | Flag::Decimals
        ),
        Program::FwlsFs => matches!(
            f,
            Flag::Old | Flag::New | Flag::Pipeline | Flag::Models | Flag::GroupsShort | Flag::Groups | Flag::Model | Flag::FeaturesToml | Flag::FeatureGroups | Flag::Feature | Flag::Exclude | Flag::Lambda | Flag::MaxFeatures | Flag::ForceModels | Flag::CvFolds | Flag::CvSeed | Flag::CvPatience | Flag::SaveState | Flag::LoadState | Flag::NoScore | Flag::Select | Flag::ProbeFrac | Flag::Seed | Flag::InClip | Flag::OutClip
        ),
        Program::Fwls => matches!(
            f,
            Flag::New | Flag::Pipeline | Flag::Models | Flag::Groups | Flag::Model | Flag::Feature | Flag::Lambda | Flag::Exclude | Flag::VotingModels | Flag::Voting | Flag::Seed | Flag::Seeds
        ),
        Program::FwlsDisk => matches!(
            f,
            Flag::New | Flag::Pipeline | Flag::Models | Flag::Groups | Flag::Model | Flag::Feature | Flag::Lambda | Flag::InClip | Flag::Exclude | Flag::VotingModels | Flag::Voting | Flag::Folds | Flag::Seed | Flag::Seeds
        ),
        Program::Gbm => matches!(
            f,
            Flag::Pipeline | Flag::Models | Flag::Groups | Flag::Model | Flag::Exclude | Flag::InClip | Flag::VotingModels | Flag::Voting | Flag::Seed | Flag::Seeds
        ),
        Program::Mlp => matches!(
            f,
            Flag::Pipeline | Flag::Models | Flag::Groups | Flag::Model | Flag::Exclude | Flag::VotingModels | Flag::Voting | Flag::Seed | Flag::Seeds
        ),
        Program::GbmNew => matches!(
            f,
            Flag::New | Flag::Pipeline | Flag::Models | Flag::Groups | Flag::Exclude | Flag::Seed | Flag::Seeds
        ),
        Program::GbmOpt => matches!(
            f,
            Flag::New | Flag::Pipeline | Flag::Models | Flag::Seed | Flag::Seeds
        ),
        Program::MlpOrdinal => matches!(
            f,
            Flag::New | Flag::Pipeline | Flag::Models | Flag::Seed | Flag::Seeds
        ),
    }
}

/// What a word of a command line is, where it stands where a flag may stand.
#[derive(Clone, Copy, PartialEq, Eq, Structural, Debug)]
pub enum Word {
    /// A cry for help.
    Help,
    /// A flag of the program, or the name of the blend.
    Is(Flag),
    /// Neither.
    Unknown,
}

pub open spec fn word_of(p: Program, s: Seq<char>) -> Word {
    if s == "-h"@ || s == "--help"@ {
        Word::Help
    } else {
        match flag_named(s) {
            Some(f) if accepts(p, f) => Word::Is(f),
            _ => if takes_name(p) && !"-"@.is_prefix_of(s) {
                Word::Is(Flag::Name)
            } else {
                Word::Unknown
            },
        }
    }
}

/// What a word is to a program.
pub fn read_word(p: Program, s: &str) -> (r: Word)
    ensures
        r == word_of(p, s@),
{
    if same(s, "-h") || same(s, "--help") {
        return Word::Help;
    }
    match flag_of(s) {
        Some(f) => {
            if has_flag(p, f) {
                return Word::Is(f);
            }
        },
        None => {},
    }
    let named: bool = match p {
        Program::Ridge | Program::FwlsFs => false,
        _ => true,
    };
    if named && !starts_with(s, "-") {
        Word::Is(Flag::Name)
    } else {
        Word::Unknown
    }
}

/// A flag where it stands, and where its value stands: at the flag itself, where it has none.
#[derive(Clone, Copy, PartialEq, Eq, Structural, Debug)]
pub struct Item {
    pub flag: Flag,
    pub at: usize,
    pub value: usize,
}

/// Where the reading of a command line ends.
#[derive(Clone, Copy, PartialEq, Eq, Structural, Debug)]
pub enum End {
    /// At the last word.
    Done,
    /// At a cry for help.
    Help,
    /// At a word that is no flag.
    Unknown(usize),
    /// At a flag whose value is missing.
    NeedsValue(usize),
}

/// How many words an item takes.
pub open spec fn span(p: Program, argv: Seq<Seq<char>>, i: int) -> int {
    match word_of(p, argv[i]) {
        Word::Is(f) => if stands_alone(f) {
            1
        } else if f == Flag::Ensemble && (i + 1 >= argv.len() || "-"@.is_prefix_of(argv[i + 1])) {
            1
        } else {
            2
        },
        _ => 1,
    }
}

/// The items of a command line from its `i`-th word on.
pub open spec fn items_from(p: Program, argv: Seq<Seq<char>>, i: int) -> Seq<Item>
    decreases argv.len() - i,
{
    if i < 0 || i >= argv.len() {
        Seq::empty()
    } else {
        match word_of(p, argv[i]) {
            Word::Is(f) => if i + span(p, argv, i) > argv.len() {
                Seq::empty()
            } else {
                seq![
                    (Item { flag: f, at: i as usize, value: (i + span(p, argv, i) - 1) as usize }),
                ] + items_from(p, argv, i + span(p, argv, i))
            },
            _ => Seq::empty(),
        }
    }
}

/// Where the reading of a command line from its `i`-th word on ends.
pub open spec fn end_from(p: Program, argv: Seq<Seq<char>>, i: int) -> End
    decreases argv.len() - i,
{
    if i < 0 || i >= argv.len() {
        End::Done
    } else {
        match word_of(p, argv[i]) {
            Word::Help => End::Help,
            Word::Unknown => End::Unknown(i as usize),
            Word::Is(f) => if i + span(p, argv, i) > argv.len() {
                End::NeedsValue(i as usize)
            } else {
                end_from(p, argv, i + span(p, argv, i))
            },
        }
    }
}

/// A command line, read.
pub struct Reading {
    pub items: Vec<Item>,
    pub end: End,
}

fn word_span(p: Program, argv: &Vec<String>, i: usize, f: Flag) -> (r: usize)
    requires
        i < argv.len(),
        word_of(p, views(argv@)[i as int]) == Word::Is(f),
    ensures
        r == span(p, views(argv@), i as int),
        1 <= r <= 2,
{
    proof {
        assert(argv.len() <= usize::MAX);
    }
    let alone: bool = match f {
        Flag::Name | Flag::Old | Flag::New | Flag::OldModels | Flag::NewModels | Flag::UpdateExpected | Flag::Forward | Flag::QuizBlend | Flag::RawProbes | Flag::NoScore => true,
        _ => false,
    };
    if alone {
        return 1;
    }
    if f == Flag::Ensemble {
        if argv.len() - i < 2 {
            return 1;
        }
        proof {
            assert(views(argv@)[i + 1] == argv@[i + 1]@);
        }
        if starts_with(argv[i + 1].as_str(), "-") {
            return 1;
        }
    }
    2
}

/// Reads a command line.
pub fn read_line(p: Program, argv: &Vec<String>) -> (r: Reading)
    ensures
        r.items@ == items_from(p, views(argv@), 0),
        r.end == end_from(p, views(argv@), 0),
{
    let mut items: Vec<Item> = Vec::new();
    let mut i: usize = 0;
    proof {
        assert(items@ + items_from(p, views(argv@), 0) =~= items_from(p, views(argv@), 0));
    }
    while i < argv.len()
        invariant
            i <= argv.len(),
            items@ + items_from(p, views(argv@), i as int) == items_from(p, views(argv@), 0),
            end_from(p, views(argv@), i as int) == end_from(p, views(argv@), 0),
        decreases argv.len() - i,
    {
        let ghost v = views(argv@);
        proof {
            assert(v[i as int] == argv@[i as int]@);
            assert(argv.len() <= usize::MAX);
        }
        match read_word(p, argv[i].as_str()) {
            Word::Help => {
                proof {
                    assert(items@ + items_from(p, v, i as int) =~= items@);
                }
                return Reading { items, end: End::Help };
            },
            Word::Unknown => {
                proof {
                    assert(items@ + items_from(p, v, i as int) =~= items@);
                }
                return Reading { items, end: End::Unknown(i) };
            },
            Word::Is(f) => {
                let k: usize = word_span(p, argv, i, f);
                if k > argv.len() - i {
                    proof {
                        assert(items@ + items_from(p, v, i as int) =~= items@);
                    }
                    return Reading { items, end: End::NeedsValue(i) };
                }
                let it: Item = Item { flag: f, at: i, value: i + (k - 1) };
                let ghost before = items@;
                items.push(it);
                proof {
                    assert(items_from(p, v, i as int) == seq![it] + items_from(p, v, i + k));
                    assert(items@ + items_from(p, v, i + k) =~= before + items_from(
                        p,
                        v,
                        i as int,
                    ));
                }
                i += k;
            },
        }
    }
    proof {
        assert(items@ + items_from(p, views(argv@), i as int) =~= items@);
    }
    Reading { items, end: End::Done }
}

/// Every item is a word of the line that spells its flag, its value the word after it or itself.
pub proof fn lemma_items_stand(p: Program, argv: Seq<Seq<char>>, i: int)
    requires
        0 <= i,
        argv.len() <= usize::MAX,
    ensures
        forall|k: int|
            0 <= k < items_from(p, argv, i).len() ==> {
                let it = #[trigger] items_from(p, argv, i)[k];
                &&& i <= it.at <= it.value < argv.len()
                &&& it.value <= it.at + 1
                &&& word_of(p, argv[it.at as int]) == Word::Is(it.flag)
                &&& it.value == it.at + 1 || stands_alone(it.flag) || it.flag == Flag::Ensemble
            },
    decreases argv.len() - i,
{
    if i < argv.len() {
        match word_of(p, argv[i]) {
            Word::Is(f) => {
                let k = span(p, argv, i);
                if i + k <= argv.len() {
                    lemma_items_stand(p, argv, i + k);
                    let rest = items_from(p, argv, i + k);
                    let all = items_from(p, argv, i);
                    assert forall|j: int| 0 <= j < all.len() implies {
                        let it = #[trigger] all[j];
                        &&& i <= it.at <= it.value < argv.len()
                        &&& it.value <= it.at + 1
                        &&& word_of(p, argv[it.at as int]) == Word::Is(it.flag)
                        &&& it.value == it.at + 1 || stands_alone(it.flag) || it.flag
                            == Flag::Ensemble
                    } by {
                        if j > 0 {
                            assert(all[j] == rest[j - 1]);
                        }
                    }
                }
            },
            _ => {},
        }
    }
}

/// A line read to its end has no word left over: the items take all of them, in order.
pub proof fn lemma_items_cover(p: Program, argv: Seq<Seq<char>>, i: int, w: int)
    requires
        0 <= i <= w < argv.len() <= usize::MAX,
        end_from(p, argv, i) == End::Done,
    ensures
        exists|k: int|
            0 <= k < items_from(p, argv, i).len() && (#[trigger] items_from(p, argv, i)[k]).at <= w
                <= items_from(p, argv, i)[k].value,
    decreases argv.len() - i,
{
    let all = items_from(p, argv, i);
    let k = span(p, argv, i);
    let rest = items_from(p, argv, i + k);
    if w < i + k {
        assert(all[0].at <= w <= all[0].value);
    } else {
        lemma_items_cover(p, argv, i + k, w);
        let j = choose|j: int| 0 <= j < rest.len() && (#[trigger] rest[j]).at <= w <= rest[j].value;
        assert(all[j + 1] == rest[j]);
    }
}

/// What the value at a place of the command line is as a floating-point text.
#[derive(Clone, Copy, PartialEq, Eq, Structural, Debug)]
pub struct Numeral {
    /// The whole text is a number.
    pub plain: bool,
    /// It is a number above zero and at most one.
    pub fraction: bool,
    /// What stands before its first comma is a number.
    pub low: bool,
    /// What stands after its first comma is a number.
    pub high: bool,
    /// The number before the comma is not above the one after it.
    pub ordered: bool,
}

/// Which programs take each flag.
pub proof fn lemma_taken_by(p: Program)
    ensures
        !accepts(p, Flag::Name),
        accepts(p, Flag::Old) <==> p == Program::Ridge || p == Program::FwlsFs,
        accepts(p, Flag::New) <==> p != Program::Gbm && p != Program::Mlp,
        accepts(p, Flag::OldModels) <==> p == Program::Ridge,
        accepts(p, Flag::NewModels) <==> p == Program::Ridge,
        accepts(p, Flag::Pipeline),
        accepts(p, Flag::Models),
        accepts(p, Flag::GroupsShort) <==> p == Program::Ridge || p == Program::FwlsFs,
        accepts(p, Flag::Groups) <==> p != Program::GbmOpt && p != Program::MlpOrdinal,
        accepts(p, Flag::Model) <==> p != Program::GbmNew && p != Program::GbmOpt && p != Program::MlpOrdinal,
        accepts(p, Flag::Exclude) <==> p != Program::GbmOpt && p != Program::MlpOrdinal,
        accepts(p, Flag::Feature) <==> p == Program::FwlsFs || p == Program::Fwls || p == Program::FwlsDisk,
        accepts(p, Flag::FeaturesToml) <==> p == Program::FwlsFs,
        accepts(p, Flag::FeatureGroups) <==> p == Program::FwlsFs,
        accepts(p, Flag::VotingModels) <==> p == Program::Fwls || p == Program::FwlsDisk || p == Program::Gbm || p == Program::Mlp,
        accepts(p, Flag::Voting) <==> p == Program::Fwls || p == Program::FwlsDisk || p == Program::Gbm || p == Program::Mlp,
        accepts(p, Flag::Lambda) <==> p == Program::Ridge || p == Program::FwlsFs || p == Program::Fwls || p == Program::FwlsDisk,
        accepts(p, Flag::InClip) <==> p == Program::Ridge || p == Program::FwlsFs || p == Program::FwlsDisk || p == Program::Gbm,
        accepts(p, Flag::OutClip) <==> p == Program::Ridge || p == Program::FwlsFs,
        accepts(p, Flag::Folds) <==> p == Program::FwlsDisk,
        accepts(p, Flag::Seed) <==> p != Program::Ridge,
        accepts(p, Flag::Seeds) <==> p != Program::Ridge && p != Program::FwlsFs,
        accepts(p, Flag::From) <==> p == Program::Ridge,
        accepts(p, Flag::Ensemble) <==> p == Program::Ridge,
        accepts(p, Flag::UpdateExpected) <==> p == Program::Ridge,
        accepts(p, Flag::Forward) <==> p == Program::Ridge,
        accepts(p, Flag::MaxFeatures) <==> p == Program::Ridge || p == Program::FwlsFs,
        accepts(p, Flag::Fixed) <==> p == Program::Ridge,
        accepts(p, Flag::CvFolds) <==> p == Program::Ridge || p == Program::FwlsFs,
        accepts(p, Flag::CvSeed) <==> p == Program::Ridge || p == Program::FwlsFs,
        accepts(p, Flag::CvPatience) <==> p == Program::Ridge || p == Program::FwlsFs,
        accepts(p, Flag::QuizBlend) <==> p == Program::Ridge,
        accepts(p, Flag::RawProbes) <==> p == Program::Ridge,
        accepts(p, Flag::Decimals) <==> p == Program::Ridge,
        accepts(p, Flag::ForceModels) <==> p == Program::FwlsFs,
        accepts(p, Flag::SaveState) <==> p == Program::FwlsFs,
        accepts(p, Flag::LoadState) <==> p == Program::FwlsFs,
        accepts(p, Flag::NoScore) <==> p == Program::FwlsFs,
        accepts(p, Flag::Select) <==> p == Program::FwlsFs,
        accepts(p, Flag::ProbeFrac) <==> p == Program::FwlsFs,
{
}

/// The flags that want a value.
pub proof fn lemma_wants_value(f: Flag)
    ensures
        !stands_alone(f) <==> matches!(
            f,
            Flag::Pipeline | Flag::Models | Flag::GroupsShort | Flag::Groups | Flag::Model | Flag::Exclude | Flag::Feature | Flag::FeaturesToml | Flag::FeatureGroups | Flag::VotingModels | Flag::Voting | Flag::Lambda | Flag::InClip | Flag::OutClip | Flag::Folds | Flag::Seed | Flag::Seeds | Flag::From | Flag::Ensemble | Flag::MaxFeatures | Flag::Fixed | Flag::CvFolds | Flag::CvSeed | Flag::CvPatience | Flag::Decimals | Flag::ForceModels | Flag::SaveState | Flag::LoadState | Flag::Select | Flag::ProbeFrac
        ),
{
}

/// The texts that each flag goes by: a flag is read from no other text, and a text that is read as
/// none is not one of them.
pub proof fn lemma_flag_texts(s: Seq<char>)
    ensures
        flag_named(s) == Some(Flag::Old) ==> s == "-o"@ || s == "--old"@,
        flag_named(s) == Some(Flag::New) ==> s == "-n"@ || s == "--new"@,
        flag_named(s) == Some(Flag::OldModels) ==> s == "-O"@,
        flag_named(s) == Some(Flag::NewModels) ==> s == "-N"@,
        flag_named(s) == Some(Flag::Pipeline) ==> s == "-p"@ || s == "--pipeline"@,
        flag_named(s) == Some(Flag::Models) ==> s == "-t"@ || s == "--models"@,
        flag_named(s) == Some(Flag::GroupsShort) ==> s == "-g"@,
        flag_named(s) == Some(Flag::Groups) ==> s == "--groups"@,
        flag_named(s) == Some(Flag::Model) ==> s == "-m"@ || s == "--model"@,
        flag_named(s) == Some(Flag::Exclude) ==> s == "-x"@ || s == "--exclude"@,
        flag_named(s) == Some(Flag::Feature) ==> s == "-f"@ || s == "--feature"@,
        flag_named(s) == Some(Flag::FeaturesToml) ==> s == "-T"@ || s == "--features-toml"@,
        flag_named(s) == Some(Flag::FeatureGroups) ==> s == "-G"@ || s == "--feature-groups"@,
        flag_named(s) == Some(Flag::VotingModels) ==> s == "--voting-models"@,
        flag_named(s) == Some(Flag::Voting) ==> s == "--voting"@,
        flag_named(s) == Some(Flag::Lambda) ==> s == "--lambda"@,
        flag_named(s) == Some(Flag::InClip) ==> s == "--in-clip"@,
        flag_named(s) == Some(Flag::OutClip) ==> s == "--out-clip"@,
        flag_named(s) == Some(Flag::Folds) ==> s == "--folds"@,
        flag_named(s) == Some(Flag::Seed) ==> s == "--seed"@,
        flag_named(s) == Some(Flag::Seeds) ==> s == "--seeds"@,
        flag_named(s) == Some(Flag::From) ==> s == "--from"@,
        flag_named(s) == Some(Flag::Ensemble) ==> s == "--ensemble"@,
        flag_named(s) == Some(Flag::UpdateExpected) ==> s == "--update-expected"@,
        flag_named(s) == Some(Flag::Forward) ==> s == "--forward"@,
        flag_named(s) == Some(Flag::MaxFeatures) ==> s == "--max-features"@,
        flag_named(s) == Some(Flag::Fixed) ==> s == "--fixed"@,
        flag_named(s) == Some(Flag::CvFolds) ==> s == "--cv-folds"@,
        flag_named(s) == Some(Flag::CvSeed) ==> s == "--cv-seed"@,
        flag_named(s) == Some(Flag::CvPatience) ==> s == "--cv-patience"@,
        flag_named(s) == Some(Flag::QuizBlend) ==> s == "--quiz-blend"@,
        flag_named(s) == Some(Flag::RawProbes) ==> s == "--raw-probes"@,
        flag_named(s) == Some(Flag::Decimals) ==> s == "--decimals"@,
        flag_named(s) == Some(Flag::ForceModels) ==> s == "--force-models"@,
        flag_named(s) == Some(Flag::SaveState) ==> s == "--save-state"@,
        flag_named(s) == Some(Flag::LoadState) ==> s == "--load-state"@,
        flag_named(s) == Some(Flag::NoScore) ==> s == "--no-score"@,
        flag_named(s) == Some(Flag::Select) ==> s == "--select"@,
        flag_named(s) == Some(Flag::ProbeFrac) ==> s == "--probe-frac"@,
        flag_named(s) != Some(Flag::Name),
        flag_named(s) is None ==> s != "-o"@ && s != "--old"@ && s != "-n"@ && s != "--new"@ && s != "-O"@ && s != "-N"@ && s != "-p"@ && s != "--pipeline"@ && s != "-t"@ && s != "--models"@ && s != "-g"@ && s != "--groups"@ && s != "-m"@ && s != "--model"@ && s != "-x"@ && s != "--exclude"@ && s != "-f"@ && s != "--feature"@ && s != "-T"@ && s != "--features-toml"@ && s != "-G"@ && s != "--feature-groups"@ && s != "--voting-models"@ && s != "--voting"@ && s != "--lambda"@ && s != "--in-clip"@ && s != "--out-clip"@ && s != "--folds"@ && s != "--seed"@ && s != "--seeds"@ && s != "--from"@ && s != "--ensemble"@ && s != "--update-expected"@ && s != "--forward"@ && s != "--max-features"@ && s != "--fixed"@ && s != "--cv-folds"@ && s != "--cv-seed"@ && s != "--cv-patience"@ && s != "--quiz-blend"@ && s != "--raw-probes"@ && s != "--decimals"@ && s != "--force-models"@ && s != "--save-state"@ && s != "--load-state"@ && s != "--no-score"@ && s != "--select"@ && s != "--probe-frac"@,
{
}

/// A word is help, a flag that the program takes, or a name where the program takes one and the word
/// does not start with a dash; anything else is unknown.
pub proof fn lemma_word(p: Program, s: Seq<char>)
    ensures
        word_of(p, s) == Word::Help <==> s == "-h"@ || s == "--help"@,
        word_of(p, s) matches Word::Is(f) ==> if flag_named(s) is Some && accepts(
            p,
            flag_named(s)->Some_0,
        ) {
            Some(f) == flag_named(s)
        } else {
            f == Flag::Name && p != Program::Ridge && p != Program::FwlsFs && !"-"@.is_prefix_of(s)
        },
        word_of(p, s) == Word::Unknown ==> (flag_named(s) is None || !accepts(
            p,
            flag_named(s)->Some_0,
        )) && (p == Program::Ridge || p == Program::FwlsFs || "-"@.is_prefix_of(s)),
{
}

/// Where the words after some items go on.
pub open spec fn words_read(items: Seq<Item>, i: int) -> int {
    if items.len() == 0 {
        i
    } else {
        items.last().value + 1
    }
}

/// The items stand one behind the other. One that stands alone is its own value, one that wants a
/// value has the next word, and the ensemble has it unless there is none or it starts with a dash.
pub proof fn lemma_items_in_row(p: Program, argv: Seq<Seq<char>>, i: int, k: int)
    requires
        0 <= i,
        argv.len() <= usize::MAX,
        0 <= k < items_from(p, argv, i).len(),
    ensures
        ({
            let items = items_from(p, argv, i);
            let it = items[k];
            &&& it.at == (if k == 0 {
                i
            } else {
                items[k - 1].value + 1
            })
            &&& stands_alone(it.flag) ==> it.value == it.at
            &&& !stands_alone(it.flag) && it.flag != Flag::Ensemble ==> it.value == it.at + 1
            &&& it.flag == Flag::Ensemble ==> it.value == (if it.at + 1 < argv.len()
                && !"-"@.is_prefix_of(argv[it.at + 1]) {
                it.at + 1
            } else {
                it.at as int
            })
        }),
    decreases argv.len() - i,
{
    let items = items_from(p, argv, i);
    let n = span(p, argv, i);
    let rest = items_from(p, argv, i + n);
    if k > 0 {
        lemma_items_in_row(p, argv, i + n, k - 1);
        assert(items[k] == rest[k - 1]);
        if k > 1 {
            assert(items[k - 1] == rest[k - 2]);
        }
    }
}

/// A line is read to its end, or to the first word behind the items that is help, that is unknown,
/// or that is the last one and wants a value.
pub proof fn lemma_line_end(p: Program, argv: Seq<Seq<char>>, i: int)
    requires
        0 <= i <= argv.len() <= usize::MAX,
    ensures
        ({
            let n = words_read(items_from(p, argv, i), i);
            &&& i <= n <= argv.len()
            &&& match end_from(p, argv, i) {
                End::Done => n == argv.len(),
                End::Help => n < argv.len() && (argv[n] == "-h"@ || argv[n] == "--help"@),
                End::Unknown(k) => k == n < argv.len() && word_of(p, argv[n]) == Word::Unknown,
                End::NeedsValue(k) => k == n == argv.len() - 1 && (word_of(
                    p,
                    argv[n],
                ) matches Word::Is(f) && !stands_alone(f) && f != Flag::Ensemble),
            }
        }),
    decreases argv.len() - i,
{
    if i < argv.len() {
        if word_of(p, argv[i]) is Is {
            let n = span(p, argv, i);
            if i + n <= argv.len() {
                lemma_line_end(p, argv, i + n);
                let items = items_from(p, argv, i);
                let rest = items_from(p, argv, i + n);
                if rest.len() > 0 {
                    assert(items.last() == rest.last());
                } else {
                    assert(items.last() == items[0]);
                }
            }
        }
    }
}

} // verus!
