use netflix_prize::args::End;
use netflix_prize::args::Flag;
use netflix_prize::args::Item;
use netflix_prize::args::Numeral;
use netflix_prize::args::Program;
use netflix_prize::args::Word;
use netflix_prize::args::flag_of;
use netflix_prize::args::has_flag;
use netflix_prize::args::read_line;
use netflix_prize::args::read_word;
use netflix_prize::blend_args::ArgError;
use netflix_prize::blend_args::BlendArgs;
use netflix_prize::blend_args::holds_comma;
use netflix_prize::blend_args::parse_blend;
use netflix_prize::blend_args::push_entries;
use netflix_prize::blend_args::read_numbers;
use netflix_prize::fs_args::FsArgs;
use netflix_prize::fs_args::FsError;
use netflix_prize::fs_args::SelectMode;
use netflix_prize::fs_args::SplitHint;
use netflix_prize::fs_args::check_bounds;
use netflix_prize::fs_args::default_features;
use netflix_prize::fs_args::default_models;
use netflix_prize::fs_args::parse_fs;
use netflix_prize::ridge_args::Clash;
use netflix_prize::ridge_args::EnsembleDef;
use netflix_prize::ridge_args::EnsembleSource;
use netflix_prize::ridge_args::InClip;
use netflix_prize::ridge_args::RidgeError;
use netflix_prize::ridge_args::RidgeFlags;
use netflix_prize::ridge_args::check_flags;
use netflix_prize::ridge_args::legacy_source;
use netflix_prize::ridge_args::parse_args;
use netflix_prize::ridge_args::parse_clip;
use netflix_prize::ridge_args::pick_ensemble;
use netflix_prize::ridge_args::set_models_toml;
use netflix_prize::ridge_args::settle;
use netflix_prize::ridge_args::source_models;
use netflix_prize::ridge_args::warns_of_raw_probes;
use netflix_prize::ridge_args::warns_of_selection;

fn words(line: &str) -> Vec<String> {
    line.split_whitespace().map(|s| s.to_string()).collect()
}

fn names(list: &[&str]) -> Vec<String> {
    list.iter().map(|s| s.to_string()).collect()
}

fn numeral(s: &str) -> Numeral {
    let plain = s.parse::<f64>();
    let (a, b) = match s.split_once(',') {
        Some((a, b)) => (a.trim().parse::<f64>(), b.trim().parse::<f64>()),
        None => ("".parse::<f64>(), "".parse::<f64>()),
    };
    Numeral {
        plain: plain.is_ok(),
        fraction: matches!(plain, Ok(x) if x > 0.0 && x <= 1.0),
        low: a.is_ok(),
        high: b.is_ok(),
        ordered: matches!((a, b), (Ok(lo), Ok(hi)) if !(lo > hi)),
    }
}

fn numerals(argv: &[String]) -> Vec<Numeral> {
    argv.iter().map(|s| numeral(s)).collect()
}

fn blend(p: Program, line: &str) -> Result<BlendArgs, ArgError> {
    let argv = words(line);
    let nums = numerals(&argv);
    parse_blend(p, &argv, &nums)
}

fn blend_error(p: Program, line: &str) -> Option<ArgError> {
    blend(p, line).err()
}

fn ridge(line: &str) -> Result<RidgeFlags, RidgeError> {
    let argv = words(line);
    let nums = numerals(&argv);
    parse_args(&argv, &nums)
}

fn ridge_error(line: &str) -> Option<RidgeError> {
    ridge(line).err()
}

fn fs(line: &str) -> Result<FsArgs, FsError> {
    let argv = words(line);
    let nums = numerals(&argv);
    parse_fs(&argv, &nums)
}

fn fs_error(line: &str) -> Option<FsError> {
    fs(line).err()
}

fn flags(line: &str) -> RidgeFlags {
    match ridge(line) {
        Ok(f) => f,
        Err(e) => panic!("{:?}", e),
    }
}

#[test]
fn flags_have_names() {
    assert_eq!(flag_of("-g"), Some(Flag::GroupsShort));
    assert_eq!(flag_of("--groups"), Some(Flag::Groups));
    assert_eq!(flag_of("--new"), Some(Flag::New));
    assert_eq!(flag_of("gbr1"), None);
    assert!(has_flag(Program::Ridge, Flag::Ensemble));
    assert!(!has_flag(Program::Gbm, Flag::New));
    assert_eq!(read_word(Program::Mlp, "--help"), Word::Help);
    assert_eq!(read_word(Program::Mlp, "mlpr1"), Word::Is(Flag::Name));
    assert_eq!(read_word(Program::Ridge, "mlpr1"), Word::Unknown);
    assert_eq!(read_word(Program::Gbm, "-n"), Word::Unknown);
}

#[test]
fn words_become_items() {
    let r = read_line(Program::Ridge, &words("-n --ensemble --groups a,b --ensemble x"));
    assert_eq!(
        r.items,
        vec![
            Item { flag: Flag::New, at: 0, value: 0 },
            Item { flag: Flag::Ensemble, at: 1, value: 1 },
            Item { flag: Flag::Groups, at: 2, value: 3 },
            Item { flag: Flag::Ensemble, at: 4, value: 5 },
        ]
    );
    assert_eq!(r.end, End::Done);
    let r = read_line(Program::Ridge, &words("-n --groups"));
    assert_eq!((r.items.len(), r.end), (1, End::NeedsValue(1)));
    let r = read_line(Program::Ridge, &words("-n what --help"));
    assert_eq!((r.items.len(), r.end), (1, End::Unknown(1)));
    let r = read_line(Program::Ridge, &words("-h what"));
    assert_eq!((r.items.len(), r.end), (0, End::Help));
}

#[test]
fn comma_lists() {
    let mut list = names(&["x"]);
    push_entries(&mut list, " a, b ,,c");
    assert_eq!(list, names(&["x", "a", "b", "", "c"]));
    assert_eq!(read_numbers("1, 2,3"), Some(vec![1, 2, 3]));
    assert_eq!(read_numbers("1,,3"), None);
    assert!(holds_comma("1,5") && !holds_comma("15"));
}

#[test]
fn a_stacking_line() {
    let a = match blend(
        Program::FwlsDisk,
        "fw1 -n -t m.toml --groups a,b --groups c -m x -m y -x z --voting v -f f1 --lambda 1e-4 \
         --in-clip 1,5 --folds 4 --seed 3 --seeds 5,6",
    ) {
        Ok(a) => a,
        Err(e) => panic!("{:?}", e),
    };
    assert_eq!(a.name, "fw1");
    assert_eq!(a.pipeline, "pipeline-new.toml");
    assert_eq!(a.models, "m.toml");
    assert_eq!(a.groups, names(&["a", "b", "c"]));
    assert_eq!(a.model_manual, names(&["x", "y"]));
    assert_eq!(a.exclude, names(&["z"]));
    assert_eq!(a.voting_models, "voting-new.toml");
    assert_eq!(a.voting, names(&["v"]));
    assert_eq!(a.feature_manual, names(&["f1"]));
    assert_eq!(a.lambda, Some("1e-4".to_string()));
    assert_eq!(a.in_clip, Some("1,5".to_string()));
    assert_eq!(a.folds, 4);
    assert_eq!(a.seeds, vec![3, 5, 6]);
}

#[test]
fn defaults_of_a_stacking_line() {
    let a = match blend(Program::Fwls, "fw1 -f f1 --seed 1") {
        Ok(a) => a,
        Err(e) => panic!("{:?}", e),
    };
    assert_eq!(a.pipeline, "pipeline-old.toml");
    assert_eq!(a.models, "models-new.toml");
    assert_eq!((a.lambda, a.in_clip, a.folds), (None, None, 2));
}

#[test]
fn errors_of_blend_lines() {
    let p = Program::FwlsDisk;
    assert_eq!(blend_error(p, "-h"), Some(ArgError::Help));
    assert_eq!(blend_error(p, "a --what"), Some(ArgError::Unknown(1)));
    assert_eq!(blend_error(p, "a --seed"), Some(ArgError::NeedsValue(1)));
    assert_eq!(blend_error(p, "a b"), Some(ArgError::SecondName(1)));
    assert_eq!(blend_error(p, "a --lambda x"), Some(ArgError::BadNumber(1)));
    assert_eq!(blend_error(p, "a --seed -1"), Some(ArgError::BadNumber(1)));
    assert_eq!(blend_error(p, "a --seeds 1,x"), Some(ArgError::BadNumber(1)));
    assert_eq!(blend_error(p, "a --in-clip 5"), Some(ArgError::ClipShape(1)));
    assert_eq!(blend_error(p, "a --in-clip x,5"), Some(ArgError::BadMin(1)));
    assert_eq!(blend_error(p, "a --in-clip 1,x"), Some(ArgError::BadMax(1)));
    assert_eq!(blend_error(p, "a --folds 1"), Some(ArgError::FewFolds(1)));
    assert_eq!(blend_error(p, "a --folds x"), Some(ArgError::BadNumber(1)));
    assert_eq!(blend_error(p, "--seed 1"), Some(ArgError::NoName));
    assert_eq!(blend_error(p, "a -f f1"), Some(ArgError::NoSeeds));
    assert_eq!(blend_error(p, "a --seed 1"), Some(ArgError::NoFeatures));
    let g = Program::Gbm;
    assert_eq!(blend_error(g, "gbr1"), Some(ArgError::NoPipeline));
    assert_eq!(blend_error(g, "gbr1 -p p"), Some(ArgError::NoModels));
    assert_eq!(blend_error(g, "gbr1 -p p -t t"), Some(ArgError::NoVotingModels));
    assert_eq!(blend_error(g, "gbr1 -p p -t t --voting-models v"), Some(ArgError::NoSeeds));
    let line = "gbr1 -p p -t t --voting-models v --seed 1";
    assert_eq!(blend_error(g, line), Some(ArgError::NoVoting));
    assert_eq!(blend_error(g, "gbr1 -p p -t t --voting-models v --seed 1 --voting v"), None);
    assert_eq!(blend_error(Program::MlpOrdinal, "mlpc_ord --seed 1"), None);
}

#[test]
fn the_default_source() {
    let s = legacy_source();
    assert_eq!((s.label.as_str(), s.pipeline.as_str()), ("old", "pipeline-old.toml"));
    assert!(s.models_toml.is_none() && s.groups.is_empty());
}

#[test]
fn a_ridge_line() {
    let f = flags(
        "-N -g a,b -m >x -x y --lambda 0.5 --forward --max-features 7 --fixed base --cv-folds 5 \
         --cv-seed 9 --cv-patience 3 --in-clip 1,5 --out-clip 1,5 --raw-probes --decimals -2",
    );
    assert_eq!(f.legacy.label, "new");
    assert_eq!(f.legacy.pipeline, "pipeline-new.toml");
    assert_eq!(f.legacy.models_toml, Some("models-new.toml".to_string()));
    assert_eq!(f.legacy.groups, names(&["a", "b"]));
    assert_eq!(f.legacy.models_manual, names(&[">x"]));
    assert_eq!(f.legacy.models_exclude, names(&["y"]));
    assert_eq!(f.lambda, Some("0.5".to_string()));
    assert!(f.forward && f.raw_probes && !f.quiz_blend && f.legacy_touched);
    assert_eq!((f.max_features, f.cv_folds, f.cv_seed, f.cv_patience), (Some(7), 5, 9, Some(3)));
    assert_eq!(f.fixed_group, Some("base".to_string()));
    assert_eq!(f.decimals, -2);
    assert!(check_flags(&f).is_none());
}

#[test]
fn scopes_take_the_flags_after_them() {
    let f = flags("--from old -g a --from new -t m.toml -m x --quiz-blend");
    assert_eq!(f.from_sources.len(), 2);
    assert_eq!(f.from_sources[0].groups, names(&["a"]));
    assert_eq!(f.from_sources[0].pipeline, "pipeline-old.toml");
    assert_eq!(f.from_sources[1].models_toml, Some("m.toml".to_string()));
    assert_eq!(f.from_sources[1].models_manual, names(&["x"]));
    assert!(!f.legacy_touched);
    let a = match settle(f, &vec![]) {
        Ok(a) => a,
        Err(e) => panic!("{:?}", e),
    };
    assert!(a.cross_split && a.quiz_blend && a.extras.is_empty());
    assert_eq!(a.sources.len(), 2);
    assert_eq!(a.in_clip, InClip::Ratings);
}

#[test]
fn an_ensemble_without_a_name() {
    assert_eq!(flags("--ensemble -m x").ensemble, Some(String::new()));
    assert_eq!(flags("--ensemble new").ensemble, Some("new".to_string()));
    assert_eq!(flags("-m x").ensemble, None);
}

#[test]
fn errors_of_ridge_lines() {
    assert_eq!(ridge_error("--help"), Some(RidgeError::Help));
    assert_eq!(ridge_error("what"), Some(RidgeError::Unknown(0)));
    assert_eq!(ridge_error("-m"), Some(RidgeError::NeedsValue(0)));
    assert_eq!(ridge_error("--lambda x"), Some(RidgeError::BadNumber(0)));
    assert_eq!(ridge_error("--decimals x"), Some(RidgeError::BadNumber(0)));
    assert_eq!(ridge_error("--in-clip 1"), Some(RidgeError::ClipShape(0)));
    assert_eq!(ridge_error("--in-clip 1,2,3"), Some(RidgeError::ClipShape(0)));
    assert_eq!(ridge_error("--in-clip x,2"), Some(RidgeError::BadMin(0)));
    assert_eq!(ridge_error("--out-clip 1,x"), Some(RidgeError::BadMax(0)));
    assert_eq!(ridge_error("--out-clip 5,1"), Some(RidgeError::Crossed(0)));
    assert_eq!(ridge_error("--from both"), Some(RidgeError::BadSplit(0)));
    assert_eq!(ridge_error("-m x --from old"), Some(RidgeError::MixedScopes(2)));
    assert_eq!(ridge_error("--from old -n"), Some(RidgeError::WithFrom(2)));
    assert_eq!(ridge_error("--from old -p"), Some(RidgeError::WithFrom(2)));
    assert_eq!(ridge_error("-N -t m.toml"), Some(RidgeError::ModelsTwice(1)));
    assert_eq!(ridge_error("-t a -t b"), Some(RidgeError::ModelsTwice(2)));
}

#[test]
fn settings_that_clash() {
    let check = |line: &str| check_flags(&flags(line));
    assert_eq!(check("--cv-folds 0"), Some(RidgeError::NoFolds));
    assert_eq!(check("--cv-patience 3"), Some(RidgeError::PatienceAlone));
    assert_eq!(check("--update-expected"), Some(RidgeError::UpdateAlone));
    let with = |c: Clash| Some(RidgeError::WithEnsemble(c));
    assert_eq!(check("--from old --ensemble"), with(Clash::From));
    assert_eq!(check("-O --ensemble"), with(Clash::Selection));
    assert_eq!(check("-g a --ensemble"), with(Clash::Selection));
    assert_eq!(check("-x a --ensemble"), with(Clash::Selection));
    assert_eq!(check("--forward --ensemble"), with(Clash::Forward));
    assert_eq!(check("--quiz-blend --ensemble"), with(Clash::QuizBlend));
    assert_eq!(check("--cv-folds 2 --ensemble"), with(Clash::CvFolds));
    assert_eq!(check("--ensemble -m x --update-expected"), None);
}

#[test]
fn settling() {
    let settled = |line: &str, stored: Vec<EnsembleSource>| settle(flags(line), &stored);
    let source = |split: &str| EnsembleSource {
        split: split.to_string(),
        groups: names(&["g"]),
        models: names(&["m"]),
    };
    assert_eq!(settled("", vec![]).err(), Some(RidgeError::NoSelection));
    assert_eq!(settled("-m x -g a", vec![]).err(), Some(RidgeError::GroupsAlone));
    assert_eq!(settled("-O --quiz-blend --cv-folds 3", vec![]).err(), Some(RidgeError::FoldsWithQuiz));
    assert_eq!(settled("--ensemble", vec![]).err(), Some(RidgeError::NoSources));
    let a = match settled("--ensemble -m extra", vec![source("old"), source("new")]) {
        Ok(a) => a,
        Err(e) => panic!("{:?}", e),
    };
    assert!(a.cross_split && a.quiz_blend);
    assert_eq!(a.extras, names(&["extra"]));
    assert_eq!(a.sources[1].pipeline, "pipeline-new.toml");
    assert_eq!(a.sources[1].models_toml, Some("models-new.toml".to_string()));
    assert_eq!(a.sources[1].models_manual, names(&["m"]));
    assert_eq!(a.sources[1].groups, names(&["g"]));
    let a = match settled("--ensemble", vec![source("new")]) {
        Ok(a) => a,
        Err(e) => panic!("{:?}", e),
    };
    assert!(!a.cross_split && !a.quiz_blend && a.extras.is_empty());
    assert_eq!(a.in_clip, InClip::Wide);
    let a = match settled("-O --in-clip 1,5 --quiz-blend", vec![]) {
        Ok(a) => a,
        Err(e) => panic!("{:?}", e),
    };
    assert_eq!(a.in_clip, InClip::Given);
    assert!(a.quiz_blend && !a.cross_split);
    let a = match settled("-O --raw-probes --quiz-blend", vec![]) {
        Ok(a) => a,
        Err(e) => panic!("{:?}", e),
    };
    assert_eq!(a.in_clip, InClip::Wide);
}

#[test]
fn warnings_of_ridge_lines() {
    assert!(warns_of_selection(&flags("--max-features 3")));
    assert!(warns_of_selection(&flags("--fixed a")));
    assert!(warns_of_selection(&flags("--cv-folds 2")));
    assert!(!warns_of_selection(&flags("--forward --max-features 3")));
    assert!(warns_of_raw_probes(&flags("--raw-probes"), false));
    assert!(!warns_of_raw_probes(&flags("--raw-probes"), true));
}

#[test]
fn clip_bounds() {
    assert_eq!(parse_clip("1,5", numeral("1,5"), 3), None);
    assert_eq!(parse_clip("1", numeral("1"), 3), Some(RidgeError::ClipShape(3)));
    assert_eq!(check_bounds("5,1", numeral("5,1"), 3), None);
    assert_eq!(check_bounds("5,x", numeral("5,x"), 3), Some(FsError::BadMax(3)));
}

#[test]
fn a_list_of_models_is_set_once() {
    let mut dst = None;
    assert!(set_models_toml(&mut dst, "a"));
    assert!(!set_models_toml(&mut dst, "b"));
    assert_eq!(dst, Some("a".to_string()));
}

#[test]
fn stored_ensembles() {
    let def = |name: &str, is_default: bool| EnsembleDef {
        name: name.to_string(),
        is_default,
        source: vec![],
    };
    let defs = vec![def("old", false), def("new", true), def("both", true)];
    assert_eq!(pick_ensemble(&defs, ""), Some(1));
    assert_eq!(pick_ensemble(&defs, "both"), Some(2));
    assert_eq!(pick_ensemble(&defs, "none"), None);
    assert_eq!(pick_ensemble(&vec![def("a", false), def("b", false)], ""), Some(0));
    assert_eq!(pick_ensemble(&vec![], ""), None);
}

#[test]
fn a_selection_line() {
    let a = match fs(
        "-n -t m.toml -g a,b -m x -T f.toml -G c -f y -x z --lambda 2 --max-features 9 \
         --force-models 2 --cv-folds 3 --cv-seed 4 --cv-patience 5 --save-state s --load-state l \
         --no-score --select columns --probe-frac 0.5 --seed 6 --in-clip 1,5 --out-clip 2,4",
    ) {
        Ok(a) => a,
        Err(e) => panic!("{:?}", e),
    };
    assert_eq!(a.pipeline, "pipeline-new.toml");
    assert_eq!(a.split_hint, SplitHint::New);
    assert_eq!(a.model_groups, names(&["a", "b"]));
    assert_eq!(a.feature_groups, names(&["c"]));
    assert_eq!(a.feature_manual, names(&["y"]));
    assert_eq!((a.max_features, a.force_models, a.cv_folds), (Some(9), 2, 3));
    assert_eq!((a.cv_seed, a.cv_patience, a.seed), (Some(4), Some(5), 6));
    assert_eq!(a.select, SelectMode::Column);
    assert_eq!(a.probe_frac, Some("0.5".to_string()));
    assert!(a.no_score && a.frac_ok);
    let d = match fs("-p other.toml") {
        Ok(a) => a,
        Err(e) => panic!("{:?}", e),
    };
    assert_eq!((d.split_hint, d.select, d.cv_folds), (SplitHint::Unknown, SelectMode::Pairs, 1));
}

#[test]
fn errors_of_selection_lines() {
    assert_eq!(fs_error("-h"), Some(FsError::Help));
    assert_eq!(fs_error("word"), Some(FsError::Unknown(0)));
    assert_eq!(fs_error("--seed"), Some(FsError::NeedsValue(0)));
    assert_eq!(fs_error("--seed x"), Some(FsError::BadNumber(0)));
    assert_eq!(fs_error("--in-clip 1"), Some(FsError::ClipShape(0)));
    assert_eq!(fs_error("--in-clip x,1"), Some(FsError::BadMin(0)));
    assert_eq!(fs_error("--in-clip 1,x"), Some(FsError::BadMax(0)));
    assert_eq!(fs_error("--select both"), Some(FsError::BadMode(0)));
    assert_eq!(fs_error("--probe-frac 0"), Some(FsError::BadFraction));
    assert_eq!(fs_error("--probe-frac 1.5"), Some(FsError::BadFraction));
    assert_eq!(fs_error("--probe-frac x"), Some(FsError::BadNumber(0)));
    assert_eq!(fs_error("--cv-folds 0"), Some(FsError::NoFolds));
    assert_eq!(fs_error("--probe-frac 1.5 --probe-frac 1"), None);
}

#[test]
fn default_lists_of_a_selection() {
    assert_eq!(default_models(SplitHint::New), "models-new.toml");
    assert_eq!(default_models(SplitHint::Old), "models-old.toml");
    assert_ne!(default_features(SplitHint::New), default_features(SplitHint::Old));
}

#[test]
fn a_source_has_the_models_of_its_split() {
    let mut s = legacy_source();
    assert_eq!(source_models(&s, false), None);
    s.label = "new".to_string();
    assert_eq!(source_models(&s, true), Some("models-new.toml".to_string()));
    s.label = "old".to_string();
    assert_eq!(source_models(&s, true), Some("models-old.toml".to_string()));
    s.models_toml = Some("mine.toml".to_string());
    assert_eq!(source_models(&s, false), Some("mine.toml".to_string()));
}
