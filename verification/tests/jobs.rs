use netflix_prize::args::Program;
use netflix_prize::jobs::asym_job;
use netflix_prize::jobs::boost_plan;
use netflix_prize::jobs::cfnade_job;
use netflix_prize::jobs::chain_of;
use netflix_prize::jobs::chain_target;
use netflix_prize::jobs::cli_arg;
use netflix_prize::jobs::dataset_names;
use netflix_prize::jobs::eval_every;
use netflix_prize::jobs::has_flag;
use netflix_prize::jobs::is_evaluated;
use netflix_prize::jobs::net_plan;
use netflix_prize::jobs::ordinal_targets;
use netflix_prize::jobs::read_milestones;
use netflix_prize::jobs::run_preset;
use netflix_prize::jobs::run_preset_noswa;
use netflix_prize::jobs::split_weight;
use netflix_prize::jobs::stat_job;
use netflix_prize::jobs::CfnadeJob;
use netflix_prize::jobs::ChainKind;
use netflix_prize::jobs::test_switches;
use netflix_prize::jobs::CfnadeSwitches;
use netflix_prize::jobs::CliArg;
use netflix_prize::jobs::Tuning;

fn words(line: &str) -> Vec<String> {
    line.split_whitespace().map(|s| s.to_string()).collect()
}

#[test]
fn presets() {
    let f = run_preset("cfnade-96", 320, 96, 95);
    assert_eq!((f.job.as_str(), f.n_hidden, f.rank, f.n_epochs), ("cfnade-96", 320, 96, 95));
    assert_eq!(f.swa_start, 18);
}

#[test]
fn preset_without_averaging() {
    let f = run_preset_noswa("cfnade-96r", 320, 96, 95);
    assert_eq!((f.job.as_str(), f.n_hidden, f.rank, f.n_epochs), ("cfnade-96r", 320, 96, 95));
    assert_eq!(f.swa_start, usize::MAX);
}

#[test]
fn jobs_with_a_preset() {
    match cfnade_job("cfnade-12") {
        CfnadeJob::Fit(f) => assert_eq!((f.n_hidden, f.rank, f.n_epochs, f.swa_start), (40, 12, 40, 18)),
        _ => panic!("a preset"),
    }
    for name in ["cfnade-96", "cfnade-48"] {
        assert!(matches!(cfnade_job(name), CfnadeJob::Fit(f) if f.swa_start == 18 && f.job == name));
    }
    match cfnade_job("cfnade-96r") {
        CfnadeJob::Fit(f) => assert_eq!(f.swa_start, usize::MAX),
        _ => panic!("a preset"),
    }
    assert!(matches!(cfnade_job("--test"), CfnadeJob::Test));
    assert!(matches!(cfnade_job("cfnade-13"), CfnadeJob::Unknown));
}

#[test]
fn keys_of_a_tuning_run() {
    let args = words("test --rank 8 --fast --epochs");
    assert!(matches!(cli_arg(&args, "--rank"), CliArg::Value(v) if v == "8"));
    assert!(matches!(cli_arg(&args, "--epochs"), CliArg::Missing));
    assert!(matches!(cli_arg(&args, "--lr"), CliArg::Absent));
    assert!(has_flag(&args, "--fast") && !has_flag(&args, "--slow"));
    assert_eq!(read_milestones("10,20,,30"), Some(vec![10, 20, 30]));
    assert_eq!(read_milestones(""), Some(vec![]));
    assert_eq!(read_milestones("10,x"), None);
}

#[test]
fn switches_of_a_tuning_run() {
    let none = CfnadeSwitches {
        ctx_target_day_scale: false,
        implicit_probe_ctx: false,
        user_drift: true,
        user_item_scale: false,
        user_item_scale_bin: false,
        user_day_bias_bin: false,
        user_day_scale_bin: false,
        day_bias: false,
        item_time_bias: false,
        day_freq_bias: false,
        side_features: false,
    };
    let read = |line: &str| test_switches(&words(line));
    assert_eq!(read("cfnade --test"), none);
    assert_eq!(read("--ctx-target-day-scale"), CfnadeSwitches { ctx_target_day_scale: true, ..none });
    assert_eq!(read("--implicit-probe-ctx"), CfnadeSwitches { implicit_probe_ctx: true, ..none });
    assert_eq!(read("--no-user-drift"), CfnadeSwitches { user_drift: false, ..none });
    assert_eq!(read("--user-item-scale"), CfnadeSwitches { user_item_scale: true, ..none });
    assert_eq!(read("--user-item-scale-bin"), CfnadeSwitches { user_item_scale_bin: true, ..none });
    assert_eq!(read("--user-day-bias-bin"), CfnadeSwitches { user_day_bias_bin: true, ..none });
    assert_eq!(read("--user-day-scale-bin"), CfnadeSwitches { user_day_scale_bin: true, ..none });
    assert_eq!(read("--day-bias"), CfnadeSwitches { day_bias: true, ..none });
    assert_eq!(read("--item-time-bias"), CfnadeSwitches { item_time_bias: true, ..none });
    assert_eq!(read("--day-freq-bias"), CfnadeSwitches { day_freq_bias: true, ..none });
    assert_eq!(read("--wide --rank 8"), CfnadeSwitches { side_features: true, ..none });
    assert_eq!(eval_every(&words("--wide")), Some(1));
    assert_eq!(eval_every(&words("--eval-every 5")), Some(5));
    assert_eq!(eval_every(&words("--eval-every x")), None);
    assert_eq!(eval_every(&words("--eval-every")), None);
}

#[test]
fn names_of_data_sets() {
    let pair = |s: &str| dataset_names(s);
    assert_eq!(pair("x"), ("trainx".to_string(), "probex".to_string()));
    assert_eq!(pair("full"), ("train".to_string(), "probe".to_string()));
    assert_eq!(pair("qual"), ("fulltrain".to_string(), "qual".to_string()));
    assert_eq!(pair("_s"), ("train_s".to_string(), "probe_s".to_string()));
}

#[test]
fn evaluated_epochs() {
    assert!(is_evaluated(10, 5, 12) && !is_evaluated(11, 5, 12) && is_evaluated(12, 5, 12));
}

#[test]
fn chains_of_jobs() {
    let kind = |s: &str| chain_of(s).map(|c| (c.kind, c.base));
    assert_eq!(kind("mf-64__knn3"), Some((ChainKind::Knn3, "mf-64".to_string())));
    assert_eq!(kind("mf-64__knn3b"), Some((ChainKind::Knn3Wide, "mf-64".to_string())));
    assert_eq!(kind("mf-64__knnfc"), Some((ChainKind::KnnfLocal, "mf-64".to_string())));
    assert_eq!(kind("a__knn3__nlpp"), Some((ChainKind::Nlpp, "a__knn3".to_string())));
    assert_eq!(kind("mf-64"), None);
    let target = |s: &str| chain_target(&chain_of(s).unwrap());
    assert_eq!(target("mf-64__nlpp"), "rtg");
    assert_eq!(target("mf-64__knn3p"), "0.5*mf-64");
    assert_eq!(target("mf-64__knnf"), "1.0*mf-64");
}

#[test]
fn weights_of_a_base() {
    assert_eq!(split_weight("200p50"), ("200".to_string(), Some("50".to_string())));
    assert_eq!(split_weight("200"), ("200".to_string(), None));
    let j = asym_job("mf-64__asym-200p50").unwrap();
    assert_eq!((j.base.as_str(), j.n_feat, j.percent.as_deref()), ("mf-64", 200, Some("50")));
    let j = asym_job("a__asym-1__asym-20").unwrap();
    assert_eq!((j.base.as_str(), j.n_feat, j.percent.as_deref()), ("a__asym-1", 20, None));
    assert!(asym_job("mf-64").is_none());
    assert!(asym_job("mf-64__asym-x").is_none());
}

#[test]
fn statistics_of_a_job() {
    assert_eq!(stat_job("a_b_mean"), Some(("a_b".to_string(), "mean".to_string())));
    assert!(stat_job("plain").is_none());
}

#[test]
fn plans_of_boosted_trees() {
    let p = boost_plan(Program::Gbm, "gbr4x").unwrap();
    assert_eq!((p.num_leaves, p.iters, p.min_data_in_leaf, p.bagging_freq, p.max_bin), (95, 192, 388, 3, 127));
    assert_eq!(p.tuning, Tuning::Regression);
    let p = boost_plan(Program::GbmOpt, "gbc_ord_opt").unwrap();
    assert!(p.ordinal && !p.multiclass);
    assert_eq!((p.iters, p.min_data_in_leaf, p.bagging_freq), (364, 59, 5));
    assert!(boost_plan(Program::GbmNew, "gbc1").unwrap().multiclass);
    assert_eq!(boost_plan(Program::GbmNew, "gbr4x"), None);
    assert_eq!(boost_plan(Program::Ridge, "gbr1"), None);
}

#[test]
fn plans_of_networks() {
    let p = net_plan(Program::Mlp, "mlpr1").unwrap();
    assert_eq!((p.hidden_1, p.hidden_2, p.iters, p.batch, p.patience), (64, 64, 64, 200, 10));
    let p = net_plan(Program::MlpOrdinal, "mlpc_ord_opt").unwrap();
    assert_eq!((p.hidden_1, p.hidden_2, p.batch, p.patience), (64, 32, 400, 7));
    assert!(p.ordinal);
    assert_eq!(net_plan(Program::MlpOrdinal, "mlpr1"), None);
}

#[test]
fn targets_of_ratings() {
    assert_eq!(ordinal_targets(1), [false, false, false, false]);
    assert_eq!(ordinal_targets(3), [true, true, false, false]);
    assert_eq!(ordinal_targets(5), [true, true, true, true]);
}
