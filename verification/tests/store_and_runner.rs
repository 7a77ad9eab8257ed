use netflix_prize::download::digest;
use netflix_prize::runner::CleanStep;
use netflix_prize::runner::Producers;
use netflix_prize::runner::RunStep;
use netflix_prize::runner::SetupStep;
use netflix_prize::runner::ShellEnd;
use netflix_prize::runner::Status;
use netflix_prize::runner::clean_candidates;
use netflix_prize::runner::clean_code;
use netflix_prize::runner::clean_step;
use netflix_prize::runner::diagnose_blocked;
use netflix_prize::runner::exit_code;
use netflix_prize::runner::format_blocked_detail;
use netflix_prize::runner::human;
use netflix_prize::runner::job_line;
use netflix_prize::runner::label;
use netflix_prize::runner::pad_right;
use netflix_prize::runner::run_step;
use netflix_prize::runner::setup_job;
use netflix_prize::runner::setup_next;
use netflix_prize::runner::status_of;
use netflix_prize::runner::step_code;
use netflix_prize::runner::tally_statuses;
use netflix_prize::specs::expand_specs;
use netflix_prize::store::FileEntry;
use netflix_prize::store::LocalState;
use netflix_prize::store::ManifestFiles;
use netflix_prize::store::PruneStep;
use netflix_prize::store::PullStep;
use netflix_prize::store::PushStep;
use netflix_prize::store::failure_report;
use netflix_prize::store::group_by_extension;
use netflix_prize::store::list_objects;
use netflix_prize::store::name_set;
use netflix_prize::store::orphans;
use netflix_prize::store::preview;
use netflix_prize::store::prune_step;
use netflix_prize::store::pull_plan;
use netflix_prize::store::pull_step;
use netflix_prize::store::push_plan;
use netflix_prize::store::push_step;
use netflix_prize::store::push_todo;
use netflix_prize::store::refreshes;
use netflix_prize::store::select_entries;
use netflix_prize::store::state_by_bytes;
use netflix_prize::store::state_by_size;
use netflix_prize::store::total_size;
use netflix_prize::store::upload_set;

fn names(list: &[&str]) -> Vec<String> {
    list.iter().map(|s| s.to_string()).collect()
}

fn index(list: &[(&str, u64)]) -> Vec<FileEntry> {
    list.iter().map(|(p, n)| FileEntry { path: p.to_string(), size: *n }).collect()
}

#[test]
fn pulling_what_the_patterns_select() {
    let all = index(&[("preds/a.qual.npy", 5), ("preds/a.probe.npy", 6), ("preds_new/b.qual.npy", 7)]);
    assert_eq!(select_entries(&all, &vec![]), Some(vec![0, 1, 2]));
    assert_eq!(select_entries(&all, &names(&["*.qual.npy"])), Some(vec![0, 2]));
    assert_eq!(select_entries(&all, &names(&["preds/*.probe.npy", "preds_new/*"])), Some(vec![1, 2]));
    assert_eq!(select_entries(&all, &names(&["nothing"])), None);
    assert_eq!(total_size(&all, &vec![0, 2]), Some(12));
    assert_eq!(total_size(&index(&[("a", u64::MAX), ("b", 1)]), &vec![0, 1]), None);
}

#[test]
fn a_pull_fetches_what_is_not_current() {
    let p = pull_plan(&vec![
        LocalState::Current,
        LocalState::Missing,
        LocalState::Stale,
        LocalState::Missing,
    ]);
    assert_eq!(p.todo, vec![1, 2, 3]);
    assert_eq!((p.current, p.missing, p.stale), (1, 2, 1));
}

#[test]
fn previews_are_cut() {
    assert_eq!(preview(&names(&["a", "b"])), names(&["  a", "  b"]));
    let many: Vec<String> = (0..23).map(|k| format!("f{}", k)).collect();
    let shown = preview(&many);
    assert_eq!(shown.len(), 21);
    assert_eq!(shown[19], "  f19");
    assert_eq!(shown[20], "  ... and 3 more");
}

#[test]
fn failures_are_counted_and_cut() {
    let few = names(&["x: 404", "y: 500"]);
    assert_eq!(failure_report(&few, " failed:\n  ", true), "2 failed:\n  x: 404\n  y: 500");
    let many: Vec<String> = (0..12).map(|k| format!("e{}", k)).collect();
    let told = failure_report(&many, " failed:\n  ", true);
    assert!(told.starts_with("12 failed:\n  e0\n  e1"));
    assert!(told.ends_with("e9\n  ... and 2 more"));
    assert!(failure_report(&many, " failed:\n  ", false).ends_with("e9"));
}

#[test]
fn names_without_repetition() {
    assert_eq!(name_set(names(&["b", "a", "b"])), names(&["a", "b"]));
}

#[test]
fn uploads_leave_training_predictions_out() {
    let m = ManifestFiles {
        preds: "preds".to_string(),
        training: names(&["train", "fulltrain"]),
        referenced: names(&[
            "preds/b.probe.npy",
            "preds/a.train.npy",
            "preds/a.qual.npy",
            "data/x.npy",
            "preds/b.probe.npy",
        ]),
        found: names(&["preds/a.out", "preds/a.cfg", "preds/z.npy"]),
    };
    let n = ManifestFiles {
        preds: "preds_new".to_string(),
        training: names(&["trainx", "fulltrain"]),
        referenced: names(&["preds_new/a.fulltrain.npy", "preds_new/a.probex.npy", "preds/a.qual.npy"]),
        found: names(&[]),
    };
    assert_eq!(
        upload_set(&vec![m, n]),
        names(&[
            "preds/a.cfg",
            "preds/a.out",
            "preds/a.qual.npy",
            "preds/b.probe.npy",
            "preds_new/a.probex.npy"
        ])
    );
}

#[test]
fn pushing_new_and_changed_files() {
    let old = index(&[("a", 1), ("gone", 2), ("c", 3)]);
    let set = names(&["a", "b", "c"]);
    let plan = push_plan(&set, &old);
    assert_eq!(plan.indexed, vec![0, 2]);
    assert_eq!(plan.fresh, names(&["b"]));
    let todo = push_todo(&plan, &old, &vec![LocalState::Stale, LocalState::Current]);
    assert_eq!(todo.todo, names(&["a", "b"]));
    assert_eq!((todo.unchanged, todo.changed), (1, 1));
    assert_eq!(orphans(&set, &old), vec![1]);
}

#[test]
fn what_was_pushed_is_not_pushed_again() {
    let set = names(&["a", "b"]);
    let now = index(&[("a", 1), ("b", 2)]);
    let plan = push_plan(&set, &now);
    let todo = push_todo(&plan, &now, &vec![LocalState::Current, LocalState::Current]);
    assert!(todo.todo.is_empty());
    assert!(orphans(&set, &now).is_empty());
}

#[test]
fn pruning_asks_first() {
    let current = vec![LocalState::Current, LocalState::Current];
    assert!(matches!(prune_step(&vec![], &vec![], true), PruneStep::Nothing));
    assert!(matches!(prune_step(&vec![3, 5], &current, false), PruneStep::DryRun));
    assert!(matches!(prune_step(&vec![3, 5], &current, true), PruneStep::Delete));
    let mixed = vec![LocalState::Current, LocalState::Stale];
    match prune_step(&vec![3, 5], &mixed, true) {
        PruneStep::Refuse(v) => assert_eq!(v, vec![5]),
        _ => panic!("a file without an intact copy may not be deleted"),
    }
}

#[test]
fn extensions_largest_first() {
    let all = index(&[("a.npy", 10), ("b.out", 50), ("c.npy", 20), ("d.cfg", 1)]);
    let rows = group_by_extension(&all, &vec![0, 1, 2, 3]);
    let got: Vec<(&str, usize, u64)> =
        rows.iter().map(|r| (r.ext.as_str(), r.count, r.bytes)).collect();
    assert_eq!(got, vec![("out", 1, 50), ("npy", 2, 30), ("cfg", 1, 1)]);
}

fn producers() -> Producers {
    Producers { files: names(&["f1", "f2", "f3"]), jobs: names(&["one", "two", "one"]) }
}

#[test]
fn producers_of_files() {
    let p = producers();
    assert_eq!(p.get("f3"), Some(&"one".to_string()));
    assert_eq!(p.get("f4"), None);
    let (jobs, files) = diagnose_blocked(&names(&["f2", "x", "f1", "f3", "y"]), &p);
    assert_eq!(jobs, names(&["two", "one"]));
    assert_eq!(files, names(&["x", "y"]));
}

#[test]
fn blocked_details() {
    let p = producers();
    assert_eq!(format_blocked_detail(&names(&["x"]), &p), "  (missing: x)");
    assert_eq!(format_blocked_detail(&names(&["x", "y"]), &p), "  (missing 2: x, ...)");
    assert_eq!(format_blocked_detail(&names(&["f1", "f2"]), &p), "  (blocked by: one, two)");
    assert_eq!(format_blocked_detail(&names(&["f1", "x"]), &p), "  (blocked by: one, +1 file)");
    assert_eq!(
        format_blocked_detail(&names(&["f1", "x", "y"]), &p),
        "  (blocked by: one, +2 files)"
    );
}

#[test]
fn job_lists() {
    assert_eq!(label(&Status::Done), "DONE");
    assert_eq!(label(&Status::Ready), "READY");
    assert_eq!(label(&Status::Blocked(names(&["x"]))), "BLOCKED");
    assert_eq!(pad_right("ab", 4), "ab  ");
    assert_eq!(pad_right("abcde", 4), "abcde");
    let line = job_line("als8", &Some("model".to_string()), &Status::Blocked(names(&["f2"])), &producers());
    assert_eq!(line, format!("  {:<30} {:<15} {}", "als8", "model", "BLOCKED  (blocked by: two)"));
    let line = job_line("als8", &None, &Status::Done, &producers());
    assert!(line.ends_with(" DONE"));
    let c = tally_statuses(&vec![Status::Done, Status::Blocked(names(&["x"])), Status::Done, Status::Ready]);
    assert_eq!((c.done, c.ready, c.blocked), (2, 1, 1));
}

#[test]
fn steps_of_a_run() {
    let blocked = Status::Blocked(names(&["x"]));
    assert_eq!(run_step(None, true), RunStep::Unknown);
    assert_eq!(run_step(Some(&blocked), false), RunStep::Blocked);
    assert_eq!(run_step(Some(&Status::Done), false), RunStep::Skip);
    assert_eq!(run_step(Some(&Status::Done), true), RunStep::Run);
    assert_eq!(run_step(Some(&Status::Ready), false), RunStep::Run);
    assert_eq!(step_code(RunStep::Run), None);
    assert_eq!(step_code(RunStep::Skip), Some(0));
    assert_eq!(exit_code(ShellEnd::Success), 0);
}

#[test]
fn setting_up_stops_at_the_first_failure() {
    let mut step = SetupStep::Build;
    let mut seen = Vec::new();
    while step != SetupStep::Finished {
        seen.push(step);
        step = setup_next(step, 0).unwrap();
    }
    assert_eq!(
        seen,
        vec![SetupStep::Build, SetupStep::Download, SetupStep::Ingest, SetupStep::NewSplit]
    );
    assert_eq!(setup_next(SetupStep::Download, 3), Err(3));
    assert_eq!(setup_job(SetupStep::Build), None);
    assert_eq!(setup_job(SetupStep::Ingest).unwrap().0, "ingest");
}

#[test]
fn cleaning_spares_what_is_referred_to() {
    let found = names(&["preds/b", "preds/a", "features/z"]);
    assert_eq!(clean_candidates(&found, &names(&["preds/b"])), names(&["features/z", "preds/a"]));
}

#[test]
fn sizes_of_directories() {
    assert_eq!(human(0), "0 B");
    assert_eq!(human(1_048_575), "1048575 B");
    assert_eq!(human(1_048_576), "1 MB");
    assert_eq!(human(2_097_151), "1 MB");
    assert_eq!(human(1_073_741_824), "1.0 GB");
    for n in [1_073_741_824u64, 1_127_428_915, 1_127_428_916, 5_000_000_000, 1 << 60, u64::MAX] {
        assert_eq!(human(n), format!("{:.1} GB", n as f64 / (1u64 << 30) as f64));
    }
}

#[test]
fn braces_are_written_out() {
    assert_eq!(expand_specs("a{1,2}b{x,y}"), names(&["a1bx", "a1by", "a2bx", "a2by"]));
    assert_eq!(expand_specs(">mf-61"), names(&[">mf-61"]));
    assert_eq!(expand_specs("open{1,2"), names(&["open{1,2"]));
}

#[test]
fn a_job_is_judged_by_its_files() {
    let inputs = names(&["a", "b", "c"]);
    assert!(matches!(status_of(&vec![true, true], &inputs, &vec![false, false, false]), Status::Done));
    assert!(matches!(status_of(&vec![], &inputs, &vec![true, true, true]), Status::Ready));
    match status_of(&vec![true, false], &inputs, &vec![false, true, false]) {
        Status::Blocked(missing) => assert_eq!(missing, names(&["a", "c"])),
        _ => panic!("two inputs are missing"),
    }
}

#[test]
fn a_local_file_is_judged_by_size_and_then_by_bytes() {
    assert_eq!(state_by_size(None, 3, true), Some(LocalState::Missing));
    assert_eq!(state_by_size(Some(4), 3, true), Some(LocalState::Stale));
    assert_eq!(state_by_size(Some(3), 3, true), Some(LocalState::Current));
    assert_eq!(state_by_size(Some(3), 3, false), None);
    assert_eq!(state_by_bytes(b"abc", "900150983cd24fb0d6963f7d28e17f72"), LocalState::Current);
    assert_eq!(state_by_bytes(b"abd", "900150983cd24fb0d6963f7d28e17f72"), LocalState::Stale);
    assert_eq!(digest(b"abc"), "900150983cd24fb0d6963f7d28e17f72");
}

#[test]
fn nothing_is_fetched_where_all_is_current() {
    let plan = pull_plan(&vec![LocalState::Current, LocalState::Current]);
    assert!(plan.todo.is_empty());
    assert_eq!(plan.current, 2);
}

#[test]
fn transfers_are_told_or_made() {
    assert_eq!(pull_step(0, true), PullStep::Nothing);
    assert_eq!(pull_step(0, false), PullStep::Nothing);
    assert_eq!(pull_step(3, true), PullStep::DryRun);
    assert_eq!(pull_step(3, false), PullStep::Download);
    assert_eq!(push_step(0, true), PushStep::UpToDate);
    assert_eq!(push_step(0, false), PushStep::UpToDate);
    assert_eq!(push_step(1, true), PushStep::DryRun);
    assert_eq!(push_step(1, false), PushStep::Upload);
    assert!(refreshes(0));
    assert!(!refreshes(1));
}

#[test]
fn listings_leave_out_the_index() {
    assert_eq!(
        list_objects(" preds/a.npy \r\n\nindex.toml\npreds/index.toml\n", "index.toml"),
        names(&["preds/a.npy", "preds/index.toml"])
    );
    assert!(list_objects("", "index.toml").is_empty());
}

#[test]
fn cleans_need_force() {
    assert_eq!(clean_step(0, true), CleanStep::Nothing);
    assert_eq!(clean_step(2, false), CleanStep::DryRun);
    assert_eq!(clean_step(2, true), CleanStep::Delete);
    assert_eq!((clean_code(0), clean_code(2)), (0, 1));
}
