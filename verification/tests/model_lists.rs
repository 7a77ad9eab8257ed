use indexmap::IndexMap;
use netflix_prize::expected::find_named;
use netflix_prize::expected::record_rows;
use netflix_prize::expected::update_expected;
use netflix_prize::expected::UpdateError;
use netflix_prize::models::expand_all;
use netflix_prize::models::expand_globs;
use netflix_prize::models::flatten_groups;
use netflix_prize::models::flatten_models;
use netflix_prize::models::manual_only;
use netflix_prize::models::put_manual;
use netflix_prize::models::put_models;
use netflix_prize::models::read_models;
use netflix_prize::models::select_groups;
use netflix_prize::models::strip_all;
use netflix_prize::models::ModelsError;
use netflix_prize::runner::build_producers;
use netflix_prize::tool_args::ReportRow;

const LIST: &str = "knn = [\"knn-{1,2}\", \">raw\"]\nmf = ['mf-60', 'knn-2', 'raw']\n";

fn names(list: &[&str]) -> Vec<String> {
    list.iter().map(|s| s.to_string()).collect()
}

fn groups() -> IndexMap<String, Vec<String>> {
    match read_models(LIST, &vec![]) {
        Ok(g) => g,
        Err(_) => panic!("a list of groups"),
    }
}

fn shape(groups: &IndexMap<String, Vec<String>>) -> Vec<(String, usize)> {
    groups.iter().map(|(name, texts)| (name.clone(), texts.len())).collect()
}

#[test]
fn groups_keep_their_order() {
    assert_eq!(shape(&groups()), vec![("knn".to_string(), 2), ("mf".to_string(), 3)]);
    assert!(matches!(read_models("knn = [1]", &vec![]), Err(ModelsError::Unreadable(_))));
    assert!(matches!(read_models("knn =", &vec![]), Err(ModelsError::Unreadable(_))));
    assert!(matches!(read_models(LIST, &names(&["mf", "svd"])), Err(ModelsError::NoGroup(1))));
}

#[test]
fn groups_are_chosen_by_name() {
    let all = groups();
    let mf_first = select_groups(&all, &names(&["mf", "knn", "mf"])).unwrap_or_else(|_| panic!("known"));
    assert_eq!(shape(&mf_first), vec![("mf".to_string(), 3), ("knn".to_string(), 2)]);
    let every = select_groups(&all, &names(&["all"])).unwrap_or_else(|_| panic!("known"));
    assert_eq!(shape(&every), shape(&all));
    let mut own = groups();
    put_models(&mut own, &"all".to_string(), &names(&["x"]));
    let one = select_groups(&own, &names(&["all"])).unwrap_or_else(|_| panic!("known"));
    assert_eq!(shape(&one), vec![("all".to_string(), 1)]);
    assert_eq!(select_groups(&all, &names(&["knn", "x"])).err(), Some(1));
    assert_eq!(select_groups(&all, &vec![]).unwrap_or_else(|_| panic!("all")), all);
    let mixed = select_groups(&all, &names(&["mf", "all", "knn"])).unwrap_or_else(|_| panic!("known"));
    assert_eq!(shape(&mixed), vec![("mf".to_string(), 3), ("knn".to_string(), 2)]);
}

#[test]
fn a_group_is_put_in_the_place_of_its_name() {
    let mut g = groups();
    put_models(&mut g, &"manual".to_string(), &names(&["a"]));
    put_models(&mut g, &"knn".to_string(), &names(&["b", "c", "d"]));
    assert_eq!(shape(&g), vec![("knn".to_string(), 3), ("mf".to_string(), 3), ("manual".to_string(), 1)]);
}

#[test]
fn models_named_one_by_one() {
    let mut g = groups();
    put_manual(&mut g, &vec![]);
    assert_eq!(g, groups());
    put_manual(&mut g, &names(&["a", "b"]));
    assert_eq!(g.get("manual"), Some(&names(&["a", "b"])));
    assert_eq!(g.len(), 3);
    assert!(manual_only(&vec![], &names(&["a"])));
    assert!(!manual_only(&names(&["mf"]), &names(&["a"])));
    assert!(!manual_only(&vec![], &vec![]));
}

#[test]
fn models_are_flattened_over_the_groups() {
    assert_eq!(flatten_models(&groups()), names(&["knn-1", "knn-2", ">raw", "mf-60"]));
    assert_eq!(expand_all(&names(&["a{1,2}", "b"])), names(&["a1", "a2", "b"]));
    assert_eq!(strip_all(&names(&[">a", "b", ">>c"])), names(&["a", "b", "c"]));
}

#[test]
fn groups_are_laid_out_as_columns() {
    let s = flatten_groups(&groups(), &vec![], "new", "preds_new");
    assert_eq!(s.names, names(&["knn-1", "knn-2", "raw", "mf-60"]));
    assert_eq!(s.clip, vec![true, true, false, true]);
    assert_eq!(s.group_names, names(&["knn", "mf"]));
    assert_eq!(s.group_indices, vec![vec![0, 1, 2], vec![3, 1, 2]]);
    assert_eq!((s.label.as_str(), s.dir.as_str()), ("new", "preds_new"));
}

#[test]
fn models_left_out_are_in_no_group() {
    let s = flatten_groups(&groups(), &names(&[">knn-{2,3}", "raw"]), "", "preds");
    assert_eq!(s.names, names(&["knn-1", "mf-60"]));
    assert_eq!(s.group_indices, vec![vec![0], vec![1]]);
}

#[test]
fn stars_stand_for_the_columns_of_a_set() {
    let files = names(&["mf-60.probe.npy", "mf-61.probe.npy", "mf-62.qual.npy", "knn.probe.npy"]);
    let asked = names(&["knn", ">mf-*", "*0"]);
    assert_eq!(expand_globs(&asked, &files, "probe"), names(&["knn", ">mf-60", ">mf-61", "mf-60"]));
}

fn row(name: &str, probe: Option<&str>, quiz: Option<&str>) -> ReportRow {
    ReportRow {
        name: name.to_string(),
        probe: probe.map(|s| s.to_string()),
        quiz: quiz.map(|s| s.to_string()),
    }
}

#[test]
fn the_numbers_of_a_run_replace_those_recorded() {
    let text = "# kept\n[[ensemble]]\nname = \"a\"\n\n[[ensemble]]\nname = \"b\"\nlambda = 10.0\n\n[ensemble.expected]\nold = { probe = 1.0 }\n";
    let rows = vec![row("all", Some("0.871234"), Some("0.856000")), row("all + x", Some("1.0"), None)];
    match update_expected(text, "b", &rows, true, false) {
        Ok((t, n)) => {
            assert_eq!(n, 1);
            assert!(t.starts_with("# kept\n"));
            assert!(t.contains("all = { probe = 0.871234 }"));
            assert!(!t.contains("old ="));
            assert!(t.contains("lambda = 10.0"));
        }
        Err(e) => panic!("{:?}", e),
    }
}

#[test]
fn an_update_fails_where_there_is_nothing_to_update() {
    let rows = vec![row("all", Some("0.9"), None)];
    assert_eq!(update_expected("a = ", "b", &rows, true, true).err(), Some(UpdateError::NotToml));
    assert_eq!(update_expected("a = 1", "b", &rows, true, true).err(), Some(UpdateError::NoTables));
    let text = "[[ensemble]]\nname = \"a\"\n";
    assert_eq!(update_expected(text, "b", &rows, true, true).err(), Some(UpdateError::NoEnsemble));
    let bad = vec![row("all", Some("x y"), None)];
    assert_eq!(update_expected(text, "a", &bad, true, true).err(), Some(UpdateError::NotAValue));
}

#[test]
fn rows_are_recorded_with_the_numbers_that_are_kept() {
    let rows = vec![row("a", Some("1.0"), Some("2.0")), row("b", Some("3.0"), None)];
    let both = record_rows(&rows, true, true);
    assert_eq!(both[0], ("a".to_string(), "{ probe = 1.0, quiz = 2.0 }".to_string()));
    assert_eq!(record_rows(&rows, false, true), vec![("a".to_string(), "{ quiz = 2.0 }".to_string())]);
    assert_eq!(find_named(&vec![None, Some("a".to_string())], "a"), 1);
    assert_eq!(find_named(&vec![None, Some("a".to_string())], "b"), 2);
}

#[test]
fn the_last_job_produces_a_file() {
    let outputs = vec![names(&["x", "y"]), names(&["y", "z"])];
    let p = build_producers(&names(&["one", "two"]), &outputs);
    let of = |f: &str| p.get(f).cloned();
    assert_eq!(of("x"), Some("one".to_string()));
    assert_eq!(of("y"), Some("two".to_string()));
    assert_eq!(of("z"), Some("two".to_string()));
    assert_eq!(of("w"), None);
}
