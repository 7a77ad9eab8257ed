use indexmap::IndexMap;
use netflix_prize::folds::assign_folds;
use netflix_prize::folds::assign_from;
use netflix_prize::folds::build_folds;
use netflix_prize::folds::build_sel_rows;
use netflix_prize::folds::cut_folds;
use netflix_prize::folds::permuted_folds;
use netflix_prize::folds::sort_rows;
use netflix_prize::folds::sorted_head;
use netflix_prize::fwls::block_rows;
use netflix_prize::fwls::build_union;
use netflix_prize::fwls::check_state;
use netflix_prize::fwls::colindex;
use netflix_prize::fwls::interaction_count;
use netflix_prize::fwls::packed_layout;
use netflix_prize::fwls::pair_list;
use netflix_prize::fwls::StateError;
use netflix_prize::fwls::StateShape;
use netflix_prize::gram::count_rows;
use netflix_prize::gram::fold_members;
use netflix_prize::gram::part_places;
use netflix_prize::gram::row_blocks;
use netflix_prize::gram::with_bias;
use netflix_prize::gram::Block;
use netflix_prize::groups::fixed_columns;
use netflix_prize::registry::add_extras;
use netflix_prize::registry::added_only;
use netflix_prize::registry::build_registry;
use netflix_prize::registry::display_names;
use netflix_prize::registry::drop_noclip;
use netflix_prize::registry::flatten_specs;
use netflix_prize::registry::glob_voting;
use netflix_prize::registry::is_marked;
use netflix_prize::registry::list_files;
use netflix_prize::registry::missing_columns;
use netflix_prize::registry::plan_fits;
use netflix_prize::registry::preds_path;
use netflix_prize::registry::strip_marks;
use netflix_prize::registry::Column;
use netflix_prize::registry::Registry;
use netflix_prize::registry::Selection;
use rand::rngs::StdRng;
use rand::seq::SliceRandom;
use rand::SeedableRng;

fn names(list: &[&str]) -> Vec<String> {
    list.iter().map(|s| s.to_string()).collect()
}

fn selection(label: &str, dir: &str, list: &[&str], clip: Vec<bool>, groups: &[(&str, Vec<usize>)]) -> Selection {
    Selection {
        label: label.to_string(),
        dir: dir.to_string(),
        names: names(list),
        clip,
        group_names: groups.iter().map(|g| g.0.to_string()).collect(),
        group_indices: groups.iter().map(|g| g.1.clone()).collect(),
    }
}

fn two_splits(cross: bool) -> Registry {
    let old = selection("old", "preds", &["a", "b"], vec![true, false], &[("g", vec![0, 1]), ("h", vec![1])]);
    let new = selection("new", "preds_new", &["a", "preds_lab/z"], vec![true, true], &[("g", vec![1, 0])]);
    build_registry(&vec![old, new], cross)
}

fn entries(r: &Registry) -> Vec<(String, Vec<usize>)> {
    r.groups.iter().map(|(k, v)| (k.clone(), v.clone())).collect()
}

#[test]
fn groups_of_several_splits() {
    let r = two_splits(true);
    assert_eq!(r.columns.len(), 4);
    assert_eq!(
        entries(&r),
        vec![
            ("old/g".to_string(), vec![0, 1]),
            ("old/h".to_string(), vec![1]),
            ("new/g".to_string(), vec![3, 2])
        ]
    );
    assert_eq!(display_names(&r.columns, true), names(&["old/a", "old/b", "new/a", "preds_lab/z"]));
    assert_eq!(display_names(&r.columns, false), names(&["a", "b", "a", "preds_lab/z"]));
    assert_eq!(fixed_columns(&r.groups, "old/h"), Some(vec![1]));
    assert_eq!(fixed_columns(&r.groups, "h"), None);
}

#[test]
fn a_group_named_twice_keeps_its_place() {
    let r = two_splits(false);
    assert_eq!(entries(&r), vec![("g".to_string(), vec![3, 2]), ("h".to_string(), vec![1])]);
}

#[test]
fn unclipped_columns_are_dropped() {
    let (r, dropped) = drop_noclip(two_splits(true));
    assert_eq!(dropped, names(&["b"]));
    let left: Vec<&str> = r.columns.iter().map(|c| c.name.as_str()).collect();
    assert_eq!(left, vec!["a", "a", "preds_lab/z"]);
    assert_eq!(
        entries(&r),
        vec![("old/g".to_string(), vec![0]), ("new/g".to_string(), vec![2, 1])]
    );
    let one = selection("old", "preds", &["a"], vec![true], &[("empty", vec![])]);
    let (r, dropped) = drop_noclip(build_registry(&vec![one], false));
    assert!(dropped.is_empty());
    assert_eq!(entries(&r), vec![("empty".to_string(), vec![])]);
}

#[test]
fn marks() {
    assert_eq!(strip_marks(">>a>b"), "a>b");
    assert!(is_marked(">a") && !is_marked("a>"));
}

#[test]
fn columns_on_top_of_an_ensemble() {
    let r = match add_extras(two_splits(true), &names(&["preds_lab/x", ">y"]), false) {
        Ok(r) => r,
        Err(k) => panic!("{}", k),
    };
    assert_eq!(r.columns.len(), 6);
    assert!(r.columns[4].clip && !r.columns[5].clip);
    assert_eq!((r.columns[5].name.as_str(), r.columns[5].dir.as_str()), ("y", "preds_new"));
    assert_eq!(entries(&r).len(), 3);
    assert_eq!(add_extras(two_splits(true), &names(&["x", ">y"]), true).err(), Some(1));
}

#[test]
fn files_of_columns() {
    let c = |name: &str| Column {
        name: name.to_string(),
        clip: true,
        dir: "preds".to_string(),
        label: "old".to_string(),
    };
    assert_eq!(preds_path(&c("a"), "qual"), "preds/a.qual.npy");
    assert_eq!(preds_path(&c("preds_lab/a"), "qual"), "preds_lab/a.qual.npy");
    assert_eq!(
        list_files(&vec![c("a"), c("b")], &names(&["probe", "qual"])),
        names(&["preds/a.probe.npy", "preds/b.probe.npy", "preds/a.qual.npy", "preds/b.qual.npy"])
    );
    assert_eq!(missing_columns(&vec![true, false, true, false]), vec![1, 3]);
    let shown = names(&["a", "b", "c", "d"]);
    assert!(added_only(&vec![3, 7], &shown, 3));
    assert!(!added_only(&vec![2, 7], &shown, 3));
    assert!(added_only(&vec![], &shown, 4));
    // A stored column that shares its name with an added one counts as added.
    let shared = names(&["a", "b", "a"]);
    assert!(added_only(&vec![0, 2], &shared, 2));
    assert!(!added_only(&vec![0, 1], &shared, 2));
}

#[test]
fn rows_of_a_report() {
    let r = two_splits(true);
    let shown = display_names(&r.columns, true);
    let rows = |ensemble: bool, ref_m: usize| -> Vec<(String, Vec<usize>)> {
        plan_fits(&r, ensemble, ref_m, &shown).into_iter().map(|f| (f.name, f.columns)).collect()
    };
    let all = rows(false, 4);
    assert_eq!(all.len(), 4);
    assert_eq!(all[3], ("all*".to_string(), vec![0, 1, 2, 3]));
    let reference = rows(true, 4);
    assert_eq!(reference.last(), Some(&("ensemble".to_string(), vec![0, 1, 2, 3])));
    let extended = rows(true, 3);
    assert_eq!(extended[3], ("ensemble".to_string(), vec![0, 1, 2]));
    assert_eq!(extended[4], ("ensemble + preds_lab/z".to_string(), vec![0, 1, 2, 3]));
    let one = build_registry(&vec![selection("old", "p", &["a"], vec![true], &[("g", vec![0])])], false);
    assert_eq!(plan_fits(&one, false, 1, &names(&["a"])).len(), 1);
}

#[test]
fn groups_flatten_without_repetition() {
    assert_eq!(flatten_specs(&names(&["a", "b", "a", ">b", "b", ">>c"])), names(&["a", ">b", ">>c"]));
    assert!(flatten_specs(&vec![]).is_empty());
}

#[test]
fn voting_files() {
    let files = names(&["vf10.qual.npy", "vf2.qual.npy", "vfx.qual.npy", "vf3.probe.npy", "a.qual.npy"]);
    assert_eq!(glob_voting(&files, "qual"), names(&["vf10", "vf2"]));
}

#[test]
fn a_map_of_groups_answers_by_name() {
    let mut m: IndexMap<String, Vec<usize>> = IndexMap::new();
    m.insert("x".to_string(), vec![4, 2]);
    assert_eq!(fixed_columns(&m, "x"), Some(vec![4, 2]));
    assert_eq!(fixed_columns(&m, "y"), None);
}

fn by_hand(n: usize, seed: u64) -> Vec<usize> {
    let mut rows: Vec<usize> = (0..n).collect();
    rows.shuffle(&mut StdRng::seed_from_u64(seed));
    rows
}

#[test]
fn folds_are_cuts_of_a_shuffle() {
    let folds = permuted_folds(10, 3, 42);
    let sizes: Vec<usize> = folds.iter().map(|f| f.len()).collect();
    assert_eq!(sizes, vec![3, 3, 4]);
    let all: Vec<usize> = folds.concat();
    assert_eq!(all, by_hand(10, 42));
    assert_ne!(all, (0..10).collect::<Vec<usize>>());
    let mut sorted = all.clone();
    sorted.sort();
    assert_eq!(sorted, (0..10).collect::<Vec<usize>>());
    assert_ne!(permuted_folds(10, 3, 43).concat(), all);
}

#[test]
fn cuts() {
    assert_eq!(cut_folds(&vec![9, 8, 7, 6, 5], 2), vec![vec![9, 8], vec![7, 6, 5]]);
    assert_eq!(cut_folds(&vec![9], 3), vec![vec![], vec![], vec![9]]);
}

#[test]
fn every_row_gets_its_fold() {
    let of = assign_folds(20, 4, 7);
    let folds = permuted_folds(20, 4, 7);
    for f in 0..4 {
        for r in &folds[f] {
            assert_eq!(of[*r], f as u32);
        }
    }
    assert_eq!(assign_folds(3, 1, 7), vec![0, 0, 0]);
    assert_eq!(assign_from(&vec![vec![2], vec![0]], 4), vec![1, 0, 0, 0]);
}

#[test]
fn rows_drawn_for_a_selection() {
    assert_eq!(build_sel_rows(4, 4, 1), vec![0, 1, 2, 3]);
    let mut expected = by_hand(30, 5)[..7].to_vec();
    expected.sort();
    assert_eq!(build_sel_rows(30, 7, 5), expected);
    assert_eq!(sort_rows(&vec![3, 1, 2]), vec![1, 2, 3]);
    assert_eq!(sorted_head(&vec![3, 1, 2], 2), vec![1, 3]);
}

#[test]
fn folds_of_drawn_rows() {
    let sel = vec![10, 20, 30, 40, 50];
    assert_eq!(build_folds(&sel, 1, 3), vec![sel.clone()]);
    let folds = build_folds(&sel, 2, 3);
    let cut = permuted_folds(5, 2, 3);
    for f in 0..2 {
        let mut expected: Vec<usize> = cut[f].iter().map(|i| sel[*i]).collect();
        expected.sort();
        assert_eq!(folds[f], expected);
    }
}

#[test]
fn packed_triangles() {
    let (starts, total) = packed_layout(4);
    assert_eq!(starts, vec![0, 4, 7, 9]);
    assert_eq!(total, 10);
    assert_eq!(packed_layout(0), (vec![], 0));
}

#[test]
fn pairs_of_columns() {
    let pairs = pair_list(4);
    assert_eq!(pairs.len(), 10);
    for (c, (i, j)) in pairs.iter().enumerate() {
        assert_eq!(colindex(*i as usize, *j as usize), c);
        assert_eq!(colindex(*j as usize, *i as usize), c);
    }
    assert_eq!(pairs[..4], [(0, 0), (0, 1), (1, 1), (0, 2)]);
    assert_eq!(interaction_count(3, 4), 13);
}

#[test]
fn blocks_that_fit_the_memory() {
    // 256 MB hold 32 million numbers of eight bytes.
    assert_eq!(block_rows(1_000, 1_000_000, 1), 32_000);
    assert_eq!(block_rows(1_000, 500, 1), 500);
    assert_eq!(block_rows(100_000_000, 50, 4), 4);
}

#[test]
fn the_union_of_models_and_features() {
    let (u, n) = build_union(&names(&["a", "b"]), &vec![true, false], &names(&["b", "c"]));
    assert_eq!(n, 2);
    let got: Vec<(&str, bool, bool, bool)> =
        u.iter().map(|c| (c.name.as_str(), c.clip, c.is_model, c.is_feature)).collect();
    assert_eq!(
        got,
        vec![
            ("a", true, true, false),
            ("b", false, true, true),
            ("c", false, false, true),
            ("<const>", false, false, true)
        ]
    );
}

#[test]
fn stored_states() {
    let shape = || StateShape {
        version: 2,
        dpair: 3,
        k_folds: 2,
        fold_yty: 2,
        fold_n: 2,
        gram_lens: vec![6, 6],
        rhs_lens: vec![3, 3],
    };
    assert_eq!(check_state(&shape()), None);
    assert_eq!(check_state(&StateShape { version: 3, ..shape() }), Some(StateError::TooNew));
    assert_eq!(check_state(&StateShape { fold_yty: 1, ..shape() }), Some(StateError::FoldSums));
    assert_eq!(check_state(&StateShape { fold_n: 1, ..shape() }), Some(StateError::FoldCounts));
    assert_eq!(
        check_state(&StateShape { gram_lens: vec![6, 5], ..shape() }),
        Some(StateError::Gram(1))
    );
    assert_eq!(
        check_state(&StateShape { rhs_lens: vec![2, 3], ..shape() }),
        Some(StateError::Rhs(0))
    );
}

#[test]
fn passes_in_blocks() {
    assert_eq!(
        row_blocks(7, 3),
        vec![Block { start: 0, len: 3 }, Block { start: 3, len: 3 }, Block { start: 6, len: 1 }]
    );
    assert_eq!(row_blocks(3, 3), vec![Block { start: 0, len: 3 }]);
    assert!(row_blocks(0, 3).is_empty());
    for n in 0..40usize {
        let covered: usize = row_blocks(n, 7).iter().map(|b| b.len).sum();
        assert_eq!(covered, n);
    }
}

#[test]
fn members_of_a_fold_in_a_block() {
    let of = vec![0, 1, 2, 1, 1, 0];
    assert_eq!(fold_members(&of, Block { start: 2, len: 3 }, 1), vec![1, 2]);
    assert_eq!(fold_members(&of, Block { start: 0, len: 6 }, 0), vec![0, 5]);
    assert!(fold_members(&of, Block { start: 0, len: 2 }, 2).is_empty());
}

#[test]
fn quiz_and_test_rows() {
    assert_eq!(count_rows(&vec![0, 1, 0, 1, 1]), (2, 3));
    assert_eq!(count_rows(&vec![]), (0, 0));
}

#[test]
fn parts_of_a_system() {
    assert_eq!(with_bias(&vec![4, 1], 6), vec![4, 1, 5]);
    assert_eq!(part_places(&vec![2, 0], 3), vec![8, 6, 2, 0]);
}
