use netflix_prize::fs_args::SelectMode;
use netflix_prize::selection::after_epoch;
use netflix_prize::selection::first_min;
use netflix_prize::selection::next_stage;
use netflix_prize::selection::pair_count;
use netflix_prize::selection::pairs_target;
use netflix_prize::selection::Course;
use netflix_prize::selection::Forward;
use netflix_prize::selection::Interactions;
use netflix_prize::selection::Patience;
use netflix_prize::selection::Stage;
use netflix_prize::selection::SINGULAR;

fn key(x: f64) -> u64 {
    x.to_bits()
}

#[test]
fn keys_order_as_their_numbers_do() {
    let mut last = key(0.0);
    for x in [1e-300, 0.5, 0.9, 0.9000001, 1.0, 3.5, 1e300] {
        assert!(last < key(x));
        last = key(x);
    }
    assert_eq!(SINGULAR, key(f64::INFINITY));
    assert!(last < SINGULAR);
}

#[test]
fn the_first_of_the_least() {
    assert_eq!(first_min(&vec![5, 2, 9, 2]), 1);
    assert_eq!(first_min(&vec![SINGULAR]), 0);
}

#[test]
fn patience_runs_out() {
    let mut p = Patience::new();
    assert!(!p.note(key(1.0), 0, Some(2)));
    assert!(!p.note(key(0.9), 1, Some(2)));
    assert!(!p.note(key(0.95), 2, Some(2)));
    assert!(p.note(key(0.9), 3, Some(2)));
    assert_eq!((p.best, p.best_step, p.since_best), (key(0.9), 1, 2));
    p.restart();
    assert_eq!((p.best, p.since_best), (key(0.9), 0));
    assert!(!p.note(key(2.0), 4, None));
}

#[test]
fn epochs_without_progress() {
    assert_eq!(after_epoch(3, false, 10), (0, false));
    assert_eq!(after_epoch(3, true, 10), (4, false));
    assert!(after_epoch(10, true, 10).1);
}

#[test]
fn a_forward_selection() {
    let mut f = Forward::new(4, &vec![2], Some(3));
    assert_eq!((f.selected.clone(), f.remaining.clone(), f.target), (vec![2], vec![0, 1, 3], 3));
    f.note_baseline(key(1.0));
    assert!(f.more());
    assert_eq!(f.step(&vec![key(0.9), key(0.8), key(0.8)], None), (1, false));
    assert_eq!((f.selected.clone(), f.remaining.clone()), (vec![2, 1], vec![0, 3]));
    assert_eq!(f.patience.best_step, 1);
    assert!(f.more());
    let (_, over) = f.step(&vec![key(0.85), key(0.95)], Some(1));
    assert!(over && !f.more());
    assert_eq!(f.selected, vec![2, 1, 0]);
    assert_eq!(f.patience.best, key(0.8));
}

#[test]
fn a_selection_of_everything() {
    let mut f = Forward::new(2, &vec![], None);
    while f.more() {
        let n = f.remaining.len();
        f.step(&vec![SINGULAR; n], None);
    }
    assert_eq!(f.selected, vec![0, 1]);
    assert_eq!(Forward::new(2, &vec![], Some(99)).target, 2);
}

// Two models, one feature and the constant: the pairs are (0,0), (0,1), (1,1), (0,2), (1,2),
// (2,2), (0,3), (1,3), (2,3), (3,3).
#[test]
fn interactions_pair_by_pair() {
    assert_eq!(pair_count(4), 10);
    let mut s = Interactions::new(4, 2);
    assert_eq!(s.selected, vec![9]);
    assert_eq!(s.forced_candidates(), vec![6, 7]);
    assert_eq!(s.free_candidates(), vec![0, 1, 2, 3, 4, 5, 6, 7, 8]);
    s.take(7);
    assert_eq!(s.forced_candidates(), vec![6]);
    assert_eq!(s.free_candidates(), vec![0, 1, 2, 3, 4, 5, 6, 8]);
    assert_eq!(s.selected, vec![9, 7]);
}

#[test]
fn interactions_column_by_column() {
    let mut s = Interactions::new(4, 2);
    s.take_forced(0);
    assert_eq!(s.selected, vec![9, 6]);
    let offers = s.column_candidates();
    let got: Vec<(usize, bool, Vec<usize>)> =
        offers.iter().map(|o| (o.column, o.as_model, o.block.clone())).collect();
    // As a model a column meets the constant, as a feature the first model.
    assert_eq!(
        got,
        vec![
            (0, false, vec![0]),
            (1, true, vec![7]),
            (1, false, vec![1]),
            (2, true, vec![8]),
            (2, false, vec![3]),
        ]
    );
    s.take_column(&offers[4]);
    assert_eq!(s.selected, vec![9, 6, 3]);
    let next = s.column_candidates();
    let second = next.iter().find(|o| o.column == 1 && o.as_model).unwrap();
    assert_eq!(second.block, vec![4, 7]);
    s.take_column(second);
    // The selection is the product of the chosen models and the chosen features.
    let mut all = s.selected.clone();
    all.sort();
    assert_eq!(all, vec![3, 4, 6, 7, 9]);
}

#[test]
fn targets_of_a_selection() {
    assert_eq!(pairs_target(None, 10, 0), 10);
    assert_eq!(pairs_target(Some(4), 10, 0), 4);
    assert_eq!(pairs_target(Some(99), 10, 0), 99);
    assert_eq!(pairs_target(Some(1), 10, 3), 4);
}

fn course(mode: SelectMode, force: u64, most: Option<u64>, limit: Option<u64>) -> Course {
    Course::new(mode, force, 2, most, 6, limit, 100)
}

#[test]
fn stages_of_a_selection() {
    let (pairs, column) = (SelectMode::Pairs, SelectMode::Column);
    assert_eq!(next_stage(0, 1, 0, 2, 1, pairs, None), Stage::Forced);
    assert_eq!(next_stage(2, 3, 2, 2, 4, pairs, Some(1)), Stage::Free);
    assert_eq!(next_stage(2, 4, 2, 2, 4, pairs, None), Stage::Done);
    assert_eq!(next_stage(2, 9, 2, 2, 4, column, Some(3)), Stage::Free);
    assert_eq!(next_stage(3, 1, 2, 2, 4, column, Some(3)), Stage::Done);
    assert_eq!(next_stage(3, 1, 2, 2, 4, column, None), Stage::Free);
    assert_eq!(next_stage(u64::MAX, 1, 0, 0, 4, column, None), Stage::Done);
}

#[test]
fn forced_rounds_do_not_wear_the_patience() {
    let mut c = course(SelectMode::Pairs, 5, None, Some(1));
    assert_eq!((c.n_force, c.target, c.stage, c.steps), (2, 6, Stage::Forced, 1));
    assert!(!c.step(110, 2));
    assert_eq!((c.stage, c.patience.since_best), (Stage::Forced, 1));
    assert!(!c.step(120, 3));
    assert_eq!((c.stage, c.patience.since_best, c.patience.best_step), (Stage::Free, 0, 0));
    assert!(!c.step(90, 4));
    assert!(c.step(95, 5));
    assert_eq!((c.stage, c.steps, c.patience.best_step), (Stage::Done, 5, 3));
}

#[test]
fn a_selection_ends_at_its_target() {
    let mut c = course(SelectMode::Pairs, 0, Some(2), None);
    assert_eq!((c.target, c.stage), (2, Stage::Free));
    assert!(!c.step(90, 2));
    assert_eq!(c.stage, Stage::Done);
    assert_eq!(course(SelectMode::Pairs, 0, Some(0), None).stage, Stage::Done);
    let mut d = course(SelectMode::Column, 1, Some(2), None);
    assert!(!d.step(90, 2));
    assert_eq!(d.stage, Stage::Free);
    assert!(!d.step(80, 5));
    assert_eq!((d.stage, d.steps), (Stage::Done, 3));
    let mut e = course(SelectMode::Column, 2, Some(1), None);
    assert!(!e.step(90, 2));
    assert!(!e.step(80, 3));
    assert_eq!((e.stage, e.steps), (Stage::Done, 3));
}

#[test]
fn rounds_that_find_nothing() {
    let mut c = course(SelectMode::Column, 2, None, Some(1));
    c.step(110, 2);
    c.skip(2);
    assert_eq!((c.stage, c.forced, c.patience.since_best), (Stage::Free, 1, 0));
    c.skip(2);
    assert_eq!((c.stage, c.steps), (Stage::Done, 2));
}
