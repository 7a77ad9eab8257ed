use netflix_prize::caches::build_caches;
use netflix_prize::caches::day_features;
use netflix_prize::caches::update_union_caches;
use netflix_prize::caches::DayCache;
use netflix_prize::caches::DayFeatures;
use netflix_prize::caches::Events;
use netflix_prize::freq::day_range;
use netflix_prize::freq::freq_bin;
use netflix_prize::freq::time_bin;
use netflix_prize::freq::SparseUFreq;
use netflix_prize::freq::UserDays;
use netflix_prize::pool::Pool;
use netflix_prize::usertables::build_indices;
use netflix_prize::usertables::count_placed;
use netflix_prize::usertables::group_items;
use netflix_prize::usertables::known_neighbors;
use netflix_prize::usertables::rating_row;
use netflix_prize::usertables::top_k;
use netflix_prize::usertables::Hit;
use netflix_prize::usertables::UserTables;

#[test]
fn days_fall_into_bins() {
    assert_eq!(day_range(&vec![3, 9, 0]), 10);
    assert_eq!(day_range(&vec![]), 0);
    assert_eq!(time_bin(0, 30, 100), 0);
    assert_eq!(time_bin(99, 30, 100), 29);
    assert_eq!(time_bin(50, 30, 100), 15);
    assert_eq!(time_bin(1000, 30, 100), 29);
    for d in 0..200 {
        assert!(time_bin(d, 30, 100) <= time_bin(d + 1, 30, 100));
    }
}

#[test]
fn frequencies_fall_into_bins() {
    let bounds = [2, 5, 5, 9];
    assert_eq!(freq_bin(1, &bounds), 0);
    assert_eq!(freq_bin(2, &bounds), 0);
    assert_eq!(freq_bin(3, &bounds), 1);
    assert_eq!(freq_bin(5, &bounds), 1);
    assert_eq!(freq_bin(6, &bounds), 3);
    assert_eq!(freq_bin(100, &bounds), 4);
    assert_eq!(freq_bin(7, &[]), 0);
}

fn user_days() -> UserDays {
    // User 0 rates once on day 4 and three times on day 7, user 2 twice on day 4.
    UserDays { n_users: 3, users: vec![0, 0, 2, 0, 2, 0], days: vec![7, 4, 4, 7, 4, 7] }
}

#[test]
fn bins_of_users_and_days() {
    let f = SparseUFreq::new(&user_days(), 3, 1);
    // The frequencies in order are 1, 2, 2, 3, 3, 3: the bounds stand at the third and the fifth.
    assert_eq!(f.bounds_bias, vec![2, 3]);
    assert!(f.bounds_fact.is_empty());
    assert_eq!(f.get(0, 4), (0, 0));
    assert_eq!(f.get(0, 7), (1, 0));
    assert_eq!(f.get(2, 4), (0, 0));
    assert_eq!(f.get(1, 4), (0, 0));
    assert_eq!(f.get(0, 5), (0, 0));
    assert_eq!(f.starts, vec![0, 2, 2, 3]);
    assert_eq!(f.days, vec![4, 7, 4]);
}

#[test]
fn entries_of_users_and_days() {
    let tr = UserDays { n_users: 2, users: vec![0, 0, 0, 1], days: vec![5, 5, 7, 5] };
    let f = SparseUFreq::new(&tr, 2, 4);
    assert_eq!(f.starts, vec![0, 2, 3]);
    assert_eq!(f.days, vec![5, 7, 5]);
    assert_eq!(f.bounds_bias, vec![2]);
    assert_eq!(f.bounds_fact, vec![1, 2, 2]);
    assert_eq!(f.fbin_bias, vec![0, 0, 0]);
    assert_eq!(f.fbin_fact, vec![1, 0, 0]);
    assert_eq!(f.place(0, 7), Some(1));
    assert_eq!(f.place(1, 5), Some(2));
    assert_eq!(f.place(1, 7), None);
}

#[test]
fn more_bins_than_a_byte_counts() {
    let mut tr = UserDays { n_users: 2, users: vec![0; 2000], days: (0..2000).collect() };
    for _ in 0..5 {
        tr.users.push(1);
        tr.days.push(3);
    }
    let f = SparseUFreq::new(&tr, 300, 2);
    // The frequency of five lies above all 299 boundaries, of which a byte keeps 43.
    assert_eq!(f.get(1, 3), (43, 1));
    assert_eq!(f.get(0, 3), (0, 0));
}

#[test]
fn bins_of_nothing() {
    let f = SparseUFreq::new(&UserDays { n_users: 2, users: vec![], days: vec![] }, 1, 0);
    assert_eq!(f.get(1, 3), (0, 0));
}

#[test]
fn tables_of_users() {
    let tr_u = vec![0, 1, 0, 1];
    let tr_i = vec![9, 4, 2, 4];
    let pr_u = vec![0, 0, 1, 0];
    let pr_i = vec![9, 5, 1, 5];
    assert_eq!(group_items(&tr_u, &tr_i, 3), vec![vec![9, 2], vec![4, 4], vec![]]);
    let t = UserTables::new(3, &tr_u, &tr_i, &pr_u, &pr_i);
    assert_eq!(t.rated, vec![vec![2, 9], vec![4, 4], vec![]]);
    assert_eq!(t.implicit, vec![vec![5], vec![1], vec![]]);
    assert_eq!(t.all, vec![vec![2, 5, 9], vec![1, 4, 4], vec![]]);
}

#[test]
fn neighbors_that_the_user_knows() {
    let hits = known_neighbors(&vec![7, 5, 2, 8, 9], &vec![2, 5, 9], &vec![2, 9]);
    assert_eq!(
        hits,
        vec![
            Hit { rank: 1, place: None },
            Hit { rank: 2, place: Some(0) },
            Hit { rank: 4, place: Some(1) }
        ]
    );
    assert_eq!(count_placed(&hits), 2);
}

#[test]
fn the_highest_scores() {
    assert_eq!(top_k(&vec![5, 9, 1, 7], 2), vec![1, 3]);
    assert_eq!(top_k(&vec![5, 9], 4), vec![1, 0]);
    assert!(top_k(&vec![], 3).is_empty());
}

#[test]
fn places_of_users_and_items() {
    let (u, i) = build_indices(&vec![0, 1, 0], &vec![2, 2, 0], 2, 3);
    assert_eq!(u, vec![vec![0, 2], vec![1]]);
    assert_eq!(i, vec![vec![2], vec![], vec![0, 1]]);
    assert_eq!(rating_row(3, 1), 15);
    assert_eq!(rating_row(3, 5), 19);
}

#[test]
fn days_of_users_and_items() {
    let mut c = DayCache::new(2);
    c.update(&vec![1, 1, 1], &vec![8, 3, 8]);
    assert_eq!(c.totals, vec![0, 3]);
    assert_eq!((c.start_of(1), c.start_of(0)), (3, 0));
    assert_eq!((c.on_day(1, 8), c.on_day(1, 3), c.on_day(0, 3)), (2, 1, 0));
    c.update(&vec![0], &vec![-5]);
    assert_eq!((c.start_of(0), c.on_day(0, -5), c.on_day(1, 8)), (-5, 1, 2));
}

fn events(list: &[(u32, u32, i16)]) -> Events {
    Events {
        users: list.iter().map(|e| e.0).collect(),
        items: list.iter().map(|e| e.1).collect(),
        days: list.iter().map(|e| e.2).collect(),
    }
}

#[test]
fn features_of_a_day() {
    let tr = events(&[(0, 0, 10), (0, 1, 10), (1, 0, 12)]);
    let pr = events(&[(0, 1, 4)]);
    let c = build_caches(2, 2, &tr, &pr, true);
    assert_eq!(
        day_features(&c, 0, 1, 10),
        DayFeatures {
            user_age: 6,
            item_age: 6,
            user_on_day: 2,
            item_on_day: 1,
            user_total: 3,
            item_total: 2
        }
    );
    let mut without = build_caches(2, 2, &tr, &pr, false);
    assert_eq!(day_features(&without, 0, 1, 10).user_age, 0);
    assert_eq!(without.users.totals, vec![2, 1]);
    update_union_caches(&mut without, &pr.users, &pr.items, &pr.days);
    assert_eq!(day_features(&without, 0, 1, 10), day_features(&c, 0, 1, 10));
}

#[test]
fn pools_of_ratings() {
    let p = Pool::new(&vec![0, 2, 2, 9], 3);
    assert_eq!(p.off, vec![0, 2, 2, 5]);
    assert_eq!(p.picks, vec![0, 1, 2, 4, 6]);
    let whole = Pool::new(&vec![0, 3], 10);
    assert_eq!(whole.picks, vec![0, 1, 2]);
}
