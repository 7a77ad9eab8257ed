use netflix_prize::ingest::count_qual;
use netflix_prize::ingest::count_rows;
use netflix_prize::ingest::distinct_pairs;
use netflix_prize::ingest::ingest;
use netflix_prize::ingest::pack_key;
use netflix_prize::ingest::split_ratings;
use netflix_prize::ingest::tally;
use netflix_prize::ingest::IngestError;
use netflix_prize::ingest::Sizes;
use netflix_prize::lines::read_lines_from;
use netflix_prize::newsplit::check_rows;
use netflix_prize::newsplit::choose_moves;
use netflix_prize::newsplit::new_split;
use netflix_prize::newsplit::take_masked;
use netflix_prize::newsplit::MOVE_PROB;
use netflix_prize::newsplit::SEED;
use netflix_prize::order::distinct_sorted;
use netflix_prize::order::find_value;
use netflix_prize::order::search;
use netflix_prize::order::sort_order;
use netflix_prize::order::sorted_values;
use netflix_prize::records::read_training;
use netflix_prize::records::Pair;
use netflix_prize::records::QualRating;
use netflix_prize::records::QualRow;
use netflix_prize::records::Rating;
use netflix_prize::records::RawRow;

fn rating(user: i32, item: i16, rating: i8, date: i16) -> Rating {
    Rating { user, item, rating, date }
}

fn lines(text: &str) -> Vec<Vec<u8>> {
    read_lines_from(text.as_bytes())
}

fn raw_rows() -> Vec<RawRow> {
    let mut rows = Vec::new();
    read_training(
        &lines("1:\n20,4,2005-01-02\n10,3,2005-01-03\n2:\n10,5,2004-12-31\n20,1,2005-01-02\n"),
        0,
        &mut rows,
    );
    rows
}

fn sizes() -> Sizes {
    Sizes { users: 2, items: 17_670, total: 4, probe: 1, qual: 2 }
}

const PROBE: &str = "1:\n10\n";
const QUAL: &str = "3:\n20,2005-02-01\n1:\n10,2005-02-02\n";
const LABELS: &str = "rating,is_test\n4,0\n2,1\n";
const TITLES: &str = "1,2003,A\n2,NULL,B\n";

fn outcome(probe: &str, qual: &str, labels: &str, titles: &str, s: &Sizes) -> Option<IngestError> {
    ingest(&raw_rows(), &lines(probe), &lines(qual), &lines(labels), &lines(titles), s).err()
}

#[test]
fn packed_pairs() {
    assert_eq!(pack_key(0, 0), 0);
    assert_eq!(pack_key(3, 5), 3 * 65536 + 5);
    assert_eq!(pack_key(1, -1), 65536 + 65535);
    assert_eq!(pack_key(-1, 0), 0xffff_ffff_ffff_0000);
}

#[test]
fn tallies() {
    assert_eq!(tally(&vec![0, 2, 2, 1, 2], 4), Some(vec![1, 1, 3, 0]));
    assert_eq!(tally(&vec![0, 4], 4), None);
    assert_eq!(tally(&vec![-1], 4), None);
}

#[test]
fn repeated_pairs_count_once() {
    let p = Pair { user: 1, item: 2 };
    assert_eq!(distinct_pairs(&vec![p, Pair { user: 2, item: 1 }, p]), 2);
    assert_eq!(distinct_pairs(&vec![]), 0);
}

#[test]
fn splitting_holds_the_probe_out() {
    let rows =
        vec![rating(1, 0, 4, 50), rating(0, 0, 3, 60), rating(0, 1, 5, 40), rating(1, 1, 1, 50)];
    let probe = vec![Pair { user: 1, item: 1 }, Pair { user: 0, item: 0 }];
    let s = split_ratings(&rows, &probe).unwrap();
    assert_eq!(s.fulltrain, vec![rows[2], rows[1], rows[0], rows[3]]);
    assert_eq!(s.train, vec![rows[2], rows[0]]);
    assert_eq!(s.probe, vec![rows[1], rows[3]]);
    assert!(split_ratings(&rows, &vec![Pair { user: 0, item: 9 }]).is_none());
}

#[test]
fn training_and_probe_make_up_the_full_set() {
    let rows: Vec<Rating> =
        (0..40).map(|k| rating(k % 7, (k / 7) as i16, (k % 5 + 1) as i8, (k * 3 % 11) as i16)).collect();
    let probe: Vec<Pair> = rows.iter().step_by(3).map(|r| Pair { user: r.user, item: r.item }).collect();
    let s = split_ratings(&rows, &probe).unwrap();
    let mut both: Vec<(i32, i16)> =
        s.train.iter().chain(s.probe.iter()).map(|r| (r.user, r.item)).collect();
    let mut full: Vec<(i32, i16)> = s.fulltrain.iter().map(|r| (r.user, r.item)).collect();
    both.sort();
    full.sort();
    assert_eq!(both, full);
    assert_eq!(s.train.len() + s.probe.len(), rows.len());
}

#[test]
fn the_whole_set() {
    let r = ingest(
        &raw_rows(),
        &lines(PROBE),
        &lines(QUAL),
        &lines(LABELS),
        &lines(TITLES),
        &sizes(),
    );
    let set = match r {
        Ok(set) => set,
        Err(e) => panic!("{:?}", e),
    };
    assert_eq!(set.uids, vec![10, 20]);
    assert_eq!(
        set.split.fulltrain,
        vec![rating(0, 1, 5, 1877), rating(0, 0, 3, 1880), rating(1, 0, 4, 1879), rating(1, 1, 1, 1879)]
    );
    assert_eq!(set.split.probe, vec![rating(0, 0, 3, 1880)]);
    assert_eq!(set.split.train.len(), 3);
    assert_eq!(
        set.qual,
        vec![QualRow { user: 1, item: 2, date: 1909 }, QualRow { user: 0, item: 0, date: 1910 }]
    );
    assert_eq!(
        set.qual_ratings,
        vec![QualRating { rating: 4, is_test: 0 }, QualRating { rating: 2, is_test: 1 }]
    );
    assert_eq!(set.train_counts.users, vec![1, 2]);
    assert_eq!(set.train_counts.items[..3], [1, 2, 0]);
    assert_eq!(set.probe_counts.users, vec![1, 0]);
    assert_eq!(set.fulltrain_counts.users, vec![2, 2]);
    assert_eq!(set.qual_counts.items[..3], [1, 0, 1]);
    assert_eq!(set.item_years[..2], [2003, 0]);
    assert_eq!(set.item_years[17_666], 1999);
    assert_eq!(set.train_counts.items.iter().sum::<i32>(), 3);
}

#[test]
fn errors_of_ingesting() {
    let s = sizes();
    assert_eq!(outcome(PROBE, QUAL, LABELS, TITLES, &s), None);
    let with = |t: Sizes| outcome(PROBE, QUAL, LABELS, TITLES, &t);
    assert_eq!(with(Sizes { total: 5, ..s }), Some(IngestError::TotalCount));
    assert_eq!(with(Sizes { users: 3, ..s }), Some(IngestError::UserCount));
    assert_eq!(with(Sizes { probe: 2, ..s }), Some(IngestError::ProbeCount));
    assert_eq!(with(Sizes { qual: 1, ..s }), Some(IngestError::QualCount));
    assert_eq!(with(Sizes { items: 17_666, ..s }), Some(IngestError::TitleCount));
    assert_eq!(outcome("1:\n11\n", QUAL, LABELS, TITLES, &s), Some(IngestError::ProbeLine));
    assert_eq!(outcome("3:\n10\n", QUAL, LABELS, TITLES, &s), Some(IngestError::ProbeUnrated));
    assert_eq!(outcome(PROBE, "3:\n20\n", LABELS, TITLES, &s), Some(IngestError::QualLine));
    assert_eq!(outcome(PROBE, QUAL, "h\nx\n", TITLES, &s), Some(IngestError::QualRatingLine));
    assert_eq!(outcome(PROBE, QUAL, "h\n1,0\n", TITLES, &s), Some(IngestError::QualRatingCount));
    assert_eq!(outcome(PROBE, QUAL, LABELS, "1,x,A\n", &s), Some(IngestError::TitleLine));
    let far = "30000:\n20,2005-02-01\n1:\n10,2005-02-02\n";
    assert_eq!(outcome(PROBE, far, LABELS, TITLES, &s), Some(IngestError::IndexRange));
}

#[test]
fn a_rating_given_twice_breaks_the_training_count() {
    let mut rows = raw_rows();
    rows[0] = RawRow { uid: 10, item: 1, rating: 2, date: 7 };
    let r = ingest(
        &rows,
        &lines(PROBE),
        &lines(QUAL),
        &lines(LABELS),
        &lines(TITLES),
        &sizes(),
    );
    assert_eq!(r.err(), Some(IngestError::TrainCount));
}

#[test]
fn an_item_that_has_no_index() {
    let mut rows = raw_rows();
    rows[0].item = 0x8000;
    let r = ingest(&rows, &lines(PROBE), &lines(QUAL), &lines(LABELS), &lines(TITLES), &sizes());
    assert_eq!(r.err(), Some(IngestError::ItemId));
}

#[test]
fn sizes_of_the_netflix_set() {
    assert_eq!(
        Sizes::netflix(),
        Sizes { users: 480_189, items: 17_770, total: 100_480_507, probe: 1_408_395, qual: 2_817_131 }
    );
}

#[test]
fn counts_by_user_and_item() {
    let s = Sizes { users: 2, items: 3, total: 0, probe: 0, qual: 0 };
    let rows = vec![rating(0, 2, 1, 0), rating(1, 2, 1, 0), rating(1, 0, 1, 0)];
    let c = count_rows(&rows, 2, &s).unwrap();
    assert_eq!((c.users, c.items), (vec![1, 1], vec![0, 0, 2]));
    assert!(count_rows(&vec![rating(2, 0, 1, 0)], 1, &s).is_none());
    let q = vec![QualRow { user: 1, item: 1, date: 0 }];
    let c = count_qual(&q, &s).unwrap();
    assert_eq!((c.users, c.items), (vec![0, 1], vec![0, 1, 0]));
    assert!(count_qual(&vec![QualRow { user: 0, item: -1, date: 0 }], &s).is_none());
}

// Six users: the second has no new day, the last only one held-out rating.
fn split_inputs() -> (Vec<Rating>, Vec<Rating>) {
    let train = vec![rating(1, 0, 3, 5), rating(1, 1, 3, 6), rating(0, 3, 4, 9), rating(5, 0, 1, 1)];
    let mut probe = Vec::new();
    for u in [0, 1, 2, 3, 4] {
        probe.push(rating(u, 10, 5, 5));
        probe.push(rating(u, 11, 2, 6));
    }
    probe.push(rating(5, 12, 2, 6));
    (train, probe)
}

#[test]
fn moves_follow_the_generator() {
    let (train, probe) = split_inputs();
    assert!(check_rows(&train, 6, 20) && check_rows(&probe, 6, 20));
    let m = choose_moves(&train, &probe, 6, 20, SEED);
    // With this seed the draws are (first, moved), (second, moved), (first, moved), (second, kept).
    let mut mask = vec![false; 11];
    mask[0] = true;
    mask[5] = true;
    mask[6] = true;
    assert_eq!(m.mask, mask);
    assert_eq!((m.moved, m.skipped), (3, 1));
}

#[test]
fn the_new_split() {
    let (train, probe) = split_inputs();
    let s = Sizes { users: 6, items: 20, total: 0, probe: 0, qual: 0 };
    let n = new_split(&train, &probe, &s, SEED).unwrap();
    assert_eq!((n.moved, n.skipped), (3, 1));
    assert_eq!(
        n.trainx,
        vec![
            rating(0, 3, 4, 9),
            rating(0, 10, 5, 5),
            rating(1, 0, 3, 5),
            rating(1, 1, 3, 6),
            rating(2, 11, 2, 6),
            rating(3, 10, 5, 5),
            rating(5, 0, 1, 1)
        ]
    );
    let probex: Vec<(i16, i32)> = n.probex.iter().map(|r| (r.item, r.user)).collect();
    assert_eq!(
        probex,
        vec![(10, 1), (10, 2), (10, 4), (11, 0), (11, 1), (11, 3), (11, 4), (12, 5)]
    );
    assert_eq!(n.trainx_counts.users, vec![2, 2, 1, 1, 0, 1]);
    assert_eq!(n.probex_counts.users, vec![1, 2, 1, 1, 2, 1]);
    assert_eq!(n.trainx.len() + n.probex.len(), train.len() + probe.len());
}

#[test]
fn a_row_out_of_range_makes_no_split() {
    let s = Sizes { users: 1, items: 2, total: 0, probe: 0, qual: 0 };
    assert!(new_split(&vec![rating(0, 2, 1, 0)], &vec![], &s, SEED).is_none());
    assert!(new_split(&vec![], &vec![rating(1, 0, 1, 0)], &s, SEED).is_none());
    assert!(new_split(&vec![rating(0, 1, 1, 0)], &vec![], &s, SEED).is_some());
}

#[test]
fn days_before_the_first_are_days_too() {
    let s = Sizes { users: 2, items: 4, total: 0, probe: 0, qual: 0 };
    let train = vec![rating(0, 0, 1, 32767), rating(1, 0, 3, -1)];
    let probe = vec![rating(1, 1, 4, -1), rating(1, 2, 5, -32768)];
    let n = new_split(&train, &probe, &s, SEED).unwrap();
    assert_eq!((n.moved, n.skipped), (1, 0));
    assert_eq!(n.trainx, vec![train[0], train[1], probe[1]]);
    assert_eq!(n.probex, vec![probe[0]]);
}

#[test]
fn the_probability_of_a_move() {
    // The fractions below the bound are those below nine tenths.
    assert!((MOVE_PROB as f64) / 9007199254740992.0 >= 0.9);
    assert!(((MOVE_PROB - 1) as f64) / 9007199254740992.0 < 0.9);
}

#[test]
fn masks_pick_rows() {
    let rows = vec![rating(0, 0, 1, 0), rating(1, 0, 1, 0), rating(2, 0, 1, 0)];
    let mut out = vec![rating(9, 9, 1, 0)];
    take_masked(&rows, &vec![true, false, true], true, &mut out);
    assert_eq!(out, vec![rating(9, 9, 1, 0), rows[0], rows[2]]);
    let mut rest = Vec::new();
    take_masked(&rows, &vec![true, false, true], false, &mut rest);
    assert_eq!(rest, vec![rows[1]]);
}

#[test]
fn orders() {
    assert_eq!(sort_order(&vec![5, 1, 5, 0]), vec![3, 1, 0, 2]);
    assert!(sort_order(&vec![]).is_empty());
    assert_eq!(distinct_sorted(&vec![3, 1, 3, 2, 1]), vec![1, 2, 3]);
    assert_eq!(sorted_values(&vec![3, 1, 3, 2, 1]), vec![1, 1, 2, 3, 3]);
    assert_eq!(search(&vec![1, 4, 9], 4), Some(1));
    assert_eq!(search(&vec![1, 4, 9], 5), None);
    let v = vec![1, 4, 4, 9];
    assert!(matches!(find_value(&v, 4), Some(1) | Some(2)));
    assert_eq!(find_value(&v, 0), None);
}
