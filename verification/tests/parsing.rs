use netflix_prize::lines::find_byte;
use netflix_prize::lines::is_leap;
use netflix_prize::lines::only_digits;
use netflix_prize::lines::parse_date;
use netflix_prize::lines::parse_date_bytes;
use netflix_prize::lines::parse_digits;
use netflix_prize::lines::parse_u32;
use netflix_prize::lines::read_lines_from;
use netflix_prize::lines::rstrip;
use netflix_prize::records::fix_years;
use netflix_prize::records::index_rows;
use netflix_prize::records::parse_i32;
use netflix_prize::records::read_probe;
use netflix_prize::records::read_qual_ratings;
use netflix_prize::records::read_qualifying;
use netflix_prize::records::read_title_years;
use netflix_prize::records::read_training;
use netflix_prize::records::Pair;
use netflix_prize::records::QualRating;
use netflix_prize::records::QualRow;
use netflix_prize::records::Rating;
use netflix_prize::records::RawRow;
use netflix_prize::records::UserTable;

fn lines(text: &str) -> Vec<Vec<u8>> {
    read_lines_from(text.as_bytes())
}

fn raw(uid: u32, item: u16, rating: i8, date: i16) -> RawRow {
    RawRow { uid, item, rating, date }
}

#[test]
fn digits() {
    assert_eq!(parse_u32(b"0"), 0);
    assert_eq!(parse_u32(b"4294967295"), u32::MAX);
    assert_eq!(parse_u32(b""), 0);
    assert_eq!(parse_digits(b"00012"), Some(12));
    assert_eq!(parse_digits(b"4294967296"), None);
    assert_eq!(parse_digits(b"-1"), None);
    assert_eq!(parse_digits(b"1/"), None);
}

#[test]
fn bytes_past_nine_count_on() {
    assert_eq!(parse_u32(b"1a"), 59);
    assert_eq!(parse_digits(b":"), Some(10));
    assert_eq!(parse_digits(b"12a"), Some(169));
    assert_eq!(parse_digits(&[255]), Some(207));
    assert_eq!(parse_digits(b"429496729\xff"), None);
    assert_eq!(parse_date_bytes(b"2005-0:-02"), parse_date_bytes(b"2005-10-02"));
    assert_eq!(parse_date(b"1:00-01-01"), Some(51));
    assert_eq!(parse_date(b"2005-01-0a"), Some(1926));
    assert_eq!(only_digits(b"09"), true);
    assert_eq!(only_digits(b"0:"), false);
}

#[test]
fn a_header_with_a_letter_opens_a_block() {
    let mut rows = Vec::new();
    assert_eq!(read_training(&lines("1a:\nx,Q,2005-01-02\n"), 0, &mut rows), Some(59));
    assert_eq!(rows, vec![raw(72, 59, 33, 1879)]);
    let t = UserTable { ids: vec![7, 72] };
    assert_eq!(
        read_probe(&lines("1a:\nx\n"), &t, 60),
        Some(vec![Pair { user: 1, item: 58 }])
    );
    assert_eq!(read_probe(&lines("1a:\nx\n"), &t, 58), None);
    assert_eq!(
        read_qualifying(&lines("1a:\nx,2005-0:-02\n"), &t),
        Some(vec![QualRow { user: 1, item: 58, date: 2152 }])
    );
    assert_eq!(
        read_qual_ratings(&lines("rating,is_test\n;,a\n")),
        Some(vec![QualRating { rating: 11, is_test: 49 }])
    );
    let years = read_title_years(&lines(":,1988,T\n"), 10).unwrap();
    assert_eq!(years[9], 1988);
}

#[test]
fn bytes_are_found_from_a_place_on() {
    assert_eq!(find_byte(b"a,b,c", b',', 0), Some(1));
    assert_eq!(find_byte(b"a,b,c", b',', 2), Some(3));
    assert_eq!(find_byte(b"a,b,c", b',', 4), None);
    assert_eq!(find_byte(b"", b',', 0), None);
}

#[test]
fn line_ends_are_stripped() {
    assert_eq!(rstrip(b"abc\r\n"), b"abc");
    assert_eq!(rstrip(b"abc\n\r\n\n"), b"abc");
    assert_eq!(rstrip(b"\r\n"), b"");
    assert_eq!(rstrip(b" a b "), b" a b ");
}

#[test]
fn texts_fall_into_lines() {
    assert_eq!(lines("1:\r\n2,3\n\nlast"), vec![b"1:".to_vec(), b"2,3".to_vec(), vec![], b"last".to_vec()]);
    assert_eq!(lines("a\n"), vec![b"a".to_vec()]);
    assert!(lines("").is_empty());
}

#[test]
fn leap_years() {
    assert!(is_leap(2000));
    assert!(is_leap(2004));
    assert!(!is_leap(1900));
    assert!(!is_leap(2005));
}

#[test]
fn dates_count_from_the_first_rating_day() {
    assert_eq!(parse_date_bytes(b"1999-11-11"), 0);
    assert_eq!(parse_date_bytes(b"1999-01-01"), -314);
    assert_eq!(parse_date_bytes(b"2000-02-29"), 110);
    assert_eq!(parse_date_bytes(b"2000-03-01"), 111);
    assert_eq!(parse_date_bytes(b"2004-12-31"), 1877);
    assert_eq!(parse_date_bytes(b"2005-12-31"), 2242);
    assert_eq!(parse_date_bytes(b"2006-12-31"), 2607);
}

#[test]
fn unreadable_dates() {
    assert_eq!(parse_date(b"2005-01-02"), Some(1879));
    assert_eq!(parse_date(b"1998-01-02"), None);
    assert_eq!(parse_date(b"2007-01-02"), None);
    assert_eq!(parse_date(b"2005-13-02"), None);
    assert_eq!(parse_date(b"2005-00-02"), None);
    assert_eq!(parse_date(b"2005-1-2"), None);
    assert_eq!(parse_date(b"2005-0x-02"), None);
}

#[test]
fn training_blocks_carry_their_movie() {
    let mut rows = Vec::new();
    let first = read_training(&lines("8:\n10,3,2005-01-02\n11,5,1999-11-11\n"), 0, &mut rows);
    assert_eq!(first, Some(8));
    let second = read_training(&lines("9:\n10,1,2000-03-01\n"), 8, &mut rows);
    assert_eq!(second, Some(9));
    assert_eq!(rows, vec![raw(10, 8, 3, 1879), raw(11, 8, 5, 0), raw(10, 9, 1, 111)]);
}

#[test]
fn training_order_of_blocks_does_not_matter() {
    let mut a = Vec::new();
    read_training(&lines("8:\n10,3,2005-01-02\n9:\n10,1,2000-03-01\n"), 0, &mut a);
    let mut b = Vec::new();
    read_training(&lines("9:\n10,1,2000-03-01\n"), 5, &mut b);
    read_training(&lines("8:\n10,3,2005-01-02\n"), 9, &mut b);
    assert_eq!(a[0], b[1]);
    assert_eq!(a[1], b[0]);
}

#[test]
fn unreadable_training_lines() {
    for bad in ["10,3\n", "/,3,2005-01-02\n", "10,3,2005-99-02\n", "8 :\n", "\n"] {
        let mut rows = Vec::new();
        assert_eq!(read_training(&lines(bad), 1, &mut rows), None);
    }
}

#[test]
fn users_are_numbered_by_their_ids() {
    let rows = vec![raw(30, 1, 5, 0), raw(7, 2, 1, 3), raw(30, 2, 2, 1)];
    assert!(UserTable::build(&rows, 3).is_none());
    let t = UserTable::build(&rows, 2).unwrap();
    assert_eq!(t.ids, vec![7, 30]);
    assert_eq!(t.index_of(30), Some(1));
    assert_eq!(t.index_of(7), Some(0));
    assert_eq!(t.index_of(8), None);
    let indexed = index_rows(&rows, &t).unwrap();
    assert_eq!(
        indexed,
        vec![
            Rating { user: 1, item: 0, rating: 5, date: 0 },
            Rating { user: 0, item: 1, rating: 1, date: 3 },
            Rating { user: 1, item: 1, rating: 2, date: 1 },
        ]
    );
}

#[test]
fn an_item_number_without_an_index() {
    let rows = vec![raw(1, 0x8000, 5, 0)];
    let t = UserTable::build(&rows, 1).unwrap();
    assert!(index_rows(&rows, &t).is_none());
}

#[test]
fn probe_lists() {
    let t = UserTable { ids: vec![7, 30] };
    assert_eq!(
        read_probe(&lines("2:\n30\n7\n1:\n7\n"), &t, 2),
        Some(vec![Pair { user: 1, item: 1 }, Pair { user: 0, item: 1 }, Pair { user: 0, item: 0 }])
    );
    assert_eq!(read_probe(&lines("2:\n8\n"), &t, 2), None);
    assert_eq!(read_probe(&lines("3:\n7\n"), &t, 2), None);
    assert_eq!(read_probe(&lines("2:\n7,1\n"), &t, 2), None);
}

#[test]
fn qualifying_lists() {
    let t = UserTable { ids: vec![7, 30] };
    assert_eq!(
        read_qualifying(&lines("2:\n30,2005-01-02\n"), &t),
        Some(vec![QualRow { user: 1, item: 1, date: 1879 }])
    );
    assert_eq!(read_qualifying(&lines("2:\n30\n"), &t), None);
    assert_eq!(read_qualifying(&lines("2:\n31,2005-01-02\n"), &t), None);
}

#[test]
fn qualifying_ratings_skip_their_header() {
    assert_eq!(
        read_qual_ratings(&lines("rating,is_test\n4,0\n2,1\n")),
        Some(vec![QualRating { rating: 4, is_test: 0 }, QualRating { rating: 2, is_test: 1 }])
    );
    assert_eq!(read_qual_ratings(&lines("rating,is_test\n4\n")), None);
    assert_eq!(read_qual_ratings(&lines("rating,is_test\n")), Some(vec![]));
}

#[test]
fn signed_numbers() {
    assert_eq!(parse_i32(b"-2147483648"), Some(i32::MIN));
    assert_eq!(parse_i32(b"+12"), Some(12));
    assert_eq!(parse_i32(b"2147483648"), None);
    assert_eq!(parse_i32(b""), None);
    assert_eq!(parse_i32(b"-"), None);
    assert_eq!(parse_i32(b"1 "), None);
    assert_eq!(parse_i32(b"1a"), None);
}

#[test]
fn title_years() {
    let l = lines("1,2003,Dinosaur Planet\n3,NULL,No, Year\n");
    assert_eq!(read_title_years(&l, 3), Some(vec![2003, 0, 0]));
    assert_eq!(read_title_years(&l, 2), None);
    assert_eq!(read_title_years(&lines("1,20x3,T\n"), 3), None);
    assert_eq!(read_title_years(&lines("0,2003,T\n"), 3), None);
    assert_eq!(read_title_years(&lines("1,2003\n"), 3), None);
}

#[test]
fn missing_years_are_filled_in() {
    let mut years = vec![0; 17_770];
    assert!(fix_years(&mut years));
    let filled: Vec<(usize, i32)> =
        years.iter().enumerate().filter(|(_, y)| **y != 0).map(|(i, y)| (i, *y)).collect();
    assert_eq!(
        filled,
        vec![
            (4387, 2001),
            (4793, 2001),
            (7240, 2001),
            (10781, 1974),
            (15917, 1999),
            (16677, 2004),
            (17666, 1999)
        ]
    );
    let mut short = vec![0; 17_666];
    assert!(!fix_years(&mut short));
    assert!(short.iter().all(|y| *y == 0));
}
