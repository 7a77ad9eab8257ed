use netflix_prize::decimals::bytes_as_double;
use netflix_prize::decimals::one_decimal;
use netflix_prize::decimals::print_quotient;
use netflix_prize::decimals::round_div;
use netflix_prize::decimals::two_decimals;
use netflix_prize::preds::glob_match;
use netflix_prize::preds::human;
use netflix_prize::text::after_last;
use netflix_prize::text::chars_of;
use netflix_prize::text::decimal_string;
use netflix_prize::text::ends_with;
use netflix_prize::text::holds;
use netflix_prize::text::is_white_space;
use netflix_prize::text::join;
use netflix_prize::text::joined;
use netflix_prize::text::joined3;
use netflix_prize::text::parse_i32_text;
use netflix_prize::text::parse_u64;
use netflix_prize::text::piece;
use netflix_prize::text::same;
use netflix_prize::text::sort_names;
use netflix_prize::text::split;
use netflix_prize::text::starts_with;
use netflix_prize::text::strip_suffix;
use netflix_prize::text::text_at_most;
use netflix_prize::text::trim;

fn names(list: &[&str]) -> Vec<String> {
    list.iter().map(|s| s.to_string()).collect()
}

#[test]
fn joining_and_cutting() {
    assert_eq!(joined("ab", "çd"), "abçd");
    assert_eq!(joined3("", "-", "x"), "-x");
    assert_eq!(join(&names(&["a", "b", "c"]), ", "), "a, b, c");
    assert_eq!(join(&names(&[]), ", "), "");
    assert_eq!(piece(&chars_of("héllo"), 1, 3), "él");
    assert_eq!(split("a,,b,", ','), names(&["a", "", "b", ""]));
    assert_eq!(split("", ','), names(&[""]));
    assert_eq!(after_last("a.b.npy", '.'), "npy");
    assert_eq!(after_last("plain", '.'), "plain");
}

#[test]
fn prefixes_and_suffixes() {
    assert!(starts_with("mv_1.txt", "mv_") && !starts_with("mv", "mv_"));
    assert!(ends_with("a.npy", ".npy") && !ends_with("npy", ".npy"));
    assert_eq!(strip_suffix("a__knn3", "__knn3"), Some("a".to_string()));
    assert_eq!(strip_suffix("a", "__knn3"), None);
    assert!(same("ab", "ab") && !same("ab", "abc"));
    assert!(holds(&names(&["a", "b"]), "b") && !holds(&names(&["a", "b"]), "c"));
}

#[test]
fn trimming_agrees_with_std() {
    let samples = ["  a b\t", "\u{a0}x\u{2003}", "\u{200b}y", "", "   ", "\u{85}z\u{3000}", "a"];
    for s in samples {
        assert_eq!(trim(s), s.trim());
    }
    for n in 0..0x3100u32 {
        if let Some(c) = char::from_u32(n) {
            assert_eq!(is_white_space(c), c.is_whitespace());
        }
    }
}

#[test]
fn numbers_agree_with_std() {
    let samples = [
        "0", "42", "+7", "-7", "", "+", "-", " 1", "18446744073709551615", "18446744073709551616",
        "2147483647", "2147483648", "-2147483648", "-2147483649", "1_000", "٣",
    ];
    for s in samples {
        assert_eq!(parse_u64(s), s.parse::<u64>().ok());
        assert_eq!(parse_i32_text(s), s.parse::<i32>().ok());
    }
    for n in [0, 9, 10, 12345, u64::MAX] {
        assert_eq!(decimal_string(n), n.to_string());
        assert_eq!(parse_u64(&decimal_string(n)), Some(n));
    }
}

#[test]
fn names_sort_as_strings_do() {
    let mut list = names(&["b", "", "a10", "a2", "ä", "a", "b"]);
    let sorted = sort_names(list.clone());
    list.sort();
    assert_eq!(sorted, list);
    assert!(text_at_most("a", "ab") && text_at_most("a", "a") && !text_at_most("b", "ab"));
}

#[test]
fn rounding_to_even() {
    assert_eq!(round_div(5, 2), 2);
    assert_eq!(round_div(7, 2), 4);
    assert_eq!(round_div(8, 3), 3);
    assert_eq!(round_div(0, 9), 0);
    assert_eq!(bytes_as_double((1 << 53) + 1), 1 << 53);
    assert_eq!(bytes_as_double((1 << 53) + 3), (1 << 53) + 4);
    assert_eq!(bytes_as_double(u64::MAX), 1u128 << 64);
    assert_eq!(one_decimal(123), "12.3");
    assert_eq!(one_decimal(5), "0.5");
    assert_eq!(two_decimals(7), "0.07");
    assert_eq!(two_decimals(1234), "12.34");
}

#[test]
fn quotients_print_as_doubles_do() {
    for n in [0u64, 1, 49, 50, 51, 149, 150, 250, 999, 1049, 1050, 123_456_789, 8_950_000] {
        let printed = format!("{:.1}", n as f64 / 1e3);
        assert_eq!(one_decimal(print_quotient(n as u128, 1_000, 10) as u64), printed);
        let printed = format!("{:.2}", n as f64 / 1e9);
        assert_eq!(two_decimals(print_quotient(n as u128, 1_000_000_000, 100) as u64), printed);
    }
}

fn human_by_doubles(bytes: u64) -> String {
    let b = bytes as f64;
    if bytes >= 1_000_000_000 {
        format!("{:.2} GB", b / 1e9)
    } else if bytes >= 1_000_000 {
        format!("{:.1} MB", b / 1e6)
    } else {
        format!("{:.1} kB", b / 1e3)
    }
}

#[test]
fn sizes_in_words() {
    assert_eq!(human(6_200_000_000), "6.20 GB");
    assert_eq!(human(0), "0.0 kB");
    let mut x: u64 = 1;
    for k in 0..4000u64 {
        x = x.wrapping_mul(6364136223846793005).wrapping_add(1442695040888963407);
        let n = x >> (k % 60);
        assert_eq!(human(n), human_by_doubles(n));
    }
    for n in [999, 1000, 50, 150, 250, 999_949, 999_950, 999_999, 1_000_000, 1_250_000, 999_950_000,
        999_999_999, 1_000_000_000, 1_005_000_000, 1_015_000_000, u64::MAX] {
        assert_eq!(human(n), human_by_doubles(n));
    }
}

#[test]
fn globs() {
    assert!(glob_match("preds_*/*.qual.npy", "preds_new/a.b.qual.npy"));
    assert!(!glob_match("preds_*/*.qual.npy", "preds_new/a.probe.npy"));
    assert!(glob_match("*", "") && glob_match("*", "a/b"));
    assert!(glob_match("", "") && !glob_match("", "a"));
    assert!(glob_match("a*b*c", "aXbYbZc") && !glob_match("a*b*c", "aXc"));
    assert!(glob_match("abc", "abc") && !glob_match("abc", "abcd") && !glob_match("abc", "ab"));
    assert!(glob_match("**a", "ba") && !glob_match("a*a", "a"));
    assert!(!glob_match("?", "x") && glob_match("?", "?"));
}
