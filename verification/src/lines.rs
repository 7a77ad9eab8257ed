//! Byte-level reading of the data set's text files: lines, digits and calendar dates.

use vstd::prelude::*;
use vstd::slice::slice_subrange;

verus! {

// ---------------------------------------------------------------------------
// Digits
// ---------------------------------------------------------------------------

/// A byte that stands for a number: `0` for zero, and each byte after it for one more, past `9`
/// too.
pub open spec fn counts(c: u8) -> bool {
    c >= 48
}

pub open spec fn all_count(b: Seq<u8>) -> bool {
    forall|i: int| 0 <= i < b.len() ==> counts(#[trigger] b[i])
}

/// A decimal digit.
pub open spec fn is_digit(c: u8) -> bool {
    48 <= c <= 57
}

pub open spec fn all_digits(b: Seq<u8>) -> bool {
    forall|i: int| 0 <= i < b.len() ==> is_digit(#[trigger] b[i])
}

/// The number that a run of bytes writes, each standing for as much as it lies past `0` and for
/// ten times as much as the same byte one place on; nothing writes zero.
pub open spec fn digits_value(b: Seq<u8>) -> nat
    decreases b.len(),
{
    if b.len() == 0 {
        0
    } else {
        digits_value(b.drop_last()) * 10 + (b.last() - 48) as nat
    }
}

/// `b` writes a number that fits in 32 bits.
pub open spec fn is_u32(b: Seq<u8>) -> bool {
    all_count(b) && digits_value(b) <= u32::MAX
}

proof fn lemma_digits_prefix(b: Seq<u8>, i: int)
    requires
        all_count(b),
        0 <= i <= b.len(),
    ensures
        digits_value(b.take(i)) <= digits_value(b),
    decreases b.len() - i,
{
    if i < b.len() {
        lemma_digits_prefix(b, i + 1);
        lemma_digits_step(b, i);
    } else {
        assert(b.take(i) =~= b);
    }
}

proof fn lemma_digits_step(b: Seq<u8>, i: int)
    requires
        0 <= i < b.len(),
        all_count(b),
    ensures
        digits_value(b.take(i + 1)) == digits_value(b.take(i)) * 10 + (b[i] - 48),
{
    assert(b.take(i + 1).drop_last() =~= b.take(i));
    assert(b.take(i + 1).last() == b[i]);
    assert(counts(b[i]));
}

/// A run of bytes writes what its first part writes, moved up by as many places as the second part
/// has, and what the second part writes; a single byte writes how far it lies past `0`.
pub proof fn lemma_digits_concat(a: Seq<u8>, b: Seq<u8>)
    requires
        forall|i: int| 0 <= i < b.len() ==> #[trigger] b[i] >= 48,
    ensures
        digits_value(a + b) == digits_value(a) * vstd::arithmetic::power::pow(10, b.len())
            + digits_value(b),
        b.len() == 1 ==> digits_value(b) == b[0] - 48,
    decreases b.len(),
{
    vstd::arithmetic::power::lemma_pow0(10);
    if b.len() == 0 {
        assert(a + b =~= a);
    } else {
        let h = b.drop_last();
        assert forall|i: int| 0 <= i < h.len() implies #[trigger] h[i] >= 48 by {
            assert(h[i] == b[i]);
        }
        lemma_digits_concat(a, h);
        assert((a + b).drop_last() =~= a + h);
        assert((a + b).last() == b.last());
        assert(b[b.len() - 1] >= 48);
        vstd::arithmetic::power::lemma_pow_adds(10, h.len(), 1);
        vstd::arithmetic::power::lemma_pow1(10);
        let v = digits_value(a) as int;
        let p = vstd::arithmetic::power::pow(10, h.len());
        assert(vstd::arithmetic::power::pow(10, b.len()) == p * 10);
        assert((v * p) * 10 == v * (p * 10)) by (nonlinear_arith);
        if b.len() == 1 {
            assert(h =~= Seq::empty());
        }
    }
}

/// The number that a run of bytes writes.
pub fn parse_u32(b: &[u8]) -> (r: u32)
    requires
        is_u32(b@),
    ensures
        r == digits_value(b@),
{
    let mut v: u32 = 0;
    let mut i: usize = 0;
    proof {
        assert(b@.take(0) =~= Seq::empty());
    }
    while i < b.len()
        invariant
            is_u32(b@),
            i <= b.len(),
            v == digits_value(b@.take(i as int)),
        decreases b.len() - i,
    {
        proof {
            lemma_digits_step(b@, i as int);
            lemma_digits_prefix(b@, i + 1);
            assert(counts(b@[i as int]));
        }
        v = v * 10 + (b[i] - 48) as u32;
        i += 1;
    }
    proof {
        assert(b@.take(b.len() as int) =~= b@);
    }
    v
}

/// The number that a run of bytes writes, if it writes one and it fits.
pub fn parse_digits(b: &[u8]) -> (r: Option<u32>)
    ensures
        r == (if is_u32(b@) {
            Some(digits_value(b@) as u32)
        } else {
            None
        }),
{
    let mut v: u64 = 0;
    let mut i: usize = 0;
    proof {
        assert(b@.take(0) =~= Seq::empty());
    }
    while i < b.len()
        invariant
            i <= b.len(),
            all_count(b@.take(i as int)),
            v == digits_value(b@.take(i as int)),
            v <= u32::MAX,
        decreases b.len() - i,
    {
        let c: u8 = b[i];
        if c < 48 {
            assert(!counts(b@[i as int]));
            return None;
        }
        proof {
            assert(b@.take(i + 1).drop_last() =~= b@.take(i as int));
            assert(b@.take(i + 1).last() == b@[i as int]);
            assert forall|j: int| 0 <= j < i + 1 implies counts(#[trigger] b@.take(i + 1)[j]) by {
                if j < i {
                    assert(counts(b@.take(i as int)[j]));
                }
            }
        }
        v = v * 10 + (c - 48) as u64;
        if v > 0xFFFF_FFFF {
            proof {
                if all_count(b@) {
                    lemma_digits_prefix(b@, i + 1);
                }
            }
            return None;
        }
        i += 1;
    }
    proof {
        assert(b@.take(b.len() as int) =~= b@);
    }
    Some(v as u32)
}

/// Whether every byte is a decimal digit.
pub fn only_digits(b: &[u8]) -> (r: bool)
    ensures
        r == all_digits(b@),
{
    let mut i: usize = 0;
    while i < b.len()
        invariant
            i <= b.len(),
            forall|j: int| 0 <= j < i ==> is_digit(#[trigger] b@[j]),
        decreases b.len() - i,
    {
        if b[i] < 48 || b[i] > 57 {
            assert(!is_digit(b@[i as int]));
            return false;
        }
        i += 1;
    }
    true
}

// ---------------------------------------------------------------------------
// Lines
// ---------------------------------------------------------------------------

/// The position of the first `c` in `s` at or after `from`; the end of `s` where there is none.
pub open spec fn first_index(s: Seq<u8>, c: u8, from: int) -> int
    decreases s.len() - from,
{
    if from >= s.len() {
        s.len() as int
    } else if s[from] == c {
        from
    } else {
        first_index(s, c, from + 1)
    }
}

pub proof fn lemma_first_index(s: Seq<u8>, c: u8, from: int)
    requires
        0 <= from <= s.len(),
    ensures
        from <= first_index(s, c, from) <= s.len(),
        first_index(s, c, from) < s.len() ==> s[first_index(s, c, from)] == c,
        forall|i: int| from <= i < first_index(s, c, from) ==> s[i] != c,
    decreases s.len() - from,
{
    if from < s.len() && s[from] != c {
        lemma_first_index(s, c, from + 1);
    }
}

/// The position of the first `c` in `s` at or after `from`.
pub fn find_byte(s: &[u8], c: u8, from: usize) -> (r: Option<usize>)
    requires
        from <= s.len(),
    ensures
        match r {
            Some(i) => i < s.len() && i == first_index(s@, c, from as int),
            None => first_index(s@, c, from as int) == s.len(),
        },
{
    let mut i: usize = from;
    while i < s.len()
        invariant
            from <= i <= s.len(),
            first_index(s@, c, from as int) == first_index(s@, c, i as int),
        decreases s.len() - i,
    {
        if s[i] == c {
            return Some(i);
        }
        i += 1;
    }
    None
}

pub open spec fn is_line_end(c: u8) -> bool {
    c == 10 || c == 13
}

/// A line without the line feeds and carriage returns at its end.
pub open spec fn rstripped(line: Seq<u8>) -> Seq<u8>
    decreases line.len(),
{
    if line.len() > 0 && is_line_end(line.last()) {
        rstripped(line.drop_last())
    } else {
        line
    }
}

/// Strips the line feeds and carriage returns from the end of a line.
pub fn rstrip(line: &[u8]) -> (r: &[u8])
    ensures
        r@ == rstripped(line@),
{
    let mut len: usize = line.len();
    proof {
        assert(line@.take(len as int) =~= line@);
    }
    while len > 0 && (line[len - 1] == 10 || line[len - 1] == 13)
        invariant
            len <= line.len(),
            rstripped(line@) == rstripped(line@.take(len as int)),
        decreases len,
    {
        proof {
            assert(line@.take(len as int).drop_last() =~= line@.take(len - 1));
        }
        len -= 1;
    }
    proof {
        if len > 0 {
            assert(line@.take(len as int).last() == line@[len - 1]);
        }
    }
    slice_subrange(line, 0, len)
}

/// The lines of a text with their line feeds: each but the last ends in one, and holds no other.
pub open spec fn raw_lines(text: Seq<u8>) -> Seq<Seq<u8>>
    decreases text.len(),
    via raw_lines_decreases
{
    if text.len() == 0 {
        Seq::empty()
    } else {
        let nl = first_index(text, 10, 0);
        let end = if nl < text.len() {
            nl + 1
        } else {
            text.len() as int
        };
        seq![text.take(end)] + raw_lines(text.skip(end))
    }
}

#[via_fn]
proof fn raw_lines_decreases(text: Seq<u8>) {
    if text.len() > 0 {
        lemma_first_index(text, 10, 0);
    }
}

/// The lines of a text, stripped of their ends.
pub open spec fn lines_of(text: Seq<u8>) -> Seq<Seq<u8>> {
    raw_lines(text).map_values(|l: Seq<u8>| rstripped(l))
}

/// The views of a list of byte strings.
pub open spec fn byte_views(v: Seq<Vec<u8>>) -> Seq<Seq<u8>> {
    v.map_values(|l: Vec<u8>| l@)
}

/// Splits a text into lines, stripped of their ends. A text that ends without a line feed has a
/// last line all the same; an empty text has none.
pub fn read_lines_from(text: &[u8]) -> (r: Vec<Vec<u8>>)
    ensures
        byte_views(r@) == lines_of(text@),
{
    let mut out: Vec<Vec<u8>> = Vec::new();
    let mut pos: usize = 0;
    proof {
        assert(text@.skip(0) =~= text@);
    }
    while pos < text.len()
        invariant
            pos <= text.len(),
            lines_of(text@) == byte_views(out@) + lines_of(text@.skip(pos as int)),
        decreases text.len() - pos,
    {
        let nl: Option<usize> = find_byte(text, 10, pos);
        proof {
            lemma_first_index(text@, 10, pos as int);
            lemma_first_index_skip(text@, 10, pos as int, pos as int);
        }
        let end: usize = match nl {
            Some(i) => i + 1,
            None => text.len(),
        };
        let line: &[u8] = rstrip(slice_subrange(text, pos, end));
        let line_vec: Vec<u8> = vstd::slice::slice_to_vec(line);
        let ghost before = out@;
        out.push(line_vec);
        proof {
            let rest = text@.skip(pos as int);
            assert(rest.take(end - pos) =~= text@.subrange(pos as int, end as int));
            assert(rest.skip(end - pos) =~= text@.skip(end as int));
            assert(raw_lines(rest) == seq![rest.take(end - pos)] + raw_lines(rest.skip(end - pos)));
            assert(lines_of(rest) =~= seq![rstripped(rest.take(end - pos))] + lines_of(
                rest.skip(end - pos),
            ));
            assert(byte_views(out@) =~= byte_views(before).push(line_vec@));
            assert(byte_views(before) + lines_of(rest) =~= byte_views(out@) + lines_of(
                text@.skip(end as int),
            ));
        }
        pos = end;
    }
    proof {
        assert(text@.skip(pos as int) =~= Seq::empty());
        assert(lines_of(Seq::empty()) =~= Seq::empty());
        assert(byte_views(out@) + Seq::<Seq<u8>>::empty() =~= byte_views(out@));
    }
    out
}

proof fn lemma_first_index_skip(s: Seq<u8>, c: u8, from: int, skip: int)
    requires
        0 <= skip <= from <= s.len(),
    ensures
        first_index(s.skip(skip), c, from - skip) == first_index(s, c, from) - skip,
    decreases s.len() - from,
{
    if from < s.len() && s[from] != c {
        lemma_first_index_skip(s, c, from + 1, skip);
    }
}

/// The lines of a text, put together again, are the text.
pub proof fn lemma_lines_recombine(text: Seq<u8>)
    ensures
        raw_lines(text).flatten() == text,
    decreases text.len(),
{
    if text.len() == 0 {
        assert(raw_lines(text).flatten() =~= text);
    } else {
        lemma_first_index(text, 10, 0);
        let nl = first_index(text, 10, 0);
        let end = if nl < text.len() {
            nl + 1
        } else {
            text.len() as int
        };
        let rest = raw_lines(text.skip(end));
        lemma_lines_recombine(text.skip(end));
        assert(raw_lines(text).first() == text.take(end));
        assert(raw_lines(text).drop_first() =~= rest);
        assert(text.take(end) + text.skip(end) =~= text);
    }
}

/// No line holds a line feed, except the last byte of a raw one.
pub proof fn lemma_lines_hold_no_feed(text: Seq<u8>, k: int, i: int)
    requires
        0 <= k < raw_lines(text).len(),
        0 <= i < raw_lines(text)[k].len() - 1,
    ensures
        raw_lines(text)[k][i] != 10,
    decreases text.len(),
{
    lemma_first_index(text, 10, 0);
    let nl = first_index(text, 10, 0);
    let end = if nl < text.len() {
        nl + 1
    } else {
        text.len() as int
    };
    if k > 0 {
        assert(raw_lines(text)[k] == raw_lines(text.skip(end))[k - 1]);
        lemma_lines_hold_no_feed(text.skip(end), k - 1, i);
    }
}

// ---------------------------------------------------------------------------
// Dates
// ---------------------------------------------------------------------------

/// The first year of the calendar that dates are read in.
pub const FIRST_YEAR: i32 = 1999;

pub const YEAR_OFFSETS: [i32; 8] = [0, 365, 731, 1096, 1461, 1826, 2192, 2557];

pub const MONTH_OFFSETS_NORMAL: [i32; 12] = [0, 31, 59, 90, 120, 151, 181, 212, 243, 273, 304, 334];

pub const MONTH_OFFSETS_LEAP: [i32; 12] = [0, 31, 60, 91, 121, 152, 182, 213, 244, 274, 305, 335];

/// Days from the first of January of the first year to day zero, the eleventh of November.
pub const ORIGIN_OFFSET: i32 = 314;

pub open spec fn leap(y: int) -> bool {
    (y % 4 == 0 && y % 100 != 0) || y % 400 == 0
}

/// Whether `y` is a leap year.
pub fn is_leap(y: i32) -> (r: bool)
    ensures
        r == leap(y as int),
{
    (y % 4 == 0 && y % 100 != 0) || y % 400 == 0
}

pub open spec fn year_length(y: int) -> int {
    if leap(y) {
        366
    } else {
        365
    }
}

pub open spec fn month_length(y: int, m: int) -> int {
    if m == 2 {
        if leap(y) {
            29
        } else {
            28
        }
    } else if m == 4 || m == 6 || m == 9 || m == 11 {
        30
    } else {
        31
    }
}

/// Days from the first of January of the first year to the first of January of `y`.
pub open spec fn days_before_year(y: int) -> int
    decreases y - 1999,
{
    if y <= 1999 {
        0
    } else {
        days_before_year(y - 1) + year_length(y - 1)
    }
}

/// Days from the first of January of `y` to the first of its `m`-th month.
pub open spec fn days_before_month(y: int, m: int) -> int
    decreases m,
{
    if m <= 1 {
        0
    } else {
        days_before_month(y, m - 1) + month_length(y, m - 1)
    }
}

/// Days from the eleventh of November of the first year to the `d`-th day of a month.
pub open spec fn day_number(y: int, m: int, d: int) -> int {
    days_before_year(y) + days_before_month(y, m) + d - 1 - (days_before_month(1999, 11) + 10)
}

pub open spec fn digit2(b: Seq<u8>, i: int) -> int {
    (b[i] - 48) * 10 + (b[i + 1] - 48)
}

pub open spec fn date_year(b: Seq<u8>) -> int {
    (b[0] - 48) * 1000 + (b[1] - 48) * 100 + digit2(b, 2)
}

/// `b` starts with a date of the form `YYYY-MM-DD` in the years that the calendar covers; the
/// bytes between year, month and day are not looked at, and the day need not be one of its month.
pub open spec fn is_date(b: Seq<u8>) -> bool {
    &&& b.len() >= 10
    &&& counts(b[0]) && counts(b[1]) && counts(b[2]) && counts(b[3])
    &&& counts(b[5]) && counts(b[6])
    &&& counts(b[8]) && counts(b[9])
    &&& 1999 <= date_year(b) <= 2006
    &&& 1 <= digit2(b, 5) <= 12
}

/// The day number of the date that `b` starts with.
pub open spec fn date_value(b: Seq<u8>) -> int {
    day_number(date_year(b), digit2(b, 5), digit2(b, 8))
}

proof fn lemma_year_table(y: int)
    requires
        1999 <= y <= 2006,
    ensures
        YEAR_OFFSETS[y - 1999] == days_before_year(y),
{
    reveal_with_fuel(days_before_year, 9);
}

proof fn lemma_month_table(y: int, m: int)
    requires
        1 <= m <= 12,
    ensures
        leap(y) ==> MONTH_OFFSETS_LEAP[m - 1] == days_before_month(y, m),
        !leap(y) ==> MONTH_OFFSETS_NORMAL[m - 1] == days_before_month(y, m),
{
    reveal_with_fuel(days_before_month, 13);
}

/// The day number of a date.
pub fn parse_date_bytes(b: &[u8]) -> (r: i16)
    requires
        is_date(b@),
    ensures
        r == date_value(b@),
{
    let y: i32 = (b[0] - 48) as i32 * 1000 + (b[1] - 48) as i32 * 100 + (b[2] - 48) as i32 * 10 + (
    b[3] - 48) as i32;
    let m: i32 = (b[5] - 48) as i32 * 10 + (b[6] - 48) as i32;
    let d: i32 = (b[8] - 48) as i32 * 10 + (b[9] - 48) as i32;
    proof {
        lemma_year_table(y as int);
        lemma_month_table(y as int, m as int);
        lemma_month_table(1999, 11);
    }
    let year_off: i32 = YEAR_OFFSETS[(y - FIRST_YEAR) as usize];
    let month_off: i32 = if is_leap(y) {
        MONTH_OFFSETS_LEAP[(m - 1) as usize]
    } else {
        MONTH_OFFSETS_NORMAL[(m - 1) as usize]
    };
    (year_off + month_off + d - 1 - ORIGIN_OFFSET) as i16
}

/// The day number of the date that `b` starts with, if it starts with one.
pub fn parse_date(b: &[u8]) -> (r: Option<i16>)
    ensures
        r == (if is_date(b@) {
            Some(date_value(b@) as i16)
        } else {
            None
        }),
        r matches Some(d) ==> d == date_value(b@),
{
    if b.len() < 10 {
        return None;
    }
    let ok: bool = counts_at(b, 0) && counts_at(b, 1) && counts_at(b, 2) && counts_at(b, 3)
        && counts_at(b, 5) && counts_at(b, 6) && counts_at(b, 8) && counts_at(b, 9);
    if !ok {
        return None;
    }
    let y: i32 = (b[0] - 48) as i32 * 1000 + (b[1] - 48) as i32 * 100 + (b[2] - 48) as i32 * 10 + (
    b[3] - 48) as i32;
    let m: i32 = (b[5] - 48) as i32 * 10 + (b[6] - 48) as i32;
    if y < 1999 || y > 2006 || m < 1 || m > 12 {
        return None;
    }
    Some(parse_date_bytes(b))
}

fn counts_at(b: &[u8], i: usize) -> (r: bool)
    requires
        i < b.len(),
    ensures
        r == counts(b@[i as int]),
{
    b[i] >= 48
}

/// A date is read from its decimal digits, and the eleventh of November of the first year is day
/// zero.
pub proof fn lemma_date_reads(b: Seq<u8>, y: int, m: int, d: int)
    requires
        b.len() >= 10,
        1999 <= y <= 2006,
        1 <= m <= 12,
        0 <= d <= 99,
        b[0] == 48 + y / 1000,
        b[1] == 48 + y / 100 % 10,
        b[2] == 48 + y / 10 % 10,
        b[3] == 48 + y % 10,
        b[5] == 48 + m / 10,
        b[6] == 48 + m % 10,
        b[8] == 48 + d / 10,
        b[9] == 48 + d % 10,
    ensures
        is_date(b),
        date_value(b) == day_number(y, m, d),
        day_number(1999, 11, 11) == 0,
{
}

/// The day after a day has the next number: within a month, over the end of a month with its own
/// number of days, and over the end of a year.
pub proof fn lemma_next_day(y: int, m: int, d: int)
    requires
        1999 <= y,
        1 <= m <= 12,
    ensures
        day_number(y, m, d + 1) == day_number(y, m, d) + 1,
        m < 12 ==> day_number(y, m + 1, 1) == day_number(
            y,
            m,
            if m == 2 {
                if y % 4 == 0 && (y % 100 != 0 || y % 400 == 0) {
                    29
                } else {
                    28
                }
            } else if m == 4 || m == 6 || m == 9 || m == 11 {
                30
            } else {
                31
            },
        ) + 1,
        day_number(y + 1, 1, 1) == day_number(y, 12, 31) + 1,
{
    reveal_with_fuel(days_before_month, 14);
}

/// Of two dates with real days, the later one has the greater day number.
pub proof fn lemma_day_number_orders(y1: int, m1: int, d1: int, y2: int, m2: int, d2: int)
    requires
        1999 <= y1,
        1999 <= y2,
        1 <= m1 <= 12,
        1 <= m2 <= 12,
        1 <= d1 <= month_length(y1, m1),
        1 <= d2 <= month_length(y2, m2),
        y1 < y2 || (y1 == y2 && (m1 < m2 || (m1 == m2 && d1 < d2))),
    ensures
        day_number(y1, m1, d1) < day_number(y2, m2, d2),
{
    if y1 < y2 {
        lemma_years_grow(y1, y2);
        reveal_with_fuel(days_before_month, 14);
        lemma_months_grow(y1, m1 + 1, 13);
        lemma_months_grow(y2, 1, m2);
    } else if m1 < m2 {
        lemma_months_grow(y1, m1 + 1, m2);
    }
}

proof fn lemma_years_grow(y1: int, y2: int)
    requires
        1999 <= y1 < y2,
    ensures
        days_before_year(y1) + year_length(y1) <= days_before_year(y2),
    decreases y2 - y1,
{
    if y1 + 1 < y2 {
        lemma_years_grow(y1, y2 - 1);
    }
}

proof fn lemma_months_grow(y: int, m1: int, m2: int)
    requires
        1 <= m1 <= m2,
    ensures
        days_before_month(y, m1) <= days_before_month(y, m2),
    decreases m2 - m1,
{
    if m1 < m2 {
        lemma_months_grow(y, m1, m2 - 1);
    }
}

/// A stripped line is the line without a run of line ends after it, and does not end in one.
pub proof fn lemma_rstripped(line: Seq<u8>)
    ensures
        rstripped(line).len() <= line.len(),
        rstripped(line) == line.take(rstripped(line).len() as int),
        forall|i: int|
            rstripped(line).len() <= i < line.len() ==> #[trigger] line[i] == 10 || line[i] == 13,
        rstripped(line).len() > 0 ==> rstripped(line).last() != 10 && rstripped(line).last() != 13,
    decreases line.len(),
{
    if line.len() > 0 && is_line_end(line.last()) {
        let h = line.drop_last();
        lemma_rstripped(h);
        assert(h.take(rstripped(h).len() as int) =~= line.take(rstripped(h).len() as int));
        assert forall|i: int| rstripped(line).len() <= i < line.len() implies #[trigger] line[i] == 10
            || line[i] == 13 by {
            if i < h.len() {
                assert(h[i] == line[i]);
            }
        }
    } else {
        assert(line.take(line.len() as int) =~= line);
    }
}

/// Each line of a text but the last ends in a line feed, and none is empty.
pub proof fn lemma_lines_end_in_feed(text: Seq<u8>, k: int)
    requires
        0 <= k < raw_lines(text).len(),
    ensures
        raw_lines(text)[k].len() > 0,
        k < raw_lines(text).len() - 1 ==> raw_lines(text)[k].last() == 10,
        lines_of(text).len() == raw_lines(text).len(),
        lines_of(text)[k] == rstripped(raw_lines(text)[k]),
    decreases text.len(),
{
    lemma_first_index(text, 10, 0);
    let nl = first_index(text, 10, 0);
    let end = if nl < text.len() {
        nl + 1
    } else {
        text.len() as int
    };
    if k > 0 {
        assert(raw_lines(text)[k] == raw_lines(text.skip(end))[k - 1]);
        lemma_lines_end_in_feed(text.skip(end), k - 1);
    } else if raw_lines(text).len() > 1 {
        assert(raw_lines(text)[0] == text.take(end));
        assert(raw_lines(text.skip(end)).len() > 0);
        assert(end < text.len());
    }
}

/// What is read as a date: ten bytes, of which those of the year, the month and the day count as
/// digits, in the years of the calendar and one of the twelve months.
pub proof fn lemma_date_exact(b: Seq<u8>)
    ensures
        ({
            let y = 1000 * (b[0] - 48) + 100 * (b[1] - 48) + 10 * (b[2] - 48) + (b[3] - 48);
            let m = 10 * (b[5] - 48) + (b[6] - 48);
            let d = 10 * (b[8] - 48) + (b[9] - 48);
            &&& is_date(b) <==> b.len() >= 10 && b[0] >= 48 && b[1] >= 48 && b[2] >= 48 && b[3] >= 48
                && b[5] >= 48 && b[6] >= 48 && b[8] >= 48 && b[9] >= 48 && 1999 <= y <= 2006 && 1 <= m
                <= 12
            &&& is_date(b) ==> date_value(b) == day_number(y, m, d)
        }),
{
}

/// What is read as a number of 32 bits, and what as digits alone.
pub proof fn lemma_numbers_read(b: Seq<u8>)
    ensures
        is_u32(b) <==> (forall|i: int| 0 <= i < b.len() ==> #[trigger] b[i] >= 48) && digits_value(b)
            <= 4_294_967_295,
        all_digits(b) <==> forall|i: int| 0 <= i < b.len() ==> 48 <= #[trigger] b[i] <= 57,
{
    if is_u32(b) {
        assert forall|i: int| 0 <= i < b.len() implies #[trigger] b[i] >= 48 by {
            assert(counts(b[i]));
        }
    }
    if all_digits(b) {
        assert forall|i: int| 0 <= i < b.len() implies 48 <= #[trigger] b[i] <= 57 by {
            assert(is_digit(b[i]));
        }
    }
}

} // verus!
