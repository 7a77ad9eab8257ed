//! Strings as sequences of characters: comparing, cutting, splitting, trimming, and decimal
//! numbers.

use vstd::prelude::*;
use vstd::string::*;

verus! {

// ---------------------------------------------------------------------------
// Characters
// ---------------------------------------------------------------------------

/// The characters of a string.
pub fn chars_of(s: &str) -> (r: Vec<char>)
    ensures
        r@ == s@,
{
    let mut out: Vec<char> = Vec::new();
    for c in it: s.chars()
        invariant
            it.seq() == s@,
            out@ == s@.take(it.index() as int),
    {
        out.push(c);
        proof {
            assert(s@.take(it.index() + 1) =~= s@.take(it.index() as int).push(c));
        }
    }
    proof {
        assert(s@.take(s@.len() as int) =~= s@);
    }
    out
}

/// `<String as FromIterator<&char>>::from_iter` of std: the string whose characters are the
/// listed ones, in order.
#[verifier::external_body]
pub(crate) fn string_of(chars: &Vec<char>) -> (r: String)
    ensures
        r@ == chars@,
{
    String::from_iter(chars)
}

/// The code point of a character.
pub fn code_point(c: char) -> (r: u32)
    ensures
        r == c as int,
{
    c as u32
}

/// The views of a list of strings.
pub open spec fn views(v: Seq<String>) -> Seq<Seq<char>> {
    v.map_values(|s: String| s@)
}

/// The contents of a text that may be missing.
pub open spec fn text_view(s: Option<String>) -> Option<Seq<char>> {
    match s {
        Some(v) => Some(v@),
        None => None,
    }
}

/// An empty list of texts.
pub fn no_names() -> (r: Vec<String>)
    ensures
        views(r@) == Seq::<Seq<char>>::empty(),
{
    let v: Vec<String> = Vec::new();
    proof {
        assert(views(v@) =~= Seq::<Seq<char>>::empty());
    }
    v
}

/// Adds a text to a list.
pub fn push_name(list: &mut Vec<String>, s: &String)
    ensures
        views(final(list)@) == views(old(list)@).push(s@),
{
    let ghost before = list@;
    list.push(s.clone());
    proof {
        assert(views(list@) =~= views(before).push(s@));
    }
}

/// The same texts again.
pub fn copy_names(list: &Vec<String>) -> (r: Vec<String>)
    ensures
        views(r@) == views(list@),
{
    let mut out: Vec<String> = no_names();
    let mut i: usize = 0;
    proof {
        assert(views(list@).take(0) =~= Seq::<Seq<char>>::empty());
    }
    while i < list.len()
        invariant
            i <= list.len(),
            views(out@) == views(list@).take(i as int),
        decreases list.len() - i,
    {
        push_name(&mut out, &list[i]);
        proof {
            assert(views(list@).take(i + 1) =~= views(list@).take(i as int).push(list@[i as int]@));
        }
        i += 1;
    }
    proof {
        assert(views(list@).take(list.len() as int) =~= views(list@));
    }
    out
}

/// Whether two strings are the same.
pub fn same(a: &str, b: &str) -> (r: bool)
    ensures
        r == (a@ == b@),
{
    a.to_owned() == b.to_owned()
}

/// One string after another.
pub fn joined(a: &str, b: &str) -> (r: String)
    ensures
        r@ == a@ + b@,
{
    let mut s: String = a.to_owned();
    s.append(b);
    s
}

/// Three strings one after another.
pub fn joined3(a: &str, b: &str, c: &str) -> (r: String)
    ensures
        r@ == a@ + b@ + c@,
{
    let mut s: String = a.to_owned();
    s.append(b);
    s.append(c);
    s
}

/// `p` stands in `s` at the place `at`.
pub open spec fn occurs_at(s: Seq<char>, p: Seq<char>, at: int) -> bool {
    0 <= at && at + p.len() <= s.len() && s.subrange(at, at + p.len()) == p
}

/// Whether `p` stands in `s` at the place `at`.
pub fn chars_occur_at(s: &Vec<char>, p: &Vec<char>, at: usize) -> (r: bool)
    requires
        at <= s.len(),
    ensures
        r == occurs_at(s@, p@, at as int),
{
    if s.len() - at < p.len() {
        return false;
    }
    let mut i: usize = 0;
    while i < p.len()
        invariant
            at + p.len() <= s.len(),
            i <= p.len(),
            forall|k: int| 0 <= k < i ==> s@[at + k] == p@[k],
        decreases p.len() - i,
    {
        if s[at + i] != p[i] {
            proof {
                assert(s@.subrange(at as int, at + p.len())[i as int] == s@[at + i]);
            }
            return false;
        }
        i += 1;
    }
    proof {
        assert(s@.subrange(at as int, at + p.len()) =~= p@);
    }
    true
}

/// Whether `s` begins with `p`.
pub fn starts_with(s: &str, p: &str) -> (r: bool)
    ensures
        r == p@.is_prefix_of(s@),
{
    let sv: Vec<char> = chars_of(s);
    let pv: Vec<char> = chars_of(p);
    let r: bool = chars_occur_at(&sv, &pv, 0);
    r
}

/// Whether `s` ends with `p`.
pub fn ends_with(s: &str, p: &str) -> (r: bool)
    ensures
        r == p@.is_suffix_of(s@),
{
    let sv: Vec<char> = chars_of(s);
    let pv: Vec<char> = chars_of(p);
    if sv.len() < pv.len() {
        return false;
    }
    let at: usize = sv.len() - pv.len();
    let r: bool = chars_occur_at(&sv, &pv, at);
    r
}

/// The part of a list of characters from `from` up to `to`.
pub fn piece(s: &Vec<char>, from: usize, to: usize) -> (r: String)
    requires
        from <= to <= s.len(),
    ensures
        r@ == s@.subrange(from as int, to as int),
{
    let mut out: Vec<char> = Vec::new();
    let mut i: usize = from;
    while i < to
        invariant
            from <= i <= to <= s.len(),
            out@ == s@.subrange(from as int, i as int),
        decreases to - i,
    {
        out.push(s[i]);
        proof {
            assert(s@.subrange(from as int, i + 1) =~= s@.subrange(from as int, i as int).push(
                s@[i as int],
            ));
        }
        i += 1;
    }
    string_of(&out)
}

/// What is left of `s` without the end `p`, if it ends with it.
pub fn strip_suffix(s: &str, p: &str) -> (r: Option<String>)
    ensures
        match r {
            Some(b) => p@.is_suffix_of(s@) && s@ == b@ + p@,
            None => !p@.is_suffix_of(s@),
        },
{
    if !ends_with(s, p) {
        return None;
    }
    let sv: Vec<char> = chars_of(s);
    let pv: Vec<char> = chars_of(p);
    let b: String = piece(&sv, 0, sv.len() - pv.len());
    proof {
        assert(s@ =~= b@ + p@);
    }
    Some(b)
}

/// Whether a list holds a string.
pub fn holds(list: &Vec<String>, s: &str) -> (r: bool)
    ensures
        r == views(list@).contains(s@),
{
    let mut i: usize = 0;
    while i < list.len()
        invariant
            i <= list.len(),
            forall|k: int| 0 <= k < i ==> views(list@)[k] != s@,
        decreases list.len() - i,
    {
        if same(list[i].as_str(), s) {
            proof {
                assert(views(list@)[i as int] == s@);
            }
            return true;
        }
        i += 1;
    }
    false
}

// ---------------------------------------------------------------------------
// Searching and splitting
// ---------------------------------------------------------------------------

/// The place of the first `c` in `s` at or after `from`; the end of `s` where there is none.
pub open spec fn first_char(s: Seq<char>, c: char, from: int) -> int
    decreases s.len() - from,
{
    if from >= s.len() {
        s.len() as int
    } else if s[from] == c {
        from
    } else {
        first_char(s, c, from + 1)
    }
}

pub proof fn lemma_first_char(s: Seq<char>, c: char, from: int)
    requires
        0 <= from <= s.len(),
    ensures
        from <= first_char(s, c, from) <= s.len(),
        first_char(s, c, from) < s.len() ==> s[first_char(s, c, from)] == c,
        forall|i: int| from <= i < first_char(s, c, from) ==> s[i] != c,
    decreases s.len() - from,
{
    if from < s.len() && s[from] != c {
        lemma_first_char(s, c, from + 1);
    }
}

proof fn lemma_first_char_skip(s: Seq<char>, c: char, from: int, skip: int)
    requires
        0 <= skip <= from <= s.len(),
    ensures
        first_char(s.skip(skip), c, from - skip) == first_char(s, c, from) - skip,
    decreases s.len() - from,
{
    if from < s.len() && s[from] != c {
        lemma_first_char_skip(s, c, from + 1, skip);
    }
}

/// The place of the first `c` at or after `from`, else the end.
pub fn find_char(s: &Vec<char>, c: char, from: usize) -> (r: usize)
    requires
        from <= s.len(),
    ensures
        r == first_char(s@, c, from as int),
        from <= r <= s.len(),
{
    let mut i: usize = from;
    while i < s.len()
        invariant
            from <= i <= s.len(),
            first_char(s@, c, from as int) == first_char(s@, c, i as int),
        decreases s.len() - i,
    {
        if s[i] == c {
            return i;
        }
        i += 1;
    }
    i
}

/// The pieces of `s` between the characters `c`; one piece where there is none.
pub open spec fn split_on(s: Seq<char>, c: char) -> Seq<Seq<char>>
    decreases s.len(),
    via split_on_decreases
{
    let i = first_char(s, c, 0);
    if i >= s.len() {
        seq![s]
    } else {
        seq![s.take(i)] + split_on(s.skip(i + 1), c)
    }
}

#[via_fn]
proof fn split_on_decreases(s: Seq<char>, c: char) {
    lemma_first_char(s, c, 0);
}

/// Splits a string at every `c`.
pub fn split(s: &str, c: char) -> (r: Vec<String>)
    ensures
        views(r@) == split_on(s@, c),
        r.len() > 0,
{
    let sv: Vec<char> = chars_of(s);
    let mut out: Vec<String> = Vec::new();
    let mut pos: usize = 0;
    proof {
        assert(sv@.skip(0) =~= sv@);
        assert(views(out@) =~= Seq::empty());
        assert(Seq::<Seq<char>>::empty() + split_on(sv@, c) =~= split_on(sv@, c));
    }
    loop
        invariant_except_break
            pos <= sv.len(),
            split_on(sv@, c) == views(out@) + split_on(sv@.skip(pos as int), c),
        ensures
            views(out@) == split_on(sv@, c),
            out.len() > 0,
        decreases sv.len() - pos,
    {
        let i: usize = find_char(&sv, c, pos);
        let ghost rest = sv@.skip(pos as int);
        proof {
            lemma_first_char(sv@, c, pos as int);
            lemma_first_char_skip(sv@, c, pos as int, pos as int);
            assert(rest.take(i - pos) =~= sv@.subrange(pos as int, i as int));
        }
        let ghost before = out@;
        out.push(piece(&sv, pos, i));
        proof {
            assert(views(out@) =~= views(before).push(rest.take(i - pos)));
        }
        if i >= sv.len() {
            proof {
                assert(rest.take(i - pos) =~= rest);
                assert(views(before) + seq![rest] =~= views(before).push(rest));
            }
            break;
        }
        proof {
            assert(rest.skip(i - pos + 1) =~= sv@.skip(i + 1));
            assert(split_on(rest, c) == seq![rest.take(i - pos)] + split_on(sv@.skip(i + 1), c));
            assert(views(before) + (seq![rest.take(i - pos)] + split_on(sv@.skip(i + 1), c))
                =~= views(out@) + split_on(sv@.skip(i + 1), c));
        }
        pos = i + 1;
    }
    out
}

/// Where the text after the last `c` begins; the beginning where there is none.
pub open spec fn after_last_at(s: Seq<char>, c: char) -> int
    decreases s.len(),
{
    if s.len() == 0 {
        0
    } else if s.last() == c {
        s.len() as int
    } else {
        after_last_at(s.drop_last(), c)
    }
}

/// The text after the last `c`; the whole text where there is none.
pub open spec fn after_last_spec(s: Seq<char>, c: char) -> Seq<char> {
    s.skip(after_last_at(s, c))
}

/// The text after the last `c`; the whole text where there is none.
pub fn after_last(s: &str, c: char) -> (r: String)
    ensures
        r@ == after_last_spec(s@, c),
{
    let v: Vec<char> = chars_of(s);
    let mut i: usize = v.len();
    proof {
        assert(v@.take(i as int) =~= v@);
    }
    while i > 0 && v[i - 1] != c
        invariant
            v@ == s@,
            i <= v.len(),
            after_last_at(v@, c) == after_last_at(v@.take(i as int), c),
        decreases i,
    {
        proof {
            assert(v@.take(i as int).drop_last() =~= v@.take(i - 1));
            assert(v@.take(i as int).last() == v@[i - 1]);
        }
        i -= 1;
    }
    proof {
        if i > 0 {
            assert(v@.take(i as int).last() == v@[i - 1]);
        }
        assert(v@.subrange(i as int, v.len() as int) =~= v@.skip(i as int));
    }
    piece(&v, i, v.len())
}

/// The strings of a list with `sep` between them.
pub open spec fn join_spec(parts: Seq<Seq<char>>, sep: Seq<char>) -> Seq<char>
    decreases parts.len(),
{
    if parts.len() == 0 {
        Seq::empty()
    } else if parts.len() == 1 {
        parts[0]
    } else {
        join_spec(parts.drop_last(), sep) + sep + parts.last()
    }
}

/// The strings of a list with `sep` between them.
pub fn join(parts: &Vec<String>, sep: &str) -> (r: String)
    ensures
        r@ == join_spec(views(parts@), sep@),
{
    let mut s: String = String::new();
    let mut i: usize = 0;
    let ghost all = views(parts@);
    proof {
        assert(all.take(0) =~= Seq::empty());
    }
    while i < parts.len()
        invariant
            all == views(parts@),
            i <= parts.len(),
            s@ == join_spec(all.take(i as int), sep@),
        decreases parts.len() - i,
    {
        proof {
            assert(all.take(i + 1).drop_last() =~= all.take(i as int));
            assert(all.take(i + 1).last() == parts@[i as int]@);
            assert(Seq::<char>::empty() + parts@[i as int]@ =~= parts@[i as int]@);
        }
        if i > 0 {
            s.append(sep);
        }
        s.append(parts[i].as_str());
        i += 1;
    }
    proof {
        assert(all.take(parts.len() as int) =~= all);
    }
    s
}

/// Joining with one character what was split at it gives the string back.
pub proof fn lemma_split_join(s: Seq<char>, c: char)
    ensures
        join_spec(split_on(s, c), seq![c]) == s,
    decreases s.len(),
{
    lemma_first_char(s, c, 0);
    let i = first_char(s, c, 0);
    if i < s.len() {
        let rest = split_on(s.skip(i + 1), c);
        lemma_split_join(s.skip(i + 1), c);
        lemma_split_nonempty(s.skip(i + 1), c);
        lemma_join_cons(s.take(i), rest, seq![c]);
        assert(s.take(i) + seq![c] + s.skip(i + 1) =~= s);
    }
}

proof fn lemma_split_nonempty(s: Seq<char>, c: char)
    ensures
        split_on(s, c).len() > 0,
{
    lemma_first_char(s, c, 0);
}

proof fn lemma_join_cons(first: Seq<char>, rest: Seq<Seq<char>>, sep: Seq<char>)
    requires
        rest.len() > 0,
    ensures
        join_spec(seq![first] + rest, sep) == first + sep + join_spec(rest, sep),
    decreases rest.len(),
{
    let all = seq![first] + rest;
    if rest.len() == 1 {
        reveal_with_fuel(join_spec, 2);
        assert(all.drop_last() =~= seq![first]);
        assert(all.last() == rest[0]);
    } else {
        assert(all.drop_last() =~= seq![first] + rest.drop_last());
        lemma_join_cons(first, rest.drop_last(), sep);
        assert(all.last() == rest.last());
        assert(first + sep + join_spec(rest.drop_last(), sep) + sep + rest.last() =~= first + sep + (
        join_spec(rest.drop_last(), sep) + sep + rest.last()));
    }
}

// ---------------------------------------------------------------------------
// Trimming
// ---------------------------------------------------------------------------

/// The characters of the Unicode property White_Space.
pub open spec fn is_white(c: char) -> bool {
    let x = c as int;
    ||| 0x9 <= x <= 0xD
    ||| x == 0x20
    ||| x == 0x85
    ||| x == 0xA0
    ||| x == 0x1680
    ||| 0x2000 <= x <= 0x200A
    ||| x == 0x2028
    ||| x == 0x2029
    ||| x == 0x202F
    ||| x == 0x205F
    ||| x == 0x3000
}

/// Whether a character is white space.
pub fn is_white_space(c: char) -> (r: bool)
    ensures
        r == is_white(c),
{
    let x: u32 = c as u32;
    (0x9 <= x && x <= 0xD) || x == 0x20 || x == 0x85 || x == 0xA0 || x == 0x1680 || (0x2000 <= x && x
        <= 0x200A) || x == 0x2028 || x == 0x2029 || x == 0x202F || x == 0x205F || x == 0x3000
}

/// `s` without white space at its beginning.
pub open spec fn trim_start_spec(s: Seq<char>) -> Seq<char>
    decreases s.len(),
{
    if s.len() > 0 && is_white(s[0]) {
        trim_start_spec(s.skip(1))
    } else {
        s
    }
}

/// `s` without white space at its end.
pub open spec fn trim_end_spec(s: Seq<char>) -> Seq<char>
    decreases s.len(),
{
    if s.len() > 0 && is_white(s.last()) {
        trim_end_spec(s.drop_last())
    } else {
        s
    }
}

/// `s` without white space at either end.
pub open spec fn trimmed(s: Seq<char>) -> Seq<char> {
    trim_end_spec(trim_start_spec(s))
}

/// The string without white space at either end.
pub fn trim(s: &str) -> (r: String)
    ensures
        r@ == trimmed(s@),
{
    let v: Vec<char> = chars_of(s);
    let mut lo: usize = 0;
    proof {
        assert(v@.skip(0) =~= v@);
    }
    while lo < v.len() && is_white_space(v[lo])
        invariant
            lo <= v.len(),
            trim_start_spec(v@) == trim_start_spec(v@.skip(lo as int)),
        decreases v.len() - lo,
    {
        proof {
            assert(v@.skip(lo as int).skip(1) =~= v@.skip(lo + 1));
        }
        lo += 1;
    }
    let ghost body = v@.skip(lo as int);
    proof {
        if lo < v.len() {
            assert(body[0] == v@[lo as int]);
        }
    }
    let mut hi: usize = v.len();
    proof {
        assert(v@.subrange(lo as int, hi as int) =~= body);
    }
    while hi > lo && is_white_space(v[hi - 1])
        invariant
            lo <= hi <= v.len(),
            trim_end_spec(body) == trim_end_spec(v@.subrange(lo as int, hi as int)),
        decreases hi,
    {
        proof {
            assert(v@.subrange(lo as int, hi as int).drop_last() =~= v@.subrange(
                lo as int,
                hi - 1,
            ));
        }
        hi -= 1;
    }
    proof {
        if hi > lo {
            assert(v@.subrange(lo as int, hi as int).last() == v@[hi - 1]);
        }
    }
    piece(&v, lo, hi)
}

// ---------------------------------------------------------------------------
// Decimal numbers
// ---------------------------------------------------------------------------

pub open spec fn digit_char(d: int) -> char {
    ((48 + d) as u8) as char
}

/// The decimal digits of a number.
pub open spec fn decimal(n: nat) -> Seq<char>
    decreases n,
{
    if n < 10 {
        seq![digit_char(n as int)]
    } else {
        decimal(n / 10).push(digit_char((n % 10) as int))
    }
}

fn push_decimal(n: u64, out: &mut Vec<char>)
    ensures
        final(out)@ == old(out)@ + decimal(n as nat),
    decreases n,
{
    if n < 10 {
        let c: char = (48 + n as u8) as char;
        let ghost before = out@;
        out.push(c);
        proof {
            assert(before.push(c) =~= before + seq![c]);
        }
    } else {
        let ghost before = out@;
        push_decimal(n / 10, out);
        let c: char = (48 + (n % 10) as u8) as char;
        out.push(c);
        proof {
            assert((before + decimal((n / 10) as nat)).push(c) =~= before + decimal(
                (n / 10) as nat,
            ).push(c));
        }
    }
}

/// A number in decimal.
pub fn decimal_string(n: u64) -> (r: String)
    ensures
        r@ == decimal(n as nat),
{
    let mut out: Vec<char> = Vec::new();
    push_decimal(n, &mut out);
    proof {
        assert(Seq::<char>::empty() + decimal(n as nat) =~= decimal(n as nat));
    }
    string_of(&out)
}

pub open spec fn is_digit_char(c: char) -> bool {
    48 <= c as int <= 57
}

pub open spec fn all_digit_chars(s: Seq<char>) -> bool {
    forall|i: int| 0 <= i < s.len() ==> is_digit_char(#[trigger] s[i])
}

/// The number that decimal digits write.
pub open spec fn decimal_value(s: Seq<char>) -> nat
    decreases s.len(),
{
    if s.len() == 0 {
        0
    } else {
        decimal_value(s.drop_last()) * 10 + (s.last() as int - 48) as nat
    }
}

/// The number that a string writes in decimal, an optional plus sign before it, if it writes one
/// that fits in 64 bits.
pub open spec fn u64_value(s: Seq<char>) -> Option<u64> {
    let digits = if s.len() > 0 && s[0] == '+' {
        s.skip(1)
    } else {
        s
    };
    if digits.len() > 0 && all_digit_chars(digits) && decimal_value(digits) <= u64::MAX {
        Some(decimal_value(digits) as u64)
    } else {
        None
    }
}

proof fn lemma_decimal_prefix(s: Seq<char>, i: int)
    requires
        all_digit_chars(s),
        0 <= i <= s.len(),
    ensures
        decimal_value(s.take(i)) <= decimal_value(s),
    decreases s.len() - i,
{
    if i < s.len() {
        lemma_decimal_prefix(s, i + 1);
        assert(s.take(i + 1).drop_last() =~= s.take(i));
        assert(is_digit_char(s[i]));
    } else {
        assert(s.take(i) =~= s);
    }
}

/// Reads a decimal number, an optional plus sign before it.
pub fn parse_u64(s: &str) -> (r: Option<u64>)
    ensures
        r == u64_value(s@),
{
    let v: Vec<char> = chars_of(s);
    let start: usize = if v.len() > 0 && v[0] == '+' {
        1
    } else {
        0
    };
    let ghost digits = v@.skip(start as int);
    proof {
        if start == 0 {
            assert(digits =~= v@);
        }
        assert(digits.take(0) =~= Seq::empty());
    }
    if v.len() == start {
        return None;
    }
    let mut n: u64 = 0;
    let mut i: usize = start;
    while i < v.len()
        invariant
            start <= i <= v.len(),
            v@ == s@,
            start == (if v.len() > 0 && v@[0] == '+' {
                1int
            } else {
                0
            }),
            digits == v@.skip(start as int),
            start == 0 ==> digits == v@,
            all_digit_chars(digits.take(i - start)),
            n == decimal_value(digits.take(i - start)),
        decreases v.len() - i,
    {
        let c: u32 = code_point(v[i]);
        let ghost at = i - start;
        proof {
            assert(digits[at] == v@[i as int]);
            assert(digits.take(at + 1).drop_last() =~= digits.take(at));
            assert(digits.take(at + 1).last() == v@[i as int]);
        }
        if c < 48 || c > 57 {
            proof {
                assert(!is_digit_char(digits[at]));
            }
            return None;
        }
        proof {
            assert forall|j: int| 0 <= j < at + 1 implies is_digit_char(
                #[trigger] digits.take(at + 1)[j],
            ) by {
                if j < at {
                    assert(is_digit_char(digits.take(at)[j]));
                }
            }
        }
        let d: u64 = (c - 48) as u64;
        if n > (u64::MAX - d) / 10 {
            proof {
                if all_digit_chars(digits) {
                    lemma_decimal_prefix(digits, at + 1);
                }
            }
            return None;
        }
        n = n * 10 + d;
        i += 1;
    }
    proof {
        assert(digits.take(digits.len() as int) =~= digits);
    }
    Some(n)
}

/// A number read from its decimal digits is the number.
pub proof fn lemma_decimal_reads_back(n: nat)
    ensures
        decimal(n).len() > 0,
        all_digit_chars(decimal(n)),
        decimal_value(decimal(n)) == n,
    decreases n,
{
    if n < 10 {
        let s = decimal(n);
        assert(s.drop_last() =~= Seq::empty());
        assert(decimal_value(Seq::empty()) == 0);
    } else {
        lemma_decimal_reads_back(n / 10);
        let s = decimal(n);
        assert(s.drop_last() =~= decimal(n / 10));
        assert forall|i: int| 0 <= i < s.len() implies is_digit_char(#[trigger] s[i]) by {
            if i < s.len() - 1 {
                assert(is_digit_char(decimal(n / 10)[i]));
            }
        }
    }
}

// ---------------------------------------------------------------------------
// Alphabetical order
// ---------------------------------------------------------------------------

/// `a` comes before `b`, or is `b`: the order of the first characters in which they differ, a
/// string before its extensions.
pub open spec fn text_le(a: Seq<char>, b: Seq<char>) -> bool
    decreases a.len(),
{
    if a.len() == 0 {
        true
    } else if b.len() == 0 {
        false
    } else if a[0] != b[0] {
        (a[0] as int) < (b[0] as int)
    } else {
        text_le(a.skip(1), b.skip(1))
    }
}

/// Whether `a` comes before `b`, or is `b`.
pub fn text_at_most(a: &str, b: &str) -> (r: bool)
    ensures
        r == text_le(a@, b@),
{
    let av: Vec<char> = chars_of(a);
    let bv: Vec<char> = chars_of(b);
    let mut i: usize = 0;
    proof {
        assert(av@.skip(0) =~= av@);
        assert(bv@.skip(0) =~= bv@);
    }
    while i < av.len() && i < bv.len() && av[i] == bv[i]
        invariant
            i <= av.len(),
            i <= bv.len(),
            text_le(a@, b@) == text_le(av@.skip(i as int), bv@.skip(i as int)),
        decreases av.len() - i,
    {
        proof {
            assert(av@.skip(i as int).skip(1) =~= av@.skip(i + 1));
            assert(bv@.skip(i as int).skip(1) =~= bv@.skip(i + 1));
        }
        i += 1;
    }
    if i >= av.len() {
        true
    } else if i >= bv.len() {
        false
    } else {
        proof {
            assert(av@.skip(i as int)[0] == av@[i as int]);
            assert(bv@.skip(i as int)[0] == bv@[i as int]);
        }
        code_point(av[i]) < code_point(bv[i])
    }
}

pub proof fn lemma_text_le_total(a: Seq<char>, b: Seq<char>)
    ensures
        text_le(a, b) || text_le(b, a),
    decreases a.len(),
{
    if a.len() > 0 && b.len() > 0 && a[0] == b[0] {
        lemma_text_le_total(a.skip(1), b.skip(1));
    }
}

pub proof fn lemma_text_le_transitive(a: Seq<char>, b: Seq<char>, c: Seq<char>)
    requires
        text_le(a, b),
        text_le(b, c),
    ensures
        text_le(a, c),
    decreases a.len(),
{
    if a.len() > 0 && b.len() > 0 && c.len() > 0 && a[0] == b[0] && b[0] == c[0] {
        lemma_text_le_transitive(a.skip(1), b.skip(1), c.skip(1));
    }
}

pub proof fn lemma_text_le_antisymmetric(a: Seq<char>, b: Seq<char>)
    requires
        text_le(a, b),
        text_le(b, a),
    ensures
        a == b,
    decreases a.len(),
{
    if a.len() > 0 && b.len() > 0 {
        lemma_text_le_antisymmetric(a.skip(1), b.skip(1));
        assert(a =~= seq![a[0]] + a.skip(1));
        assert(b =~= seq![b[0]] + b.skip(1));
    } else {
        assert(a =~= b);
    }
}

/// A list in alphabetical order.
pub open spec fn alphabetical(s: Seq<Seq<char>>) -> bool {
    forall|i: int, j: int| 0 <= i < j < s.len() ==> text_le(#[trigger] s[i], #[trigger] s[j])
}

/// Puts names into alphabetical order.
pub fn sort_names(names: Vec<String>) -> (r: Vec<String>)
    ensures
        alphabetical(views(r@)),
        views(r@).to_multiset() == views(names@).to_multiset(),
{
    let mut out: Vec<String> = Vec::new();
    let mut i: usize = 0;
    proof {
        assert(views(names@).take(0) =~= views(out@));
    }
    while i < names.len()
        invariant
            i <= names.len(),
            out.len() == i,
            alphabetical(views(out@)),
            views(out@).to_multiset() == views(names@).take(i as int).to_multiset(),
        decreases names.len() - i,
    {
        let name: String = names[i].clone();
        let mut at: usize = out.len();
        while at > 0 && !text_at_most(out[at - 1].as_str(), name.as_str())
            invariant
                at <= out.len(),
                forall|k: int| at <= k < out.len() ==> text_le(name@, #[trigger] views(out@)[k]),
            decreases at,
        {
            proof {
                lemma_text_le_total(out@[at - 1]@, name@);
                assert(views(out@)[at - 1] == out@[at - 1]@);
            }
            at -= 1;
        }
        let ghost before = views(out@);
        proof {
            assert forall|k: int| 0 <= k < at implies text_le(#[trigger] before[k], name@) by {
                assert(before[at - 1] == out@[at - 1]@);
                if k < at - 1 {
                    lemma_text_le_transitive(before[k], before[at - 1], name@);
                }
            }
        }
        out.insert(at, name);
        proof {
            assert(views(out@) =~= before.insert(at as int, name@));
            vstd::seq_lib::to_multiset_insert(before, at as int, name@);
            let all = views(names@);
            assert(all.take(i + 1) =~= all.take(i as int).push(name@));
            vstd::seq_lib::to_multiset_build(all.take(i as int), name@);
            let after = views(out@);
            assert forall|p: int, q: int| 0 <= p < q < after.len() implies text_le(
                #[trigger] after[p],
                #[trigger] after[q],
            ) by {
                let po = if p < at {
                    p
                } else {
                    p - 1
                };
                let qo = if q < at {
                    q
                } else {
                    q - 1
                };
                if p != at && q != at {
                    assert(text_le(before[po], before[qo]));
                } else if p == at {
                    assert(text_le(name@, before[qo]));
                } else {
                    assert(text_le(before[po], name@));
                }
            }
        }
        i += 1;
    }
    proof {
        assert(views(names@).take(names.len() as int) =~= views(names@));
    }
    out
}

/// The signed number that a text writes, if it fits thirty-two bits: digits after at most one sign.
pub open spec fn i32_value(s: Seq<char>) -> Option<i32> {
    if s.len() > 0 && s[0] == '-' {
        if s.len() > 1 && s[1] == '+' {
            None
        } else {
            match u64_value(s.skip(1)) {
                Some(n) => if n <= 0x8000_0000 {
                    Some((-(n as int)) as i32)
                } else {
                    None
                },
                None => None,
            }
        }
    } else {
        match u64_value(s) {
            Some(n) => if n <= 0x7fff_ffff {
                Some(n as i32)
            } else {
                None
            },
            None => None,
        }
    }
}

/// Reads a signed number.
pub fn parse_i32_text(s: &str) -> (r: Option<i32>)
    ensures
        r == i32_value(s@),
{
    let v: Vec<char> = chars_of(s);
    if v.len() > 0 && v[0] == '-' {
        if v.len() > 1 && v[1] == '+' {
            return None;
        }
        proof {
            assert(v@.subrange(1, v.len() as int) =~= v@.skip(1));
        }
        match parse_u64(piece(&v, 1, v.len()).as_str()) {
            Some(n) => {
                if n <= 0x8000_0000 {
                    let w: i64 = -(n as i64);
                    Some(w as i32)
                } else {
                    None
                }
            },
            None => None,
        }
    } else {
        match parse_u64(s) {
            Some(n) => {
                if n <= 0x7fff_ffff {
                    Some(n as i32)
                } else {
                    None
                }
            },
            None => None,
        }
    }
}

/// No piece of a split holds the character that it was split at.
pub proof fn lemma_split_pieces(s: Seq<char>, c: char)
    ensures
        forall|i: int| 0 <= i < split_on(s, c).len() ==> !(#[trigger] split_on(s, c)[i]).contains(c),
    decreases s.len(),
{
    lemma_first_char(s, c, 0);
    let i = first_char(s, c, 0);
    let r = split_on(s, c);
    if i < s.len() {
        let rest = split_on(s.skip(i + 1), c);
        lemma_split_pieces(s.skip(i + 1), c);
        assert forall|k: int| 0 <= k < r.len() implies !(#[trigger] r[k]).contains(c) by {
            if k == 0 {
                assert(r[0] == s.take(i));
                assert forall|j: int| 0 <= j < s.take(i).len() implies s.take(i)[j] != c by {
                    assert(s.take(i)[j] == s[j]);
                }
            } else {
                assert(r[k] == rest[k - 1]);
            }
        }
    } else {
        assert(r[0] == s);
    }
}

/// What follows the last `c` holds no `c`, and what comes before it is nothing or ends in one.
pub proof fn lemma_after_last(s: Seq<char>, c: char)
    ensures
        !after_last_spec(s, c).contains(c),
        after_last_spec(s, c).len() <= s.len(),
        s == s.take(s.len() - after_last_spec(s, c).len()) + after_last_spec(s, c),
        after_last_spec(s, c).len() < s.len() ==> s[s.len() - after_last_spec(s, c).len() - 1] == c,
    decreases s.len(),
{
    if s.len() > 0 && s.last() != c {
        let h = s.drop_last();
        lemma_after_last(h, c);
        let k = after_last_at(h, c);
        lemma_after_last_range(h, c);
        assert(after_last_spec(s, c) =~= after_last_spec(h, c).push(s.last()));
        let t = after_last_spec(s, c);
        assert forall|j: int| 0 <= j < t.len() implies t[j] != c by {
            if j < t.len() - 1 {
                assert(after_last_spec(h, c)[j] == t[j]);
            }
        }
        if t.len() < s.len() {
            assert(h[h.len() - after_last_spec(h, c).len() - 1] == c);
        }
    } else {
        assert(after_last_spec(s, c) =~= Seq::empty());
    }
    assert(s =~= s.take(s.len() - after_last_spec(s, c).len()) + after_last_spec(s, c));
}

proof fn lemma_after_last_range(s: Seq<char>, c: char)
    ensures
        0 <= after_last_at(s, c) <= s.len(),
    decreases s.len(),
{
    if s.len() > 0 && s.last() != c {
        lemma_after_last_range(s.drop_last(), c);
    }
}

/// Joining puts the separator between the first part and the others joined; one part alone is
/// itself.
pub proof fn lemma_join_front(x: Seq<char>, rest: Seq<Seq<char>>, sep: Seq<char>)
    ensures
        rest.len() > 0 ==> join_spec(seq![x] + rest, sep) == x + sep + join_spec(rest, sep),
        join_spec(seq![x], sep) == x,
        join_spec(Seq::empty(), sep) == Seq::<char>::empty(),
    decreases rest.len(),
{
    let all = seq![x] + rest;
    if rest.len() == 1 {
        reveal_with_fuel(join_spec, 2);
        assert(all.drop_last() =~= seq![x]);
        assert(all.last() == rest[0]);
        assert(rest =~= seq![rest[0]]);
    } else if rest.len() > 1 {
        lemma_join_front(x, rest.drop_last(), sep);
        assert(all.drop_last() =~= seq![x] + rest.drop_last());
        assert(all.last() == rest.last());
        assert(x + sep + join_spec(rest.drop_last(), sep) + sep + rest.last() =~= x + sep + (
        join_spec(rest.drop_last(), sep) + sep + rest.last()));
    }
}

/// Trimming takes white space off both ends, all of it and nothing else.
pub proof fn lemma_trim(s: Seq<char>) -> (r: (int, int))
    ensures
        0 <= r.0 <= r.1 <= s.len(),
        trimmed(s) == s.subrange(r.0, r.1),
        forall|i: int| 0 <= i < r.0 ==> is_white(#[trigger] s[i]),
        forall|i: int| r.1 <= i < s.len() ==> is_white(#[trigger] s[i]),
        trimmed(s).len() > 0 ==> !is_white(trimmed(s)[0]) && !is_white(trimmed(s).last()),
{
    let a = lemma_trim_start(s);
    let t = trim_start_spec(s);
    let b = lemma_trim_end(t);
    assert(trimmed(s) =~= s.subrange(a, a + b));
    assert forall|i: int| a + b <= i < s.len() implies is_white(#[trigger] s[i]) by {
        assert(t[i - a] == s[i]);
    }
    if trimmed(s).len() > 0 {
        assert(trimmed(s)[0] == t[0]);
    }
    (a, a + b)
}

proof fn lemma_trim_start(s: Seq<char>) -> (r: int)
    ensures
        0 <= r <= s.len(),
        trim_start_spec(s) == s.skip(r),
        forall|i: int| 0 <= i < r ==> is_white(#[trigger] s[i]),
        r < s.len() ==> !is_white(s[r]),
    decreases s.len(),
{
    if s.len() > 0 && is_white(s[0]) {
        let k = lemma_trim_start(s.skip(1));
        assert(s.skip(1).skip(k) =~= s.skip(k + 1));
        assert forall|i: int| 0 <= i < k + 1 implies is_white(#[trigger] s[i]) by {
            if i > 0 {
                assert(s.skip(1)[i - 1] == s[i]);
            }
        }
        k + 1
    } else {
        assert(s.skip(0) =~= s);
        0
    }
}

proof fn lemma_trim_end(s: Seq<char>) -> (r: int)
    ensures
        0 <= r <= s.len(),
        trim_end_spec(s) == s.take(r),
        forall|i: int| r <= i < s.len() ==> is_white(#[trigger] s[i]),
        r > 0 ==> !is_white(s[r - 1]),
    decreases s.len(),
{
    if s.len() > 0 && is_white(s.last()) {
        let k = lemma_trim_end(s.drop_last());
        assert(s.drop_last().take(k) =~= s.take(k));
        assert forall|i: int| k <= i < s.len() implies is_white(#[trigger] s[i]) by {
            if i < s.len() - 1 {
                assert(s.drop_last()[i] == s[i]);
            }
        }
        k
    } else {
        assert(s.take(s.len() as int) =~= s);
        s.len() as int
    }
}

/// A number is written without leading zeros, and reads back, with a plus sign before it too.
pub proof fn lemma_u64_reads_back(n: u64)
    ensures
        u64_value(decimal(n as nat)) == Some(n),
        u64_value(seq!['+'] + decimal(n as nat)) == Some(n),
        n > 0 ==> decimal(n as nat)[0] != '0',
{
    let d = decimal(n as nat);
    lemma_decimal_reads_back(n as nat);
    assert(is_digit_char(d[0]));
    assert((seq!['+'] + d).skip(1) =~= d);
    lemma_no_leading_zero(n as nat);
}

proof fn lemma_no_leading_zero(n: nat)
    ensures
        decimal(n).len() > 0,
        n > 0 ==> decimal(n)[0] as int != 48,
    decreases n,
{
    if n >= 10 {
        lemma_no_leading_zero(n / 10);
    }
}

/// A text with anything but digits after an optional plus sign is no number, and neither is one
/// without any digit.
pub proof fn lemma_u64_refused(s: Seq<char>, i: int)
    requires
        s.len() == 0 || s == seq!['+'] || (0 <= i < s.len() && !(48 <= s[i] as int <= 57) && (i > 0
            || s[0] != '+')),
    ensures
        u64_value(s) is None,
{
    let signed = s.len() > 0 && s[0] == '+';
    let digits = if signed {
        s.skip(1)
    } else {
        s
    };
    if s.len() > 0 && s != seq!['+'] {
        if signed {
            assert(digits[i - 1] == s[i]);
            assert(!is_digit_char(digits[i - 1]));
        } else {
            assert(!is_digit_char(digits[i]));
        }
    }
}

/// A number with a sign reads back, as far as 32 bits go.
pub proof fn lemma_i32_reads_back(n: u64)
    ensures
        i32_value(decimal(n as nat)) == (if n <= 0x7fff_ffff {
            Some(n as i32)
        } else {
            None
        }),
        i32_value(seq!['-'] + decimal(n as nat)) == (if n <= 0x8000_0000 {
            Some((0 - n) as i32)
        } else {
            None
        }),
{
    let d = decimal(n as nat);
    lemma_u64_reads_back(n);
    lemma_decimal_reads_back(n as nat);
    assert(is_digit_char(d[0]));
    assert((seq!['-'] + d).skip(1) =~= d);
    assert((seq!['-'] + d)[1] == d[0]);
}

/// Texts are ordered by the first character in which they differ, and a text comes before those
/// that go on from it.
pub proof fn lemma_text_order(p: Seq<char>, x: char, a: Seq<char>, y: char, b: Seq<char>)
    requires
        x != y,
    ensures
        text_le(p + seq![x] + a, p + seq![y] + b) <==> (x as int) < (y as int),
        text_le(p, p + a),
        text_le(p + a, p) <==> a.len() == 0,
    decreases p.len(),
{
    let s = p + seq![x] + a;
    let t = p + seq![y] + b;
    if p.len() == 0 {
        assert(s[0] == x && t[0] == y);
        assert(p + a =~= a);
    } else {
        let q = p.skip(1);
        lemma_text_order(q, x, a, y, b);
        assert(s[0] == p[0] && t[0] == p[0] && (p + a)[0] == p[0]);
        assert(s.skip(1) =~= q + seq![x] + a);
        assert(t.skip(1) =~= q + seq![y] + b);
        assert((p + a).skip(1) =~= q + a);
    }
}

/// Names in alphabetical order: each comes before the later ones, and equal ones are next to each
/// other.
pub proof fn lemma_alphabetical(s: Seq<Seq<char>>, i: int, j: int, k: int)
    requires
        alphabetical(s),
        0 <= i < j < k < s.len(),
    ensures
        text_le(s[i], s[j]),
        text_le(s[j], s[k]),
        text_le(s[i], s[k]),
        s[i] == s[k] ==> s[j] == s[i],
{
    assert(text_le(s[i], s[j]));
    assert(text_le(s[j], s[k]));
    assert(text_le(s[i], s[k]));
    if s[i] == s[k] {
        lemma_text_le_antisymmetric(s[i], s[j]);
    }
}

/// A text stands where what is before it and what is behind it part: there, and it takes its own
/// length.
pub proof fn lemma_occurs(a: Seq<char>, p: Seq<char>, b: Seq<char>, s: Seq<char>, at: int)
    ensures
        occurs_at(a + p + b, p, a.len() as int),
        occurs_at(s, p, at) ==> 0 <= at <= s.len() - p.len() && s == s.take(at) + p + s.skip(
            at + p.len(),
        ),
{
    assert((a + p + b).subrange(a.len() as int, (a.len() + p.len()) as int) =~= p);
    if occurs_at(s, p, at) {
        let t = s.subrange(at, at + p.len());
        assert(s =~= s.take(at) + t + s.skip(at + p.len()));
    }
}

/// White space: tab to carriage return, the blank, and the blanks and breaks of other scripts.
pub proof fn lemma_white(c: char)
    ensures
        is_white(c) <==> 9 <= c as int <= 13 || c == ' ' || c as int == 0x85 || c as int == 0xA0
            || c as int == 0x1680 || 0x2000 <= c as int <= 0x200A || c as int == 0x2028 || c as int
            == 0x2029 || c as int == 0x202F || c as int == 0x205F || c as int == 0x3000,
{
}

} // verus!
