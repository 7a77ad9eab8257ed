//! Sizes as people read them, and the path patterns that select files of the prediction store.

use crate::decimals::as_double;
use crate::decimals::bytes_as_double;
use crate::decimals::one_decimal;
use crate::decimals::print_quotient;
use crate::decimals::printed;
use crate::decimals::two_decimals;
use crate::decimals::with_one_decimal;
use crate::decimals::with_two_decimals;
use crate::text::chars_of;
use crate::text::find_char;
use crate::text::joined;
use crate::text::lemma_first_char;
use vstd::prelude::*;

verus! {

// ---------------------------------------------------------------------------
// Sizes
// ---------------------------------------------------------------------------

/// A size for people: gigabytes with two decimals from a thousand million bytes on, megabytes
/// with one from a million on, else kilobytes with one.
pub open spec fn human_spec(bytes: nat) -> Seq<char> {
    let b = as_double(bytes);
    if bytes >= 1_000_000_000 {
        with_two_decimals(printed(b, 1_000_000_000, 100)) + " GB"@
    } else if bytes >= 1_000_000 {
        with_one_decimal(printed(b, 1_000_000, 10)) + " MB"@
    } else {
        with_one_decimal(printed(b, 1_000, 10)) + " kB"@
    }
}

/// A size for people.
pub fn human(bytes: u64) -> (r: String)
    ensures
        r@ == human_spec(bytes as nat),
{
    let b: u128 = bytes_as_double(bytes);
    if bytes >= 1_000_000_000 {
        let h: u128 = print_quotient(b, 1_000_000_000, 100);
        proof {
            lemma_printed_small(b as nat, 1_000_000_000, 100);
        }
        joined(two_decimals(h as u64).as_str(), " GB")
    } else if bytes >= 1_000_000 {
        let h: u128 = print_quotient(b, 1_000_000, 10);
        proof {
            lemma_printed_small(b as nat, 1_000_000, 10);
        }
        joined(one_decimal(h as u64).as_str(), " MB")
    } else {
        let h: u128 = print_quotient(b, 1_000, 10);
        proof {
            lemma_printed_small(b as nat, 1_000, 10);
        }
        joined(one_decimal(h as u64).as_str(), " kB")
    }
}

proof fn lemma_round_even_le(n: nat, d: nat)
    requires
        d > 0,
    ensures
        crate::decimals::round_even(n, d) * d <= n + d,
{
    let q = n / d;
    assert(q * d <= n && (q + 1) * d == q * d + d) by (nonlinear_arith)
        requires
            d > 0,
            q == n / d,
    ;
    let r = crate::decimals::round_even(n, d);
    assert(r * d <= (q + 1) * d) by (nonlinear_arith)
        requires
            r <= q + 1,
    ;
}

proof fn lemma_doubled_shape(n: nat, d: nat)
    requires
        d > 0,
    ensures
        crate::decimals::doubled(n, d) == n * crate::decimals::doubling(n, d),
        crate::decimals::doubling(n, d) >= 1,
    decreases
            (if n >= 0x10_0000_0000_0000 * d {
                0
            } else {
                0x10_0000_0000_0000 * d - n
            }),
{
    if !(n == 0 || n >= 0x10_0000_0000_0000 * d) {
        lemma_doubled_shape(2 * n, d);
        let w = crate::decimals::doubling(2 * n, d);
        assert((2 * n) * w == n * (2 * w)) by (nonlinear_arith);
    } else {
        assert(n * 1 == n) by (nonlinear_arith);
    }
}

/// What is printed of a size fits in a word.
proof fn lemma_printed_small(n: nat, d: nat, places: nat)
    requires
        n <= 0x2_0000_0000_0000_0000,
        d >= 1000,
        1 <= places <= 100,
        d >= 1_000_000_000 || n <= 0x1_0000_0000,
    ensures
        printed(n, d, places) <= 0xFFFF_FFFF_FFFF_FFFF,
{
    let x = crate::decimals::doubled(n, d);
    let u = crate::decimals::doubling(n, d);
    let m = crate::decimals::round_even(x, d);
    lemma_doubled_shape(n, d);
    lemma_round_even_le(x, d);
    lemma_round_even_le(m * places, u);
    let p = printed(n, d, places);
    // m * d <= n * u + d, and p * u <= m * places + u
    assert(m * d <= n * u + d);
    assert(p * u <= m * places + u);
    assert(m <= 0x9_0000_0000 * u + 1) by (nonlinear_arith)
        requires
            m * d <= n * u + d,
            d >= 1000,
            u >= 1,
            d >= 1_000_000_000 || n <= 0x1_0000_0000,
            n <= 0x2_0000_0000_0000_0000,
    ;
    assert(m * places <= (0x9_0000_0000 * u + 1) * 100) by (nonlinear_arith)
        requires
            m <= 0x9_0000_0000 * u + 1,
            places <= 100,
    ;
    assert(p <= 0xFFFF_FFFF_FFFF_FFFF) by (nonlinear_arith)
        requires
            p * u <= (0x9_0000_0000 * u + 1) * 100 + u,
            u >= 1,
    ;
}

// ---------------------------------------------------------------------------
// Globs
// ---------------------------------------------------------------------------

/// A pattern matches a text: a star matches any run of characters, everything else itself.
pub open spec fn glob_matches(p: Seq<char>, t: Seq<char>) -> bool
    decreases p.len(),
{
    if p.len() == 0 {
        t.len() == 0
    } else if p[0] == '*' {
        exists|k: int| 0 <= k <= t.len() && glob_matches(p.skip(1), #[trigger] t.skip(k))
    } else {
        t.len() > 0 && t[0] == p[0] && glob_matches(p.skip(1), t.skip(1))
    }
}

/// Characters before a star match themselves.
proof fn lemma_glob_literal(p: Seq<char>, t: Seq<char>, e: int)
    requires
        0 <= e <= p.len(),
        forall|i: int| 0 <= i < e ==> p[i] != '*',
    ensures
        glob_matches(p, t) <==> t.len() >= e && t.take(e) == p.take(e) && glob_matches(
            p.skip(e),
            t.skip(e),
        ),
    decreases e,
{
    if e == 0 {
        assert(p.skip(0) =~= p);
        assert(t.skip(0) =~= t);
        assert(t.take(0) =~= p.take(0));
    } else if t.len() > 0 {
        lemma_glob_literal(p.skip(1), t.skip(1), e - 1);
        assert(p.skip(1).skip(e - 1) =~= p.skip(e));
        if t.len() >= e {
            assert(t.skip(1).skip(e - 1) =~= t.skip(e));
            if t[0] == p[0] && t.skip(1).take(e - 1) == p.skip(1).take(e - 1) {
                assert forall|i: int| 0 <= i < e implies t.take(e)[i] == p.take(e)[i] by {
                    if i > 0 {
                        assert(t.skip(1).take(e - 1)[i - 1] == p.skip(1).take(e - 1)[i - 1]);
                    }
                }
                assert(t.take(e) =~= p.take(e));
            }
            if t.take(e) == p.take(e) {
                assert(t.take(e)[0] == p.take(e)[0]);
                let t1 = t.skip(1).take(e - 1);
                let p1 = p.skip(1).take(e - 1);
                assert forall|i: int| 0 <= i < e - 1 implies t1[i] == p1[i] by {
                    assert(t.take(e)[i + 1] == p.take(e)[i + 1]);
                }
                assert(t1 =~= p1);
            }
        }
    }
}

/// What a pattern that begins with a star matches, it matches with more characters before it.
proof fn lemma_glob_star_grows(p: Seq<char>, t: Seq<char>, m: int)
    requires
        p.len() > 0,
        p[0] == '*',
        0 <= m <= t.len(),
        glob_matches(p, t.skip(m)),
    ensures
        glob_matches(p, t),
{
    let tail = t.skip(m);
    let k = choose|k: int|
        0 <= k <= tail.len() && glob_matches(p.skip(1), #[trigger] tail.skip(k));
    assert(tail.skip(k) =~= t.skip(m + k));
}

/// The characters of `p` from `ps` up to `pe` stand in `t` at `at`.
spec fn stands_at(t: Seq<char>, p: Seq<char>, ps: int, pe: int, at: int) -> bool {
    0 <= at && at + (pe - ps) <= t.len() && t.subrange(at, at + (pe - ps)) == p.subrange(ps, pe)
}

fn check_at(t: &Vec<char>, p: &Vec<char>, ps: usize, pe: usize, at: usize) -> (r: bool)
    requires
        ps <= pe <= p.len(),
        at <= t.len(),
    ensures
        r == stands_at(t@, p@, ps as int, pe as int, at as int),
{
    if t.len() - at < pe - ps {
        return false;
    }
    let mut i: usize = 0;
    let ghost there = t@.subrange(at as int, at + (pe - ps));
    let ghost part = p@.subrange(ps as int, pe as int);
    while i < pe - ps
        invariant
            ps <= pe <= p.len(),
            at + (pe - ps) <= t.len(),
            there == t@.subrange(at as int, at + (pe - ps)),
            part == p@.subrange(ps as int, pe as int),
            i <= pe - ps,
            forall|k: int| 0 <= k < i ==> there[k] == part[k],
        decreases pe - ps - i,
    {
        proof {
            assert(there[i as int] == t@[at + i]);
            assert(part[i as int] == p@[ps + i]);
        }
        if t[at + i] != p[ps + i] {
            return false;
        }
        i += 1;
    }
    proof {
        assert(there =~= part);
    }
    true
}

/// The first place at or after `from` where the characters of `p` stand in `t`.
fn find_part(t: &Vec<char>, p: &Vec<char>, ps: usize, pe: usize, from: usize) -> (r: Option<usize>)
    requires
        ps <= pe <= p.len(),
        from <= t.len(),
    ensures
        match r {
            Some(at) => {
                &&& from <= at
                &&& stands_at(t@, p@, ps as int, pe as int, at as int)
                &&& forall|j: int|
                    from <= j < at ==> !stands_at(t@, p@, ps as int, pe as int, j)
            },
            None => forall|j: int| from <= j ==> !stands_at(t@, p@, ps as int, pe as int, j),
        },
{
    let mut at: usize = from;
    while at < t.len()
        invariant
            ps <= pe <= p.len(),
            from <= at <= t.len(),
            forall|j: int| from <= j < at ==> !stands_at(t@, p@, ps as int, pe as int, j),
        decreases t.len() - at,
    {
        if check_at(t, p, ps, pe, at) {
            return Some(at);
        }
        at += 1;
    }
    if check_at(t, p, ps, pe, at) {
        Some(at)
    } else {
        None
    }
}

/// One star and the characters behind it, up to the next star.
proof fn lemma_glob_star_part(p: Seq<char>, t: Seq<char>, s: int, e: int, pos: int)
    requires
        0 <= s < e <= p.len(),
        p[s] == '*',
        forall|i: int| s < i < e ==> p[i] != '*',
        0 <= pos <= t.len(),
    ensures
        glob_matches(p.skip(s), t.skip(pos)) <==> exists|at: int|
            pos <= at && #[trigger] stands_at(t, p, s + 1, e, at) && glob_matches(
                p.skip(e),
                t.skip(at + (e - s - 1)),
            ),
{
    let ps = p.skip(s);
    let x = t.skip(pos);
    let lit = e - s - 1;
    let rest = ps.skip(1);
    assert(rest =~= p.skip(s + 1));
    assert(rest.skip(lit) =~= p.skip(e));
    assert(rest.take(lit) =~= p.subrange(s + 1, e));
    if glob_matches(ps, x) {
        let k = choose|k: int| 0 <= k <= x.len() && glob_matches(ps.skip(1), #[trigger] x.skip(k));
        lemma_glob_literal(rest, x.skip(k), lit);
        let at = pos + k;
        assert(x.skip(k) =~= t.skip(at));
        assert(t.skip(at).take(lit) =~= t.subrange(at, at + lit));
        assert(t.skip(at).skip(lit) =~= t.skip(at + lit));
        assert(stands_at(t, p, s + 1, e, at));
    }
    if exists|at: int|
        pos <= at && #[trigger] stands_at(t, p, s + 1, e, at) && glob_matches(
            p.skip(e),
            t.skip(at + lit),
        ) {
        let at = choose|at: int|
            pos <= at && #[trigger] stands_at(t, p, s + 1, e, at) && glob_matches(
                p.skip(e),
                t.skip(at + lit),
            );
        let k = at - pos;
        assert(x.skip(k) =~= t.skip(at));
        assert(t.skip(at).take(lit) =~= t.subrange(at, at + lit));
        assert(t.skip(at).skip(lit) =~= t.skip(at + lit));
        lemma_glob_literal(rest, x.skip(k), lit);
        assert(glob_matches(ps.skip(1), x.skip(k)));
    }
}

/// Whether a pattern matches a text: `*` matches any run of characters, `/` included; everything
/// else is literal.
pub fn glob_match(pattern: &str, text: &str) -> (r: bool)
    ensures
        r == glob_matches(pattern@, text@),
{
    let p: Vec<char> = chars_of(pattern);
    let t: Vec<char> = chars_of(text);
    let first: usize = find_char(&p, '*', 0);
    proof {
        lemma_first_char(p@, '*', 0);
        lemma_glob_literal(p@, t@, first as int);
        assert(p@.subrange(0, first as int) =~= p@.take(first as int));
        if first <= t.len() {
            assert(t@.subrange(0, first as int) =~= t@.take(first as int));
        }
    }
    if !check_at(&t, &p, 0, first, 0) {
        return false;
    }
    if first == p.len() {
        proof {
            assert(p@.skip(first as int).len() == 0);
        }
        return first == t.len();
    }
    let mut s: usize = first;
    let mut pos: usize = first;
    loop
        invariant
            p@ == pattern@,
            t@ == text@,
            s < p.len(),
            p@[s as int] == '*',
            pos <= t.len(),
            glob_matches(p@, t@) == glob_matches(p@.skip(s as int), t@.skip(pos as int)),
        decreases p.len() - s,
    {
        let e: usize = find_char(&p, '*', s + 1);
        proof {
            lemma_first_char(p@, '*', s + 1);
            lemma_glob_star_part(p@, t@, s as int, e as int, pos as int);
        }
        let lit: usize = e - s - 1;
        if e == p.len() {
            // The tail must match at the end, and must not reuse consumed characters.
            proof {
                assert(p@.skip(e as int).len() == 0);
                if t.len() - pos >= lit {
                    let end = t.len() - lit;
                    assert(t@.skip(end + lit).len() == 0);
                }
            }
            if t.len() - pos < lit {
                return false;
            }
            let r: bool = check_at(&t, &p, s + 1, e, t.len() - lit);
            proof {
                if r {
                    assert(stands_at(t@, p@, s + 1, e as int, t.len() - lit));
                }
            }
            return r;
        }
        match find_part(&t, &p, s + 1, e, pos) {
            Some(at) => {
                proof {
                    let rest = p@.skip(e as int);
                    if glob_matches(p@.skip(s as int), t@.skip(pos as int)) {
                        let other = choose|other: int|
                            pos <= other && #[trigger] stands_at(t@, p@, s + 1, e as int, other)
                                && glob_matches(rest, t@.skip(other + lit));
                        let tail = t@.skip(at + lit);
                        assert(tail.skip(other - at) =~= t@.skip(other + lit));
                        lemma_glob_star_grows(rest, tail, other - at);
                    }
                }
                pos = at + lit;
                s = e;
            },
            None => {
                return false;
            },
        }
    }
}

/// A lone star matches every text.
pub proof fn lemma_glob_star_matches_all(t: Seq<char>)
    ensures
        glob_matches(seq!['*'], t),
{
    let p = seq!['*'];
    assert(t.skip(t.len() as int).len() == 0);
    assert(p.skip(1).len() == 0);
    assert(glob_matches(p.skip(1), t.skip(t.len() as int)));
}

/// A pattern without a star matches itself and nothing else.
pub proof fn lemma_glob_plain(p: Seq<char>, t: Seq<char>)
    requires
        !p.contains('*'),
    ensures
        glob_matches(p, t) <==> p == t,
{
    assert forall|i: int| 0 <= i < p.len() implies p[i] != '*' by {
        assert(p.contains(p[i]));
    }
    let n = p.len() as int;
    lemma_glob_literal(p, t, n);
    assert(p.skip(n).len() == 0);
    assert(p.take(n) =~= p);
    if t.len() == n {
        assert(t.take(n) =~= t);
    }
}

/// A pattern made of two matches a text if and only if the text falls into two parts that they
/// match in turn; a character that is no star matches itself alone.
pub proof fn lemma_glob_concat(p: Seq<char>, q: Seq<char>, t: Seq<char>, c: char)
    ensures
        glob_matches(p + q, t) <==> exists|k: int|
            0 <= k <= t.len() && glob_matches(p, #[trigger] t.take(k)) && glob_matches(q, t.skip(k)),
        c != '*' ==> (glob_matches(seq![c], t) <==> t == seq![c]),
        glob_matches(Seq::empty(), t) <==> t.len() == 0,
    decreases p.len(),
{
    if c != '*' {
        assert(seq![c].skip(1) =~= Seq::empty());
        reveal_with_fuel(glob_matches, 2);
        if glob_matches(seq![c], t) {
            assert(t =~= seq![c]);
        }
    }
    let all = p + q;
    if p.len() == 0 {
        assert(all =~= q);
        if glob_matches(q, t) {
            assert(t.skip(0) =~= t);
            assert(glob_matches(p, t.take(0)));
        }
        if exists|k: int|
            0 <= k <= t.len() && glob_matches(p, #[trigger] t.take(k)) && glob_matches(q, t.skip(k)) {
            let k = choose|k: int|
                0 <= k <= t.len() && glob_matches(p, #[trigger] t.take(k)) && glob_matches(
                    q,
                    t.skip(k),
                );
            assert(k == 0);
            assert(t.skip(0) =~= t);
        }
    } else {
        let r = p.skip(1);
        assert(all.skip(1) =~= r + q);
        assert(all[0] == p[0]);
        if p[0] == '*' {
            if glob_matches(all, t) {
                let a = choose|a: int|
                    0 <= a <= t.len() && glob_matches(all.skip(1), #[trigger] t.skip(a));
                lemma_glob_concat(r, q, t.skip(a), c);
                let b = choose|b: int|
                    0 <= b <= t.skip(a).len() && glob_matches(r, #[trigger] t.skip(a).take(b))
                        && glob_matches(q, t.skip(a).skip(b));
                assert(t.skip(a).take(b) =~= t.take(a + b).skip(a));
                assert(t.skip(a).skip(b) =~= t.skip(a + b));
                assert(glob_matches(r, t.take(a + b).skip(a)));
                assert(glob_matches(p, t.take(a + b)));
            }
            if exists|k: int|
                0 <= k <= t.len() && glob_matches(p, #[trigger] t.take(k)) && glob_matches(
                    q,
                    t.skip(k),
                ) {
                let k = choose|k: int|
                    0 <= k <= t.len() && glob_matches(p, #[trigger] t.take(k)) && glob_matches(
                        q,
                        t.skip(k),
                    );
                let u = t.take(k);
                let a = choose|a: int| 0 <= a <= u.len() && glob_matches(r, #[trigger] u.skip(a));
                lemma_glob_concat(r, q, t.skip(a), c);
                assert(t.skip(a).take(k - a) =~= u.skip(a));
                assert(t.skip(a).skip(k - a) =~= t.skip(k));
                assert(glob_matches(r, t.skip(a).take(k - a)));
                assert(glob_matches(r + q, t.skip(a)));
            }
        } else {
            if t.len() > 0 {
                lemma_glob_concat(r, q, t.skip(1), c);
            }
            if glob_matches(all, t) {
                let b = choose|b: int|
                    0 <= b <= t.skip(1).len() && glob_matches(r, #[trigger] t.skip(1).take(b))
                        && glob_matches(q, t.skip(1).skip(b));
                assert(t.skip(1).take(b) =~= t.take(b + 1).skip(1));
                assert(t.skip(1).skip(b) =~= t.skip(b + 1));
                assert(t.take(b + 1)[0] == t[0]);
                assert(glob_matches(p, t.take(b + 1)));
            }
            if exists|k: int|
                0 <= k <= t.len() && glob_matches(p, #[trigger] t.take(k)) && glob_matches(
                    q,
                    t.skip(k),
                ) {
                let k = choose|k: int|
                    0 <= k <= t.len() && glob_matches(p, #[trigger] t.take(k)) && glob_matches(
                        q,
                        t.skip(k),
                    );
                assert(t.take(k).len() > 0);
                assert(t.take(k)[0] == t[0]);
                assert(t.take(k).skip(1) =~= t.skip(1).take(k - 1));
                assert(t.skip(1).skip(k - 1) =~= t.skip(k));
                assert(glob_matches(r, t.skip(1).take(k - 1)));
                assert(glob_matches(r + q, t.skip(1)));
            }
        }
    }
}

/// A pattern with one star matches the texts that start with what stands before it and end with
/// what stands after it, the two not overlapping.
pub proof fn lemma_glob_one_star(a: Seq<char>, b: Seq<char>, t: Seq<char>)
    requires
        !a.contains('*'),
        !b.contains('*'),
    ensures
        glob_matches(a + seq!['*'] + b, t) <==> a.is_prefix_of(t) && b.is_suffix_of(t) && a.len()
            + b.len() <= t.len(),
{
    let star = seq!['*'];
    lemma_glob_concat(a + star, b, t, 'x');
    if glob_matches(a + star + b, t) {
        let k = choose|k: int|
            0 <= k <= t.len() && glob_matches(a + star, #[trigger] t.take(k)) && glob_matches(
                b,
                t.skip(k),
            );
        lemma_glob_plain(b, t.skip(k));
        lemma_glob_concat(a, star, t.take(k), 'x');
        let j = choose|j: int|
            0 <= j <= t.take(k).len() && glob_matches(a, #[trigger] t.take(k).take(j))
                && glob_matches(star, t.take(k).skip(j));
        lemma_glob_plain(a, t.take(k).take(j));
        assert(t.take(k).take(j) =~= t.subrange(0, j));
        assert(t.skip(k) =~= t.subrange(k, t.len() as int));
    }
    if a.is_prefix_of(t) && b.is_suffix_of(t) && a.len() + b.len() <= t.len() {
        let k = t.len() - b.len();
        let j = a.len() as int;
        assert(t.skip(k) =~= b);
        lemma_glob_plain(b, t.skip(k));
        assert(t.take(k).take(j) =~= a);
        lemma_glob_plain(a, t.take(k).take(j));
        lemma_glob_star_matches_all(t.take(k).skip(j));
        lemma_glob_concat(a, star, t.take(k), 'x');
        assert(glob_matches(a + star, t.take(k)));
    }
}

/// A size is told in thousands, in millions or in milliards of bytes, off by no more than one in its
/// last place.
pub proof fn lemma_human_close(bytes: nat) -> (h: nat)
    requires
        0 < bytes <= u64::MAX,
    ensures
        bytes < 1_000_000 ==> human_spec(bytes) == with_one_decimal(h) + " kB"@ && h * 1000 <= bytes
            * 10 + 1000 && bytes * 10 <= h * 1000 + 1000,
        1_000_000 <= bytes < 1_000_000_000 ==> human_spec(bytes) == with_one_decimal(h) + " MB"@ && h
            * 1_000_000 <= bytes * 10 + 1_000_000 && bytes * 10 <= h * 1_000_000 + 1_000_000,
        bytes >= 1_000_000_000 ==> human_spec(bytes) == with_two_decimals(h) + " GB"@ && h
            * 1_000_000_000 <= as_double(bytes) * 100 + 1_000_000_000 && as_double(bytes) * 100 <= h
            * 1_000_000_000 + 1_000_000_000,
{
    let b = as_double(bytes);
    if bytes < 1_000_000_000 {
        crate::decimals::lemma_as_double_small(bytes);
    } else {
        crate::decimals::lemma_as_double_close(bytes);
        if bytes < 0x20_0000_0000_0000 {
            crate::decimals::lemma_as_double_small(bytes);
        }
    }
    let (d, places): (nat, nat) = if bytes < 1_000_000 {
        (1000, 10)
    } else if bytes < 1_000_000_000 {
        (1_000_000, 10)
    } else {
        (1_000_000_000, 100)
    };
    assert(0 < b);
    assert(b * 128 < 0x10_0000_0000_0000 * d);
    lemma_doubling_ample(b, d);
    crate::decimals::lemma_printed_close(b, d, places);
    printed(b, d, places)
}

proof fn lemma_doubling_ample(n: nat, d: nat)
    requires
        0 < n,
        n * 128 < 0x10_0000_0000_0000 * d,
    ensures
        crate::decimals::doubling(n, d) >= 128,
{
    reveal_with_fuel(crate::decimals::doubling, 8);
    lemma_doubled_shape(n * 128, d);
}

} // verus!
