//! Texts that stand for several names: alternatives in braces, with commas between them.

use crate::text::chars_of;
use crate::text::find_char;
use crate::text::first_char;
use crate::text::joined3;
use crate::text::lemma_first_char;
use crate::text::no_names;
use crate::text::piece;
use crate::text::push_name;
use crate::text::split;
use crate::text::split_on;
use crate::text::views;
use vstd::prelude::*;
use vstd::string::*;

verus! {

/// A beginning followed by each alternative and each ending, in order.
pub open spec fn crossed(head: Seq<char>, alts: Seq<Seq<char>>, tails: Seq<Seq<char>>) -> Seq<
    Seq<char>,
>
    decreases alts.len(),
{
    if alts.len() == 0 {
        Seq::empty()
    } else {
        crossed(head, alts.drop_last(), tails) + tails.map_values(
            |t: Seq<char>| head + alts.last() + t,
        )
    }
}

/// The names that a text stands for: one for each choice among the alternatives in its braces. A
/// brace that does not close stands for itself.
pub open spec fn expanded(s: Seq<char>) -> Seq<Seq<char>>
    decreases s.len(),
    via expanded_decreases
{
    let open = first_char(s, '{', 0);
    let close = first_char(s, '}', open);
    if open >= s.len() || close >= s.len() {
        seq![s]
    } else {
        crossed(
            s.take(open),
            split_on(s.subrange(open + 1, close), ','),
            expanded(s.skip(close + 1)),
        )
    }
}

#[via_fn]
proof fn expanded_decreases(s: Seq<char>) {
    let open = first_char(s, '{', 0);
    lemma_first_char(s, '{', 0);
    if open < s.len() {
        lemma_first_char(s, '}', open);
    }
}

fn push_crossed(head: &str, alt: &str, tails: &Vec<String>, out: &mut Vec<String>)
    ensures
        views(final(out)@) == views(old(out)@) + views(tails@).map_values(
            |t: Seq<char>| head@ + alt@ + t,
        ),
{
    let ghost f = |t: Seq<char>| head@ + alt@ + t;
    let ghost before = views(out@);
    let mut k: usize = 0;
    proof {
        assert(views(tails@).take(0).map_values(f) =~= Seq::<Seq<char>>::empty());
        assert(before + Seq::<Seq<char>>::empty() =~= before);
    }
    while k < tails.len()
        invariant
            k <= tails.len(),
            f == (|t: Seq<char>| head@ + alt@ + t),
            views(out@) == before + views(tails@).take(k as int).map_values(f),
        decreases tails.len() - k,
    {
        let name: String = joined3(head, alt, tails[k].as_str());
        push_name(out, &name);
        proof {
            assert(views(tails@)[k as int] == tails@[k as int]@);
            assert(views(tails@).take(k + 1).map_values(f) =~= views(tails@).take(
                k as int,
            ).map_values(f).push(name@));
            assert(views(out@) =~= before + views(tails@).take(k + 1).map_values(f));
        }
        k += 1;
    }
    proof {
        assert(views(tails@).take(tails.len() as int) =~= views(tails@));
    }
}

/// Lists the names that a text stands for.
pub fn expand_specs(s: &str) -> (r: Vec<String>)
    ensures
        views(r@) == expanded(s@),
    decreases s@.len(),
{
    let chars: Vec<char> = chars_of(s);
    let open: usize = find_char(&chars, '{', 0);
    let close: usize = find_char(&chars, '}', open);
    let mut out: Vec<String> = no_names();
    if open >= chars.len() || close >= chars.len() {
        push_name(&mut out, &s.to_string());
        proof {
            assert(views(out@) =~= seq![s@]);
        }
        return out;
    }
    proof {
        lemma_first_char(s@, '{', 0);
        lemma_first_char(s@, '}', open as int);
    }
    let head: String = piece(&chars, 0, open);
    let alts: Vec<String> = split(piece(&chars, open + 1, close).as_str(), ',');
    let rest: String = piece(&chars, close + 1, chars.len());
    let tails: Vec<String> = expand_specs(rest.as_str());
    proof {
        assert(s@.subrange(0, open as int) =~= s@.take(open as int));
        assert(s@.subrange(close + 1, s@.len() as int) =~= s@.skip(close + 1));
        assert(views(alts@).take(0) =~= Seq::<Seq<char>>::empty());
    }
    let mut k: usize = 0;
    while k < alts.len()
        invariant
            k <= alts.len(),
            views(out@) == crossed(head@, views(alts@).take(k as int), views(tails@)),
        decreases alts.len() - k,
    {
        proof {
            let next = views(alts@).take(k + 1);
            assert(next.drop_last() =~= views(alts@).take(k as int));
            assert(next.last() == alts@[k as int]@);
        }
        push_crossed(head.as_str(), alts[k].as_str(), &tails, &mut out);
        k += 1;
    }
    proof {
        assert(views(alts@).take(alts.len() as int) =~= views(alts@));
    }
    out
}

/// A text without braces stands for itself, and every text stands for at least one name.
pub proof fn lemma_expanded(s: Seq<char>)
    ensures
        !s.contains('{') ==> expanded(s) == seq![s],
        expanded(s).len() > 0,
    decreases s.len(),
{
    let open = first_char(s, '{', 0);
    lemma_first_char(s, '{', 0);
    if open < s.len() {
        assert(s.contains(s[open]));
        let close = first_char(s, '}', open);
        lemma_first_char(s, '}', open);
        if close < s.len() {
            lemma_expanded(s.skip(close + 1));
            let inside = split_on(s.subrange(open + 1, close), ',');
            lemma_split_some(s.subrange(open + 1, close));
            assert(inside.len() > 0);
        }
    }
}

proof fn lemma_split_some(s: Seq<char>)
    ensures
        split_on(s, ',').len() > 0,
{
}

/// A text with braces stands for each of its alternatives, put between what comes before the braces
/// and each of the texts that what follows them stands for.
pub proof fn lemma_braces(head: Seq<char>, inner: Seq<char>, tail: Seq<char>, i: int, j: int)
    requires
        !head.contains('{'),
        !inner.contains('}'),
        0 <= i < split_on(inner, ',').len(),
        0 <= j < expanded(tail).len(),
    ensures
        ({
            let all = expanded(head + seq!['{'] + inner + seq!['}'] + tail);
            let alts = split_on(inner, ',');
            let tails = expanded(tail);
            &&& all.len() == alts.len() * tails.len()
            &&& 0 <= i * tails.len() + j < all.len()
            &&& all[i * tails.len() + j] == head + alts[i] + tails[j]
        }),
{
    let s = head + seq!['{'] + inner + seq!['}'] + tail;
    let open = head.len() as int;
    let close = open + 1 + inner.len();
    assert(s[open] == '{' && s[close] == '}');
    assert forall|k: int| 0 <= k < open implies s[k] != '{' by {
        assert(s[k] == head[k]);
        assert(head.contains(head[k]));
    }
    assert forall|k: int| open <= k < close implies s[k] != '}' by {
        if k > open {
            assert(s[k] == inner[k - open - 1]);
            assert(inner.contains(inner[k - open - 1]));
        }
    }
    lemma_found_at(s, '{', 0, open);
    lemma_found_at(s, '}', open, close);
    assert(s.take(open) =~= head);
    assert(s.subrange(open + 1, close) =~= inner);
    assert(s.skip(close + 1) =~= tail);
    lemma_crossed(head, split_on(inner, ','), expanded(tail), i, j);
}

proof fn lemma_found_at(s: Seq<char>, c: char, from: int, at: int)
    requires
        0 <= from <= at < s.len(),
        s[at] == c,
        forall|k: int| from <= k < at ==> s[k] != c,
    ensures
        first_char(s, c, from) == at,
    decreases at - from,
{
    if from < at {
        lemma_found_at(s, c, from + 1, at);
    }
}

proof fn lemma_crossed(
    head: Seq<char>,
    alts: Seq<Seq<char>>,
    tails: Seq<Seq<char>>,
    i: int,
    j: int,
)
    requires
        0 <= i < alts.len(),
        0 <= j < tails.len(),
    ensures
        crossed(head, alts, tails).len() == alts.len() * tails.len(),
        0 <= i * tails.len() + j < alts.len() * tails.len(),
        crossed(head, alts, tails)[i * tails.len() + j] == head + alts[i] + tails[j],
    decreases alts.len(),
{
    let n = tails.len() as int;
    let h = alts.drop_last();
    let last = alts.last();
    let added = tails.map_values(|t: Seq<char>| head + last + t);
    lemma_crossed_len(head, h, tails);
    lemma_crossed_len(head, alts, tails);
    assert((alts.len() - 1) * n + n == alts.len() * n) by (nonlinear_arith);
    assert(0 <= i * n + j < alts.len() * n) by (nonlinear_arith)
        requires
            0 <= i < alts.len(),
            0 <= j < n,
    ;
    if i < h.len() {
        lemma_crossed(head, h, tails, i, j);
        assert(h[i] == alts[i]);
        assert(crossed(head, alts, tails)[i * n + j] == crossed(head, h, tails)[i * n + j]);
    } else {
        assert(i * n == h.len() * n);
        assert(crossed(head, alts, tails)[i * n + j] == added[j]);
    }
}

proof fn lemma_crossed_len(head: Seq<char>, alts: Seq<Seq<char>>, tails: Seq<Seq<char>>)
    ensures
        crossed(head, alts, tails).len() == alts.len() * tails.len(),
    decreases alts.len(),
{
    if alts.len() > 0 {
        lemma_crossed_len(head, alts.drop_last(), tails);
        let n = tails.len() as int;
        assert((alts.len() - 1) * n + n == alts.len() * n) by (nonlinear_arith);
    } else {
        assert(0 * tails.len() == 0);
    }
}

} // verus!
