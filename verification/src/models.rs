//! Lists of models in named groups: reading them, choosing groups, and laying the chosen ones out
//! as columns.

use crate::groups::group_named;
use crate::groups::lemma_place_of;
use crate::groups::lemma_put;
use crate::groups::lemma_put_named;
use crate::groups::names_differ;
use crate::groups::place_of;
use crate::groups::put;
use crate::preds::glob_match;
use crate::preds::glob_matches;
use crate::registry::find_model;
use crate::registry::flat_models;
use crate::registry::flatten_specs;
use crate::registry::has_model;
use crate::registry::is_marked;
use crate::registry::lemma_flat_models;
use crate::registry::lemma_model_place;
use crate::registry::marked;
use crate::registry::model_place;
use crate::registry::strip_marks;
use crate::registry::unmarked;
use crate::registry::Selection;
use crate::specs::expand_specs;
use crate::specs::expanded;
use crate::text::chars_of;
use crate::text::copy_names;
use crate::text::find_char;
use crate::text::first_char;
use crate::text::holds;
use crate::text::joined;
use crate::text::joined3;
use crate::text::no_names;
use crate::text::push_name;
use crate::text::same;
use crate::text::strip_suffix;
use crate::text::views;
use indexmap::IndexMap;
use vstd::prelude::*;
use vstd::string::*;

verus! {

/// The entries of a map from names to texts that may stand for several models each, in order.
pub uninterp spec fn model_entries(m: IndexMap<String, Vec<String>>) -> Seq<
    (Seq<char>, Seq<Seq<char>>),
>;

/// `IndexMap::new`: a map without entries.
#[verifier::external_body]
fn no_models() -> (r: IndexMap<String, Vec<String>>)
    ensures
        model_entries(r) == Seq::<(Seq<char>, Seq<Seq<char>>)>::empty(),
{
    IndexMap::new()
}

/// `IndexMap::clone`: a map with the same entries in the same order.
#[verifier::external_body]
fn copy_models(m: &IndexMap<String, Vec<String>>) -> (r: IndexMap<String, Vec<String>>)
    ensures
        model_entries(r) == model_entries(*m),
{
    m.clone()
}

/// `IndexMap::insert`: the texts go into the place of the entry of that name, or last where there
/// is none.
#[verifier::external_body]
fn put_texts(m: &mut IndexMap<String, Vec<String>>, name: String, texts: Vec<String>)
    ensures
        model_entries(*final(m)) == put(model_entries(*old(m)), name@, views(texts@)),
{
    m.insert(name, texts);
}

/// `IndexMap::len`: the number of entries.
#[verifier::external_body]
fn count_models(m: &IndexMap<String, Vec<String>>) -> (r: usize)
    ensures
        r == model_entries(*m).len(),
{
    m.len()
}

/// `IndexMap::get_index`: the entry at a place, if there are so many.
#[verifier::external_body]
fn models_at(m: &IndexMap<String, Vec<String>>, i: usize) -> (r: Option<(&String, &Vec<String>)>)
    ensures
        match r {
            Some((name, texts)) => i < model_entries(*m).len() && model_entries(*m)[i as int] == (
                name@,
                views(texts@),
            ),
            None => i >= model_entries(*m).len(),
        },
{
    m.get_index(i)
}

/// `IndexMap::get`: the texts of a name, if there is an entry for it.
#[verifier::external_body]
fn texts_of<'a>(m: &'a IndexMap<String, Vec<String>>, name: &str) -> (r: Option<&'a Vec<String>>)
    ensures
        match r {
            Some(texts) => group_named(model_entries(*m), name@) == Some(views(texts@)),
            None => group_named(model_entries(*m), name@) is None,
        },
{
    m.get(name)
}

// ---------------------------------------------------------------------------
// Reading
// ---------------------------------------------------------------------------

/// The groups of a TOML text whose every entry is a list of strings, in order; none where it is no
/// such text.
pub uninterp spec fn models_in(text: Seq<char>) -> Option<Seq<(Seq<char>, Seq<Seq<char>>)>>;

/// `toml::from_str` into an `IndexMap` from names to lists of strings: a function of the text
/// alone, and no two of its entries have the same name. Which groups a given text has, and what
/// the message of a failure says, is left unsaid.
#[verifier::external_body]
fn parse_models(text: &str) -> (r: Result<IndexMap<String, Vec<String>>, String>)
    ensures
        match r {
            Ok(m) => models_in(text@) == Some(model_entries(m)) && names_differ(model_entries(m)),
            Err(_) => models_in(text@) is None,
        },
{
    match toml::from_str::<IndexMap<String, Vec<String>>>(text) {
        Ok(m) => Ok(m),
        Err(e) => Err(e.to_string()),
    }
}

// ---------------------------------------------------------------------------
// Choosing
// ---------------------------------------------------------------------------

/// The groups with all of some others put to them, one after the other.
pub open spec fn put_all(
    e: Seq<(Seq<char>, Seq<Seq<char>>)>,
    more: Seq<(Seq<char>, Seq<Seq<char>>)>,
) -> Seq<(Seq<char>, Seq<Seq<char>>)>
    decreases more.len(),
{
    if more.len() == 0 {
        e
    } else {
        put(put_all(e, more.drop_last()), more.last().0, more.last().1)
    }
}

/// Whether a name stands for something: a group, or all of them.
pub open spec fn is_known(groups: Seq<(Seq<char>, Seq<Seq<char>>)>, name: Seq<char>) -> bool {
    place_of(groups, name) < groups.len() || name == "all"@
}

/// The groups that some names stand for: each its group, and `all`, where no group bears that
/// name, every group.
pub open spec fn chosen(
    groups: Seq<(Seq<char>, Seq<Seq<char>>)>,
    wanted: Seq<Seq<char>>,
) -> Seq<(Seq<char>, Seq<Seq<char>>)>
    decreases wanted.len(),
{
    if wanted.len() == 0 {
        Seq::empty()
    } else {
        let before = chosen(groups, wanted.drop_last());
        let k = place_of(groups, wanted.last());
        if k < groups.len() {
            put(before, wanted.last(), groups[k].1)
        } else {
            put_all(before, groups)
        }
    }
}

/// The groups that are asked for; every group where none is.
pub open spec fn selected(
    groups: Seq<(Seq<char>, Seq<Seq<char>>)>,
    wanted: Seq<Seq<char>>,
) -> Seq<(Seq<char>, Seq<Seq<char>>)> {
    if wanted.len() == 0 {
        groups
    } else {
        chosen(groups, wanted)
    }
}

/// The first name from `i` on that stands for nothing, or the number of names.
pub open spec fn first_unknown(
    groups: Seq<(Seq<char>, Seq<Seq<char>>)>,
    wanted: Seq<Seq<char>>,
    i: int,
) -> int
    decreases wanted.len() - i,
{
    if i < 0 || i >= wanted.len() {
        wanted.len() as int
    } else if !is_known(groups, wanted[i]) {
        i
    } else {
        first_unknown(groups, wanted, i + 1)
    }
}

/// No group is chosen twice.
pub proof fn lemma_chosen_differ(
    groups: Seq<(Seq<char>, Seq<Seq<char>>)>,
    wanted: Seq<Seq<char>>,
)
    ensures
        names_differ(chosen(groups, wanted)),
    decreases wanted.len(),
{
    if wanted.len() > 0 {
        let before = chosen(groups, wanted.drop_last());
        let k = place_of(groups, wanted.last());
        lemma_chosen_differ(groups, wanted.drop_last());
        if k < groups.len() {
            lemma_put(before, wanted.last(), groups[k].1);
        } else {
            lemma_put_all_differ(before, groups);
        }
    }
}

proof fn lemma_put_all_differ(
    e: Seq<(Seq<char>, Seq<Seq<char>>)>,
    more: Seq<(Seq<char>, Seq<Seq<char>>)>,
)
    requires
        names_differ(e),
    ensures
        names_differ(put_all(e, more)),
    decreases more.len(),
{
    if more.len() > 0 {
        lemma_put_all_differ(e, more.drop_last());
        lemma_put(put_all(e, more.drop_last()), more.last().0, more.last().1);
    }
}

/// Puts a group under a name: in the place of the group of that name, or last.
pub fn put_models(groups: &mut IndexMap<String, Vec<String>>, name: &String, texts: &Vec<String>)
    ensures
        model_entries(*final(groups)) == put(model_entries(*old(groups)), name@, views(texts@)),
{
    put_texts(groups, name.clone(), copy_names(texts));
}

/// Puts the models that are named one by one under a group of their own, where there are any.
pub fn put_manual(groups: &mut IndexMap<String, Vec<String>>, manual: &Vec<String>)
    ensures
        model_entries(*final(groups)) == (if manual.len() == 0 {
            model_entries(*old(groups))
        } else {
            put(model_entries(*old(groups)), "manual"@, views(manual@))
        }),
{
    if manual.len() > 0 {
        put_models(groups, &"manual".to_string(), manual);
    }
}

/// Whether only models named one by one are asked for, so that no list of models is read.
pub fn manual_only(wanted: &Vec<String>, manual: &Vec<String>) -> (r: bool)
    ensures
        r == (wanted.len() == 0 && manual.len() > 0),
{
    wanted.len() == 0 && manual.len() > 0
}

fn put_every(groups: &IndexMap<String, Vec<String>>, out: &mut IndexMap<String, Vec<String>>)
    ensures
        model_entries(*final(out)) == put_all(model_entries(*old(out)), model_entries(*groups)),
{
    let ghost before = model_entries(*out);
    let ghost more = model_entries(*groups);
    let n: usize = count_models(groups);
    let mut k: usize = 0;
    proof {
        assert(more.take(0) =~= Seq::empty());
    }
    while k < n
        invariant
            k <= n,
            more == model_entries(*groups),
            n == more.len(),
            model_entries(*out) == put_all(before, more.take(k as int)),
        decreases n - k,
    {
        match models_at(groups, k) {
            Some((name, texts)) => {
                proof {
                    assert(more.take(k + 1).drop_last() =~= more.take(k as int));
                    assert(more.take(k + 1).last() == (name@, views(texts@)));
                }
                put_models(out, name, texts);
            },
            None => {},
        }
        k += 1;
    }
    proof {
        assert(more.take(more.len() as int) =~= more);
    }
}

/// Chooses the groups of some names, or all where there is no name; where a name stands for
/// nothing, its place comes back.
pub fn select_groups(groups: &IndexMap<String, Vec<String>>, wanted: &Vec<String>) -> (r: Result<
    IndexMap<String, Vec<String>>,
    usize,
>)
    ensures
        ({
            let e = model_entries(*groups);
            let w = views(wanted@);
            match r {
                Ok(m) => first_unknown(e, w, 0) == w.len() && model_entries(m) == selected(e, w),
                Err(k) => k < w.len() && k == first_unknown(e, w, 0),
            }
        }),
{
    let ghost e = model_entries(*groups);
    let ghost w = views(wanted@);
    if wanted.len() == 0 {
        return Ok(copy_models(groups));
    }
    let mut out: IndexMap<String, Vec<String>> = no_models();
    proof {
        assert(w.take(0) =~= Seq::empty());
    }
    let mut i: usize = 0;
    while i < wanted.len()
        invariant
            i <= wanted.len(),
            e == model_entries(*groups),
            w == views(wanted@),
            model_entries(out) == chosen(e, w.take(i as int)),
            first_unknown(e, w, 0) == first_unknown(e, w, i as int),
        decreases wanted.len() - i,
    {
        proof {
            assert(w[i as int] == wanted@[i as int]@);
            assert(w.take(i + 1).drop_last() =~= w.take(i as int));
            assert(w.take(i + 1).last() == w[i as int]);
            lemma_place_of(e, w[i as int]);
        }
        match texts_of(groups, wanted[i].as_str()) {
            Some(texts) => {
                put_models(&mut out, &wanted[i], texts);
            },
            None => {
                if same(wanted[i].as_str(), "all") {
                    put_every(groups, &mut out);
                } else {
                    return Err(i);
                }
            },
        }
        i += 1;
    }
    proof {
        assert(w.take(w.len() as int) =~= w);
    }
    Ok(out)
}

/// Why a list of models gives no groups.
pub enum ModelsError {
    /// It is no list of groups; what is wrong with it.
    Unreadable(String),
    /// The name at a place stands for nothing.
    NoGroup(usize),
}

/// Reads a list of models and chooses the groups of some names, none of them twice.
pub fn read_models(text: &str, wanted: &Vec<String>) -> (r: Result<
    IndexMap<String, Vec<String>>,
    ModelsError,
>)
    ensures
        match models_in(text@) {
            None => r matches Err(ModelsError::Unreadable(_)),
            Some(e) => {
                let k = first_unknown(e, views(wanted@), 0);
                if k < wanted.len() {
                    r matches Err(ModelsError::NoGroup(n)) && n == k
                } else {
                    r matches Ok(m) && model_entries(m) == selected(e, views(wanted@))
                        && names_differ(model_entries(m))
                }
            },
        },
{
    let groups: IndexMap<String, Vec<String>> = match parse_models(text) {
        Ok(m) => m,
        Err(e) => {
            return Err(ModelsError::Unreadable(e));
        },
    };
    proof {
        lemma_chosen_differ(model_entries(groups), views(wanted@));
    }
    match select_groups(&groups, wanted) {
        Ok(m) => Ok(m),
        Err(k) => Err(ModelsError::NoGroup(k)),
    }
}

// ---------------------------------------------------------------------------
// Laying out
// ---------------------------------------------------------------------------

/// The names that some texts stand for, one after the other.
pub open spec fn expanded_all(specs: Seq<Seq<char>>) -> Seq<Seq<char>>
    decreases specs.len(),
{
    if specs.len() == 0 {
        Seq::empty()
    } else {
        expanded_all(specs.drop_last()) + expanded(specs.last())
    }
}

/// The names that the texts of all groups stand for.
pub open spec fn all_specs(groups: Seq<(Seq<char>, Seq<Seq<char>>)>) -> Seq<Seq<char>>
    decreases groups.len(),
{
    if groups.len() == 0 {
        Seq::empty()
    } else {
        all_specs(groups.drop_last()) + expanded_all(groups.last().1)
    }
}

/// Names without their marks.
pub open spec fn unmarked_all(list: Seq<Seq<char>>) -> Seq<Seq<char>> {
    list.map_values(|s: Seq<char>| unmarked(s))
}

/// The names whose models are not among those left out.
pub open spec fn kept(list: Seq<Seq<char>>, out: Seq<Seq<char>>) -> Seq<Seq<char>>
    decreases list.len(),
{
    if list.len() == 0 {
        Seq::empty()
    } else if out.contains(unmarked(list.last())) {
        kept(list.drop_last(), out)
    } else {
        kept(list.drop_last(), out).push(list.last())
    }
}

/// The names of a group without those left out.
pub open spec fn group_kept(group: (Seq<char>, Seq<Seq<char>>), out: Seq<Seq<char>>) -> Seq<
    Seq<char>,
> {
    kept(expanded_all(group.1), out)
}

/// The names of all groups without those left out.
pub open spec fn all_kept(
    groups: Seq<(Seq<char>, Seq<Seq<char>>)>,
    out: Seq<Seq<char>>,
) -> Seq<Seq<char>>
    decreases groups.len(),
{
    if groups.len() == 0 {
        Seq::empty()
    } else {
        all_kept(groups.drop_last(), out) + group_kept(groups.last(), out)
    }
}

/// The models of some groups without those left out, each once.
pub open spec fn flat_groups(
    groups: Seq<(Seq<char>, Seq<Seq<char>>)>,
    exclude: Seq<Seq<char>>,
) -> Seq<Seq<char>> {
    flat_models(all_kept(groups, unmarked_all(expanded_all(exclude))))
}

/// The places of some names in a list of models, each once.
pub open spec fn places_once(names: Seq<Seq<char>>, list: Seq<Seq<char>>) -> Seq<usize>
    decreases names.len(),
{
    if names.len() == 0 {
        Seq::empty()
    } else {
        let before = places_once(names.drop_last(), list);
        let k = model_place(list, unmarked(names.last()), 0) as usize;
        if before.contains(k) {
            before
        } else {
            before.push(k)
        }
    }
}

/// Whether a selection is what some groups select without those left out.
pub open spec fn is_flat(
    r: Selection,
    groups: Seq<(Seq<char>, Seq<Seq<char>>)>,
    exclude: Seq<Seq<char>>,
) -> bool {
    let list = flat_groups(groups, exclude);
    let out = unmarked_all(expanded_all(exclude));
    &&& views(r.names@) == unmarked_all(list)
    &&& r.clip.len() == list.len()
    &&& forall|i: int| 0 <= i < list.len() ==> #[trigger] r.clip@[i] == !marked(list[i])
    &&& r.group_names.len() == groups.len()
    &&& r.group_indices.len() == groups.len()
    &&& forall|g: int|
        0 <= g < groups.len() ==> (#[trigger] r.group_names@[g])@ == groups[g].0
    &&& forall|g: int|
        0 <= g < groups.len() ==> (#[trigger] r.group_indices@[g])@ == places_once(
            group_kept(groups[g], out),
            list,
        )
}

fn append_names(out: &mut Vec<String>, more: &Vec<String>)
    ensures
        views(final(out)@) == views(old(out)@) + views(more@),
{
    let ghost before = views(out@);
    let ghost m = views(more@);
    let mut k: usize = 0;
    proof {
        assert(before + m.take(0) =~= before);
    }
    while k < more.len()
        invariant
            k <= more.len(),
            m == views(more@),
            views(out@) == before + m.take(k as int),
        decreases more.len() - k,
    {
        push_name(out, &more[k]);
        proof {
            assert(m[k as int] == more@[k as int]@);
            assert(before + m.take(k + 1) =~= (before + m.take(k as int)).push(m[k as int]));
        }
        k += 1;
    }
    proof {
        assert(m.take(m.len() as int) =~= m);
    }
}

/// Lists the names that some texts stand for.
pub fn expand_all(specs: &Vec<String>) -> (r: Vec<String>)
    ensures
        views(r@) == expanded_all(views(specs@)),
{
    let ghost s = views(specs@);
    let mut out: Vec<String> = no_names();
    let mut k: usize = 0;
    proof {
        assert(s.take(0) =~= Seq::empty());
    }
    while k < specs.len()
        invariant
            k <= specs.len(),
            s == views(specs@),
            views(out@) == expanded_all(s.take(k as int)),
        decreases specs.len() - k,
    {
        let more: Vec<String> = expand_specs(specs[k].as_str());
        proof {
            assert(s.take(k + 1).drop_last() =~= s.take(k as int));
            assert(s.take(k + 1).last() == specs@[k as int]@);
        }
        append_names(&mut out, &more);
        k += 1;
    }
    proof {
        assert(s.take(s.len() as int) =~= s);
    }
    out
}

/// Flattens the groups into one list of models, each once: a mark anywhere wins.
pub fn flatten_models(groups: &IndexMap<String, Vec<String>>) -> (r: Vec<String>)
    ensures
        views(r@) == flat_models(all_specs(model_entries(*groups))),
{
    let ghost e = model_entries(*groups);
    let n: usize = count_models(groups);
    let mut all: Vec<String> = no_names();
    let mut k: usize = 0;
    proof {
        assert(e.take(0) =~= Seq::empty());
    }
    while k < n
        invariant
            k <= n,
            e == model_entries(*groups),
            n == e.len(),
            views(all@) == all_specs(e.take(k as int)),
        decreases n - k,
    {
        match models_at(groups, k) {
            Some((_, texts)) => {
                let more: Vec<String> = expand_all(texts);
                proof {
                    assert(e.take(k + 1).drop_last() =~= e.take(k as int));
                    assert(e.take(k + 1).last().1 == views(texts@));
                }
                append_names(&mut all, &more);
            },
            None => {},
        }
        k += 1;
    }
    proof {
        assert(e.take(e.len() as int) =~= e);
    }
    flatten_specs(&all)
}

/// Strips the marks of some names.
pub fn strip_all(list: &Vec<String>) -> (r: Vec<String>)
    ensures
        views(r@) == unmarked_all(views(list@)),
{
    let ghost s = views(list@);
    let mut out: Vec<String> = no_names();
    let mut k: usize = 0;
    while k < list.len()
        invariant
            k <= list.len(),
            s == views(list@),
            views(out@) =~= unmarked_all(s.take(k as int)),
        decreases list.len() - k,
    {
        let bare: String = strip_marks(list[k].as_str());
        push_name(&mut out, &bare);
        proof {
            assert(s[k as int] == list@[k as int]@);
            assert(unmarked_all(s.take(k + 1)) =~= unmarked_all(s.take(k as int)).push(bare@));
        }
        k += 1;
    }
    proof {
        assert(s.take(s.len() as int) =~= s);
    }
    out
}

fn keep_names(list: &Vec<String>, out: &Vec<String>) -> (r: Vec<String>)
    ensures
        views(r@) == kept(views(list@), views(out@)),
{
    let ghost s = views(list@);
    let mut left: Vec<String> = no_names();
    let mut k: usize = 0;
    proof {
        assert(s.take(0) =~= Seq::empty());
    }
    while k < list.len()
        invariant
            k <= list.len(),
            s == views(list@),
            views(left@) == kept(s.take(k as int), views(out@)),
        decreases list.len() - k,
    {
        let bare: String = strip_marks(list[k].as_str());
        proof {
            assert(s.take(k + 1).drop_last() =~= s.take(k as int));
            assert(s.take(k + 1).last() == list@[k as int]@);
        }
        if !holds(out, bare.as_str()) {
            push_name(&mut left, &list[k]);
        }
        k += 1;
    }
    proof {
        assert(s.take(s.len() as int) =~= s);
    }
    left
}

fn find_places(names: &Vec<String>, list: &Vec<String>) -> (r: Vec<usize>)
    ensures
        r@ == places_once(views(names@), views(list@)),
{
    let ghost s = views(names@);
    let mut places: Vec<usize> = Vec::new();
    let mut k: usize = 0;
    proof {
        assert(s.take(0) =~= Seq::empty());
    }
    while k < names.len()
        invariant
            k <= names.len(),
            s == views(names@),
            places@ == places_once(s.take(k as int), views(list@)),
        decreases names.len() - k,
    {
        let bare: String = strip_marks(names[k].as_str());
        let at: usize = find_model(list, bare.as_str());
        proof {
            assert(s.take(k + 1).drop_last() =~= s.take(k as int));
            assert(s.take(k + 1).last() == names@[k as int]@);
        }
        let mut i: usize = 0;
        while i < places.len() && places[i] != at
            invariant
                i <= places.len(),
                forall|j: int| 0 <= j < i ==> #[trigger] places@[j] != at,
            decreases places.len() - i,
        {
            i += 1;
        }
        proof {
            if i < places.len() {
                assert(places@[i as int] == at);
            }
        }
        if i == places.len() {
            places.push(at);
        }
        k += 1;
    }
    proof {
        assert(s.take(s.len() as int) =~= s);
    }
    places
}

/// What is kept of a list is of the list, and its models are not left out.
proof fn lemma_kept(list: Seq<Seq<char>>, out: Seq<Seq<char>>)
    ensures
        forall|i: int|
            0 <= i < kept(list, out).len() ==> list.contains(#[trigger] kept(list, out)[i])
                && !out.contains(unmarked(kept(list, out)[i])),
        forall|i: int|
            0 <= i < list.len() && !out.contains(unmarked(#[trigger] list[i])) ==> kept(
                list,
                out,
            ).contains(list[i]),
    decreases list.len(),
{
    if list.len() > 0 {
        let h = list.drop_last();
        let a = kept(h, out);
        let b = kept(list, out);
        lemma_kept(h, out);
        assert forall|i: int| 0 <= i < b.len() implies list.contains(#[trigger] b[i])
            && !out.contains(unmarked(b[i])) by {
            if i < a.len() {
                assert(b[i] == a[i]);
                let j = choose|j: int| 0 <= j < h.len() && h[j] == a[i];
                assert(list[j] == b[i]);
            } else {
                assert(list[list.len() - 1] == b[i]);
            }
        }
        assert forall|i: int|
            0 <= i < list.len() && !out.contains(unmarked(#[trigger] list[i])) implies b.contains(
            list[i],
        ) by {
            if i < h.len() {
                assert(h[i] == list[i]);
                let j = choose|j: int| 0 <= j < a.len() && a[j] == h[i];
                assert(b[j] == list[i]);
            } else {
                assert(b[b.len() - 1] == list[i]);
            }
        }
    }
}

/// What is kept of all groups is what is kept of each.
proof fn lemma_all_kept(groups: Seq<(Seq<char>, Seq<Seq<char>>)>, out: Seq<Seq<char>>)
    ensures
        forall|i: int|
            0 <= i < all_kept(groups, out).len() ==> !out.contains(
                unmarked(#[trigger] all_kept(groups, out)[i]),
            ),
        forall|g: int, i: int|
            #![trigger group_kept(groups[g], out)[i]]
            0 <= g < groups.len() && 0 <= i < group_kept(groups[g], out).len() ==> all_kept(
                groups,
                out,
            ).contains(group_kept(groups[g], out)[i]),
    decreases groups.len(),
{
    if groups.len() > 0 {
        let h = groups.drop_last();
        let a = all_kept(h, out);
        let b = all_kept(groups, out);
        let last = group_kept(groups.last(), out);
        lemma_all_kept(h, out);
        lemma_kept(expanded_all(groups.last().1), out);
        assert forall|i: int| 0 <= i < b.len() implies !out.contains(unmarked(#[trigger] b[i])) by {
            if i < a.len() {
                assert(b[i] == a[i]);
            } else {
                assert(b[i] == last[i - a.len()]);
            }
        }
        assert forall|g: int, i: int|
            #![trigger group_kept(groups[g], out)[i]]
            0 <= g < groups.len() && 0 <= i < group_kept(groups[g], out).len() implies b.contains(
            group_kept(groups[g], out)[i],
        ) by {
            if g < h.len() {
                assert(h[g] == groups[g]);
                let x = group_kept(h[g], out)[i];
                assert(a.contains(x));
                let j = choose|j: int| 0 <= j < a.len() && a[j] == x;
                assert(b[j] == x);
            } else {
                assert(b[a.len() + i] == last[i]);
            }
        }
    }
}

/// The places of names whose models a list has are places of it, each once, and those models'.
proof fn lemma_places_once(names: Seq<Seq<char>>, list: Seq<Seq<char>>)
    requires
        list.len() <= usize::MAX,
        forall|i: int| 0 <= i < names.len() ==> has_model(list, unmarked(#[trigger] names[i])),
    ensures
        places_once(names, list).no_duplicates(),
        forall|k: int|
            0 <= k < places_once(names, list).len() ==> (#[trigger] places_once(names, list)[k])
                < list.len() && has_model(names, unmarked(list[places_once(names, list)[k] as int])),
        forall|i: int|
            0 <= i < names.len() ==> places_once(names, list).contains(
                model_place(list, unmarked(#[trigger] names[i]), 0) as usize,
            ),
    decreases names.len(),
{
    if names.len() > 0 {
        let h = names.drop_last();
        assert forall|i: int| 0 <= i < h.len() implies has_model(
            list,
            unmarked(#[trigger] h[i]),
        ) by {
            assert(h[i] == names[i]);
        }
        lemma_places_once(h, list);
        let a = places_once(h, list);
        let b = places_once(names, list);
        let bare = unmarked(names[names.len() - 1]);
        lemma_model_place(list, bare, 0);
        let p = model_place(list, bare, 0);
        assert(has_model(list, bare));
        let w = choose|i: int| 0 <= i < list.len() && unmarked(#[trigger] list[i]) == bare;
        assert(p < list.len());
        assert(unmarked(list[p]) == bare);
        assert forall|k: int| 0 <= k < b.len() implies (#[trigger] b[k]) < list.len() && has_model(
            names,
            unmarked(list[b[k] as int]),
        ) by {
            if k < a.len() {
                assert(b[k] == a[k]);
                let name = unmarked(list[a[k] as int]);
                let i = choose|i: int| 0 <= i < h.len() && unmarked(#[trigger] h[i]) == name;
                assert(names[i] == h[i]);
            } else {
                assert(unmarked(names[names.len() - 1]) == bare);
            }
        }
        assert forall|i: int| 0 <= i < names.len() implies b.contains(
            model_place(list, unmarked(#[trigger] names[i]), 0) as usize,
        ) by {
            let q = model_place(list, unmarked(names[i]), 0) as usize;
            if i < h.len() {
                assert(h[i] == names[i]);
                assert(a.contains(q));
                let j = choose|j: int| 0 <= j < a.len() && a[j] == q;
                assert(b[j] == q);
            } else if !a.contains(q) {
                assert(b[b.len() - 1] == q);
            }
        }
    }
}

/// The models of some groups: no model twice, none that is left out, and each group's places are
/// places of the list, each once, with the models of the group and all of them that are kept.
pub proof fn lemma_flat_groups(
    groups: Seq<(Seq<char>, Seq<Seq<char>>)>,
    exclude: Seq<Seq<char>>,
    g: int,
)
    requires
        0 <= g < groups.len(),
        flat_groups(groups, exclude).len() <= usize::MAX,
    ensures
        ({
            let list = flat_groups(groups, exclude);
            let out = unmarked_all(expanded_all(exclude));
            let own = group_kept(groups[g], out);
            let places = places_once(own, list);
            &&& unmarked_all(list).no_duplicates()
            &&& forall|i: int| 0 <= i < list.len() ==> !out.contains(unmarked(#[trigger] list[i]))
            &&& places.no_duplicates()
            &&& forall|k: int|
                0 <= k < places.len() ==> (#[trigger] places[k]) < list.len() && has_model(
                    own,
                    unmarked(list[places[k] as int]),
                )
            &&& forall|i: int|
                0 <= i < own.len() ==> exists|k: int|
                    0 <= k < places.len() && unmarked(list[#[trigger] places[k] as int])
                        == unmarked(#[trigger] own[i])
        }),
{
    let list = flat_groups(groups, exclude);
    let out = unmarked_all(expanded_all(exclude));
    let all = all_kept(groups, out);
    let own = group_kept(groups[g], out);
    let places = places_once(own, list);
    lemma_all_kept(groups, out);
    lemma_flat_models(all, Seq::empty());
    assert forall|i: int, j: int|
        0 <= i < unmarked_all(list).len() && 0 <= j < unmarked_all(list).len() && i
            != j implies unmarked_all(list)[i] != unmarked_all(list)[j] by {
        if i < j {
            assert(unmarked(list[i]) != unmarked(list[j]));
        } else {
            assert(unmarked(list[j]) != unmarked(list[i]));
        }
    }
    assert forall|i: int| 0 <= i < list.len() implies !out.contains(
        unmarked(#[trigger] list[i]),
    ) by {
        let name = unmarked(list[i]);
        lemma_flat_models(all, name);
        assert(has_model(list, name));
        let j = choose|j: int| 0 <= j < all.len() && unmarked(#[trigger] all[j]) == name;
        assert(!out.contains(unmarked(all[j])));
    }
    assert forall|i: int| 0 <= i < own.len() implies has_model(list, unmarked(#[trigger] own[i])) by {
        let name = unmarked(own[i]);
        lemma_flat_models(all, name);
        assert(all.contains(group_kept(groups[g], out)[i]));
        let j = choose|j: int| 0 <= j < all.len() && all[j] == own[i];
        assert(unmarked(all[j]) == name);
    }
    lemma_places_once(own, list);
    assert forall|i: int| 0 <= i < own.len() implies exists|k: int|
        0 <= k < places.len() && unmarked(list[#[trigger] places[k] as int]) == unmarked(
            #[trigger] own[i],
        ) by {
        let name = unmarked(own[i]);
        lemma_model_place(list, name, 0);
        let p = model_place(list, name, 0);
        let w = choose|j: int| 0 <= j < list.len() && unmarked(#[trigger] list[j]) == name;
        assert(p < list.len());
        assert(places.contains(p as usize));
        let k = choose|k: int| 0 <= k < places.len() && places[k] == p as usize;
        assert(unmarked(list[places[k] as int]) == name);
    }
}

/// Lays some groups out as columns: the models of the groups without those left out, each once
/// and clipped unless it is marked, and each group by the places of its models. What is left out
/// may stand for several models, and marks make no difference to it.
pub fn flatten_groups(
    groups: &IndexMap<String, Vec<String>>,
    exclude: &Vec<String>,
    label: &str,
    dir: &str,
) -> (r: Selection)
    ensures
        r.wf(),
        r.label@ == label@,
        r.dir@ == dir@,
        is_flat(r, model_entries(*groups), views(exclude@)),
{
    let ghost e = model_entries(*groups);
    let n: usize = count_models(groups);
    let out: Vec<String> = strip_all(&expand_all(exclude));
    let mut each: Vec<Vec<String>> = Vec::new();
    let mut group_names: Vec<String> = no_names();
    let mut all: Vec<String> = no_names();
    let mut g: usize = 0;
    proof {
        assert(e.take(0) =~= Seq::empty());
    }
    while g < n
        invariant
            g <= n,
            e == model_entries(*groups),
            n == e.len(),
            each.len() == g,
            group_names.len() == g,
            forall|h: int| 0 <= h < g ==> (#[trigger] group_names@[h])@ == e[h].0,
            views(all@) == all_kept(e.take(g as int), views(out@)),
            forall|h: int| 0 <= h < g ==> views((#[trigger] each@[h])@) == group_kept(e[h], views(out@)),
        decreases n - g,
    {
        match models_at(groups, g) {
            Some((name, texts)) => {
                let own: Vec<String> = keep_names(&expand_all(texts), &out);
                proof {
                    assert(e[g as int] == (name@, views(texts@)));
                    assert(e.take(g + 1).drop_last() =~= e.take(g as int));
                    assert(e.take(g + 1).last() == e[g as int]);
                }
                append_names(&mut all, &own);
                each.push(own);
                group_names.push(name.clone());
            },
            None => {},
        }
        g += 1;
    }
    proof {
        assert(e.take(e.len() as int) =~= e);
    }
    let list: Vec<String> = flatten_specs(&all);
    let ghost l = views(list@);
    let names: Vec<String> = strip_all(&list);
    let mut clip: Vec<bool> = Vec::new();
    let mut i: usize = 0;
    while i < list.len()
        invariant
            i <= list.len(),
            l == views(list@),
            clip.len() == i,
            forall|j: int| 0 <= j < i ==> #[trigger] clip@[j] == !marked(l[j]),
        decreases list.len() - i,
    {
        proof {
            assert(l[i as int] == list@[i as int]@);
        }
        clip.push(!is_marked(list[i].as_str()));
        i += 1;
    }
    let mut group_indices: Vec<Vec<usize>> = Vec::new();
    let mut k: usize = 0;
    while k < n
        invariant
            k <= n,
            n == e.len(),
            l == views(list@),
            each.len() == n,
            group_indices.len() == k,
            l == flat_groups(e, views(exclude@)),
            views(out@) == unmarked_all(expanded_all(views(exclude@))),
            forall|h: int|
                0 <= h < n ==> views((#[trigger] each@[h])@) == group_kept(e[h], views(out@)),
            forall|h: int|
                0 <= h < k ==> (#[trigger] group_indices@[h])@ == places_once(
                    group_kept(e[h], views(out@)),
                    l,
                ),
            forall|h: int, j: int|
                0 <= h < k && 0 <= j < group_indices@[h].len() ==> #[trigger] group_indices@[h]@[j]
                    < l.len(),
        decreases n - k,
    {
        let places: Vec<usize> = find_places(&each[k], &list);
        proof {
            assert(l.len() == list.len());
            lemma_flat_groups(e, views(exclude@), k as int);
        }
        group_indices.push(places);
        k += 1;
    }
    proof {
        assert(views(names@).len() == names.len());
        assert(l.len() == list.len());
        assert forall|h: int, j: int|
            0 <= h < group_indices.len() && 0 <= j < group_indices[h].len() implies #[trigger] group_indices[h][j]
            < names.len() by {
            assert(group_indices@[h]@[j] < l.len());
        }
    }
    Selection {
        label: label.to_string(),
        dir: dir.to_string(),
        names,
        clip,
        group_names,
        group_indices,
    }
}

// ---------------------------------------------------------------------------
// Names with stars
// ---------------------------------------------------------------------------

/// The columns of a data set among some files.
pub open spec fn columns_in(files: Seq<Seq<char>>, dataset: Seq<char>) -> Seq<Seq<char>>
    decreases files.len(),
{
    if files.len() == 0 {
        Seq::empty()
    } else {
        let before = columns_in(files.drop_last(), dataset);
        let f = files.last();
        let end = "."@ + dataset + ".npy"@;
        if end.is_suffix_of(f) {
            before.push(f.take(f.len() - end.len()))
        } else {
            before
        }
    }
}

/// The columns that a name with stars matches, with the name's mark.
pub open spec fn starred(name: Seq<char>, columns: Seq<Seq<char>>) -> Seq<Seq<char>>
    decreases columns.len(),
{
    if columns.len() == 0 {
        Seq::empty()
    } else {
        let before = starred(name, columns.drop_last());
        if !glob_matches(unmarked(name), columns.last()) {
            before
        } else if marked(name) {
            before.push(">"@ + columns.last())
        } else {
            before.push(columns.last())
        }
    }
}

/// The names with those that have stars replaced by the columns they match.
pub open spec fn globbed(names: Seq<Seq<char>>, columns: Seq<Seq<char>>) -> Seq<Seq<char>>
    decreases names.len(),
{
    if names.len() == 0 {
        Seq::empty()
    } else if first_char(names.last(), '*', 0) < names.last().len() {
        globbed(names.drop_last(), columns) + starred(names.last(), columns)
    } else {
        globbed(names.drop_last(), columns).push(names.last())
    }
}

fn list_columns(files: &Vec<String>, dataset: &str) -> (r: Vec<String>)
    ensures
        views(r@) == columns_in(views(files@), dataset@),
{
    let ghost s = views(files@);
    let end: String = joined3(".", dataset, ".npy");
    let mut out: Vec<String> = no_names();
    let mut k: usize = 0;
    proof {
        assert(s.take(0) =~= Seq::empty());
    }
    while k < files.len()
        invariant
            k <= files.len(),
            s == views(files@),
            end@ == "."@ + dataset@ + ".npy"@,
            views(out@) == columns_in(s.take(k as int), dataset@),
        decreases files.len() - k,
    {
        let ghost f = files@[k as int]@;
        proof {
            assert(s.take(k + 1).drop_last() =~= s.take(k as int));
            assert(s.take(k + 1).last() == f);
        }
        match strip_suffix(files[k].as_str(), end.as_str()) {
            Some(column) => {
                proof {
                    assert(f.take(f.len() - end@.len()) =~= column@);
                }
                push_name(&mut out, &column);
            },
            None => {},
        }
        k += 1;
    }
    proof {
        assert(s.take(s.len() as int) =~= s);
    }
    out
}

fn push_starred(name: &String, columns: &Vec<String>, out: &mut Vec<String>)
    ensures
        views(final(out)@) == views(old(out)@) + starred(name@, views(columns@)),
{
    let ghost s = views(columns@);
    let ghost before = views(out@);
    let bare: String = strip_marks(name.as_str());
    let with_mark: bool = is_marked(name.as_str());
    let mut k: usize = 0;
    proof {
        assert(s.take(0) =~= Seq::empty());
        assert(before + starred(name@, s.take(0)) =~= before);
    }
    while k < columns.len()
        invariant
            k <= columns.len(),
            s == views(columns@),
            bare@ == unmarked(name@),
            with_mark == marked(name@),
            views(out@) == before + starred(name@, s.take(k as int)),
        decreases columns.len() - k,
    {
        let ghost c = columns@[k as int]@;
        proof {
            assert(s.take(k + 1).drop_last() =~= s.take(k as int));
            assert(s.take(k + 1).last() == c);
        }
        if glob_match(bare.as_str(), columns[k].as_str()) {
            if with_mark {
                let full: String = joined(">", columns[k].as_str());
                push_name(out, &full);
                proof {
                    assert((before + starred(name@, s.take(k as int))).push(full@) =~= before
                        + starred(name@, s.take(k as int)).push(full@));
                }
            } else {
                push_name(out, &columns[k]);
                proof {
                    assert((before + starred(name@, s.take(k as int))).push(c) =~= before
                        + starred(name@, s.take(k as int)).push(c));
                }
            }
        }
        k += 1;
    }
    proof {
        assert(s.take(s.len() as int) =~= s);
    }
}

/// Replaces each name with stars by the columns of the data set, among some files, that it
/// matches.
pub fn expand_globs(names: &Vec<String>, files: &Vec<String>, dataset: &str) -> (r: Vec<String>)
    ensures
        views(r@) == globbed(views(names@), columns_in(views(files@), dataset@)),
{
    let ghost s = views(names@);
    let columns: Vec<String> = list_columns(files, dataset);
    let mut out: Vec<String> = no_names();
    let mut k: usize = 0;
    proof {
        assert(s.take(0) =~= Seq::empty());
    }
    while k < names.len()
        invariant
            k <= names.len(),
            s == views(names@),
            views(out@) == globbed(s.take(k as int), views(columns@)),
        decreases names.len() - k,
    {
        let chars: Vec<char> = chars_of(names[k].as_str());
        let star: usize = find_char(&chars, '*', 0);
        proof {
            assert(s.take(k + 1).drop_last() =~= s.take(k as int));
            assert(s.take(k + 1).last() == names@[k as int]@);
        }
        if star < chars.len() {
            push_starred(&names[k], &columns, &mut out);
        } else {
            push_name(&mut out, &names[k]);
        }
        k += 1;
    }
    proof {
        assert(s.take(s.len() as int) =~= s);
    }
    out
}

/// Putting groups into others keeps the last group of each name.
pub proof fn lemma_put_all(
    e: Seq<(Seq<char>, Seq<Seq<char>>)>,
    more: Seq<(Seq<char>, Seq<Seq<char>>)>,
    name: Seq<char>,
)
    requires
        names_differ(e),
        names_differ(more),
    ensures
        names_differ(put_all(e, more)),
        group_named(put_all(e, more), name) == (match group_named(more, name) {
            Some(g) => Some(g),
            None => group_named(e, name),
        }),
    decreases more.len(),
{
    if more.len() > 0 {
        let h = more.drop_last();
        assert forall|i: int, j: int| 0 <= i < j < h.len() implies (#[trigger] h[i]).0
            != (#[trigger] h[j]).0 by {
            assert(more[i].0 != more[j].0);
        }
        lemma_put_all(e, h, name);
        let before = put_all(e, h);
        lemma_put(before, more.last().0, more.last().1);
        lemma_put_named(before, more.last().0, more.last().1, name);
        lemma_place_of(h, name);
        lemma_place_of(more, name);
        if place_of(h, name) < h.len() {
            assert(more[place_of(h, name)].0 == name);
            assert(more[more.len() - 1].0 != name);
        }
    }
}

/// A choice of groups has the groups that are named in it, and all of them where it names one that
/// is none; each as it is listed.
pub proof fn lemma_chosen(
    groups: Seq<(Seq<char>, Seq<Seq<char>>)>,
    wanted: Seq<Seq<char>>,
    name: Seq<char>,
)
    requires
        names_differ(groups),
    ensures
        group_named(chosen(groups, wanted), name) == (if wanted.contains(name) || exists|k: int|
            0 <= k < wanted.len() && group_named(groups, #[trigger] wanted[k]) is None {
            group_named(groups, name)
        } else {
            None
        }),
        selected(groups, Seq::empty()) == groups,
        wanted.len() > 0 ==> selected(groups, wanted) == chosen(groups, wanted),
    decreases wanted.len(),
{
    if wanted.len() > 0 {
        let h = wanted.drop_last();
        let last = wanted.last();
        let before = chosen(groups, h);
        lemma_chosen(groups, h, name);
        lemma_chosen_differ(groups, h);
        lemma_place_of(groups, last);
        lemma_place_of(groups, name);
        let all_h = exists|k: int| 0 <= k < h.len() && group_named(groups, #[trigger] h[k]) is None;
        let all_w = exists|k: int|
            0 <= k < wanted.len() && group_named(groups, #[trigger] wanted[k]) is None;
        if all_h {
            let k = choose|k: int| 0 <= k < h.len() && group_named(groups, #[trigger] h[k]) is None;
            assert(group_named(groups, wanted[k]) is None);
        }
        if all_w && !all_h {
            let k = choose|k: int|
                0 <= k < wanted.len() && group_named(groups, #[trigger] wanted[k]) is None;
            if k < h.len() {
                assert(group_named(groups, h[k]) is None);
            }
        }
        if h.contains(name) {
            let k = h.index_of(name);
            assert(wanted[k] == name);
        }
        if wanted.contains(name) && last != name {
            let k = wanted.index_of(name);
            assert(h[k] == name);
        }
        if place_of(groups, last) < groups.len() {
            lemma_put_named(before, last, groups[place_of(groups, last)].1, name);
            assert(group_named(groups, wanted[wanted.len() - 1]) is Some);
            if last == name {
                assert(wanted[wanted.len() - 1] == name);
            }
        } else {
            lemma_put_all(before, groups, name);
            assert(group_named(groups, wanted[wanted.len() - 1]) is None);
        }
    } else {
        assert(place_of(chosen(groups, wanted), name) == 0);
    }
}

/// The first unknown name is the first that no group has and that is not the word for all.
pub proof fn lemma_first_unknown(
    groups: Seq<(Seq<char>, Seq<Seq<char>>)>,
    wanted: Seq<Seq<char>>,
    i: int,
)
    requires
        0 <= i <= wanted.len(),
    ensures
        i <= first_unknown(groups, wanted, i) <= wanted.len(),
        forall|k: int|
            i <= k < first_unknown(groups, wanted, i) ==> group_named(
                groups,
                #[trigger] wanted[k],
            ) is Some || wanted[k] == "all"@,
        first_unknown(groups, wanted, i) < wanted.len() ==> group_named(
            groups,
            wanted[first_unknown(groups, wanted, i)],
        ) is None && wanted[first_unknown(groups, wanted, i)] != "all"@,
    decreases wanted.len() - i,
{
    if i < wanted.len() && is_known(groups, wanted[i]) {
        lemma_first_unknown(groups, wanted, i + 1);
        assert forall|k: int| i <= k < first_unknown(groups, wanted, i) implies group_named(
            groups,
            #[trigger] wanted[k],
        ) is Some || wanted[k] == "all"@ by {
            if k == i {
                assert(is_known(groups, wanted[k]));
            }
        }
    }
}

/// The texts of two lists are those of the first, then those of the second; a text alone gives what
/// it stands for.
pub proof fn lemma_expanded_in_order(a: Seq<Seq<char>>, b: Seq<Seq<char>>, s: Seq<char>)
    ensures
        expanded_all(a + b) == expanded_all(a) + expanded_all(b),
        expanded_all(seq![s]) == expanded(s),
    decreases b.len(),
{
    reveal_with_fuel(expanded_all, 2);
    assert(seq![s].drop_last() =~= Seq::empty());
    assert(expanded_all(seq![s]) =~= expanded(s));
    if b.len() == 0 {
        assert(a + b =~= a);
        assert(expanded_all(a) + expanded_all(b) =~= expanded_all(a));
    } else {
        lemma_expanded_in_order(a, b.drop_last(), s);
        assert((a + b).drop_last() =~= a + b.drop_last());
        assert((a + b).last() == b.last());
        assert(expanded_all(a + b) =~= expanded_all(a) + expanded_all(b));
    }
}

/// The texts of two lists of groups are those of the first, then those of the second; a group alone
/// gives what its texts stand for.
pub proof fn lemma_specs_in_order(
    a: Seq<(Seq<char>, Seq<Seq<char>>)>,
    b: Seq<(Seq<char>, Seq<Seq<char>>)>,
    g: (Seq<char>, Seq<Seq<char>>),
)
    ensures
        all_specs(a + b) == all_specs(a) + all_specs(b),
        all_specs(seq![g]) == expanded_all(g.1),
    decreases b.len(),
{
    assert(seq![g].drop_last() =~= Seq::empty());
    assert(all_specs(seq![g].drop_last()) =~= Seq::empty());
    assert(all_specs(seq![g]) =~= expanded_all(g.1));
    if b.len() == 0 {
        assert(a + b =~= a);
        assert(all_specs(a) + all_specs(b) =~= all_specs(a));
    } else {
        lemma_specs_in_order(a, b.drop_last(), g);
        assert((a + b).drop_last() =~= a + b.drop_last());
        assert((a + b).last() == b.last());
        assert(all_specs(a + b) =~= all_specs(a) + all_specs(b));
    }
}

/// The kept texts of two lists of groups are those of the first, then those of the second; a group
/// alone gives those of its texts that are kept.
pub proof fn lemma_kept_in_order(
    a: Seq<(Seq<char>, Seq<Seq<char>>)>,
    b: Seq<(Seq<char>, Seq<Seq<char>>)>,
    g: (Seq<char>, Seq<Seq<char>>),
    out: Seq<Seq<char>>,
)
    ensures
        all_kept(a + b, out) == all_kept(a, out) + all_kept(b, out),
        all_kept(seq![g], out) == kept(expanded_all(g.1), out),
    decreases b.len(),
{
    assert(seq![g].drop_last() =~= Seq::empty());
    assert(all_kept(seq![g].drop_last(), out) =~= Seq::empty());
    assert(all_kept(seq![g], out) =~= kept(expanded_all(g.1), out));
    if b.len() == 0 {
        assert(a + b =~= a);
        assert(all_kept(a, out) + all_kept(b, out) =~= all_kept(a, out));
    } else {
        lemma_kept_in_order(a, b.drop_last(), g, out);
        assert((a + b).drop_last() =~= a + b.drop_last());
        assert((a + b).last() == b.last());
        assert(all_kept(a + b, out) =~= all_kept(a, out) + all_kept(b, out));
    }
}

/// The kept texts are, in order, those whose model is not left out.
pub proof fn lemma_kept_filters(list: Seq<Seq<char>>, out: Seq<Seq<char>>)
    ensures
        kept(list, out) == list.filter(|s: Seq<char>| !out.contains(unmarked(s))),
    decreases list.len(),
{
    reveal(Seq::filter);
    if list.len() > 0 {
        lemma_kept_filters(list.drop_last(), out);
    }
}

/// The places of more names come behind those found so far.
pub proof fn lemma_places_in_order(a: Seq<Seq<char>>, b: Seq<Seq<char>>, list: Seq<Seq<char>>)
    ensures
        places_once(a, list).is_prefix_of(places_once(a + b, list)),
    decreases b.len(),
{
    if b.len() == 0 {
        assert(a + b =~= a);
    } else {
        lemma_places_in_order(a, b.drop_last(), list);
        assert((a + b).drop_last() =~= a + b.drop_last());
    }
}

/// The columns of a data set are, in order, what stands before its ending in the files that have
/// it.
pub proof fn lemma_columns(
    a: Seq<Seq<char>>,
    b: Seq<Seq<char>>,
    x: Seq<char>,
    f: Seq<char>,
    dataset: Seq<char>,
)
    ensures
        columns_in(a + b, dataset) == columns_in(a, dataset) + columns_in(b, dataset),
        columns_in(seq![x + ("."@ + dataset + ".npy"@)], dataset) == seq![x],
        !("."@ + dataset + ".npy"@).is_suffix_of(f) ==> columns_in(seq![f], dataset) == Seq::<
            Seq<char>,
        >::empty(),
    decreases b.len(),
{
    reveal_with_fuel(columns_in, 2);
    let end = "."@ + dataset + ".npy"@;
    assert(seq![f].drop_last() =~= Seq::empty());
    assert(seq![x + end].drop_last() =~= Seq::empty());
    assert(end.is_suffix_of(x + end)) by {
        assert((x + end).subrange(x.len() as int, (x + end).len() as int) =~= end);
    }
    assert((x + end).take(x.len() as int) =~= x);
    if b.len() == 0 {
        assert(a + b =~= a);
        assert(columns_in(a, dataset) + columns_in(b, dataset) =~= columns_in(a, dataset));
    } else {
        lemma_columns(a, b.drop_last(), x, f, dataset);
        assert((a + b).drop_last() =~= a + b.drop_last());
        assert((a + b).last() == b.last());
        assert(columns_in(a + b, dataset) =~= columns_in(a, dataset) + columns_in(b, dataset));
    }
}

/// A text with a star stands for the columns that it matches, in order, each with the text's mark;
/// a text without one stands for itself.
pub proof fn lemma_starred(name: Seq<char>, a: Seq<Seq<char>>, b: Seq<Seq<char>>, c: Seq<char>)
    ensures
        starred(name, a + b) == starred(name, a) + starred(name, b),
        !glob_matches(unmarked(name), c) ==> starred(name, seq![c]) == Seq::<Seq<char>>::empty(),
        glob_matches(unmarked(name), c) && marked(name) ==> starred(name, seq![c]) == seq![
            ">"@ + c,
        ],
        glob_matches(unmarked(name), c) && !marked(name) ==> starred(name, seq![c]) == seq![c],
    decreases b.len(),
{
    reveal_with_fuel(starred, 2);
    assert(seq![c].drop_last() =~= Seq::empty());
    if b.len() == 0 {
        assert(a + b =~= a);
        assert(starred(name, a) + starred(name, b) =~= starred(name, a));
    } else {
        lemma_starred(name, a, b.drop_last(), c);
        assert((a + b).drop_last() =~= a + b.drop_last());
        assert((a + b).last() == b.last());
        assert(starred(name, a + b) =~= starred(name, a) + starred(name, b));
    }
}

/// Texts are replaced one by one, in order, and only those with a star are.
pub proof fn lemma_globbed(
    a: Seq<Seq<char>>,
    b: Seq<Seq<char>>,
    name: Seq<char>,
    columns: Seq<Seq<char>>,
)
    ensures
        globbed(a + b, columns) == globbed(a, columns) + globbed(b, columns),
        globbed(seq![name], columns) == (if name.contains('*') {
            starred(name, columns)
        } else {
            seq![name]
        }),
    decreases b.len(),
{
    reveal_with_fuel(globbed, 2);
    crate::text::lemma_first_char(name, '*', 0);
    if name.contains('*') {
        let k = name.index_of('*');
        assert(name[k] == '*');
    }
    assert(seq![name].drop_last() =~= Seq::empty());
    assert(Seq::<Seq<char>>::empty() + starred(name, columns) =~= starred(name, columns));
    if b.len() == 0 {
        assert(a + b =~= a);
        assert(globbed(a, columns) + globbed(b, columns) =~= globbed(a, columns));
    } else {
        lemma_globbed(a, b.drop_last(), name, columns);
        assert((a + b).drop_last() =~= a + b.drop_last());
        assert((a + b).last() == b.last());
        assert(globbed(a + b, columns) =~= globbed(a, columns) + globbed(b, columns));
    }
}

/// A flat selection: the models of all groups without those that are left out, each once, clipped
/// unless it is marked; and each group with its name and the places of its own models.
pub proof fn lemma_is_flat(
    r: Selection,
    groups: Seq<(Seq<char>, Seq<Seq<char>>)>,
    exclude: Seq<Seq<char>>,
    i: int,
    g: int,
    k: int,
)
    requires
        is_flat(r, groups, exclude),
        flat_groups(groups, exclude).len() <= usize::MAX,
        0 <= i < r.names.len(),
        0 <= g < groups.len(),
        0 <= k < r.group_indices@[g].len(),
    ensures
        r.names.len() == flat_groups(groups, exclude).len(),
        r.names@[i]@ == unmarked(flat_groups(groups, exclude)[i]),
        r.clip@[i] == !marked(flat_groups(groups, exclude)[i]),
        r.group_names.len() == groups.len(),
        r.group_names@[g]@ == groups[g].0,
        r.group_indices@[g]@[k] < r.names.len(),
        has_model(
            kept(expanded_all(groups[g].1), unmarked_all(expanded_all(exclude))),
            r.names@[r.group_indices@[g]@[k] as int]@,
        ),
{
    let list = flat_groups(groups, exclude);
    assert(views(r.names@) == unmarked_all(list));
    assert(views(r.names@)[i] == unmarked_all(list)[i]);
    assert(views(r.names@).len() == r.names.len());
    lemma_flat_groups(groups, exclude, g);
    let own = group_kept(groups[g], unmarked_all(expanded_all(exclude)));
    let places = places_once(own, list);
    assert(r.group_indices@[g]@ == places);
    let p = places[k] as int;
    assert(p < list.len() && has_model(own, unmarked(list[p])));
    assert(views(r.names@)[p] == unmarked_all(list)[p]);
}

} // verus!
