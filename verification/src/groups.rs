//! Named groups of columns, in the order in which they were first named.

use indexmap::IndexMap;
use vstd::prelude::*;
use vstd::string::*;

verus! {

/// A map that keeps the order in which its keys came.
#[verifier::external_type_specification]
#[verifier::external_body]
#[verifier::reject_recursive_types(K)]
#[verifier::reject_recursive_types(V)]
#[verifier::reject_recursive_types(S)]
pub struct ExIndexMap<K, V, S>(IndexMap<K, V, S>);

/// The entries of a map from names to column numbers, in order.
pub uninterp spec fn group_entries(m: IndexMap<String, Vec<usize>>) -> Seq<(Seq<char>, Seq<usize>)>;

/// Whether no two entries have the same name.
pub open spec fn names_differ<V>(e: Seq<(Seq<char>, V)>) -> bool {
    forall|i: int, j: int| 0 <= i < j < e.len() ==> (#[trigger] e[i]).0 != (#[trigger] e[j]).0
}

/// The place of the first entry of a name, or the number of entries.
pub open spec fn place_of<V>(e: Seq<(Seq<char>, V)>, name: Seq<char>) -> int
    decreases e.len(),
{
    if e.len() == 0 {
        0
    } else if place_of(e.drop_last(), name) < e.len() - 1 {
        place_of(e.drop_last(), name)
    } else if e.last().0 == name {
        e.len() - 1
    } else {
        e.len() as int
    }
}

/// The entries with a group put under a name: in the place of the group of that name, or last.
pub open spec fn put<V>(e: Seq<(Seq<char>, V)>, name: Seq<char>, group: V) -> Seq<(Seq<char>, V)> {
    if place_of(e, name) < e.len() {
        e.update(place_of(e, name), (name, group))
    } else {
        e.push((name, group))
    }
}

/// `IndexMap::new`: a map without entries.
#[verifier::external_body]
pub(crate) fn no_groups() -> (r: IndexMap<String, Vec<usize>>)
    ensures
        group_entries(r) == Seq::<(Seq<char>, Seq<usize>)>::empty(),
{
    IndexMap::new()
}

/// `IndexMap::insert`: the group goes into the place of the entry of that name, or last where
/// there is none.
#[verifier::external_body]
pub(crate) fn put_group(m: &mut IndexMap<String, Vec<usize>>, name: String, group: Vec<usize>)
    ensures
        group_entries(*final(m)) == put(group_entries(*old(m)), name@, group@),
{
    m.insert(name, group);
}

/// `IndexMap::len`: the number of entries.
#[verifier::external_body]
pub(crate) fn count_groups(m: &IndexMap<String, Vec<usize>>) -> (r: usize)
    ensures
        r == group_entries(*m).len(),
{
    m.len()
}

/// `IndexMap::get_index`: the entry at a place, if there are so many.
#[verifier::external_body]
pub(crate) fn group_at(m: &IndexMap<String, Vec<usize>>, i: usize) -> (r: Option<(&String, &Vec<usize>)>)
    ensures
        match r {
            Some((name, group)) => i < group_entries(*m).len() && group_entries(*m)[i as int] == (
                name@,
                group@,
            ),
            None => i >= group_entries(*m).len(),
        },
{
    m.get_index(i)
}

/// The first entry of a name stands where it is said to stand.
pub proof fn lemma_place_of<V>(e: Seq<(Seq<char>, V)>, name: Seq<char>)
    ensures
        0 <= place_of(e, name) <= e.len(),
        place_of(e, name) < e.len() ==> e[place_of(e, name)].0 == name,
        forall|k: int| 0 <= k < place_of(e, name) ==> (#[trigger] e[k]).0 != name,
    decreases e.len(),
{
    if e.len() > 0 {
        lemma_place_of(e.drop_last(), name);
        assert forall|k: int| 0 <= k < place_of(e, name) implies (#[trigger] e[k]).0 != name by {
            if k < e.len() - 1 {
                assert(e.drop_last()[k] == e[k]);
            }
        }
    }
}

/// Putting a group keeps the names apart, keeps the order of the names, and leaves the groups of
/// the other names as they are.
pub proof fn lemma_put<V>(e: Seq<(Seq<char>, V)>, name: Seq<char>, group: V)
    requires
        names_differ(e),
    ensures
        names_differ(put(e, name, group)),
        e.len() <= put(e, name, group).len() <= e.len() + 1,
        forall|k: int|
            0 <= k < e.len() ==> (#[trigger] put(e, name, group)[k]).0 == e[k].0 && (e[k].0 != name
                ==> put(e, name, group)[k] == e[k]),
        put(e, name, group).contains((name, group)),
{
    lemma_place_of(e, name);
    let p = put(e, name, group);
    let k = place_of(e, name);
    assert(p[k] == (name, group));
    assert forall|i: int, j: int| 0 <= i < j < p.len() implies (#[trigger] p[i]).0 != (
    #[trigger] p[j]).0 by {
        if j < e.len() {
            assert(p[i].0 == e[i].0 && p[j].0 == e[j].0);
        } else {
            assert(p[i] == e[i]);
        }
    }
}

/// The group of a name, if there is one.
pub open spec fn group_named<V>(e: Seq<(Seq<char>, V)>, name: Seq<char>) -> Option<V> {
    if place_of(e, name) < e.len() {
        Some(e[place_of(e, name)].1)
    } else {
        None
    }
}

/// What is put under a name is found under it.
pub proof fn lemma_put_found<V>(e: Seq<(Seq<char>, V)>, name: Seq<char>, group: V)
    requires
        names_differ(e),
    ensures
        group_named(put(e, name, group), name) == Some(group),
{
    lemma_put(e, name, group);
    let p = put(e, name, group);
    lemma_place_of(e, name);
    lemma_place_of(p, name);
    assert(p[place_of(e, name)] == (name, group));
}

/// The same column numbers again.
pub(crate) fn copy_numbers(v: &Vec<usize>) -> (r: Vec<usize>)
    ensures
        r@ == v@,
{
    let mut out: Vec<usize> = Vec::new();
    let mut i: usize = 0;
    while i < v.len()
        invariant
            i <= v.len(),
            out@ =~= v@.take(i as int),
        decreases v.len() - i,
    {
        out.push(v[i]);
        i += 1;
    }
    out
}

/// `IndexMap::get`: the group of a name, if there is one.
#[verifier::external_body]
pub(crate) fn group_of<'a>(m: &'a IndexMap<String, Vec<usize>>, name: &str) -> (r: Option<
    &'a Vec<usize>,
>)
    ensures
        match r {
            Some(group) => group_named(group_entries(*m), name@) == Some(group@),
            None => group_named(group_entries(*m), name@) is None,
        },
{
    m.get(name)
}

/// The columns that a selection starts from: those of the group of a name.
pub fn fixed_columns(m: &IndexMap<String, Vec<usize>>, name: &str) -> (r: Option<Vec<usize>>)
    ensures
        match r {
            Some(g) => group_named(group_entries(*m), name@) == Some(g@),
            None => group_named(group_entries(*m), name@) is None,
        },
{
    match group_of(m, name) {
        Some(group) => Some(copy_numbers(group)),
        None => None,
    }
}

/// Putting a group changes what its own name stands for, and no other name.
pub proof fn lemma_put_named<V>(
    e: Seq<(Seq<char>, V)>,
    name: Seq<char>,
    group: V,
    other: Seq<char>,
)
    requires
        names_differ(e),
    ensures
        group_named(put(e, name, group), other) == (if other == name {
            Some(group)
        } else {
            group_named(e, other)
        }),
{
    let r = put(e, name, group);
    lemma_put(e, name, group);
    lemma_place_of(e, name);
    lemma_place_of(e, other);
    lemma_place_of(r, name);
    lemma_place_of(r, other);
    if other == name {
        lemma_put_found(e, name, group);
    } else {
        let p = place_of(e, other);
        let q = place_of(r, other);
        if p < e.len() {
            assert(r[p].0 == other);
            assert(q <= p);
            assert(q < e.len());
            assert(e[q].0 == other);
            assert(p == q);
        } else if q < r.len() {
            if q < e.len() {
                assert(e[q].0 == r[q].0);
            }
        }
    }
}

} // verus!
