//! The numbers recorded for a stored ensemble: writing those of a run into the text that holds them.

use crate::text::same;
use crate::text::text_view;
use crate::tool_args::has_text;
use crate::tool_args::record_row;
use crate::tool_args::recorded;
use crate::tool_args::ReportRow;
use toml_edit::DocumentMut;
use toml_edit::Item;
use toml_edit::Table;
use toml_edit::Value;
use vstd::prelude::*;
use vstd::string::*;

verus! {

/// The contents of texts that may be missing.
pub open spec fn text_views(v: Seq<Option<String>>) -> Seq<Option<Seq<char>>> {
    v.map_values(|t: Option<String>| text_view(t))
}

/// The contents of pairs of texts.
pub open spec fn pair_views(v: Seq<(String, String)>) -> Seq<(Seq<char>, Seq<char>)> {
    v.map_values(|p: (String, String)| (p.0@, p.1@))
}

// ---------------------------------------------------------------------------
// The text
// ---------------------------------------------------------------------------

/// What the tables of a list in a TOML text have under a key, table by table, where it is a
/// string; nothing inside where the text has no such list, and nothing where it is no TOML.
pub uninterp spec fn strings_in(text: Seq<char>, list: Seq<char>, key: Seq<char>) -> Option<
    Option<Seq<Option<Seq<char>>>>,
>;

/// The TOML text whose list has, in the table at a place, under a key the table of some rows, each
/// a key and the text of a value; nothing where the text is no TOML, has no such table, or the
/// text of a row is no value.
pub uninterp spec fn with_rows(
    text: Seq<char>,
    list: Seq<char>,
    place: int,
    key: Seq<char>,
    rows: Seq<(Seq<char>, Seq<char>)>,
) -> Option<Seq<char>>;

/// `DocumentMut::from_str`, and of the list `Item::as_array_of_tables`, `Table::get` and
/// `Item::as_str`: a function of the three texts alone. What a given text has is left unsaid.
#[verifier::external_body]
fn read_strings(text: &str, list: &str, key: &str) -> (r: Option<Option<Vec<Option<String>>>>)
    ensures
        match r {
            Some(Some(v)) => strings_in(text@, list@, key@) == Some(Some(text_views(v@))),
            Some(None) => strings_in(text@, list@, key@) == Some(
                None::<Seq<Option<Seq<char>>>>,
            ),
            None => strings_in(text@, list@, key@) is None,
        },
{
    let doc = text.parse::<DocumentMut>().ok()?;
    let tables = doc.get(list).and_then(|i| i.as_array_of_tables());
    let string = |t: &Table| t.get(key).and_then(|v| v.as_str()).map(|s| s.to_string());
    Some(tables.map(|a| a.iter().map(string).collect()))
}

/// `DocumentMut::from_str`, `ArrayOfTables::get_mut`, `Table::insert` and the document printed: a
/// function of the arguments alone. What the text is like for given arguments, and that the rest
/// of it stays as it was, is left unsaid.
#[verifier::external_body]
fn write_rows(text: &str, list: &str, place: usize, key: &str, rows: &Vec<(String, String)>) -> (r:
    Option<String>)
    ensures
        match r {
            Some(t) => with_rows(text@, list@, place as int, key@, pair_views(rows@)) == Some(t@),
            None => with_rows(text@, list@, place as int, key@, pair_views(rows@)) is None,
        },
{
    let mut doc = text.parse::<DocumentMut>().ok()?;
    let mut table = Table::new();
    for (name, value) in rows {
        table.insert(name, Item::Value(value.parse::<Value>().ok()?));
    }
    doc.get_mut(list)?.as_array_of_tables_mut()?.get_mut(place)?.insert(key, Item::Table(table));
    Some(doc.to_string())
}

// ---------------------------------------------------------------------------
// The rows
// ---------------------------------------------------------------------------

/// What is recorded of a row of a report.
pub open spec fn recorded_row(row: ReportRow, keep_probe: bool, keep_quiz: bool) -> Option<
    (Seq<char>, Seq<char>),
> {
    recorded(
        row.name@,
        if keep_probe {
            text_view(row.probe)
        } else {
            None
        },
        if keep_quiz {
            text_view(row.quiz)
        } else {
            None
        },
    )
}

/// What is recorded of a report.
pub open spec fn recorded_rows(rows: Seq<ReportRow>, keep_probe: bool, keep_quiz: bool) -> Seq<
    (Seq<char>, Seq<char>),
>
    decreases rows.len(),
{
    if rows.len() == 0 {
        Seq::empty()
    } else {
        let before = recorded_rows(rows.drop_last(), keep_probe, keep_quiz);
        match recorded_row(rows.last(), keep_probe, keep_quiz) {
            Some(p) => before.push(p),
            None => before,
        }
    }
}

/// Lists what is recorded of a report.
pub fn record_rows(rows: &Vec<ReportRow>, keep_probe: bool, keep_quiz: bool) -> (r: Vec<
    (String, String),
>)
    ensures
        pair_views(r@) == recorded_rows(rows@, keep_probe, keep_quiz),
{
    let mut out: Vec<(String, String)> = Vec::new();
    let mut k: usize = 0;
    proof {
        assert(rows@.take(0) =~= Seq::empty());
        assert(pair_views(out@) =~= Seq::empty());
    }
    while k < rows.len()
        invariant
            k <= rows.len(),
            pair_views(out@) == recorded_rows(rows@.take(k as int), keep_probe, keep_quiz),
        decreases rows.len() - k,
    {
        proof {
            assert(rows@.take(k + 1).drop_last() =~= rows@.take(k as int));
            assert(rows@.take(k + 1).last() == rows@[k as int]);
        }
        match record_row(&rows[k], keep_probe, keep_quiz) {
            Some(p) => {
                let ghost before = out@;
                out.push(p);
                proof {
                    assert(pair_views(out@) =~= pair_views(before).push((p.0@, p.1@)));
                }
            },
            None => {},
        }
        k += 1;
    }
    proof {
        assert(rows@.take(rows.len() as int) =~= rows@);
    }
    out
}

/// The first place from `i` on that has a name, or the number of places.
pub open spec fn named_from(names: Seq<Option<Seq<char>>>, name: Seq<char>, i: int) -> int
    decreases names.len() - i,
{
    if i < 0 || i >= names.len() {
        names.len() as int
    } else if names[i] == Some(name) {
        i
    } else {
        named_from(names, name, i + 1)
    }
}

/// Finds the first of some tables by its name.
pub fn find_named(names: &Vec<Option<String>>, name: &str) -> (r: usize)
    ensures
        r == named_from(text_views(names@), name@, 0),
{
    let mut k: usize = 0;
    while k < names.len()
        invariant
            k <= names.len(),
            named_from(text_views(names@), name@, 0) == named_from(
                text_views(names@),
                name@,
                k as int,
            ),
        decreases names.len() - k,
    {
        proof {
            assert(text_views(names@)[k as int] == text_view(names@[k as int]));
        }
        match &names[k] {
            Some(s) => {
                if same(s.as_str(), name) {
                    return k;
                }
            },
            None => {},
        }
        k += 1;
    }
    k
}

// ---------------------------------------------------------------------------
// The update
// ---------------------------------------------------------------------------

/// Why the numbers of a run are not recorded.
#[derive(Clone, Copy, PartialEq, Eq, Structural, Debug)]
pub enum UpdateError {
    /// The text is no TOML.
    NotToml,
    /// It has no stored ensembles.
    NoTables,
    /// It has none of that name.
    NoEnsemble,
    /// A number is no value.
    NotAValue,
}

/// Writes the numbers of a run into the table of a stored ensemble, in the place of those that
/// were recorded; gives the new text, and how many rows it records.
pub fn update_expected(
    text: &str,
    name: &str,
    rows: &Vec<ReportRow>,
    keep_probe: bool,
    keep_quiz: bool,
) -> (r: Result<(String, usize), UpdateError>)
    ensures
        ({
            let new = recorded_rows(rows@, keep_probe, keep_quiz);
            match strings_in(text@, "ensemble"@, "name"@) {
                None => r == Err::<(String, usize), UpdateError>(UpdateError::NotToml),
                Some(None) => r == Err::<(String, usize), UpdateError>(UpdateError::NoTables),
                Some(Some(names)) => {
                    let k = named_from(names, name@, 0);
                    if k >= names.len() {
                        r == Err::<(String, usize), UpdateError>(UpdateError::NoEnsemble)
                    } else {
                        match with_rows(text@, "ensemble"@, k, "expected"@, new) {
                            None => r == Err::<(String, usize), UpdateError>(
                                UpdateError::NotAValue,
                            ),
                            Some(t) => r matches Ok(p) && p.0@ == t && p.1 == new.len(),
                        }
                    }
                },
            }
        }),
{
    let names: Vec<Option<String>> = match read_strings(text, "ensemble", "name") {
        None => {
            return Err(UpdateError::NotToml);
        },
        Some(None) => {
            return Err(UpdateError::NoTables);
        },
        Some(Some(v)) => v,
    };
    let k: usize = find_named(&names, name);
    if k >= names.len() {
        return Err(UpdateError::NoEnsemble);
    }
    let new: Vec<(String, String)> = record_rows(rows, keep_probe, keep_quiz);
    proof {
        assert(pair_views(new@).len() == new.len());
    }
    match write_rows(text, "ensemble", k, "expected", &new) {
        None => Err(UpdateError::NotAValue),
        Some(t) => Ok((t, new.len())),
    }
}

/// Rows are recorded one by one, in order; what is recorded of a row alone is its name with the
/// numbers that are kept, unless it has none of them or its name is that of a sum.
pub proof fn lemma_recorded_rows(
    a: Seq<ReportRow>,
    b: Seq<ReportRow>,
    row: ReportRow,
    keep_probe: bool,
    keep_quiz: bool,
)
    ensures
        recorded_rows(a + b, keep_probe, keep_quiz) == recorded_rows(a, keep_probe, keep_quiz)
            + recorded_rows(b, keep_probe, keep_quiz),
        ({
            let one = recorded_rows(seq![row], keep_probe, keep_quiz);
            let p = keep_probe && row.probe is Some;
            let q = keep_quiz && row.quiz is Some;
            if has_text(row.name@, " + "@) || !(p || q) {
                one.len() == 0
            } else {
                &&& one.len() == 1
                &&& one[0].0 == row.name@
                &&& p && !q ==> one[0].1 == "{ probe = "@ + row.probe->Some_0@ + " }"@
                &&& q && !p ==> one[0].1 == "{ quiz = "@ + row.quiz->Some_0@ + " }"@
                &&& p && q ==> one[0].1 == "{ probe = "@ + row.probe->Some_0@ + ", quiz = "@
                    + row.quiz->Some_0@ + " }"@
            }
        }),
    decreases b.len(),
{
    reveal_with_fuel(recorded_rows, 2);
    assert(seq![row].drop_last() =~= Seq::empty());
    if b.len() == 0 {
        assert(a + b =~= a);
        assert(recorded_rows(a, keep_probe, keep_quiz) + recorded_rows(b, keep_probe, keep_quiz)
            =~= recorded_rows(a, keep_probe, keep_quiz));
    } else {
        lemma_recorded_rows(a, b.drop_last(), row, keep_probe, keep_quiz);
        assert((a + b).drop_last() =~= a + b.drop_last());
        assert((a + b).last() == b.last());
        assert(recorded_rows(a + b, keep_probe, keep_quiz) =~= recorded_rows(
            a,
            keep_probe,
            keep_quiz,
        ) + recorded_rows(b, keep_probe, keep_quiz));
    }
}

/// A table is found at the first place that has its name.
pub proof fn lemma_named_from(names: Seq<Option<Seq<char>>>, name: Seq<char>, i: int)
    requires
        0 <= i <= names.len(),
    ensures
        i <= named_from(names, name, i) <= names.len(),
        named_from(names, name, i) < names.len() ==> names[named_from(names, name, i)] == Some(
            name,
        ),
        forall|k: int| i <= k < named_from(names, name, i) ==> #[trigger] names[k] != Some(name),
    decreases names.len() - i,
{
    if i < names.len() && names[i] != Some(name) {
        lemma_named_from(names, name, i + 1);
    }
}

} // verus!
