//! The registry of prediction columns that a blend works on: the columns of its sources one after
//! the other, and the groups that name them.

use crate::groups::copy_numbers;
use crate::groups::count_groups;
use crate::groups::group_at;
use crate::groups::group_entries;
use crate::groups::group_named;
use crate::groups::lemma_place_of;
use crate::groups::lemma_put;
use crate::groups::lemma_put_named;
use crate::groups::names_differ;
use crate::groups::no_groups;
use crate::groups::place_of;
use crate::groups::put;
use crate::groups::put_group;
use crate::text::alphabetical;
use crate::text::chars_of;
use crate::text::find_char;
use crate::text::join;
use crate::text::join_spec;
use crate::text::joined;
use crate::text::joined3;
use crate::text::no_names;
use crate::text::piece;
use crate::text::push_name;
use crate::text::same;
use crate::text::sort_names;
use crate::text::starts_with;
use crate::text::strip_suffix;
use crate::text::views;
use indexmap::IndexMap;
use vstd::prelude::*;
use vstd::string::*;

verus! {

/// A column of predictions.
pub struct Column {
    pub name: String,
    /// Whether the column is clipped on its way in.
    pub clip: bool,
    /// The directory that holds it.
    pub dir: String,
    /// The split that it comes from.
    pub label: String,
}

#[verifier::ext_equal]
pub struct ColumnView {
    pub name: Seq<char>,
    pub clip: bool,
    pub dir: Seq<char>,
    pub label: Seq<char>,
}

impl View for Column {
    type V = ColumnView;

    open spec fn view(&self) -> ColumnView {
        ColumnView {
            name: self.name@,
            clip: self.clip,
            dir: self.dir@,
            label: self.label@,
        }
    }
}

/// The contents of some columns.
pub open spec fn column_views(s: Seq<Column>) -> Seq<ColumnView> {
    s.map_values(|c: Column| c@)
}

/// What one source selects: its names without doubles, whether each is clipped, and its groups by
/// the places of their names.
pub struct Selection {
    pub label: String,
    pub dir: String,
    pub names: Vec<String>,
    pub clip: Vec<bool>,
    pub group_names: Vec<String>,
    pub group_indices: Vec<Vec<usize>>,
}

impl Selection {
    /// Every name has its clip flag, every group its places, and these are places of names.
    pub open spec fn wf(self) -> bool {
        &&& self.clip.len() == self.names.len()
        &&& self.group_indices.len() == self.group_names.len()
        &&& forall|g: int, k: int|
            0 <= g < self.group_indices.len() && 0 <= k < self.group_indices[g].len()
                ==> #[trigger] self.group_indices[g][k] < self.names.len()
    }

    pub open spec fn column(self, i: int) -> ColumnView {
        ColumnView {
            name: self.names[i]@,
            clip: self.clip[i],
            dir: self.dir@,
            label: self.label@,
        }
    }

    /// The columns of the source.
    pub open spec fn columns(self) -> Seq<ColumnView> {
        Seq::new(self.names.len() as nat, |i: int| self.column(i))
    }

    /// The key of a group: under the split's label where several splits go together.
    pub open spec fn key(self, cross: bool, g: int) -> Seq<char> {
        if cross {
            self.label@ + "/"@ + self.group_names[g]@
        } else {
            self.group_names[g]@
        }
    }
}

/// Column numbers, moved up.
pub open spec fn shifted(g: Seq<usize>, by: int) -> Seq<usize> {
    Seq::new(g.len(), |k: int| (g[k] + by) as usize)
}

/// The columns of some sources, one after the other.
pub open spec fn all_columns(s: Seq<Selection>) -> Seq<ColumnView>
    decreases s.len(),
{
    if s.len() == 0 {
        Seq::empty()
    } else {
        all_columns(s.drop_last()) + s.last().columns()
    }
}

/// The groups with the first `n` groups of a source, whose columns begin at `by`, put among them.
pub open spec fn with_groups(
    e: Seq<(Seq<char>, Seq<usize>)>,
    s: Selection,
    cross: bool,
    by: int,
    n: int,
) -> Seq<(Seq<char>, Seq<usize>)>
    decreases n,
{
    if n <= 0 {
        e
    } else {
        put(
            with_groups(e, s, cross, by, n - 1),
            s.key(cross, n - 1),
            shifted(s.group_indices[n - 1]@, by),
        )
    }
}

/// The groups of some sources.
pub open spec fn all_groups(s: Seq<Selection>, cross: bool) -> Seq<(Seq<char>, Seq<usize>)>
    decreases s.len(),
{
    if s.len() == 0 {
        Seq::empty()
    } else {
        with_groups(
            all_groups(s.drop_last(), cross),
            s.last(),
            cross,
            all_columns(s.drop_last()).len() as int,
            s.last().group_names.len() as int,
        )
    }
}

/// Whether every group holds numbers of columns.
pub open spec fn groups_below(e: Seq<(Seq<char>, Seq<usize>)>, n: int) -> bool {
    forall|g: int, k: int|
        0 <= g < e.len() && 0 <= k < e[g].1.len() ==> #[trigger] e[g].1[k] < n
}

/// The columns of a blend and the groups that name them.
pub struct Registry {
    pub columns: Vec<Column>,
    pub groups: IndexMap<String, Vec<usize>>,
}

impl Registry {
    /// The groups, in order.
    pub open spec fn entries(self) -> Seq<(Seq<char>, Seq<usize>)> {
        group_entries(self.groups)
    }

    /// No two groups have the same name, and every group holds numbers of columns.
    pub open spec fn wf(self) -> bool {
        &&& names_differ(self.entries())
        &&& groups_below(self.entries(), self.columns.len() as int)
    }
}

proof fn lemma_put_below(e: Seq<(Seq<char>, Seq<usize>)>, name: Seq<char>, g: Seq<usize>, n: int)
    requires
        groups_below(e, n),
        forall|k: int| 0 <= k < g.len() ==> #[trigger] g[k] < n,
    ensures
        groups_below(put(e, name, g), n),
{
    lemma_place_of(e, name);
    let p = put(e, name, g);
    assert forall|a: int, k: int| 0 <= a < p.len() && 0 <= k < p[a].1.len() implies #[trigger] p[a].1[k]
        < n by {
        if a == place_of(e, name) {
            assert(p[a].1 == g);
        } else {
            assert(p[a] == e[a]);
        }
    }
}

fn shift(g: &Vec<usize>, by: usize, Ghost(n): Ghost<int>) -> (r: Vec<usize>)
    requires
        forall|k: int| 0 <= k < g.len() ==> #[trigger] g@[k] < n,
        n + by <= usize::MAX,
    ensures
        r@ == shifted(g@, by as int),
{
    let mut out: Vec<usize> = Vec::new();
    let mut i: usize = 0;
    while i < g.len()
        invariant
            i <= g.len(),
            n + by <= usize::MAX,
            forall|k: int| 0 <= k < g.len() ==> #[trigger] g@[k] < n,
            out@ =~= shifted(g@, by as int).take(i as int),
        decreases g.len() - i,
    {
        proof {
            assert(g@[i as int] < n);
        }
        out.push(g[i] + by);
        i += 1;
    }
    out
}

proof fn lemma_all_columns_push(s: Seq<Selection>, i: int)
    requires
        0 <= i < s.len(),
    ensures
        all_columns(s.take(i + 1)) == all_columns(s.take(i)) + s[i].columns(),
{
    assert(s.take(i + 1).drop_last() =~= s.take(i));
}

proof fn lemma_all_columns_grow(s: Seq<Selection>, i: int)
    requires
        0 <= i <= s.len(),
    ensures
        all_columns(s.take(i)).len() <= all_columns(s).len(),
    decreases s.len() - i,
{
    if i < s.len() {
        lemma_all_columns_push(s, i);
        lemma_all_columns_grow(s, i + 1);
    } else {
        assert(s.take(i) =~= s);
    }
}

fn key_of(s: &Selection, cross: bool, g: usize) -> (r: String)
    requires
        g < s.group_names.len(),
    ensures
        r@ == s.key(cross, g as int),
{
    if cross {
        joined3(s.label.as_str(), "/", s.group_names[g].as_str())
    } else {
        s.group_names[g].clone()
    }
}

fn add_source(reg: &mut Registry, s: &Selection, cross: bool)
    requires
        s.wf(),
        old(reg).wf(),
        old(reg).columns.len() + s.names.len() <= usize::MAX,
    ensures
        final(reg).wf(),
        column_views(final(reg).columns@) == column_views(old(reg).columns@) + s.columns(),
        final(reg).entries() == with_groups(
            old(reg).entries(),
            *s,
            cross,
            old(reg).columns.len() as int,
            s.group_names.len() as int,
        ),
{
    let offset: usize = reg.columns.len();
    let ghost before = column_views(reg.columns@);
    let mut i: usize = 0;
    while i < s.names.len()
        invariant
            i <= s.names.len(),
            s.wf(),
            reg.columns.len() == offset + i,
            column_views(reg.columns@) =~= before + s.columns().take(i as int),
            reg.groups == old(reg).groups,
        decreases s.names.len() - i,
    {
        let ghost prev = reg.columns@;
        let c: Column = Column {
            name: s.names[i].clone(),
            clip: s.clip[i],
            dir: s.dir.clone(),
            label: s.label.clone(),
        };
        reg.columns.push(c);
        proof {
            assert(c@ =~= s.column(i as int));
            assert(column_views(reg.columns@) =~= column_views(prev).push(c@));
            assert(s.columns().take(i + 1) =~= s.columns().take(i as int).push(
                s.column(i as int),
            ));
        }
        i += 1;
    }
    let ghost n = reg.columns.len() as int;
    let ghost start = old(reg).entries();
    let mut g: usize = 0;
    proof {
        assert forall|a: int, k: int|
            0 <= a < start.len() && 0 <= k < start[a].1.len() implies #[trigger] start[a].1[k]
            < n by {}
    }
    while g < s.group_names.len()
        invariant
            g <= s.group_names.len(),
            s.wf(),
            reg.columns.len() == n,
            n == offset + s.names.len(),
            n <= usize::MAX,
            column_views(reg.columns@) =~= before + s.columns().take(s.names.len() as int),
            names_differ(reg.entries()),
            groups_below(reg.entries(), n),
            reg.entries() == with_groups(start, *s, cross, offset as int, g as int),
        decreases s.group_names.len() - g,
    {
        proof {
            assert forall|k: int| 0 <= k < s.group_indices[g as int].len() implies (
            #[trigger] s.group_indices[g as int]@[k]) < s.names.len() by {
                assert(s.group_indices[g as int][k] < s.names.len());
            }
        }
        let key: String = key_of(s, cross, g);
        let moved: Vec<usize> = shift(&s.group_indices[g], offset, Ghost(s.names.len() as int));
        proof {
            lemma_put(reg.entries(), key@, moved@);
            assert forall|k: int| 0 <= k < moved@.len() implies #[trigger] moved@[k] < n by {
                assert(s.group_indices[g as int]@[k] < s.names.len());
            }
            lemma_put_below(reg.entries(), key@, moved@, n);
        }
        put_group(&mut reg.groups, key, moved);
        g += 1;
    }
    proof {
        assert(s.columns().take(s.names.len() as int) =~= s.columns());
    }
}

/// Joins what the sources select: their columns one after the other, and their groups, under the
/// split's label where several splits go together.
pub fn build_registry(sources: &Vec<Selection>, cross: bool) -> (r: Registry)
    requires
        forall|i: int| 0 <= i < sources.len() ==> (#[trigger] sources[i]).wf(),
        all_columns(sources@).len() <= usize::MAX,
    ensures
        r.wf(),
        column_views(r.columns@) == all_columns(sources@),
        r.entries() == all_groups(sources@, cross),
{
    let mut reg: Registry = Registry { columns: Vec::new(), groups: no_groups() };
    let mut i: usize = 0;
    proof {
        assert(column_views(reg.columns@) =~= Seq::<ColumnView>::empty());
        assert(sources@.take(0) =~= Seq::<Selection>::empty());
    }
    while i < sources.len()
        invariant
            i <= sources.len(),
            forall|k: int| 0 <= k < sources.len() ==> (#[trigger] sources[k]).wf(),
            all_columns(sources@).len() <= usize::MAX,
            reg.wf(),
            column_views(reg.columns@) == all_columns(sources@.take(i as int)),
            reg.entries() == all_groups(sources@.take(i as int), cross),
        decreases sources.len() - i,
    {
        proof {
            lemma_all_columns_push(sources@, i as int);
            lemma_all_columns_grow(sources@, i + 1);
            assert(sources@.take(i + 1).drop_last() =~= sources@.take(i as int));
            assert(sources@.take(i + 1).last() == sources@[i as int]);
            assert(column_views(reg.columns@).len() == reg.columns.len());
            assert(sources[i as int].wf());
        }
        add_source(&mut reg, &sources[i], cross);
        i += 1;
    }
    proof {
        assert(sources@.take(sources.len() as int) =~= sources@);
    }
    reg
}

// ---------------------------------------------------------------------------
// Columns that are not clipped
// ---------------------------------------------------------------------------

/// How many of the first `i` columns are clipped: the number that the `i`-th has among them.
pub open spec fn clipped_before(c: Seq<ColumnView>, i: int) -> int
    decreases i,
{
    if i <= 0 {
        0
    } else if c[i - 1].clip {
        clipped_before(c, i - 1) + 1
    } else {
        clipped_before(c, i - 1)
    }
}

/// The columns that are clipped.
pub open spec fn clipped_columns(c: Seq<ColumnView>) -> Seq<ColumnView>
    decreases c.len(),
{
    if c.len() == 0 {
        Seq::empty()
    } else if c.last().clip {
        clipped_columns(c.drop_last()).push(c.last())
    } else {
        clipped_columns(c.drop_last())
    }
}

/// The names of the columns that are not clipped.
pub open spec fn unclipped_names(c: Seq<ColumnView>) -> Seq<Seq<char>>
    decreases c.len(),
{
    if c.len() == 0 {
        Seq::empty()
    } else if c.last().clip {
        unclipped_names(c.drop_last())
    } else {
        unclipped_names(c.drop_last()).push(c.last().name)
    }
}

/// The clipped columns of a group, by the numbers that they have among the clipped ones.
pub open spec fn clipped_group(c: Seq<ColumnView>, g: Seq<usize>) -> Seq<usize>
    decreases g.len(),
{
    if g.len() == 0 {
        Seq::empty()
    } else if c[g.last() as int].clip {
        clipped_group(c, g.drop_last()).push(clipped_before(c, g.last() as int) as usize)
    } else {
        clipped_group(c, g.drop_last())
    }
}

/// The groups with their clipped columns, without those that have none.
pub open spec fn clipped_groups(
    c: Seq<ColumnView>,
    e: Seq<(Seq<char>, Seq<usize>)>,
) -> Seq<(Seq<char>, Seq<usize>)>
    decreases e.len(),
{
    if e.len() == 0 {
        Seq::empty()
    } else if clipped_group(c, e.last().1).len() == 0 {
        clipped_groups(c, e.drop_last())
    } else {
        clipped_groups(c, e.drop_last()).push((e.last().0, clipped_group(c, e.last().1)))
    }
}

/// Whether every column is clipped.
pub open spec fn all_clipped(c: Seq<ColumnView>) -> bool {
    forall|i: int| 0 <= i < c.len() ==> (#[trigger] c[i]).clip
}

proof fn lemma_clipped_before(c: Seq<ColumnView>, i: int)
    requires
        0 <= i <= c.len(),
    ensures
        0 <= clipped_before(c, i) <= i,
        clipped_before(c, i) == clipped_columns(c.take(i)).len(),
    decreases i,
{
    if i > 0 {
        lemma_clipped_before(c, i - 1);
        assert(c.take(i).drop_last() =~= c.take(i - 1));
    } else {
        assert(c.take(0) =~= Seq::<ColumnView>::empty());
    }
}

/// A clipped column is found among the clipped ones under the number that it has there.
pub proof fn lemma_clipped_columns_found(c: Seq<ColumnView>, i: int)
    requires
        0 <= i < c.len(),
        c[i].clip,
    ensures
        0 <= clipped_before(c, i) < clipped_columns(c).len(),
        clipped_columns(c)[clipped_before(c, i)] == c[i],
    decreases c.len(),
{
    let n = c.len() as int;
    assert(c.take(n) =~= c);
    lemma_clipped_before(c, i);
    if i == n - 1 {
        assert(c.drop_last() =~= c.take(i));
    } else {
        lemma_clipped_columns_found(c.drop_last(), i);
        lemma_before_prefix(c, i);
    }
}

proof fn lemma_before_prefix(c: Seq<ColumnView>, i: int)
    requires
        0 <= i < c.len(),
    ensures
        clipped_before(c.drop_last(), i) == clipped_before(c, i),
    decreases i,
{
    if i > 0 {
        lemma_before_prefix(c, i - 1);
    }
}

/// The numbers that a group holds after the unclipped columns are gone are numbers of columns.
proof fn lemma_clipped_group_below(c: Seq<ColumnView>, g: Seq<usize>)
    requires
        forall|k: int| 0 <= k < g.len() ==> #[trigger] g[k] < c.len(),
        c.len() <= usize::MAX,
    ensures
        forall|k: int|
            0 <= k < clipped_group(c, g).len() ==> #[trigger] clipped_group(c, g)[k]
                < clipped_columns(c).len(),
    decreases g.len(),
{
    if g.len() > 0 {
        let h = g.drop_last();
        assert forall|k: int| 0 <= k < h.len() implies #[trigger] h[k] < c.len() by {
            assert(h[k] == g[k]);
        }
        lemma_clipped_group_below(c, h);
        assert(g[g.len() - 1] < c.len());
        let p = clipped_group(c, g);
        let q = clipped_group(c, h);
        if c[g.last() as int].clip {
            lemma_clipped_columns_found(c, g.last() as int);
            lemma_clipped_before(c, g.last() as int);
        }
        assert forall|k: int| 0 <= k < p.len() implies #[trigger] p[k] < clipped_columns(c).len() by {
            if k < q.len() {
                assert(p[k] == q[k]);
            }
        }
    }
}

/// A group keeps its clipped columns, in its order: what it names among the clipped columns is
/// what it named among all of them.
pub proof fn lemma_clipped_group_names(c: Seq<ColumnView>, g: Seq<usize>)
    requires
        forall|k: int| 0 <= k < g.len() ==> #[trigger] g[k] < c.len(),
        c.len() <= usize::MAX,
    ensures
        clipped_group(c, g).map_values(|k: usize| clipped_columns(c)[k as int]) == clipped_columns(
            g.map_values(|k: usize| c[k as int]),
        ),
    decreases g.len(),
{
    let named = g.map_values(|k: usize| c[k as int]);
    let kept = clipped_group(c, g).map_values(|k: usize| clipped_columns(c)[k as int]);
    if g.len() > 0 {
        let h = g.drop_last();
        assert forall|k: int| 0 <= k < h.len() implies #[trigger] h[k] < c.len() by {
            assert(h[k] == g[k]);
        }
        lemma_clipped_group_names(c, h);
        assert(named.drop_last() =~= h.map_values(|k: usize| c[k as int]));
        assert(g[g.len() - 1] < c.len());
        if c[g.last() as int].clip {
            lemma_clipped_columns_found(c, g.last() as int);
            lemma_clipped_before(c, g.last() as int);
            assert(kept =~= clipped_group(c, h).map_values(
                |k: usize| clipped_columns(c)[k as int],
            ).push(c[g.last() as int]));
        }
    } else {
        assert(kept =~= clipped_columns(named));
    }
}

fn remapped(c: &Vec<Column>, g: &Vec<usize>, map: &Vec<usize>) -> (r: Vec<usize>)
    requires
        forall|k: int| 0 <= k < g.len() ==> #[trigger] g@[k] < c.len(),
        map.len() == c.len(),
        forall|k: int|
            0 <= k < map.len() ==> #[trigger] map@[k] == clipped_before(column_views(c@), k),
    ensures
        r@ == clipped_group(column_views(c@), g@),
{
    let mut out: Vec<usize> = Vec::new();
    let mut i: usize = 0;
    proof {
        assert(g@.take(0) =~= Seq::<usize>::empty());
    }
    while i < g.len()
        invariant
            i <= g.len(),
            forall|k: int| 0 <= k < g.len() ==> #[trigger] g@[k] < c.len(),
            map.len() == c.len(),
            forall|k: int|
                0 <= k < map.len() ==> #[trigger] map@[k] == clipped_before(column_views(c@), k),
            out@ == clipped_group(column_views(c@), g@.take(i as int)),
        decreases g.len() - i,
    {
        proof {
            assert(g@.take(i + 1).drop_last() =~= g@.take(i as int));
            assert(g@.take(i + 1).last() == g@[i as int]);
            assert(g@[i as int] < c.len());
            assert(column_views(c@)[g@[i as int] as int] == c@[g@[i as int] as int]@);
        }
        let j: usize = g[i];
        if c[j].clip {
            proof {
                assert(map@[j as int] == clipped_before(column_views(c@), j as int));
            }
            out.push(map[j]);
        }
        i += 1;
    }
    proof {
        assert(g@.take(g.len() as int) =~= g@);
    }
    out
}

proof fn lemma_clipped_groups_names(
    c: Seq<ColumnView>,
    e: Seq<(Seq<char>, Seq<usize>)>,
    name: Seq<char>,
)
    requires
        forall|k: int| 0 <= k < e.len() ==> (#[trigger] e[k]).0 != name,
    ensures
        forall|k: int|
            0 <= k < clipped_groups(c, e).len() ==> (#[trigger] clipped_groups(c, e)[k]).0 != name,
    decreases e.len(),
{
    if e.len() > 0 {
        let h = e.drop_last();
        assert forall|k: int| 0 <= k < h.len() implies (#[trigger] h[k]).0 != name by {
            assert(h[k] == e[k]);
        }
        lemma_clipped_groups_names(c, h, name);
        assert(e[e.len() - 1].0 != name);
        let p = clipped_groups(c, e);
        let q = clipped_groups(c, h);
        assert forall|k: int| 0 <= k < p.len() implies (#[trigger] p[k]).0 != name by {
            if k < q.len() {
                assert(p[k] == q[k]);
            }
        }
    }
}

proof fn lemma_clipped_groups_wf(c: Seq<ColumnView>, e: Seq<(Seq<char>, Seq<usize>)>)
    requires
        names_differ(e),
        groups_below(e, c.len() as int),
        c.len() <= usize::MAX,
    ensures
        names_differ(clipped_groups(c, e)),
        groups_below(clipped_groups(c, e), clipped_columns(c).len() as int),
    decreases e.len(),
{
    if e.len() > 0 {
        let h = e.drop_last();
        let last = e[e.len() - 1];
        assert(names_differ(h)) by {
            assert forall|i: int, j: int| 0 <= i < j < h.len() implies (#[trigger] h[i]).0 != (
            #[trigger] h[j]).0 by {
                assert(h[i] == e[i] && h[j] == e[j]);
            }
        }
        assert(groups_below(h, c.len() as int)) by {
            assert forall|a: int, k: int|
                0 <= a < h.len() && 0 <= k < h[a].1.len() implies #[trigger] h[a].1[k] < c.len() by {
                assert(e[a].1[k] < c.len());
            }
        }
        lemma_clipped_groups_wf(c, h);
        assert forall|k: int| 0 <= k < h.len() implies (#[trigger] h[k]).0 != last.0 by {
            assert(h[k] == e[k]);
        }
        lemma_clipped_groups_names(c, h, last.0);
        assert forall|k: int| 0 <= k < last.1.len() implies #[trigger] last.1[k] < c.len() by {
            assert(e[e.len() - 1].1[k] < c.len());
        }
        lemma_clipped_group_below(c, last.1);
        let p = clipped_groups(c, e);
        let q = clipped_groups(c, h);
        assert forall|a: int, k: int| 0 <= a < p.len() && 0 <= k < p[a].1.len() implies #[trigger] p[a].1[k]
            < clipped_columns(c).len() by {
            if a < q.len() {
                assert(p[a] == q[a]);
                assert(q[a].1[k] < clipped_columns(c).len());
            } else {
                assert(p[a].1 == clipped_group(c, last.1));
            }
        }
        assert forall|i: int, j: int| 0 <= i < j < p.len() implies (#[trigger] p[i]).0 != (
        #[trigger] p[j]).0 by {
            assert(p[i] == q[i]);
            if j < q.len() {
                assert(p[j] == q[j]);
            }
        }
    }
}

/// What is left of a registry's columns when those that are not clipped are gone.
pub open spec fn left_columns(c: Seq<ColumnView>) -> Seq<ColumnView> {
    if all_clipped(c) {
        c
    } else {
        clipped_columns(c)
    }
}

/// What is left of a registry's groups when the columns that are not clipped are gone.
pub open spec fn left_groups(
    c: Seq<ColumnView>,
    e: Seq<(Seq<char>, Seq<usize>)>,
) -> Seq<(Seq<char>, Seq<usize>)> {
    if all_clipped(c) {
        e
    } else {
        clipped_groups(c, e)
    }
}

fn every_clipped(c: &Vec<Column>) -> (r: bool)
    ensures
        r == all_clipped(column_views(c@)),
{
    let mut i: usize = 0;
    while i < c.len()
        invariant
            i <= c.len(),
            forall|k: int| 0 <= k < i ==> (#[trigger] column_views(c@)[k]).clip,
        decreases c.len() - i,
    {
        if !c[i].clip {
            proof {
                assert(!column_views(c@)[i as int].clip);
            }
            return false;
        }
        i += 1;
    }
    true
}

proof fn lemma_unclipped_all(c: Seq<ColumnView>)
    requires
        all_clipped(c),
    ensures
        unclipped_names(c) == Seq::<Seq<char>>::empty(),
    decreases c.len(),
{
    if c.len() > 0 {
        assert(c[c.len() - 1].clip);
        assert forall|i: int| 0 <= i < c.drop_last().len() implies (
        #[trigger] c.drop_last()[i]).clip by {
            assert(c[i].clip);
        }
        lemma_unclipped_all(c.drop_last());
    }
}

/// Drops the columns that are not clipped, numbers the groups anew and drops those that become
/// empty. Hands back the registry and the names of the dropped columns, in order.
pub fn drop_noclip(reg: Registry) -> (r: (Registry, Vec<String>))
    requires
        reg.wf(),
    ensures
        r.0.wf(),
        column_views(r.0.columns@) == left_columns(column_views(reg.columns@)),
        r.0.entries() == left_groups(column_views(reg.columns@), reg.entries()),
        views(r.1@) == unclipped_names(column_views(reg.columns@)),
{
    let ghost c = column_views(reg.columns@);
    let ghost e = reg.entries();
    if every_clipped(&reg.columns) {
        proof {
            lemma_unclipped_all(c);
        }
        return (reg, no_names());
    }
    let columns: Vec<Column> = reg.columns;
    let groups: IndexMap<String, Vec<usize>> = reg.groups;
    proof {
        assert(columns.len() <= usize::MAX);
        assert(c.len() == columns.len());
    }
    let mut kept: Vec<Column> = Vec::new();
    let mut dropped: Vec<String> = no_names();
    let mut map: Vec<usize> = Vec::new();
    let mut i: usize = 0;
    proof {
        assert(c.take(0) =~= Seq::<ColumnView>::empty());
        assert(column_views(kept@) =~= Seq::<ColumnView>::empty());
    }
    while i < columns.len()
        invariant
            i <= columns.len(),
            c == column_views(columns@),
            map.len() == i,
            forall|k: int| 0 <= k < i ==> #[trigger] map@[k] == clipped_before(c, k),
            kept.len() == clipped_before(c, i as int),
            column_views(kept@) == clipped_columns(c.take(i as int)),
            views(dropped@) == unclipped_names(c.take(i as int)),
        decreases columns.len() - i,
    {
        proof {
            assert(c.take(i + 1).drop_last() =~= c.take(i as int));
            assert(c.take(i + 1).last() == c[i as int]);
            assert(c[i as int] == columns@[i as int]@);
        }
        map.push(kept.len());
        let ghost before = kept@;
        if columns[i].clip {
            let x: &Column = &columns[i];
            let y: Column = Column {
                name: x.name.clone(),
                clip: x.clip,
                dir: x.dir.clone(),
                label: x.label.clone(),
            };
            kept.push(y);
            proof {
                assert(y@ =~= c[i as int]);
                assert(column_views(kept@) =~= column_views(before).push(y@));
            }
        } else {
            push_name(&mut dropped, &columns[i].name);
        }
        i += 1;
    }
    proof {
        assert(c.take(c.len() as int) =~= c);
        assert(e.take(0) =~= Seq::<(Seq<char>, Seq<usize>)>::empty());
    }
    let mut left: IndexMap<String, Vec<usize>> = no_groups();
    let n: usize = count_groups(&groups);
    let mut g: usize = 0;
    while g < n
        invariant
            g <= n,
            n == e.len(),
            e == group_entries(groups),
            names_differ(e),
            groups_below(e, c.len() as int),
            c == column_views(columns@),
            map.len() == columns.len(),
            forall|k: int| 0 <= k < map.len() ==> #[trigger] map@[k] == clipped_before(c, k),
            group_entries(left) == clipped_groups(c, e.take(g as int)),
        decreases n - g,
    {
        match group_at(&groups, g) {
            Some((name, group)) => {
                proof {
                    assert(e.take(g + 1).drop_last() =~= e.take(g as int));
                    assert(e.take(g + 1).last() == e[g as int]);
                    assert forall|k: int| 0 <= k < group.len() implies #[trigger] group@[k]
                        < columns.len() by {
                        assert(e[g as int].1[k] < c.len());
                    }
                    assert forall|k: int| 0 <= k < e.take(g as int).len() implies (
                    #[trigger] e.take(g as int)[k]).0 != name@ by {
                        assert(e.take(g as int)[k] == e[k]);
                        assert(e[g as int].0 == name@);
                    }
                    lemma_clipped_groups_names(c, e.take(g as int), name@);
                    lemma_place_of(clipped_groups(c, e.take(g as int)), name@);
                }
                let fresh: Vec<usize> = remapped(&columns, group, &map);
                if fresh.len() > 0 {
                    put_group(&mut left, name.clone(), fresh);
                }
            },
            None => {},
        }
        g += 1;
    }
    proof {
        assert(e.take(e.len() as int) =~= e);
        lemma_clipped_groups_wf(c, e);
        assert(kept.len() == column_views(kept@).len());
    }
    (Registry { columns: kept, groups: left }, dropped)
}

// ---------------------------------------------------------------------------
// Columns on top
// ---------------------------------------------------------------------------

/// A text without the marks at its beginning that say that a column is not clipped.
pub open spec fn unmarked(s: Seq<char>) -> Seq<char>
    decreases s.len(),
{
    if s.len() > 0 && s[0] == '>' {
        unmarked(s.skip(1))
    } else {
        s
    }
}

/// Whether a text says that its column is not clipped.
pub open spec fn marked(s: Seq<char>) -> bool {
    s.len() > 0 && s[0] == '>'
}

/// Takes the marks off.
pub fn strip_marks(s: &str) -> (r: String)
    ensures
        r@ == unmarked(s@),
{
    let v: Vec<char> = chars_of(s);
    let mut i: usize = 0;
    proof {
        assert(v@.skip(0) =~= v@);
    }
    while i < v.len() && v[i] == '>'
        invariant
            i <= v.len(),
            unmarked(v@.skip(i as int)) == unmarked(v@),
        decreases v.len() - i,
    {
        proof {
            assert(v@.skip(i as int).skip(1) =~= v@.skip(i + 1));
            assert(v@.skip(i as int)[0] == v@[i as int]);
        }
        i += 1;
    }
    proof {
        if i < v.len() {
            assert(v@.skip(i as int)[0] == v@[i as int]);
        }
        assert(v@.subrange(i as int, v.len() as int) =~= v@.skip(i as int));
    }
    piece(&v, i, v.len())
}

/// Whether a column is not clipped.
pub fn is_marked(s: &str) -> (r: bool)
    ensures
        r == marked(s@),
{
    let v: Vec<char> = chars_of(s);
    v.len() > 0 && v[0] == '>'
}

/// The columns with some more on top, each from the directory and the split of the last one.
pub open spec fn with_extras(c: Seq<ColumnView>, extras: Seq<Seq<char>>) -> Seq<ColumnView>
    decreases extras.len(),
{
    if extras.len() == 0 {
        c
    } else {
        let before = with_extras(c, extras.drop_last());
        before.push(
            ColumnView {
                name: unmarked(extras.last()),
                clip: !marked(extras.last()),
                dir: if before.len() > 0 {
                    before.last().dir
                } else {
                    Seq::empty()
                },
                label: if before.len() > 0 {
                    before.last().label
                } else {
                    Seq::empty()
                },
            },
        )
    }
}

/// The place of the first of some columns that is not clipped, or their number.
pub open spec fn first_marked(extras: Seq<Seq<char>>, i: int) -> int
    decreases extras.len() - i,
{
    if i < 0 || i >= extras.len() {
        extras.len() as int
    } else if marked(extras[i]) {
        i
    } else {
        first_marked(extras, i + 1)
    }
}

/// Adds columns on top. A blend that is fitted to the qualifying set takes none that is not
/// clipped: the place of the first such one is handed back then.
pub fn add_extras(reg: Registry, extras: &Vec<String>, quiz_blend: bool) -> (r: Result<
    Registry,
    usize,
>)
    requires
        reg.wf(),
        reg.columns.len() + extras.len() <= usize::MAX,
    ensures
        match r {
            Ok(out) => {
                &&& quiz_blend ==> first_marked(views(extras@), 0) == extras.len()
                &&& column_views(out.columns@) == with_extras(
                    column_views(reg.columns@),
                    views(extras@),
                )
                &&& out.groups == reg.groups
                &&& out.wf()
            },
            Err(k) => quiz_blend && k < extras.len() && k == first_marked(views(extras@), 0),
        },
{
    let mut out: Registry = reg;
    let ghost c = column_views(out.columns@);
    let ghost x = views(extras@);
    proof {
        assert(x.take(0) =~= Seq::<Seq<char>>::empty());
        reveal_strlit("");
        assert(""@ =~= Seq::<char>::empty());
    }
    let mut i: usize = 0;
    while i < extras.len()
        invariant
            i <= extras.len(),
            x == views(extras@),
            out.columns.len() == reg.columns.len() + i,
            reg.columns.len() + extras.len() <= usize::MAX,
            out.groups == reg.groups,
            names_differ(out.entries()),
            groups_below(out.entries(), reg.columns.len() as int),
            column_views(out.columns@) == with_extras(c, x.take(i as int)),
            quiz_blend ==> first_marked(x, 0) == first_marked(x, i as int),
            ""@ == Seq::<char>::empty(),
        decreases extras.len() - i,
    {
        let spec: &String = &extras[i];
        let no_clip: bool = is_marked(spec.as_str());
        proof {
            assert(x[i as int] == extras@[i as int]@);
            assert(x.take(i + 1).drop_last() =~= x.take(i as int));
            assert(x.take(i + 1).last() == x[i as int]);
        }
        if no_clip && quiz_blend {
            return Err(i);
        }
        let n: usize = out.columns.len();
        let dir: String = if n > 0 {
            out.columns[n - 1].dir.clone()
        } else {
            "".to_string()
        };
        let label: String = if n > 0 {
            out.columns[n - 1].label.clone()
        } else {
            "".to_string()
        };
        let column: Column = Column { name: strip_marks(spec.as_str()), clip: !no_clip, dir, label };
        let ghost before = out.columns@;
        out.columns.push(column);
        proof {
            assert(column_views(out.columns@) =~= column_views(before).push(column@));
            if n > 0 {
                assert(column_views(before).last() == before[n - 1]@);
            }
            assert(with_extras(c, x.take(i + 1)) =~= column_views(before).push(column@));
        }
        i += 1;
    }
    proof {
        assert(x.take(x.len() as int) =~= x);
        let e = out.entries();
        assert forall|g: int, k: int|
            0 <= g < e.len() && 0 <= k < e[g].1.len() implies #[trigger] e[g].1[k]
            < out.columns.len() by {}
    }
    Ok(out)
}

/// Columns on top leave the columns of the reference as they are: these stay the first ones.
pub proof fn lemma_extras_on_top(c: Seq<ColumnView>, extras: Seq<Seq<char>>)
    ensures
        with_extras(c, extras).len() == c.len() + extras.len(),
        with_extras(c, extras).take(c.len() as int) == c,
    decreases extras.len(),
{
    if extras.len() > 0 {
        lemma_extras_on_top(c, extras.drop_last());
        assert(with_extras(c, extras).take(c.len() as int) =~= with_extras(
            c,
            extras.drop_last(),
        ).take(c.len() as int));
    } else {
        assert(c.take(c.len() as int) =~= c);
    }
}

// ---------------------------------------------------------------------------
// Names and files
// ---------------------------------------------------------------------------

/// The name under which a column is reported: with its split, where several splits go together
/// and the column does not name its own directory.
pub open spec fn shown_name(c: ColumnView, cross: bool) -> Seq<char> {
    if cross && !c.name.contains('/') {
        c.label + "/"@ + c.name
    } else {
        c.name
    }
}

fn has_slash(s: &str) -> (r: bool)
    ensures
        r == s@.contains('/'),
{
    let v: Vec<char> = chars_of(s);
    let k: usize = find_char(&v, '/', 0);
    proof {
        crate::text::lemma_first_char(v@, '/', 0);
        if k < v.len() {
            assert(v@[k as int] == '/');
        } else if v@.contains('/') {
            let j = v@.index_of('/');
            assert(v@[j] == '/');
        }
    }
    k < v.len()
}

/// The names under which the columns are reported.
pub fn display_names(columns: &Vec<Column>, cross: bool) -> (r: Vec<String>)
    ensures
        views(r@) == column_views(columns@).map_values(|c: ColumnView| shown_name(c, cross)),
{
    let ghost want = column_views(columns@).map_values(|c: ColumnView| shown_name(c, cross));
    let mut out: Vec<String> = no_names();
    let mut i: usize = 0;
    while i < columns.len()
        invariant
            i <= columns.len(),
            want == column_views(columns@).map_values(|c: ColumnView| shown_name(c, cross)),
            views(out@) =~= want.take(i as int),
        decreases columns.len() - i,
    {
        let c: &Column = &columns[i];
        let name: String = if cross && !has_slash(c.name.as_str()) {
            joined3(c.label.as_str(), "/", c.name.as_str())
        } else {
            c.name.clone()
        };
        push_name(&mut out, &name);
        proof {
            assert(want.take(i + 1) =~= want.take(i as int).push(want[i as int]));
        }
        i += 1;
    }
    proof {
        assert(want.take(want.len() as int) =~= want);
    }
    out
}

/// The file of a column's predictions for a dataset: in the directory that it names, or in its
/// own.
pub open spec fn column_file(c: ColumnView, dataset: Seq<char>) -> Seq<char> {
    (if c.name.contains('/') {
        c.name
    } else {
        c.dir + "/"@ + c.name
    }) + "."@ + dataset + ".npy"@
}

/// The file of a column's predictions for a dataset.
pub fn preds_path(c: &Column, dataset: &str) -> (r: String)
    ensures
        r@ == column_file(c@, dataset@),
{
    let stem: String = if has_slash(c.name.as_str()) {
        c.name.clone()
    } else {
        joined3(c.dir.as_str(), "/", c.name.as_str())
    };
    let a: String = joined3(stem.as_str(), ".", dataset);
    joined(a.as_str(), ".npy")
}

/// The files of the columns for a dataset.
pub open spec fn column_files(c: Seq<ColumnView>, dataset: Seq<char>) -> Seq<Seq<char>> {
    c.map_values(|x: ColumnView| column_file(x, dataset))
}

/// The files that a run needs: those of the columns for the first dataset, then for the next.
pub open spec fn needed_files(c: Seq<ColumnView>, datasets: Seq<Seq<char>>) -> Seq<Seq<char>>
    decreases datasets.len(),
{
    if datasets.len() == 0 {
        Seq::empty()
    } else {
        needed_files(c, datasets.drop_last()) + column_files(c, datasets.last())
    }
}

/// Lists the files that a run needs.
pub fn list_files(columns: &Vec<Column>, datasets: &Vec<String>) -> (r: Vec<String>)
    ensures
        views(r@) == needed_files(column_views(columns@), views(datasets@)),
{
    let ghost c = column_views(columns@);
    let ghost ds = views(datasets@);
    let mut out: Vec<String> = no_names();
    let mut d: usize = 0;
    proof {
        assert(ds.take(0) =~= Seq::<Seq<char>>::empty());
    }
    while d < datasets.len()
        invariant
            d <= datasets.len(),
            c == column_views(columns@),
            ds == views(datasets@),
            views(out@) == needed_files(c, ds.take(d as int)),
        decreases datasets.len() - d,
    {
        let ghost before = views(out@);
        let ghost files = column_files(c, ds[d as int]);
        let mut i: usize = 0;
        proof {
            assert(before + files.take(0) =~= before);
            assert(ds[d as int] == datasets@[d as int]@);
        }
        while i < columns.len()
            invariant
                i <= columns.len(),
                d < datasets.len(),
                c == column_views(columns@),
                ds == views(datasets@),
                ds[d as int] == datasets@[d as int]@,
                files == column_files(c, ds[d as int]),
                views(out@) == before + files.take(i as int),
            decreases columns.len() - i,
        {
            let path: String = preds_path(&columns[i], datasets[d].as_str());
            push_name(&mut out, &path);
            proof {
                assert(files[i as int] == path@);
                assert(before + files.take(i + 1) =~= (before + files.take(i as int)).push(path@));
            }
            i += 1;
        }
        proof {
            assert(files.take(files.len() as int) =~= files);
            assert(ds.take(d + 1).drop_last() =~= ds.take(d as int));
            assert(ds.take(d + 1).last() == ds[d as int]);
        }
        d += 1;
    }
    proof {
        assert(ds.take(ds.len() as int) =~= ds);
    }
    out
}

/// The numbers of the files that are not there.
pub open spec fn absent(present: Seq<bool>) -> Seq<usize>
    decreases present.len(),
{
    if present.len() == 0 {
        Seq::empty()
    } else if present.last() {
        absent(present.drop_last())
    } else {
        absent(present.drop_last()).push((present.len() - 1) as usize)
    }
}

/// Lists the needed files that are not there, by their numbers in the list of needed ones: the
/// number of the column is what is left after whole datasets.
pub fn missing_columns(present: &Vec<bool>) -> (r: Vec<usize>)
    ensures
        r@ == absent(present@),
{
    let mut out: Vec<usize> = Vec::new();
    let mut i: usize = 0;
    proof {
        assert(present@.take(0) =~= Seq::<bool>::empty());
    }
    while i < present.len()
        invariant
            i <= present.len(),
            out@ == absent(present@.take(i as int)),
        decreases present.len() - i,
    {
        proof {
            assert(present@.take(i + 1).drop_last() =~= present@.take(i as int));
        }
        if !present[i] {
            out.push(i);
        }
        i += 1;
    }
    proof {
        assert(present@.take(present.len() as int) =~= present@);
    }
    out
}

/// The missing files are those that are not there, each once and in order.
pub proof fn lemma_absent(present: Seq<bool>)
    requires
        present.len() <= usize::MAX,
    ensures
        forall|k: int|
            0 <= k < absent(present).len() ==> (#[trigger] absent(present)[k]) < present.len()
                && !present[absent(present)[k] as int],
        forall|k: int, l: int|
            0 <= k < l < absent(present).len() ==> #[trigger] absent(present)[k]
                < #[trigger] absent(present)[l],
        forall|i: int|
            0 <= i < present.len() && !#[trigger] present[i] ==> absent(present).contains(
                i as usize,
            ),
    decreases present.len(),
{
    if present.len() > 0 {
        let h = present.drop_last();
        lemma_absent(h);
        let a = absent(present);
        let b = absent(h);
        assert forall|k: int| 0 <= k < a.len() implies (#[trigger] a[k]) < present.len()
            && !present[a[k] as int] by {
            if k < b.len() {
                assert(a[k] == b[k]);
                assert(h[b[k] as int] == present[b[k] as int]);
            }
        }
        assert forall|i: int| 0 <= i < present.len() && !#[trigger] present[i] implies a.contains(
            i as usize,
        ) by {
            if i < h.len() {
                assert(!h[i]);
                assert(b.contains(i as usize));
                let k = b.index_of(i as usize);
                assert(a[k] == i as usize);
            } else {
                assert(a[a.len() - 1] == i as usize);
            }
        }
    }
}

/// Whether every missing file is of a column that bears the name of one on top of the first
/// `ref_m`, where `shown` are the names of the columns.
pub fn added_only(missing: &Vec<usize>, shown: &Vec<String>, ref_m: usize) -> (r: bool)
    requires
        shown.len() > 0,
        ref_m <= shown.len(),
    ensures
        r == (forall|k: int|
            0 <= k < missing.len() ==> views(shown@).skip(ref_m as int).contains(
                views(shown@)[(#[trigger] missing@[k]) as int % shown.len() as int],
            )),
{
    let ghost names = views(shown@);
    let ghost added = names.skip(ref_m as int);
    let m: usize = shown.len();
    let mut i: usize = 0;
    while i < missing.len()
        invariant
            i <= missing.len(),
            m == shown.len(),
            m > 0,
            ref_m <= m,
            names == views(shown@),
            added == names.skip(ref_m as int),
            forall|k: int|
                0 <= k < i ==> added.contains(names[(#[trigger] missing@[k]) as int % m as int]),
        decreases missing.len() - i,
    {
        let c: usize = missing[i] % m;
        let ghost name = names[c as int];
        assert(name == shown@[c as int]@);
        let mut j: usize = ref_m;
        while j < m && !same(shown[j].as_str(), shown[c].as_str())
            invariant
                ref_m <= j <= m,
                c < m,
                m == shown.len(),
                names == views(shown@),
                name == names[c as int],
                name == shown@[c as int]@,
                forall|k: int| ref_m <= k < j ==> #[trigger] names[k] != name,
            decreases m - j,
        {
            assert(names[j as int] == shown@[j as int]@);
            j += 1;
        }
        if j == m {
            proof {
                assert forall|k: int| 0 <= k < added.len() implies added[k] != name by {
                    assert(added[k] == names[ref_m + k]);
                }
                assert(!added.contains(names[missing@[i as int] as int % m as int]));
            }
            return false;
        }
        proof {
            assert(names[j as int] == shown@[j as int]@);
            assert(added[j - ref_m] == name);
        }
        i += 1;
    }
    true
}

// ---------------------------------------------------------------------------
// Rows of the report
// ---------------------------------------------------------------------------

/// A fit to make: its name in the report and the columns it is over.
pub struct FitRow {
    pub name: String,
    pub columns: Vec<usize>,
}

/// The first `n` column numbers.
pub open spec fn first_columns(n: int) -> Seq<usize> {
    Seq::new(n as nat, |i: int| i as usize)
}

fn numbers_below(n: usize) -> (r: Vec<usize>)
    ensures
        r@ == first_columns(n as int),
{
    let mut out: Vec<usize> = Vec::new();
    let mut i: usize = 0;
    while i < n
        invariant
            i <= n,
            out@ =~= first_columns(i as int),
        decreases n - i,
    {
        out.push(i);
        i += 1;
    }
    out
}

/// The fits, as name and columns.
pub open spec fn row_views(s: Seq<FitRow>) -> Seq<(Seq<char>, Seq<usize>)> {
    s.map_values(|x: FitRow| (x.name@, x.columns@))
}

/// The fits of a blend: one for each group; then for a stored ensemble the reference, over the
/// first `ref_m` columns, and with columns on top the same with them; else one over everything,
/// where there is more than one group.
pub open spec fn fit_rows(
    e: Seq<(Seq<char>, Seq<usize>)>,
    ensemble: bool,
    ref_m: int,
    shown: Seq<Seq<char>>,
) -> Seq<(Seq<char>, Seq<usize>)> {
    let m = shown.len() as int;
    if ensemble {
        let with_reference = e.push(("ensemble"@, first_columns(ref_m)));
        if m > ref_m {
            with_reference.push(
                ("ensemble + "@ + join_spec(shown.skip(ref_m), ", "@), first_columns(m)),
            )
        } else {
            with_reference
        }
    } else if e.len() > 1 {
        e.push(("all*"@, first_columns(m)))
    } else {
        e
    }
}

fn push_row(rows: &mut Vec<FitRow>, name: String, columns: Vec<usize>)
    ensures
        row_views(final(rows)@) == row_views(old(rows)@).push((name@, columns@)),
{
    let ghost before = rows@;
    rows.push(FitRow { name, columns });
    proof {
        assert(row_views(rows@) =~= row_views(before).push((name@, columns@)));
    }
}

/// Lists the fits of a blend.
pub fn plan_fits(reg: &Registry, ensemble: bool, ref_m: usize, shown: &Vec<String>) -> (r: Vec<
    FitRow,
>)
    requires
        ref_m <= shown.len(),
    ensures
        row_views(r@) == fit_rows(reg.entries(), ensemble, ref_m as int, views(shown@)),
{
    let ghost e = reg.entries();
    let m: usize = shown.len();
    let mut rows: Vec<FitRow> = Vec::new();
    let n: usize = count_groups(&reg.groups);
    let mut g: usize = 0;
    while g < n
        invariant
            g <= n,
            n == e.len(),
            e == group_entries(reg.groups),
            row_views(rows@) =~= e.take(g as int),
        decreases n - g,
    {
        match group_at(&reg.groups, g) {
            Some((name, group)) => {
                push_row(&mut rows, name.clone(), copy_numbers(group));
                proof {
                    assert(e.take(g + 1) =~= e.take(g as int).push(e[g as int]));
                }
            },
            None => {},
        }
        g += 1;
    }
    proof {
        assert(e.take(e.len() as int) =~= e);
    }
    if ensemble {
        push_row(&mut rows, "ensemble".to_string(), numbers_below(ref_m));
        if m > ref_m {
            let mut added: Vec<String> = no_names();
            let mut i: usize = ref_m;
            while i < m
                invariant
                    ref_m <= i <= m,
                    m == shown.len(),
                    views(added@) =~= views(shown@).subrange(ref_m as int, i as int),
                decreases m - i,
            {
                push_name(&mut added, &shown[i]);
                proof {
                    assert(views(shown@).subrange(ref_m as int, i + 1) =~= views(
                        shown@,
                    ).subrange(ref_m as int, i as int).push(shown@[i as int]@));
                }
                i += 1;
            }
            proof {
                assert(views(shown@).subrange(ref_m as int, m as int) =~= views(shown@).skip(
                    ref_m as int,
                ));
            }
            let list: String = join(&added, ", ");
            push_row(&mut rows, joined("ensemble + ", list.as_str()), numbers_below(m));
        }
    } else if n > 1 {
        push_row(&mut rows, "all*".to_string(), numbers_below(m));
    }
    rows
}

/// Each group is fitted, in its place. Without a stored ensemble two groups or more are fitted
/// together as well, last and under the name `all*`, and one group alone is all there is. A stored
/// ensemble is fitted after the groups over the columns it was stored with, and, where there are
/// columns on top, once more over all columns.
pub proof fn lemma_fits_complete(
    e: Seq<(Seq<char>, Seq<usize>)>,
    ensemble: bool,
    ref_m: int,
    shown: Seq<Seq<char>>,
)
    requires
        0 <= ref_m <= shown.len() <= usize::MAX,
    ensures
        ({
            let r = fit_rows(e, ensemble, ref_m, shown);
            let m = shown.len() as int;
            &&& r.len() >= e.len()
            &&& forall|g: int| 0 <= g < e.len() ==> #[trigger] r[g] == e[g]
            &&& !ensemble && e.len() < 2 ==> r.len() == e.len()
            &&& !ensemble && e.len() >= 2 ==> r.len() == e.len() + 1 && r.last().0 == "all*"@
                && r.last().1.len() == m && forall|c: int|
                0 <= c < m ==> #[trigger] r.last().1[c] == c
            &&& ensemble ==> r.len() > e.len() && r[e.len() as int].0 == "ensemble"@
                && r[e.len() as int].1.len() == ref_m && forall|c: int|
                0 <= c < ref_m ==> #[trigger] r[e.len() as int].1[c] == c
            &&& ensemble && m == ref_m ==> r.len() == e.len() + 1
            &&& ensemble && m > ref_m ==> r.len() == e.len() + 2 && r.last().1.len() == m
                && forall|c: int| 0 <= c < m ==> #[trigger] r.last().1[c] == c
            &&& ensemble && m > ref_m ==> r.last().0 == "ensemble + "@ + join_spec(
                shown.skip(ref_m),
                ", "@,
            )
            &&& ensemble || e.len() >= 2 ==> forall|c: usize| c < m ==> r.last().1.contains(c)
        }),
{
    let r = fit_rows(e, ensemble, ref_m, shown);
    let m = shown.len() as int;
    if ensemble || e.len() >= 2 {
        assert forall|c: usize| c < m implies r.last().1.contains(c) by {
            assert(r.last().1[c as int] == c);
        }
    }
}

/// Every fit is over columns of the registry.
pub proof fn lemma_fits_in_range(
    e: Seq<(Seq<char>, Seq<usize>)>,
    ensemble: bool,
    ref_m: int,
    shown: Seq<Seq<char>>,
)
    requires
        groups_below(e, shown.len() as int),
        0 <= ref_m <= shown.len() <= usize::MAX,
    ensures
        groups_below(fit_rows(e, ensemble, ref_m, shown), shown.len() as int),
{
    let r = fit_rows(e, ensemble, ref_m, shown);
    assert forall|g: int, k: int| 0 <= g < r.len() && 0 <= k < r[g].1.len() implies #[trigger] r[g].1[k]
        < shown.len() by {
        if g < e.len() {
            assert(r[g] == e[g]);
        }
    }
}

// ---------------------------------------------------------------------------
// One list of models
// ---------------------------------------------------------------------------

/// The place of a model in a list, whatever its marks, or the list's length.
pub open spec fn model_place(list: Seq<Seq<char>>, name: Seq<char>, i: int) -> int
    decreases list.len() - i,
{
    if i < 0 || i >= list.len() {
        list.len() as int
    } else if unmarked(list[i]) == name {
        i
    } else {
        model_place(list, name, i + 1)
    }
}

/// A list with one more model: not a second time, but marked where either is marked.
pub open spec fn with_model(list: Seq<Seq<char>>, spec: Seq<char>) -> Seq<Seq<char>> {
    let k = model_place(list, unmarked(spec), 0);
    if k >= list.len() {
        list.push(spec)
    } else if marked(spec) && !marked(list[k]) {
        list.update(k, ">"@ + unmarked(spec))
    } else {
        list
    }
}

/// The models of some texts, each once, in the order in which they came first.
pub open spec fn flat_models(specs: Seq<Seq<char>>) -> Seq<Seq<char>>
    decreases specs.len(),
{
    if specs.len() == 0 {
        Seq::empty()
    } else {
        with_model(flat_models(specs.drop_last()), specs.last())
    }
}

pub(crate) proof fn lemma_model_place(list: Seq<Seq<char>>, name: Seq<char>, i: int)
    requires
        0 <= i <= list.len(),
    ensures
        i <= model_place(list, name, i) <= list.len(),
        model_place(list, name, i) < list.len() ==> unmarked(list[model_place(list, name, i)])
            == name,
        forall|k: int| i <= k < model_place(list, name, i) ==> unmarked(#[trigger] list[k]) != name,
    decreases list.len() - i,
{
    if i < list.len() && unmarked(list[i]) != name {
        lemma_model_place(list, name, i + 1);
    }
}

pub(crate) fn find_model(list: &Vec<String>, name: &str) -> (r: usize)
    ensures
        r == model_place(views(list@), name@, 0),
{
    let mut i: usize = 0;
    while i < list.len()
        invariant
            i <= list.len(),
            model_place(views(list@), name@, 0) == model_place(views(list@), name@, i as int),
        decreases list.len() - i,
    {
        proof {
            assert(views(list@)[i as int] == list@[i as int]@);
        }
        let bare: String = strip_marks(list[i].as_str());
        if same(bare.as_str(), name) {
            return i;
        }
        i += 1;
    }
    i
}

/// Flattens some texts into one list of models, each once: a mark anywhere wins.
pub fn flatten_specs(specs: &Vec<String>) -> (r: Vec<String>)
    ensures
        views(r@) == flat_models(views(specs@)),
{
    let ghost s = views(specs@);
    let mut out: Vec<String> = no_names();
    let mut i: usize = 0;
    proof {
        assert(s.take(0) =~= Seq::<Seq<char>>::empty());
    }
    while i < specs.len()
        invariant
            i <= specs.len(),
            s == views(specs@),
            views(out@) == flat_models(s.take(i as int)),
        decreases specs.len() - i,
    {
        let spec: &String = &specs[i];
        let name: String = strip_marks(spec.as_str());
        let k: usize = find_model(&out, name.as_str());
        let ghost before = out@;
        proof {
            assert(s[i as int] == specs@[i as int]@);
            assert(s.take(i + 1).drop_last() =~= s.take(i as int));
            assert(s.take(i + 1).last() == s[i as int]);
            lemma_model_place(views(before), name@, 0);
        }
        if k >= out.len() {
            push_name(&mut out, spec);
        } else {
            proof {
                assert(views(out@)[k as int] == out@[k as int]@);
            }
            if is_marked(spec.as_str()) && !is_marked(out[k].as_str()) {
                let fresh: String = joined(">", name.as_str());
                out.set(k, fresh);
                proof {
                    assert(views(out@) =~= views(before).update(k as int, fresh@));
                }
            }
        }
        i += 1;
    }
    proof {
        assert(s.take(s.len() as int) =~= s);
    }
    out
}

proof fn lemma_unmarked_idempotent(s: Seq<char>)
    ensures
        unmarked(unmarked(s)) == unmarked(s),
        !marked(unmarked(s)),
    decreases s.len(),
{
    if s.len() > 0 && s[0] == '>' {
        lemma_unmarked_idempotent(s.skip(1));
    }
}

proof fn lemma_mark_unmark(name: Seq<char>)
    ensures
        unmarked(">"@ + name) == unmarked(name),
        marked(">"@ + name),
{
    reveal_strlit(">");
    assert((">"@ + name).skip(1) =~= name);
    assert((">"@ + name)[0] == '>');
}

/// Whether a list has a model, whatever its marks.
pub open spec fn has_model(list: Seq<Seq<char>>, name: Seq<char>) -> bool {
    exists|i: int| 0 <= i < list.len() && unmarked(#[trigger] list[i]) == name
}

/// Whether a list has a marked text of a model.
pub open spec fn has_marked(list: Seq<Seq<char>>, name: Seq<char>) -> bool {
    exists|i: int|
        0 <= i < list.len() && unmarked(#[trigger] list[i]) == name && marked(list[i])
}

/// The flat list has the models of the texts, no model twice, and a model is marked in it if and
/// only if some text of it is.
pub proof fn lemma_flat_models(specs: Seq<Seq<char>>, name: Seq<char>)
    ensures
        forall|i: int, j: int|
            0 <= i < j < flat_models(specs).len() ==> unmarked(#[trigger] flat_models(specs)[i])
                != unmarked(#[trigger] flat_models(specs)[j]),
        has_model(flat_models(specs), name) == has_model(specs, name),
        has_marked(flat_models(specs), name) == has_marked(specs, name),
    decreases specs.len(),
{
    if specs.len() > 0 {
        let h = specs.drop_last();
        let spec = specs[specs.len() - 1];
        lemma_flat_models(h, name);
        let a = flat_models(h);
        let b = flat_models(specs);
        let bare = unmarked(spec);
        lemma_model_place(a, bare, 0);
        lemma_unmarked_idempotent(spec);
        lemma_mark_unmark(bare);
        let k = model_place(a, bare, 0);
        assert forall|i: int, j: int| 0 <= i < j < b.len() implies unmarked(#[trigger] b[i])
            != unmarked(#[trigger] b[j]) by {
            if j < a.len() {
                assert(unmarked(a[i]) != unmarked(a[j]));
                assert(unmarked(b[i]) == unmarked(a[i]));
                assert(unmarked(b[j]) == unmarked(a[j]));
            } else {
                assert(b[i] == a[i]);
            }
        }
        if has_model(h, name) {
            let i = choose|i: int| 0 <= i < h.len() && unmarked(#[trigger] h[i]) == name;
            assert(specs[i] == h[i]);
        }
        if has_marked(h, name) {
            let i = choose|i: int|
                0 <= i < h.len() && unmarked(#[trigger] h[i]) == name && marked(h[i]);
            assert(specs[i] == h[i]);
        }
        if has_model(specs, name) {
            let i = choose|i: int| 0 <= i < specs.len() && unmarked(#[trigger] specs[i]) == name;
            if i < h.len() {
                assert(h[i] == specs[i]);
            }
        }
        if has_marked(specs, name) {
            let i = choose|i: int|
                0 <= i < specs.len() && unmarked(#[trigger] specs[i]) == name && marked(specs[i]);
            if i < h.len() {
                assert(h[i] == specs[i]);
            }
        }
        if has_model(a, name) {
            let i = choose|i: int| 0 <= i < a.len() && unmarked(#[trigger] a[i]) == name;
            assert(unmarked(b[i]) == name);
        }
        if has_marked(a, name) {
            let i = choose|i: int|
                0 <= i < a.len() && unmarked(#[trigger] a[i]) == name && marked(a[i]);
            assert(unmarked(b[i]) == name && marked(b[i]));
        }
        if has_model(b, name) {
            let i = choose|i: int| 0 <= i < b.len() && unmarked(#[trigger] b[i]) == name;
            if i < a.len() {
                assert(unmarked(a[i]) == name);
            }
        }
        if has_marked(b, name) {
            let i = choose|i: int|
                0 <= i < b.len() && unmarked(#[trigger] b[i]) == name && marked(b[i]);
            if i < a.len() && a[i] == b[i] {
                assert(unmarked(a[i]) == name && marked(a[i]));
            }
        }
        if name == bare {
            if k < a.len() {
                assert(unmarked(b[k]) == bare);
                if marked(spec) {
                    assert(marked(b[k]));
                }
            } else {
                assert(b[b.len() - 1] == spec);
            }
            assert(unmarked(specs[specs.len() - 1]) == name);
        }
    }
}

// ---------------------------------------------------------------------------
// Voting features
// ---------------------------------------------------------------------------

/// Whether a file name is that of a voting feature for a dataset: `vf`, a digit, and the
/// dataset's ending.
pub open spec fn is_voting_file(f: Seq<char>, dataset: Seq<char>) -> bool {
    &&& "vf"@.is_prefix_of(f)
    &&& f.len() > 2
    &&& '0' <= f[2] <= '9'
    &&& ("."@ + dataset + ".npy"@).is_suffix_of(f)
}

/// The name of a voting feature: its file's without the ending.
pub open spec fn voting_name(f: Seq<char>, dataset: Seq<char>) -> Seq<char> {
    f.take(f.len() - ("."@ + dataset + ".npy"@).len())
}

/// The voting features of some file names, in the order of the files.
pub open spec fn voting_names(files: Seq<Seq<char>>, dataset: Seq<char>) -> Seq<Seq<char>>
    decreases files.len(),
{
    if files.len() == 0 {
        Seq::empty()
    } else if is_voting_file(files.last(), dataset) {
        voting_names(files.drop_last(), dataset).push(voting_name(files.last(), dataset))
    } else {
        voting_names(files.drop_last(), dataset)
    }
}

fn voting_feature(f: &str, dataset: &str) -> (r: Option<String>)
    ensures
        match r {
            Some(n) => is_voting_file(f@, dataset@) && n@ == voting_name(f@, dataset@),
            None => !is_voting_file(f@, dataset@),
        },
{
    if !starts_with(f, "vf") {
        return None;
    }
    let v: Vec<char> = chars_of(f);
    if v.len() <= 2 || !('0' <= v[2] && v[2] <= '9') {
        return None;
    }
    let ending: String = joined3(".", dataset, ".npy");
    strip_suffix(f, ending.as_str())
}

/// Lists the voting features among the files of a directory, sorted by name.
pub fn glob_voting(files: &Vec<String>, dataset: &str) -> (r: Vec<String>)
    ensures
        alphabetical(views(r@)),
        views(r@).to_multiset() == voting_names(views(files@), dataset@).to_multiset(),
{
    let ghost fs = views(files@);
    let mut out: Vec<String> = no_names();
    let mut i: usize = 0;
    proof {
        assert(fs.take(0) =~= Seq::<Seq<char>>::empty());
    }
    while i < files.len()
        invariant
            i <= files.len(),
            fs == views(files@),
            views(out@) == voting_names(fs.take(i as int), dataset@),
        decreases files.len() - i,
    {
        proof {
            assert(fs[i as int] == files@[i as int]@);
            assert(fs.take(i + 1).drop_last() =~= fs.take(i as int));
            assert(fs.take(i + 1).last() == fs[i as int]);
        }
        match voting_feature(files[i].as_str(), dataset) {
            Some(name) => {
                push_name(&mut out, &name);
            },
            None => {},
        }
        i += 1;
    }
    proof {
        assert(fs.take(fs.len() as int) =~= fs);
    }
    sort_names(out)
}

/// The columns of several sources are those of the first ones, then those of the others, and a
/// source's own columns are its names, each with its clip flag and the source's directory and
/// label.
pub proof fn lemma_all_columns(a: Seq<Selection>, b: Seq<Selection>, s: Selection, i: int)
    ensures
        all_columns(a + b) == all_columns(a) + all_columns(b),
        all_columns(seq![s]).len() == s.names.len(),
        0 <= i < s.names.len() ==> all_columns(seq![s])[i] == (ColumnView {
            name: s.names[i]@,
            clip: s.clip[i],
            dir: s.dir@,
            label: s.label@,
        }),
    decreases b.len(),
{
    reveal_with_fuel(all_columns, 2);
    assert(seq![s].drop_last() =~= Seq::empty());
    if b.len() == 0 {
        assert(a + b =~= a);
        assert(all_columns(a) + all_columns(b) =~= all_columns(a));
    } else {
        lemma_all_columns(a, b.drop_last(), s, i);
        assert((a + b).drop_last() =~= a + b.drop_last());
        assert((a + b).last() == b.last());
        assert(all_columns(a + b) =~= all_columns(a) + all_columns(b));
    }
}

proof fn lemma_with_groups_named(
    e: Seq<(Seq<char>, Seq<usize>)>,
    s: Selection,
    cross: bool,
    by: int,
    n: int,
    name: Seq<char>,
)
    requires
        names_differ(e),
        0 <= n <= s.group_names.len(),
    ensures
        names_differ(with_groups(e, s, cross, by, n)),
        forall|g: int|
            0 <= g < n && #[trigger] s.key(cross, g) == name && (forall|h: int|
                g < h < n ==> #[trigger] s.key(cross, h) != name) ==> group_named(
                with_groups(e, s, cross, by, n),
                name,
            ) == Some(shifted(s.group_indices[g]@, by)),
        (forall|g: int| 0 <= g < n ==> #[trigger] s.key(cross, g) != name) ==> group_named(
            with_groups(e, s, cross, by, n),
            name,
        ) == group_named(e, name),
    decreases n,
{
    if n > 0 {
        lemma_with_groups_named(e, s, cross, by, n - 1, name);
        let before = with_groups(e, s, cross, by, n - 1);
        let own = shifted(s.group_indices[n - 1]@, by);
        lemma_put(before, s.key(cross, n - 1), own);
        lemma_put_named(before, s.key(cross, n - 1), own, name);
    }
}

/// What a name stands for in a registry: the group of the last source, and there the last group,
/// that goes by the name. Its columns in the registry are the columns of that group in its source.
pub proof fn lemma_group_found(s: Seq<Selection>, cross: bool, at: int, g: int)
    requires
        forall|i: int| 0 <= i < s.len() ==> (#[trigger] s[i]).wf(),
        all_columns(s).len() <= usize::MAX,
        0 <= at < s.len(),
        0 <= g < s[at].group_names.len(),
        forall|h: int|
            g < h < s[at].group_names.len() ==> #[trigger] s[at].key(cross, h) != s[at].key(
                cross,
                g,
            ),
        forall|i: int, h: int|
            at < i < s.len() && 0 <= h < s[i].group_names.len() ==> #[trigger] s[i].key(cross, h)
                != s[at].key(cross, g),
    ensures
        group_named(all_groups(s, cross), s[at].key(cross, g)) matches Some(v) && v.len()
            == s[at].group_indices[g].len() && forall|k: int|
            0 <= k < v.len() ==> (#[trigger] v[k]) < all_columns(s).len() && all_columns(
                s,
            )[v[k] as int] == s[at].column(s[at].group_indices[g][k] as int),
{
    lemma_groups_differ(s, cross);
    lemma_group_upto(s, cross, at, g);
}

proof fn lemma_groups_differ(s: Seq<Selection>, cross: bool)
    requires
        forall|i: int| 0 <= i < s.len() ==> (#[trigger] s[i]).wf(),
    ensures
        names_differ(all_groups(s, cross)),
    decreases s.len(),
{
    if s.len() > 0 {
        let h = s.drop_last();
        assert forall|i: int| 0 <= i < h.len() implies (#[trigger] h[i]).wf() by {
            assert(h[i] == s[i]);
        }
        lemma_groups_differ(h, cross);
        assert(s[s.len() - 1].wf());
        lemma_with_groups_named(
            all_groups(h, cross),
            s.last(),
            cross,
            all_columns(h).len() as int,
            s.last().group_names.len() as int,
            Seq::empty(),
        );
    }
}

proof fn lemma_group_upto(s: Seq<Selection>, cross: bool, at: int, g: int)
    requires
        forall|i: int| 0 <= i < s.len() ==> (#[trigger] s[i]).wf(),
        all_columns(s).len() <= usize::MAX,
        0 <= at < s.len(),
        0 <= g < s[at].group_names.len(),
        forall|h: int|
            g < h < s[at].group_names.len() ==> #[trigger] s[at].key(cross, h) != s[at].key(
                cross,
                g,
            ),
        forall|i: int, h: int|
            at < i < s.len() && 0 <= h < s[i].group_names.len() ==> #[trigger] s[i].key(cross, h)
                != s[at].key(cross, g),
    ensures
        group_named(all_groups(s, cross), s[at].key(cross, g)) matches Some(v) && v.len()
            == s[at].group_indices[g].len() && forall|k: int|
            0 <= k < v.len() ==> (#[trigger] v[k]) < all_columns(s).len() && all_columns(
                s,
            )[v[k] as int] == s[at].column(s[at].group_indices[g][k] as int),
    decreases s.len(),
{
    let h = s.drop_last();
    let last = s.last();
    let name = s[at].key(cross, g);
    let by = all_columns(h).len() as int;
    assert forall|i: int| 0 <= i < h.len() implies (#[trigger] h[i]).wf() by {
        assert(h[i] == s[i]);
    }
    assert(s[s.len() - 1].wf());
    lemma_groups_differ(h, cross);
    lemma_with_groups_named(
        all_groups(h, cross),
        last,
        cross,
        by,
        last.group_names.len() as int,
        name,
    );
    if at == s.len() - 1 {
        let v = shifted(last.group_indices[g]@, by);
        assert forall|k: int| 0 <= k < v.len() implies (#[trigger] v[k]) < all_columns(s).len()
            && all_columns(s)[v[k] as int] == last.column(last.group_indices[g][k] as int) by {
            assert(last.group_indices[g][k] < last.names.len());
            assert(v[k] == last.group_indices[g][k] + by);
        }
    } else {
        assert forall|i: int, q: int|
            at < i < h.len() && 0 <= q < h[i].group_names.len() implies #[trigger] h[i].key(
            cross,
            q,
        ) != h[at].key(cross, g) by {
            assert(s[i].key(cross, q) != name);
        }
        lemma_group_upto(h, cross, at, g);
        assert forall|q: int| 0 <= q < last.group_names.len() implies #[trigger] last.key(cross, q)
            != name by {
            assert(s[s.len() - 1].key(cross, q) != name);
        }
    }
}

/// A group goes by its own name, or, where several sources are read, by its source's label and its
/// name.
pub proof fn lemma_group_key(s: Selection, g: int)
    ensures
        s.key(false, g) == s.group_names[g]@,
        s.key(true, g) == s.label@ + "/"@ + s.group_names[g]@,
{
}

/// The columns that are left are, in order, those that are clipped; the names that are told are, in
/// order, those of the others.
pub proof fn lemma_left_columns(c: Seq<ColumnView>)
    ensures
        left_columns(c) == c.filter(|x: ColumnView| x.clip),
        unclipped_names(c) == c.filter(|x: ColumnView| !x.clip).map_values(
            |x: ColumnView| x.name,
        ),
{
    lemma_clipped_filters(c);
    if all_clipped(c) {
        lemma_clip_keeps_all(c);
    }
}

proof fn lemma_clipped_filters(c: Seq<ColumnView>)
    ensures
        clipped_columns(c) == c.filter(|x: ColumnView| x.clip),
        unclipped_names(c) == c.filter(|x: ColumnView| !x.clip).map_values(
            |x: ColumnView| x.name,
        ),
    decreases c.len(),
{
    reveal(Seq::filter);
    let out = |x: ColumnView| !x.clip;
    let name = |x: ColumnView| x.name;
    if c.len() > 0 {
        lemma_clipped_filters(c.drop_last());
        if !c.last().clip {
            assert(c.filter(out) == c.drop_last().filter(out).push(c.last()));
            assert(c.filter(out).map_values(name) =~= c.drop_last().filter(out).map_values(
                name,
            ).push(c.last().name));
        }
    } else {
        assert(c.filter(out).map_values(name) =~= Seq::empty());
    }
}

proof fn lemma_clip_keeps_all(c: Seq<ColumnView>)
    requires
        all_clipped(c),
    ensures
        clipped_columns(c) == c,
    decreases c.len(),
{
    if c.len() > 0 {
        let h = c.drop_last();
        assert forall|i: int| 0 <= i < h.len() implies (#[trigger] h[i]).clip by {
            assert(c[i].clip);
        }
        lemma_clip_keeps_all(h);
        assert(c[c.len() - 1].clip);
    }
}

/// Where some column is taken out, the groups are left one by one, in order, each without the
/// columns that are taken out, and only those of which something is left.
pub proof fn lemma_left_groups(
    c: Seq<ColumnView>,
    a: Seq<(Seq<char>, Seq<usize>)>,
    b: Seq<(Seq<char>, Seq<usize>)>,
    name: Seq<char>,
    g: Seq<usize>,
    i: int,
)
    requires
        0 <= i < c.len() <= usize::MAX,
        !c[i].clip,
        forall|k: int| 0 <= k < g.len() ==> #[trigger] g[k] < c.len(),
    ensures
        left_groups(c, a + b) == left_groups(c, a) + left_groups(c, b),
        (forall|k: int| 0 <= k < g.len() ==> !c[#[trigger] g[k] as int].clip) ==> left_groups(
            c,
            seq![(name, g)],
        ).len() == 0,
        (exists|k: int| 0 <= k < g.len() && c[#[trigger] g[k] as int].clip) ==> left_groups(
            c,
            seq![(name, g)],
        ).len() == 1 && left_groups(c, seq![(name, g)])[0].0 == name && left_groups(
            c,
            seq![(name, g)],
        )[0].1.map_values(|k: usize| left_columns(c)[k as int]) == g.map_values(
            |k: usize| c[k as int],
        ).filter(|x: ColumnView| x.clip),
{
    lemma_clipped_groups_concat(c, a, b);
    reveal_with_fuel(clipped_groups, 2);
    assert(seq![(name, g)].drop_last() =~= Seq::empty());
    lemma_clipped_group_names(c, g);
    let cols = g.map_values(|k: usize| c[k as int]);
    lemma_clipped_filters(cols);
    assert(clipped_group(c, g).len() == cols.filter(|x: ColumnView| x.clip).len()) by {
        assert(clipped_group(c, g).map_values(|k: usize| clipped_columns(c)[k as int]).len()
            == clipped_group(c, g).len());
    }
    let kept = cols.filter(|x: ColumnView| x.clip);
    if exists|k: int| 0 <= k < g.len() && c[#[trigger] g[k] as int].clip {
        let k = choose|k: int| 0 <= k < g.len() && c[#[trigger] g[k] as int].clip;
        assert(cols[k].clip);
        cols.lemma_filter_contains(|x: ColumnView| x.clip, k);
        assert(kept.contains(cols[k]));
    }
    if kept.len() > 0 {
        cols.lemma_filter_pred(|x: ColumnView| x.clip, 0);
        assert(kept.contains(kept[0]));
        cols.lemma_filter_contains_rev(|x: ColumnView| x.clip, kept[0]);
        let k = cols.index_of(kept[0]);
        assert(c[g[k] as int].clip);
    }
}

proof fn lemma_clipped_groups_concat(
    c: Seq<ColumnView>,
    a: Seq<(Seq<char>, Seq<usize>)>,
    b: Seq<(Seq<char>, Seq<usize>)>,
)
    ensures
        clipped_groups(c, a + b) == clipped_groups(c, a) + clipped_groups(c, b),
    decreases b.len(),
{
    if b.len() == 0 {
        assert(a + b =~= a);
        assert(clipped_groups(c, a) + clipped_groups(c, b) =~= clipped_groups(c, a));
    } else {
        lemma_clipped_groups_concat(c, a, b.drop_last());
        assert((a + b).drop_last() =~= a + b.drop_last());
        assert((a + b).last() == b.last());
        assert(clipped_groups(c, a + b) =~= clipped_groups(c, a) + clipped_groups(c, b));
    }
}

/// Marks are the `>` at the start of a text: all of them are taken off, and nothing else.
pub proof fn lemma_unmarked(s: Seq<char>)
    ensures
        unmarked(s).is_suffix_of(s),
        !marked(unmarked(s)),
        forall|i: int| 0 <= i < s.len() - unmarked(s).len() ==> #[trigger] s[i] == '>',
        marked(s) <==> unmarked(s) != s,
    decreases s.len(),
{
    if s.len() > 0 && s[0] == '>' {
        let t = s.skip(1);
        lemma_unmarked(t);
        let n = unmarked(t).len() as int;
        assert(s.subrange(s.len() - n, s.len() as int) =~= t.subrange(t.len() - n, t.len() as int));
        assert forall|i: int| 0 <= i < s.len() - n implies #[trigger] s[i] == '>' by {
            if i > 0 {
                assert(t[i - 1] == s[i]);
            }
        }
    } else {
        assert(s.subrange(0, s.len() as int) =~= s);
    }
}

/// An extra column has the name and the mark of its own text, and the directory and label of the
/// last column before the extras.
pub proof fn lemma_extra_column(c: Seq<ColumnView>, extras: Seq<Seq<char>>, i: int)
    requires
        0 <= i < extras.len(),
    ensures
        with_extras(c, extras).len() == c.len() + extras.len(),
        with_extras(c, extras)[c.len() + i].name == unmarked(extras[i]),
        with_extras(c, extras)[c.len() + i].clip == !marked(extras[i]),
        c.len() > 0 ==> with_extras(c, extras)[c.len() + i].dir == c.last().dir,
        c.len() > 0 ==> with_extras(c, extras)[c.len() + i].label == c.last().label,
    decreases extras.len(),
{
    let h = extras.drop_last();
    lemma_extras_on_top(c, extras);
    lemma_extras_on_top(c, h);
    if i < h.len() {
        lemma_extra_column(c, h, i);
        assert(with_extras(c, extras)[c.len() + i] == with_extras(c, h)[c.len() + i]);
    } else if h.len() > 0 {
        lemma_extra_column(c, h, h.len() - 1);
    }
}

/// The first marked text is marked, and none before it is.
pub proof fn lemma_first_marked(extras: Seq<Seq<char>>, i: int)
    requires
        0 <= i <= extras.len(),
    ensures
        i <= first_marked(extras, i) <= extras.len(),
        forall|k: int|
            i <= k < first_marked(extras, i) ==> !((#[trigger] extras[k]).len() > 0 && extras[k][0]
                == '>'),
        first_marked(extras, i) < extras.len() ==> extras[first_marked(extras, i)].len() > 0
            && extras[first_marked(extras, i)][0] == '>',
    decreases extras.len() - i,
{
    if i < extras.len() && !marked(extras[i]) {
        lemma_first_marked(extras, i + 1);
    }
}

/// A name with a slash says itself where its column lies; any other lies in its column's directory,
/// and is shown with its label where several sources are read.
pub proof fn lemma_column_named(c: ColumnView, dataset: Seq<char>)
    ensures
        c.name.contains('/') ==> column_file(c, dataset) == c.name + "."@ + dataset + ".npy"@
            && shown_name(c, true) == c.name,
        !c.name.contains('/') ==> column_file(c, dataset) == c.dir + "/"@ + c.name + "."@ + dataset
            + ".npy"@ && shown_name(c, true) == c.label + "/"@ + c.name,
        shown_name(c, false) == c.name,
{
}

/// The files of the data sets come data set by data set, in each a file for each column.
pub proof fn lemma_needed_files(c: Seq<ColumnView>, datasets: Seq<Seq<char>>, d: int, i: int)
    requires
        0 <= d < datasets.len(),
        0 <= i < c.len(),
    ensures
        needed_files(c, datasets).len() == datasets.len() * c.len(),
        0 <= d * c.len() + i < datasets.len() * c.len(),
        needed_files(c, datasets)[d * c.len() + i] == column_file(c[i], datasets[d]),
    decreases datasets.len(),
{
    let n = c.len() as int;
    let h = datasets.drop_last();
    lemma_needed_len(c, h);
    lemma_needed_len(c, datasets);
    assert((datasets.len() - 1) * n + n == datasets.len() * n) by (nonlinear_arith);
    assert(0 <= d * n + i < datasets.len() * n) by (nonlinear_arith)
        requires
            0 <= d < datasets.len(),
            0 <= i < n,
    ;
    if d < h.len() {
        lemma_needed_files(c, h, d, i);
        assert(h[d] == datasets[d]);
    }
}

proof fn lemma_needed_len(c: Seq<ColumnView>, datasets: Seq<Seq<char>>)
    ensures
        needed_files(c, datasets).len() == datasets.len() * c.len(),
    decreases datasets.len(),
{
    if datasets.len() > 0 {
        lemma_needed_len(c, datasets.drop_last());
        let n = c.len() as int;
        assert((datasets.len() - 1) * n + n == datasets.len() * n) by (nonlinear_arith);
    } else {
        assert(0 * c.len() == 0);
    }
}

/// The models of more texts come behind those met so far.
pub proof fn lemma_flat_in_order(a: Seq<Seq<char>>, b: Seq<Seq<char>>, i: int)
    requires
        0 <= i < flat_models(a).len(),
    ensures
        flat_models(a).len() <= flat_models(a + b).len(),
        unmarked(flat_models(a + b)[i]) == unmarked(flat_models(a)[i]),
    decreases b.len(),
{
    if b.len() == 0 {
        assert(a + b =~= a);
    } else {
        lemma_flat_in_order(a, b.drop_last(), i);
        assert((a + b).drop_last() =~= a + b.drop_last());
        let before = flat_models(a + b.drop_last());
        let spec = b.last();
        let k = model_place(before, unmarked(spec), 0);
        lemma_model_place(before, unmarked(spec), 0);
        lemma_unmarked(spec);
        if k < before.len() && k == i && marked(spec) && !marked(before[k]) {
            let t = ">"@ + unmarked(spec);
            reveal_strlit(">");
            assert(t[0] == '>');
            assert(t.skip(1) =~= unmarked(spec));
            reveal_with_fuel(unmarked, 2);
        }
    }
}

/// A voting feature is listed if and only if the files hold it for the data set and its name starts
/// with `vf` and a digit.
pub proof fn lemma_voting_names(files: Seq<Seq<char>>, dataset: Seq<char>, x: Seq<char>)
    ensures
        voting_names(files, dataset).contains(x) <==> x.len() > 2 && "vf"@.is_prefix_of(x)
            && '0' <= x[2] <= '9' && files.contains(x + ("."@ + dataset + ".npy"@)),
    decreases files.len(),
{
    let end = "."@ + dataset + ".npy"@;
    reveal_strlit("vf");
    reveal_strlit(".");
    let named = x.len() > 2 && "vf"@.is_prefix_of(x) && '0' <= x[2] <= '9';
    if files.len() > 0 {
        let h = files.drop_last();
        let f = files.last();
        lemma_voting_names(h, dataset, x);
        let before = voting_names(h, dataset);
        let all = voting_names(files, dataset);
        assert(end[0] == '.');
        if is_voting_file(f, dataset) {
            let n = f.len() - end.len();
            assert(f.subrange(n, f.len() as int) =~= end);
            assert(f[n] == '.');
            assert(f[0] == 'v' && f[1] == 'f') by {
                assert("vf"@[0] == f[0] && "vf"@[1] == f[1]);
            }
            assert(n > 2);
            let y = f.take(n);
            assert(y + end =~= f);
            assert("vf"@.is_prefix_of(y)) by {
                assert(y.subrange(0, 2) =~= "vf"@);
            }
            assert(all[before.len() as int] == y);
            if f == x + end {
                assert(x =~= y);
            }
            if all.contains(x) && !before.contains(x) {
                let k = all.index_of(x);
                assert(k == before.len()) by {
                    if k < before.len() {
                        assert(before[k] == x);
                    }
                }
                assert(files[files.len() - 1] == x + end);
            }
            if before.contains(x) {
                assert(all[before.index_of(x)] == x);
            }
        } else if named && f == x + end {
            assert(f.subrange(f.len() - end.len(), f.len() as int) =~= end);
            assert(f.subrange(0, 2) =~= x.subrange(0, 2));
            assert("vf"@.is_prefix_of(f));
            assert(f[2] == x[2]);
        }
        if h.contains(x + end) {
            assert(files[h.index_of(x + end)] == x + end);
        }
        if files.contains(x + end) && f != x + end {
            assert(h[files.index_of(x + end)] == x + end);
        }
    }
}

} // verus!
