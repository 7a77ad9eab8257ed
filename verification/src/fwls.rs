//! Layouts of stacking with feature weights: packed triangles, pairs of columns, the union of
//! models and features, and the shape of a saved state.

use crate::registry::strip_marks;
use crate::registry::unmarked;
use crate::text::same;
use crate::text::views;
use vstd::prelude::*;
use vstd::string::*;

verus! {

/// The bytes that one block of interactions may take.
pub const GRAM_BYTES: usize = 256_000_000;

/// The newest version of a saved state.
pub const STATE_VERSION: u32 = 2;

// ---------------------------------------------------------------------------
// Triangles
// ---------------------------------------------------------------------------

/// The number of places in a triangle of `n` rows.
pub open spec fn triangle(n: int) -> int {
    n * (n + 1) / 2
}

/// A triangle has as many places as the one with a row less, and one more row.
pub proof fn lemma_triangle_step(n: int)
    requires
        0 <= n,
    ensures
        triangle(n + 1) == triangle(n) + n + 1,
        0 <= triangle(n),
        2 * triangle(n) == n * (n + 1),
{
    lemma_even(n);
    lemma_even(n + 1);
    assert((n + 1) * (n + 2) == n * (n + 1) + 2 * (n + 1)) by (nonlinear_arith);
    assert(n * (n + 1) >= 0) by (nonlinear_arith)
        requires
            0 <= n,
    ;
}

proof fn lemma_even(n: int)
    requires
        0 <= n,
    ensures
        n * (n + 1) % 2 == 0,
    decreases n,
{
    if n > 0 {
        lemma_even(n - 1);
        assert(n * (n + 1) == (n - 1) * ((n - 1) + 1) + 2 * n) by (nonlinear_arith);
    } else {
        assert(n * (n + 1) == 0) by (nonlinear_arith)
            requires
                n == 0,
        ;
    }
}

proof fn lemma_triangle_monotone(a: int, b: int)
    requires
        0 <= a <= b,
    ensures
        triangle(a) <= triangle(b),
    decreases b - a,
{
    if a < b {
        lemma_triangle_step(a);
        lemma_triangle_monotone(a + 1, b);
    }
}

/// Where the `j`-th column of a lower triangle of `d` columns begins, packed column by column.
pub open spec fn column_start(d: int, j: int) -> int {
    triangle(d) - triangle(d - j)
}

/// The place of row `i` and column `j` of a lower triangle of `d` columns.
pub open spec fn packed_at(d: int, i: int, j: int) -> int {
    column_start(d, j) + (i - j)
}

/// Where the columns of a packed lower triangle begin, and its length.
pub fn packed_layout(d: usize) -> (r: (Vec<usize>, usize))
    requires
        triangle(d as int) <= usize::MAX,
    ensures
        r.0.len() == d,
        forall|j: int| 0 <= j < d ==> #[trigger] r.0@[j] == column_start(d as int, j),
        r.1 == triangle(d as int),
{
    let mut starts: Vec<usize> = Vec::new();
    let mut off: usize = 0;
    let mut j: usize = 0;
    while j < d
        invariant
            j <= d,
            starts.len() == j,
            triangle(d as int) <= usize::MAX,
            off == column_start(d as int, j as int),
            forall|k: int| 0 <= k < j ==> #[trigger] starts@[k] == column_start(d as int, k),
        decreases d - j,
    {
        proof {
            lemma_triangle_step(d - j - 1);
        }
        starts.push(off);
        off += d - j;
        j += 1;
    }
    (starts, off)
}

/// Every place of a lower triangle lies in the packed array, and no two places share one.
pub proof fn lemma_packed(d: int, i: int, j: int, k: int, l: int)
    requires
        0 <= j <= i < d,
        0 <= l <= k < d,
    ensures
        0 <= packed_at(d, i, j) < triangle(d),
        packed_at(d, i, j) == packed_at(d, k, l) ==> i == k && j == l,
{
    lemma_packed_column(d, i, j);
    lemma_packed_column(d, k, l);
    if j < l {
        lemma_triangle_monotone(d - l, d - j - 1);
    } else if l < j {
        lemma_triangle_monotone(d - j, d - l - 1);
    }
}

proof fn lemma_packed_column(d: int, i: int, j: int)
    requires
        0 <= j <= i < d,
    ensures
        0 <= column_start(d, j) <= packed_at(d, i, j) < column_start(d, j + 1) <= triangle(d),
{
    lemma_triangle_step(d - j - 1);
    lemma_triangle_monotone(d - j, d);
    lemma_triangle_step(d - j);
}

/// Every place of the packed array is that of a row and a column.
pub proof fn lemma_packed_covers(d: int, x: int, j: int) -> (r: (int, int))
    requires
        0 <= j < d,
        column_start(d, j) <= x < triangle(d),
    ensures
        j <= r.1 <= r.0 < d,
        packed_at(d, r.0, r.1) == x,
    decreases d - j,
{
    lemma_triangle_step(d - j - 1);
    if x < column_start(d, j + 1) {
        (j + (x - column_start(d, j)), j)
    } else {
        if j + 1 >= d {
            assert(triangle(0) == 0);
        }
        lemma_packed_covers(d, x, j + 1)
    }
}

// ---------------------------------------------------------------------------
// Pairs
// ---------------------------------------------------------------------------

/// The place of a pair, whichever way round: `i + j(j+1)/2` with the smaller one first.
pub open spec fn pair_at(i: int, j: int) -> int {
    if i <= j {
        i + triangle(j)
    } else {
        j + triangle(i)
    }
}

/// The place of a pair of columns in a packed upper triangle.
pub fn colindex(i: usize, j: usize) -> (r: usize)
    requires
        (i as int) * (i + 1) + j <= usize::MAX,
        (j as int) * (j + 1) + i <= usize::MAX,
    ensures
        r == pair_at(i as int, j as int),
{
    let a: usize = if i <= j {
        i
    } else {
        j
    };
    let b: usize = if i <= j {
        j
    } else {
        i
    };
    proof {
        lemma_triangle_step(b as int);
        assert(0 <= (b as int) * (b + 1)) by (nonlinear_arith);
        assert(b < usize::MAX || b == 0) by (nonlinear_arith)
            requires
                (b as int) * (b + 1) <= usize::MAX,
        ;
    }
    a + b * (b + 1) / 2
}

/// A pair has the same place either way round.
pub proof fn lemma_pair_symmetric(i: int, j: int)
    ensures
        pair_at(i, j) == pair_at(j, i),
{
}

/// The pairs of `n` columns fill a triangle: each lies in it, and no two share a place.
pub proof fn lemma_pairs(n: int, i: int, j: int, k: int, l: int)
    requires
        0 <= i <= j < n,
        0 <= k <= l < n,
    ensures
        0 <= pair_at(i, j) < triangle(n),
        pair_at(i, j) == pair_at(k, l) ==> i == k && j == l,
{
    lemma_triangle_step(j);
    lemma_triangle_step(l);
    lemma_triangle_monotone(j + 1, n);
    if j < l {
        lemma_triangle_monotone(j + 1, l);
    } else if l < j {
        lemma_triangle_monotone(l + 1, j);
    }
}

/// Whether a list has each pair at its place.
pub open spec fn is_pair_list(pairs: Seq<(u32, u32)>, n: int) -> bool {
    &&& pairs.len() == triangle(n)
    &&& forall|i: int, j: int|
        0 <= i <= j < n ==> #[trigger] pairs[pair_at(i, j)] == (i as u32, j as u32)
}

/// Lists the pairs of `n` columns, each at its place.
pub fn pair_list(n: usize) -> (r: Vec<(u32, u32)>)
    requires
        n <= u32::MAX,
        triangle(n as int) <= usize::MAX,
    ensures
        is_pair_list(r@, n as int),
        forall|c: int|
            0 <= c < r.len() ==> (#[trigger] r@[c]).0 <= r@[c].1 < n && pair_at(
                r@[c].0 as int,
                r@[c].1 as int,
            ) == c,
{
    let mut out: Vec<(u32, u32)> = Vec::new();
    let mut j: usize = 0;
    while j < n
        invariant
            j <= n <= u32::MAX,
            out.len() == triangle(j as int),
            forall|a: int, b: int|
                0 <= a <= b < j ==> #[trigger] out@[pair_at(a, b)] == (a as u32, b as u32),
            forall|c: int|
                0 <= c < out.len() ==> (#[trigger] out@[c]).0 <= out@[c].1 < j && pair_at(
                    out@[c].0 as int,
                    out@[c].1 as int,
                ) == c,
        decreases n - j,
    {
        let mut i: usize = 0;
        while i <= j
            invariant
                j < n <= u32::MAX,
                i <= j + 1,
                out.len() == triangle(j as int) + i,
                forall|a: int, b: int|
                    0 <= a <= b < j ==> #[trigger] out@[pair_at(a, b)] == (a as u32, b as u32),
                forall|a: int|
                    0 <= a < i ==> #[trigger] out@[pair_at(a, j as int)] == (a as u32, j as u32),
                forall|c: int|
                    0 <= c < out.len() ==> (#[trigger] out@[c]).0 <= out@[c].1 <= j && pair_at(
                        out@[c].0 as int,
                        out@[c].1 as int,
                    ) == c,
            decreases j + 1 - i,
        {
            let ghost before = out@;
            out.push((i as u32, j as u32));
            proof {
                assert(pair_at(i as int, j as int) == before.len());
                assert forall|a: int, b: int| 0 <= a <= b < j implies #[trigger] out@[pair_at(a, b)]
                    == (a as u32, b as u32) by {
                    lemma_pairs(j as int, a, b, a, b);
                    assert(before[pair_at(a, b)] == (a as u32, b as u32));
                }
                assert forall|a: int| 0 <= a < i + 1 implies #[trigger] out@[pair_at(a, j as int)]
                    == (a as u32, j as u32) by {
                    lemma_triangle_step(j as int);
                    if a < i {
                        assert(before[pair_at(a, j as int)] == (a as u32, j as u32));
                    }
                }
            }
            i += 1;
        }
        proof {
            lemma_triangle_step(j as int);
            assert forall|a: int, b: int| 0 <= a <= b < j + 1 implies #[trigger] out@[pair_at(a, b)]
                == (a as u32, b as u32) by {
                if b == j {
                    assert(out@[pair_at(a, j as int)] == (a as u32, j as u32));
                }
            }
        }
        j += 1;
    }
    out
}

// ---------------------------------------------------------------------------
// Models times features
// ---------------------------------------------------------------------------

/// The place of the product of model `i` and feature `j`, of `p` features.
pub open spec fn product_at(i: int, j: int, p: int) -> int {
    i * p + j
}

/// The products of `m` models and `p` features fill the places before that of the bias, and no two
/// share one.
pub proof fn lemma_products(m: int, p: int, i: int, j: int, k: int, l: int)
    requires
        0 <= i < m,
        0 <= j < p,
        0 <= k < m,
        0 <= l < p,
    ensures
        0 <= product_at(i, j, p) < m * p,
        product_at(i, j, p) == product_at(k, l, p) ==> i == k && j == l,
{
    assert(0 <= i * p && i * p + p <= m * p) by (nonlinear_arith)
        requires
            0 <= i < m,
            0 <= p,
    ;
    if i < k {
        assert(i * p + p <= k * p) by (nonlinear_arith)
            requires
                i < k,
                0 <= p,
        ;
    } else if k < i {
        assert(k * p + p <= i * p) by (nonlinear_arith)
            requires
                k < i,
                0 <= p,
        ;
    }
}

/// The number of columns: the products, and the bias.
pub fn interaction_count(m: usize, p: usize) -> (r: usize)
    requires
        m * p < usize::MAX,
    ensures
        r == m * p + 1,
{
    m * p + 1
}

/// How many rows go into one block of `d` columns: as many as the bytes allow, but not fewer than
/// `least`, nor more than there are.
pub fn block_rows(d: usize, rows: usize, least: usize) -> (r: usize)
    requires
        0 < d,
        8 * d <= usize::MAX,
        least <= rows || least <= 1,
    ensures
        ({
            let most = if rows > 1 {
                rows as int
            } else {
                1
            };
            let fit = GRAM_BYTES as int / (8 * d);
            r == (if fit < least {
                least as int
            } else if fit > most {
                most
            } else {
                fit
            })
        }),
        r >= least,
        r > least ==> 8 * d * r <= 256_000_000,
        r > 1 ==> r <= rows || r == least,
{
    proof {
        lemma_fit(d as int);
    }
    let most: usize = if rows > 1 {
        rows
    } else {
        1
    };
    let fit: usize = GRAM_BYTES / (8 * d);
    if fit < least {
        least
    } else if fit > most {
        most
    } else {
        fit
    }
}

// ---------------------------------------------------------------------------
// The union of models and features
// ---------------------------------------------------------------------------

/// A column that is a model, a feature, or both.
pub struct UCol {
    pub name: String,
    pub clip: bool,
    pub is_model: bool,
    pub is_feature: bool,
}

#[verifier::ext_equal]
pub struct UColView {
    pub name: Seq<char>,
    pub clip: bool,
    pub is_model: bool,
    pub is_feature: bool,
}

impl View for UCol {
    type V = UColView;

    open spec fn view(&self) -> UColView {
        UColView {
            name: self.name@,
            clip: self.clip,
            is_model: self.is_model,
            is_feature: self.is_feature,
        }
    }
}

/// The contents of some columns.
pub open spec fn ucol_views(s: Seq<UCol>) -> Seq<UColView> {
    s.map_values(|c: UCol| c@)
}

/// The columns of the models.
pub open spec fn model_columns(names: Seq<Seq<char>>, clip: Seq<bool>) -> Seq<UColView> {
    Seq::new(
        names.len(),
        |i: int|
            UColView { name: names[i], clip: clip[i], is_model: true, is_feature: false },
    )
}

/// The last place before `i` of a column of a name, or less than zero.
pub open spec fn last_place(c: Seq<UColView>, name: Seq<char>, i: int) -> int
    decreases i,
{
    if i <= 0 {
        -1
    } else if c[i - 1].name == name {
        i - 1
    } else {
        last_place(c, name, i - 1)
    }
}

/// The columns with one more feature: a model of its name takes the part of a feature too.
pub open spec fn with_feature(c: Seq<UColView>, feature: Seq<char>) -> Seq<UColView> {
    let name = unmarked(feature);
    let k = last_place(c, name, c.len() as int);
    if k >= 0 {
        c.update(k, UColView { is_feature: true, ..c[k] })
    } else {
        c.push(UColView { name, clip: false, is_model: false, is_feature: true })
    }
}

/// The columns with some more features.
pub open spec fn with_features(c: Seq<UColView>, features: Seq<Seq<char>>) -> Seq<UColView>
    decreases features.len(),
{
    if features.len() == 0 {
        c
    } else {
        with_feature(with_features(c, features.drop_last()), features.last())
    }
}

/// The union: the models, the features that are no models, and the constant last.
pub open spec fn union_spec(
    names: Seq<Seq<char>>,
    clip: Seq<bool>,
    features: Seq<Seq<char>>,
) -> Seq<UColView> {
    with_features(model_columns(names, clip), features).push(
        UColView { name: "<const>"@, clip: false, is_model: false, is_feature: true },
    )
}

fn push_ucol(v: &mut Vec<UCol>, c: UCol)
    ensures
        ucol_views(final(v)@) == ucol_views(old(v)@).push(c@),
{
    let ghost before = v@;
    v.push(c);
    proof {
        assert(ucol_views(v@) =~= ucol_views(before).push(c@));
    }
}

fn find_ucol(v: &Vec<UCol>, name: &str) -> (r: Option<usize>)
    ensures
        match r {
            Some(k) => k < v.len() && k == last_place(ucol_views(v@), name@, v.len() as int),
            None => last_place(ucol_views(v@), name@, v.len() as int) == -1,
        },
{
    let mut i: usize = v.len();
    while i > 0
        invariant
            i <= v.len(),
            last_place(ucol_views(v@), name@, v.len() as int) == last_place(
                ucol_views(v@),
                name@,
                i as int,
            ),
        decreases i,
    {
        proof {
            assert(ucol_views(v@)[i - 1] == v@[i - 1]@);
        }
        if same(v[i - 1].name.as_str(), name) {
            return Some(i - 1);
        }
        i -= 1;
    }
    None
}

/// Joins models and features into one list of columns, and tells how many of them are models.
pub fn build_union(names: &Vec<String>, clip: &Vec<bool>, features: &Vec<String>) -> (r: (
    Vec<UCol>,
    usize,
))
    requires
        clip.len() == names.len(),
    ensures
        ucol_views(r.0@) == union_spec(views(names@), clip@, views(features@)),
        r.1 == names.len(),
{
    let mut cols: Vec<UCol> = Vec::new();
    let ghost models = model_columns(views(names@), clip@);
    let mut i: usize = 0;
    while i < names.len()
        invariant
            i <= names.len(),
            clip.len() == names.len(),
            models == model_columns(views(names@), clip@),
            ucol_views(cols@) =~= models.take(i as int),
        decreases names.len() - i,
    {
        push_ucol(
            &mut cols,
            UCol { name: names[i].clone(), clip: clip[i], is_model: true, is_feature: false },
        );
        proof {
            assert(models.take(i + 1) =~= models.take(i as int).push(models[i as int]));
        }
        i += 1;
    }
    let ghost fs = views(features@);
    let mut f: usize = 0;
    proof {
        assert(models.take(models.len() as int) =~= models);
        assert(fs.take(0) =~= Seq::<Seq<char>>::empty());
    }
    while f < features.len()
        invariant
            f <= features.len(),
            fs == views(features@),
            ucol_views(cols@) == with_features(models, fs.take(f as int)),
        decreases features.len() - f,
    {
        let ghost before = cols@;
        proof {
            assert(fs[f as int] == features@[f as int]@);
            assert(fs.take(f + 1).drop_last() =~= fs.take(f as int));
            assert(fs.take(f + 1).last() == fs[f as int]);
            assert(ucol_views(before).len() == before.len());
        }
        let name: String = strip_marks(features[f].as_str());
        match find_ucol(&cols, name.as_str()) {
            Some(k) => {
                let c: UCol = UCol {
                    name: cols[k].name.clone(),
                    clip: cols[k].clip,
                    is_model: cols[k].is_model,
                    is_feature: true,
                };
                cols.set(k, c);
                proof {
                    assert(ucol_views(before)[k as int] == before[k as int]@);
                    assert(c@ =~= UColView { is_feature: true, ..before[k as int]@ });
                    assert(ucol_views(cols@) =~= ucol_views(before).update(k as int, c@));
                }
            },
            None => {
                push_ucol(
                    &mut cols,
                    UCol { name, clip: false, is_model: false, is_feature: true },
                );
            },
        }
        f += 1;
    }
    proof {
        assert(fs.take(fs.len() as int) =~= fs);
    }
    push_ucol(
        &mut cols,
        UCol { name: "<const>".to_string(), clip: false, is_model: false, is_feature: true },
    );
    (cols, names.len())
}

/// The models come first and stay what they are but for the part of a feature; what follows them
/// is features; the constant is last.
pub proof fn lemma_union(names: Seq<Seq<char>>, clip: Seq<bool>, features: Seq<Seq<char>>)
    ensures
        ({
            let u = union_spec(names, clip, features);
            &&& u.len() > names.len()
            &&& forall|i: int|
                0 <= i < names.len() ==> (#[trigger] u[i]).name == names[i] && u[i].clip == clip[i]
                    && u[i].is_model
            &&& forall|i: int|
                names.len() <= i < u.len() ==> !(#[trigger] u[i]).is_model && u[i].is_feature
                    && !u[i].clip
            &&& u.last().name == "<const>"@
        }),
{
    lemma_features_kept(names, clip, features);
}

proof fn lemma_features_kept(names: Seq<Seq<char>>, clip: Seq<bool>, features: Seq<Seq<char>>)
    ensures
        ({
            let u = with_features(model_columns(names, clip), features);
            &&& u.len() >= names.len()
            &&& forall|i: int|
                0 <= i < names.len() ==> (#[trigger] u[i]).name == names[i] && u[i].clip == clip[i]
                    && u[i].is_model
            &&& forall|i: int|
                names.len() <= i < u.len() ==> !(#[trigger] u[i]).is_model && u[i].is_feature
                    && !u[i].clip
        }),
    decreases features.len(),
{
    if features.len() > 0 {
        lemma_features_kept(names, clip, features.drop_last());
        let c = with_features(model_columns(names, clip), features.drop_last());
        lemma_last_place(c, unmarked(features.last()), c.len() as int);
    }
}

proof fn lemma_last_place(c: Seq<UColView>, name: Seq<char>, i: int)
    requires
        0 <= i <= c.len(),
    ensures
        -1 <= last_place(c, name, i) < i || i == 0,
        last_place(c, name, i) >= 0 ==> c[last_place(c, name, i)].name == name,
        last_place(c, name, i) < i,
    decreases i,
{
    if i > 0 {
        lemma_last_place(c, name, i - 1);
    }
}

// ---------------------------------------------------------------------------
// A saved state
// ---------------------------------------------------------------------------

/// What is wrong with a saved state.
#[derive(Clone, Copy, PartialEq, Eq, Structural, Debug)]
pub enum StateError {
    /// It is newer than this program.
    TooNew,
    /// It has not one sum of squares to each fold.
    FoldSums,
    /// It has not one count to each fold.
    FoldCounts,
    /// The sums of products of a fold are not a triangle over the pairs.
    Gram(usize),
    /// The right-hand side of a fold is not one number to each pair.
    Rhs(usize),
}

/// The shape of a saved state.
pub struct StateShape {
    pub version: u32,
    pub dpair: usize,
    pub k_folds: usize,
    pub fold_yty: usize,
    pub fold_n: usize,
    /// The lengths of the folds' sums of products, and of their right-hand sides.
    pub gram_lens: Vec<usize>,
    pub rhs_lens: Vec<usize>,
}

/// How many folds a state has: one before folds were saved.
pub open spec fn state_folds(s: StateShape) -> int {
    if s.version < 2 {
        1
    } else {
        s.k_folds as int
    }
}

/// The first fold from `k` on whose lengths are wrong, and what is wrong.
pub open spec fn fold_error(s: StateShape, k: int) -> Option<StateError>
    decreases state_folds(s) - k,
{
    if k < 0 || k >= state_folds(s) {
        None
    } else if s.gram_lens[k] != triangle(s.dpair as int) {
        Some(StateError::Gram(k as usize))
    } else if s.rhs_lens[k] != s.dpair {
        Some(StateError::Rhs(k as usize))
    } else {
        fold_error(s, k + 1)
    }
}

/// What is wrong with a saved state.
pub open spec fn state_error(s: StateShape) -> Option<StateError> {
    if s.version > STATE_VERSION {
        Some(StateError::TooNew)
    } else if s.version >= 2 && s.fold_yty != s.k_folds {
        Some(StateError::FoldSums)
    } else if s.version >= 2 && s.fold_n != s.k_folds {
        Some(StateError::FoldCounts)
    } else {
        fold_error(s, 0)
    }
}

/// Checks the shape of a saved state.
pub fn check_state(s: &StateShape) -> (r: Option<StateError>)
    requires
        s.gram_lens.len() == state_folds(*s),
        s.rhs_lens.len() == state_folds(*s),
        s.dpair * (s.dpair + 1) <= usize::MAX,
    ensures
        r == state_error(*s),
{
    if s.version > STATE_VERSION {
        return Some(StateError::TooNew);
    }
    if s.version >= 2 && s.fold_yty != s.k_folds {
        return Some(StateError::FoldSums);
    }
    if s.version >= 2 && s.fold_n != s.k_folds {
        return Some(StateError::FoldCounts);
    }
    proof {
        assert(s.dpair < usize::MAX) by (nonlinear_arith)
            requires
                s.dpair * (s.dpair + 1) <= usize::MAX,
                0 <= s.dpair,
                usize::MAX >= 2,
        ;
    }
    let want: usize = s.dpair * (s.dpair + 1) / 2;
    let n: usize = s.gram_lens.len();
    let mut k: usize = 0;
    while k < n
        invariant
            k <= n,
            n == s.gram_lens.len(),
            n == s.rhs_lens.len(),
            n == state_folds(*s),
            want == triangle(s.dpair as int),
            state_error(*s) == fold_error(*s, k as int),
        decreases n - k,
    {
        if s.gram_lens[k] != want {
            return Some(StateError::Gram(k));
        }
        if s.rhs_lens[k] != s.dpair {
            return Some(StateError::Rhs(k));
        }
        k += 1;
    }
    None
}

/// The packed triangle goes down each column in turn: the next row of a column comes next, and
/// after the last row the next column's diagonal.
pub proof fn lemma_packed_order(d: int, i: int, j: int)
    requires
        0 <= j <= i < d,
    ensures
        packed_at(d, 0, 0) == 0,
        packed_at(d, i + 1, j) == packed_at(d, i, j) + 1,
        packed_at(d, j + 1, j + 1) == packed_at(d, d - 1, j) + 1,
{
    lemma_triangle_step(d - j - 1);
}

/// The pairs go by their larger index, then by their smaller one.
pub proof fn lemma_pair_order(i: int, j: int)
    requires
        0 <= i < j,
    ensures
        pair_at(0, 0) == 0,
        pair_at(i + 1, j) == pair_at(i, j) + 1,
        pair_at(0, j) == pair_at(j - 1, j - 1) + 1,
{
    lemma_triangle_step(j - 1);
}

/// A product's place goes by its first factor, then by its second.
pub proof fn lemma_product_order(i: int, j: int, p: int)
    ensures
        product_at(0, 0, p) == 0,
        product_at(i, j + 1, p) == product_at(i, j, p) + 1,
        product_at(i + 1, 0, p) == product_at(i, p - 1, p) + 1,
{
    assert((i + 1) * p == i * p + p) by (nonlinear_arith);
    assert(0 * p == 0);
}

/// Every feature has a column of its name that says that it is one.
pub proof fn lemma_feature_has_column(
    names: Seq<Seq<char>>,
    clip: Seq<bool>,
    features: Seq<Seq<char>>,
    k: int,
) -> (i: int)
    requires
        0 <= k < features.len(),
    ensures
        0 <= i < union_spec(names, clip, features).len() - 1,
        union_spec(names, clip, features)[i].is_feature,
        union_spec(names, clip, features)[i].name == unmarked(features[k]),
{
    lemma_feature_found(model_columns(names, clip), features, k)
}

proof fn lemma_feature_found(c: Seq<UColView>, features: Seq<Seq<char>>, k: int) -> (i: int)
    requires
        0 <= k < features.len(),
    ensures
        0 <= i < with_features(c, features).len(),
        with_features(c, features)[i].is_feature,
        with_features(c, features)[i].name == unmarked(features[k]),
    decreases features.len(),
{
    let h = features.drop_last();
    let before = with_features(c, h);
    let f = unmarked(features.last());
    let p = last_place(before, f, before.len() as int);
    lemma_place_found(before, f, before.len() as int);
    if k == h.len() {
        if p >= 0 {
            p
        } else {
            before.len() as int
        }
    } else {
        let i = lemma_feature_found(c, h, k);
        assert(h[k] == features[k]);
        i
    }
}

/// A column that says that it is a feature is that of one, the constant aside.
pub proof fn lemma_column_is_feature(
    names: Seq<Seq<char>>,
    clip: Seq<bool>,
    features: Seq<Seq<char>>,
    i: int,
) -> (k: int)
    requires
        0 <= i < union_spec(names, clip, features).len() - 1,
        union_spec(names, clip, features)[i].is_feature,
    ensures
        0 <= k < features.len(),
        union_spec(names, clip, features)[i].name == unmarked(features[k]),
{
    lemma_feature_named(model_columns(names, clip), features, i)
}

proof fn lemma_feature_named(c: Seq<UColView>, features: Seq<Seq<char>>, i: int) -> (k: int)
    requires
        forall|j: int| 0 <= j < c.len() ==> !(#[trigger] c[j]).is_feature,
        0 <= i < with_features(c, features).len(),
        with_features(c, features)[i].is_feature,
    ensures
        0 <= k < features.len(),
        with_features(c, features)[i].name == unmarked(features[k]),
    decreases features.len(),
{
    if features.len() == 0 {
        assert(!c[i].is_feature);
        0
    } else {
        let h = features.drop_last();
        let before = with_features(c, h);
        let f = unmarked(features.last());
        lemma_place_found(before, f, before.len() as int);
        if i < before.len() && before[i].is_feature {
            let k = lemma_feature_named(c, h, i);
            assert(h[k] == features[k]);
            k
        } else {
            features.len() - 1
        }
    }
}

/// A column that is no model has a name that no column before it has, the constant aside.
pub proof fn lemma_columns_differ(
    names: Seq<Seq<char>>,
    clip: Seq<bool>,
    features: Seq<Seq<char>>,
    i: int,
    j: int,
)
    requires
        names.len() <= j,
        0 <= i < j < union_spec(names, clip, features).len() - 1,
    ensures
        union_spec(names, clip, features)[i].name != union_spec(names, clip, features)[j].name,
{
    lemma_added_differ(model_columns(names, clip), features, i, j);
}

proof fn lemma_added_differ(c: Seq<UColView>, features: Seq<Seq<char>>, i: int, j: int)
    requires
        c.len() <= j,
        0 <= i < j < with_features(c, features).len(),
    ensures
        with_features(c, features)[i].name != with_features(c, features)[j].name,
    decreases features.len(),
{
    if features.len() > 0 {
        let h = features.drop_last();
        let before = with_features(c, h);
        let f = unmarked(features.last());
        lemma_place_found(before, f, before.len() as int);
        if j < before.len() {
            lemma_added_differ(c, h, i, j);
        } else {
            assert(before[i].name != f);
        }
    }
}

proof fn lemma_place_found(c: Seq<UColView>, name: Seq<char>, n: int)
    requires
        0 <= n <= c.len(),
    ensures
        -1 <= last_place(c, name, n) < n,
        last_place(c, name, n) >= 0 ==> c[last_place(c, name, n)].name == name,
        forall|i: int| last_place(c, name, n) < i < n ==> (#[trigger] c[i]).name != name,
    decreases n,
{
    if n > 0 && c[n - 1].name != name {
        lemma_place_found(c, name, n - 1);
    }
}

/// A name is looked up from the end: the last column that has it.
pub proof fn lemma_column_looked_up(c: Seq<UColView>, name: Seq<char>, k: int)
    requires
        0 <= k < c.len(),
        c[k].name == name,
        forall|i: int| k < i < c.len() ==> (#[trigger] c[i]).name != name,
    ensures
        last_place(c, name, c.len() as int) == k,
{
    lemma_place_found(c, name, c.len() as int);
    let p = last_place(c, name, c.len() as int);
    if p < k {
        assert(c[k].name != name);
    } else if p > k {
        assert(c[p].name != name);
    }
}

/// A stored state that is sound is not too new, has one sum of squares and one count to each fold
/// where it keeps them, and each fold has a number for every pair of columns and one for every
/// column.
pub proof fn lemma_sound_state(s: StateShape, k: int)
    requires
        state_error(s) is None,
        0 <= k < (if s.version < 2 {
            1
        } else {
            s.k_folds as int
        }),
    ensures
        s.version <= 2,
        s.version == 2 ==> s.fold_yty == s.k_folds && s.fold_n == s.k_folds,
        2 * s.gram_lens[k] == s.dpair * (s.dpair + 1),
        s.rhs_lens[k] == s.dpair,
{
    lemma_fold_sound(s, 0, k);
    lemma_triangle_step(s.dpair as int);
}

proof fn lemma_fold_sound(s: StateShape, from: int, k: int)
    requires
        fold_error(s, from) is None,
        0 <= from <= k < state_folds(s),
    ensures
        s.gram_lens[k] == triangle(s.dpair as int),
        s.rhs_lens[k] == s.dpair,
    decreases k - from,
{
    if from < k {
        lemma_fold_sound(s, from + 1, k);
    }
}

/// A state with all of that is sound.
pub proof fn lemma_state_accepted(s: StateShape)
    requires
        s.version <= 2,
        s.version == 2 ==> s.fold_yty == s.k_folds && s.fold_n == s.k_folds,
        forall|k: int|
            0 <= k < state_folds(s) ==> 2 * #[trigger] s.gram_lens[k] == s.dpair * (s.dpair + 1)
                && s.rhs_lens[k] == s.dpair,
    ensures
        state_error(s) is None,
{
    lemma_triangle_step(s.dpair as int);
    lemma_folds_accepted(s, 0);
}

proof fn lemma_folds_accepted(s: StateShape, from: int)
    requires
        0 <= from,
        forall|k: int|
            from <= k < state_folds(s) ==> #[trigger] s.gram_lens[k] == triangle(s.dpair as int)
                && s.rhs_lens[k] == s.dpair,
    ensures
        fold_error(s, from) is None,
    decreases state_folds(s) - from,
{
    if from < state_folds(s) {
        assert(s.gram_lens[from] == triangle(s.dpair as int));
        lemma_folds_accepted(s, from + 1);
    }
}

/// The error of a fold is that of the first one that is not sound, its sums of products before its
/// right-hand side.
pub proof fn lemma_first_bad_fold(s: StateShape, from: int, k: int)
    requires
        0 <= from <= k < state_folds(s),
        k <= usize::MAX,
        forall|f: int|
            from <= f < k ==> #[trigger] s.gram_lens[f] == triangle(s.dpair as int)
                && s.rhs_lens[f] == s.dpair,
    ensures
        s.gram_lens[k] != triangle(s.dpair as int) ==> fold_error(s, from) == Some(
            StateError::Gram(k as usize),
        ),
        s.gram_lens[k] == triangle(s.dpair as int) && s.rhs_lens[k] != s.dpair ==> fold_error(
            s,
            from,
        ) == Some(StateError::Rhs(k as usize)),
    decreases k - from,
{
    if from < k {
        assert(s.gram_lens[from] == triangle(s.dpair as int));
        lemma_first_bad_fold(s, from + 1, k);
    }
}

proof fn lemma_fit(d: int)
    requires
        0 < d,
    ensures
        forall|r: int|
            0 <= r <= GRAM_BYTES as int / (8 * d) ==> #[trigger] (8 * d * r) <= 256_000_000,
{
    let fit = GRAM_BYTES as int / (8 * d);
    vstd::arithmetic::div_mod::lemma_fundamental_div_mod(GRAM_BYTES as int, 8 * d);
    vstd::arithmetic::div_mod::lemma_mod_bound(GRAM_BYTES as int, 8 * d);
    assert forall|r: int| 0 <= r <= fit implies #[trigger] (8 * d * r) <= 256_000_000 by {
        assert(8 * d * r <= 8 * d * fit) by (nonlinear_arith)
            requires
                0 <= r <= fit,
                0 < d,
        ;
    }
}

} // verus!
