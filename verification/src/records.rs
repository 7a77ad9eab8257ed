//! The records of the data set's text files: training blocks, the probe and qualifying lists, the
//! qualifying ratings and the movie titles.

use crate::lines::all_digits;
use crate::lines::byte_views;
use crate::lines::counts;
use crate::lines::date_value;
use crate::lines::digits_value;
use crate::lines::find_byte;
use crate::lines::first_index;
use crate::lines::is_date;
use crate::lines::is_digit;
use crate::lines::is_u32;
use crate::lines::lemma_first_index;
use crate::lines::only_digits;
use crate::lines::parse_date;
use crate::lines::parse_digits;
use crate::order::distinct_sorted;
use crate::order::increasing;
use crate::order::search;
use vstd::prelude::*;
use vstd::slice::slice_subrange;

verus! {

/// A line of a training block, under the movie whose block it stands in.
#[derive(Clone, Copy, PartialEq, Eq, Structural, Debug)]
pub struct RawRow {
    pub uid: u32,
    pub item: u16,
    pub rating: i8,
    pub date: i16,
}

/// A rating under dense user and item indices.
#[derive(Clone, Copy, PartialEq, Eq, Structural, Debug)]
pub struct Rating {
    pub user: i32,
    pub item: i16,
    pub rating: i8,
    pub date: i16,
}

/// A user and an item.
#[derive(Clone, Copy, PartialEq, Eq, Structural, Debug)]
pub struct Pair {
    pub user: i32,
    pub item: i16,
}

/// A line of the qualifying list.
#[derive(Clone, Copy, PartialEq, Eq, Structural, Debug)]
pub struct QualRow {
    pub user: i32,
    pub item: i16,
    pub date: i16,
}

/// A line of the qualifying ratings: the rating, and 1 where the entry is of the test half.
#[derive(Clone, Copy, PartialEq, Eq, Structural, Debug)]
pub struct QualRating {
    pub rating: i8,
    pub is_test: i8,
}

/// A line that ends in a colon opens the block of an item.
pub open spec fn is_header(line: Seq<u8>) -> bool {
    line.len() > 0 && line.last() == 58
}

fn ends_in_colon(line: &[u8]) -> (r: bool)
    ensures
        r == is_header(line@),
{
    line.len() > 0 && line[line.len() - 1] == 58
}

// ---------------------------------------------------------------------------
// Training blocks
// ---------------------------------------------------------------------------

/// The row that a line `user,rating,date` writes, if it writes one. Of the rating only the first
/// byte counts.
pub open spec fn training_row(line: Seq<u8>, movie: u16) -> Option<RawRow> {
    let c1 = first_index(line, 44, 0);
    let c2 = first_index(line, 44, c1 + 1);
    if c1 < line.len() && c2 < line.len() && is_u32(line.take(c1)) && line[c1 + 1] >= 48 && is_date(
        line.skip(c2 + 1),
    ) {
        Some(
            RawRow {
                uid: digits_value(line.take(c1)) as u32,
                item: movie,
                rating: ((line[c1 + 1] - 48) as u8) as i8,
                date: date_value(line.skip(c2 + 1)) as i16,
            },
        )
    } else {
        None
    }
}

/// The rows that the lines of training blocks write, and the movie whose block is open at their
/// end, where `movie` is open at their start; `None` where a line is neither a header nor a row.
pub open spec fn training_rows(lines: Seq<Seq<u8>>, movie: u16) -> Option<(Seq<RawRow>, u16)>
    decreases lines.len(),
{
    if lines.len() == 0 {
        Some((Seq::empty(), movie))
    } else {
        match training_rows(lines.drop_last(), movie) {
            None => None,
            Some((rows, m)) => {
                let line = lines.last();
                if is_header(line) {
                    if is_u32(line.drop_last()) {
                        Some((rows, (digits_value(line.drop_last()) as u32) as u16))
                    } else {
                        None
                    }
                } else {
                    match training_row(line, m) {
                        None => None,
                        Some(row) => Some((rows.push(row), m)),
                    }
                }
            },
        }
    }
}

fn parse_training_row(line: &[u8], movie: u16) -> (r: Option<RawRow>)
    ensures
        r == training_row(line@, movie),
{
    let c1: usize = match find_byte(line, 44, 0) {
        Some(i) => i,
        None => {
            return None;
        },
    };
    let c2: usize = match find_byte(line, 44, c1 + 1) {
        Some(i) => i,
        None => {
            return None;
        },
    };
    let uid: u32 = match parse_digits(slice_subrange(line, 0, c1)) {
        Some(v) => v,
        None => {
            return None;
        },
    };
    proof {
        lemma_first_index(line@, 44, c1 + 1);
    }
    let r: u8 = line[c1 + 1];
    if r < 48 {
        return None;
    }
    let date: i16 = match parse_date(slice_subrange(line, c2 + 1, line.len())) {
        Some(d) => d,
        None => {
            return None;
        },
    };
    Some(RawRow { uid, item: movie, rating: (r - 48) as i8, date })
}

/// Reads the lines of training blocks, where `movie` is the movie whose block is open, and adds
/// their rows to `rows`. Hands back the movie whose block is open at the end, or `None` where a
/// line is neither a header nor a row.
pub fn read_training(lines: &Vec<Vec<u8>>, movie: u16, rows: &mut Vec<RawRow>) -> (r: Option<u16>)
    ensures
        match training_rows(byte_views(lines@), movie) {
            Some((new, m)) => r == Some(m) && final(rows)@ == old(rows)@ + new,
            None => r is None,
        },
{
    let mut current: u16 = movie;
    let mut i: usize = 0;
    let ghost start = rows@;
    let ghost views = byte_views(lines@);
    proof {
        assert(views.take(0) =~= Seq::empty());
        assert(start + Seq::<RawRow>::empty() =~= start);
    }
    while i < lines.len()
        invariant
            i <= lines.len(),
            views == byte_views(lines@),
            training_rows(views.take(i as int), movie) is Some,
            rows@ == start + training_rows(views.take(i as int), movie)->Some_0.0,
            current == training_rows(views.take(i as int), movie)->Some_0.1,
        decreases lines.len() - i,
    {
        let line: &[u8] = lines[i].as_slice();
        proof {
            assert(views.take(i + 1).drop_last() =~= views.take(i as int));
            assert(views.take(i + 1).last() == line@);
        }
        if ends_in_colon(line) {
            proof {
                assert(line@.drop_last() =~= line@.take(line.len() - 1));
            }
            match parse_digits(slice_subrange(line, 0, line.len() - 1)) {
                Some(v) => {
                    current = v as u16;
                },
                None => {
                    proof {
                        lemma_training_stuck(views, i + 1, movie);
                    }
                    return None;
                },
            }
        } else {
            match parse_training_row(line, current) {
                Some(row) => {
                    rows.push(row);
                    proof {
                        let before = training_rows(views.take(i as int), movie)->Some_0.0;
                        assert((start + before).push(row) =~= start + before.push(row));
                    }
                },
                None => {
                    proof {
                        lemma_training_stuck(views, i + 1, movie);
                    }
                    return None;
                },
            }
        }
        i += 1;
    }
    proof {
        assert(views.take(lines.len() as int) =~= views);
    }
    Some(current)
}

proof fn lemma_training_stuck(lines: Seq<Seq<u8>>, i: int, movie: u16)
    requires
        0 <= i <= lines.len(),
        training_rows(lines.take(i), movie) is None,
    ensures
        training_rows(lines, movie) is None,
    decreases lines.len() - i,
{
    if i < lines.len() {
        assert(lines.take(i + 1).drop_last() =~= lines.take(i));
        lemma_training_stuck(lines, i + 1, movie);
    } else {
        assert(lines.take(i) =~= lines);
    }
}

/// Reading one run of lines after another is reading the two runs in turn.
pub proof fn lemma_training_concat(a: Seq<Seq<u8>>, b: Seq<Seq<u8>>, movie: u16)
    ensures
        training_rows(a + b, movie) == (match training_rows(a, movie) {
            None => None,
            Some((ra, m)) => match training_rows(b, m) {
                None => None,
                Some((rb, m2)) => Some((ra + rb, m2)),
            },
        }),
    decreases b.len(),
{
    if b.len() == 0 {
        assert(a + b =~= a);
        if let Some((ra, m)) = training_rows(a, movie) {
            assert(ra + Seq::<RawRow>::empty() =~= ra);
        }
    } else {
        assert((a + b).drop_last() =~= a + b.drop_last());
        lemma_training_concat(a, b.drop_last(), movie);
        if let Some((ra, m)) = training_rows(a, movie) {
            if let Some((rb, m2)) = training_rows(b.drop_last(), m) {
                if let Some(row) = training_row(b.last(), m2) {
                    assert((ra + rb).push(row) =~= ra + rb.push(row));
                }
            }
        }
    }
}

/// A run of lines that opens with a header.
pub open spec fn self_describing(block: Seq<Seq<u8>>) -> bool {
    block.len() > 0 && is_header(block[0])
}

/// A block that opens with its header reads the same whatever block was open before it.
pub proof fn lemma_training_block_independent(block: Seq<Seq<u8>>, m1: u16, m2: u16)
    requires
        self_describing(block),
    ensures
        training_rows(block, m1) == training_rows(block, m2),
    decreases block.len(),
{
    if block.len() > 1 {
        lemma_training_block_independent(block.drop_last(), m1, m2);
    } else {
        reveal_with_fuel(training_rows, 2);
        assert(block.drop_last() =~= Seq::empty());
        assert(block.last() == block[0]);
    }
}

/// The order of the blocks does not matter: two neighbouring blocks that open with their headers
/// can change places, and the same rows are read.
pub proof fn lemma_training_blocks_commute(
    pre: Seq<Seq<u8>>,
    a: Seq<Seq<u8>>,
    b: Seq<Seq<u8>>,
    post: Seq<Seq<u8>>,
    movie: u16,
)
    requires
        self_describing(a),
        self_describing(b),
        post.len() == 0 || self_describing(post),
    ensures
        match (training_rows(pre + a + b + post, movie), training_rows(pre + b + a + post, movie)) {
            (Some((x, _)), Some((y, _))) => x.to_multiset() == y.to_multiset(),
            (None, None) => true,
            _ => false,
        },
{
    lemma_training_concat(pre, a, movie);
    lemma_training_concat(pre + a, b, movie);
    lemma_training_concat(pre + a + b, post, movie);
    lemma_training_concat(pre, b, movie);
    lemma_training_concat(pre + b, a, movie);
    lemma_training_concat(pre + b + a, post, movie);
    if let Some((rp, m)) = training_rows(pre, movie) {
        let ta = training_rows(a, m);
        let tb = training_rows(b, m);
        if let Some((ra, ma)) = ta {
            lemma_training_block_independent(b, m, ma);
        }
        if let Some((rb, mb)) = tb {
            lemma_training_block_independent(a, m, mb);
        }
        if ta is Some && tb is Some {
            let (ra, ma) = ta->Some_0;
            let (rb, mb) = tb->Some_0;
            if post.len() > 0 {
                lemma_training_block_independent(post, ma, mb);
            }
            if let Some((rt, mt)) = training_rows(post, mb) {
                let x = rp + ra + rb + rt;
                let y = rp + rb + ra + rt;
                vstd::seq_lib::lemma_multiset_commutative(rp + ra + rb, rt);
                vstd::seq_lib::lemma_multiset_commutative(rp + rb + ra, rt);
                vstd::seq_lib::lemma_multiset_commutative(rp + ra, rb);
                vstd::seq_lib::lemma_multiset_commutative(rp + rb, ra);
                vstd::seq_lib::lemma_multiset_commutative(rp, ra);
                vstd::seq_lib::lemma_multiset_commutative(rp, rb);
                assert(x.to_multiset() =~= y.to_multiset());
            }
        }
    }
}

/// Every line below a header, up to the next header, writes a row of the movie that the header
/// opens, whatever came before; and the lines are read if and only if each can be.
pub proof fn lemma_training_block(
    before: Seq<Seq<u8>>,
    header: Seq<u8>,
    body: Seq<Seq<u8>>,
    movie: u16,
)
    requires
        header.len() > 0 && header.last() == 58,
        forall|i: int|
            0 <= i < body.len() ==> (#[trigger] body[i]).len() == 0 || body[i].last() != 58,
    ensures
        ({
            let all = before.push(header) + body;
            let open = (if is_u32(header.drop_last()) {
                Some((digits_value(header.drop_last()) as u32) as u16)
            } else {
                None
            });
            match (training_rows(all, movie), training_rows(before, movie)) {
                (Some((new, last)), Some((old_rows, _))) => {
                    &&& open == Some(last)
                    &&& new.len() == old_rows.len() + body.len()
                    &&& forall|i: int| 0 <= i < old_rows.len() ==> #[trigger] new[i] == old_rows[i]
                    &&& forall|i: int|
                        0 <= i < body.len() ==> #[trigger] new[old_rows.len() + i].item == last
                    &&& forall|i: int|
                        0 <= i < body.len() ==> training_row(#[trigger] body[i], last) == Some(
                            new[old_rows.len() + i],
                        )
                },
                (None, Some(_)) => open is None || exists|i: int|
                    0 <= i < body.len() && training_row(#[trigger] body[i], open->Some_0) is None,
                (r, None) => r is None,
            }
        }),
    decreases body.len(),
{
    let all = before.push(header) + body;
    let open = (if is_u32(header.drop_last()) {
                Some((digits_value(header.drop_last()) as u32) as u16)
            } else {
                None
            });
    if body.len() == 0 {
        assert(all =~= before.push(header));
        assert(all.drop_last() =~= before);
        assert(all.last() == header);
    } else {
        let rest = body.drop_last();
        assert forall|i: int| 0 <= i < rest.len() implies (#[trigger] rest[i]).len() == 0
            || rest[i].last() != 58 by {
            assert(rest[i] == body[i]);
        }
        lemma_training_block(before, header, rest, movie);
        let fewer = before.push(header) + rest;
        let x = body[body.len() - 1];
        assert(all.drop_last() =~= fewer);
        assert(all.last() == x);
        assert(x.len() == 0 || x.last() != 58);
        if training_rows(before, movie) is Some {
            let n = training_rows(before, movie)->Some_0.0.len();
            if training_rows(fewer, movie) is Some {
                let (mid, last) = training_rows(fewer, movie)->Some_0;
                if training_row(x, last) is Some {
                    let row = training_row(x, last)->Some_0;
                    let new = mid.push(row);
                    assert(training_rows(all, movie) == Some((new, last)));
                    assert forall|i: int| 0 <= i < body.len() implies #[trigger] new[n + i].item
                        == last by {
                        if i < rest.len() {
                            assert(new[n + i] == mid[n + i]);
                        }
                    }
                    assert forall|i: int| 0 <= i < body.len() implies training_row(
                        #[trigger] body[i],
                        last,
                    ) == Some(new[n + i]) by {
                        if i < rest.len() {
                            assert(rest[i] == body[i]);
                            assert(new[n + i] == mid[n + i]);
                        }
                    }
                } else {
                    assert(training_row(body[body.len() - 1], open->Some_0) is None);
                }
            } else if open is Some {
                let i = choose|i: int|
                    0 <= i < rest.len() && training_row(#[trigger] rest[i], open->Some_0) is None;
                assert(body[i] == rest[i]);
            }
        }
    }
}

// ---------------------------------------------------------------------------
// Users
// ---------------------------------------------------------------------------

/// The ids of the users who rated anything, increasing. A user's index is the place of the id.
pub struct UserTable {
    pub ids: Vec<u64>,
}

/// `ids` is the table of the users of `rows`.
pub open spec fn is_user_table(ids: Seq<u64>, rows: Seq<RawRow>) -> bool {
    &&& increasing(ids)
    &&& forall|id: u64|
        ids.contains(id) <==> exists|k: int| 0 <= k < rows.len() && #[trigger] rows[k].uid == id
}

/// The index of a user id in a table.
pub open spec fn index_of_user(ids: Seq<u64>, uid: u32, idx: int) -> bool {
    0 <= idx < ids.len() && ids[idx] == uid
}

impl UserTable {
    pub open spec fn wf(&self) -> bool {
        increasing(self.ids@) && self.ids.len() <= i32::MAX
    }

    /// The users of `rows`, if there are `n` of them.
    pub fn build(rows: &Vec<RawRow>, n: usize) -> (r: Option<UserTable>)
        requires
            n <= i32::MAX,
        ensures
            match r {
                Some(t) => t.wf() && t.ids.len() == n && is_user_table(t.ids@, rows@),
                None => forall|ids: Seq<u64>| is_user_table(ids, rows@) ==> ids.len() != n,
            },
    {
        let mut all: Vec<u64> = Vec::with_capacity(rows.len());
        let mut k: usize = 0;
        while k < rows.len()
            invariant
                k <= rows.len(),
                all@ == Seq::new(k as nat, |j: int| rows@[j].uid as u64),
            decreases rows.len() - k,
        {
            all.push(rows[k].uid as u64);
            k += 1;
        }
        let ids: Vec<u64> = distinct_sorted(&all);
        proof {
            assert forall|id: u64|
                ids@.contains(id) <==> exists|k: int|
                    0 <= k < rows@.len() && #[trigger] rows@[k].uid == id by {
                if all@.contains(id) {
                    let k = choose|k: int| 0 <= k < all@.len() && all@[k] == id;
                    assert(rows@[k].uid == id);
                }
                if exists|k: int| 0 <= k < rows@.len() && #[trigger] rows@[k].uid == id {
                    let k = choose|k: int| 0 <= k < rows@.len() && #[trigger] rows@[k].uid == id;
                    assert(all@[k] == id);
                }
            }
            assert forall|other: Seq<u64>| is_user_table(other, rows@) implies other =~= ids@ by {
                lemma_increasing_same(other, ids@);
            }
        }
        if ids.len() == n {
            Some(UserTable { ids })
        } else {
            None
        }
    }

    /// The index of the user `uid`.
    pub fn index_of(&self, uid: u32) -> (r: Option<i32>)
        requires
            self.wf(),
        ensures
            match r {
                Some(i) => index_of_user(self.ids@, uid, i as int),
                None => forall|i: int| !index_of_user(self.ids@, uid, i),
            },
            match r {
                Some(i) => 0 <= i < self.ids.len() && self.ids@[i as int] == uid,
                None => !self.ids@.contains(uid as u64),
            },
    {
        match search(&self.ids, uid as u64) {
            Some(i) => Some(i as i32),
            None => {
                proof {
                    assert forall|i: int| !index_of_user(self.ids@, uid, i) by {
                        if index_of_user(self.ids@, uid, i) {
                            assert(self.ids@.contains(self.ids@[i]));
                        }
                    }
                    if self.ids@.contains(uid as u64) {
                        assert(index_of_user(self.ids@, uid, self.ids@.index_of(uid as u64)));
                    }
                }
                None
            },
        }
    }
}

/// The row of a training line under dense indices. Item ids count from one.
pub open spec fn indexed_row(ids: Seq<u64>, raw: RawRow, row: Rating) -> bool {
    &&& index_of_user(ids, raw.uid, row.user as int)
    &&& row.item == (raw.item as i16) - 1
    &&& row.rating == raw.rating
    &&& row.date == raw.date
}

/// An item id for which there is an index.
pub open spec fn has_index(item: u16) -> bool {
    item as i16 != i16::MIN
}

/// Gives the rows of the table's users their dense indices; `None` where an item id has none.
pub fn index_rows(rows: &Vec<RawRow>, table: &UserTable) -> (r: Option<Vec<Rating>>)
    requires
        table.wf(),
        is_user_table(table.ids@, rows@),
    ensures
        r is Some <==> forall|k: int| 0 <= k < rows.len() ==> has_index(#[trigger] rows@[k].item),
        r matches Some(v) ==> v.len() == rows.len() && forall|k: int|
            0 <= k < v.len() ==> indexed_row(table.ids@, rows@[k], #[trigger] v@[k]),
        r matches Some(v) ==> forall|k: int|
            0 <= k < v.len() ==> 0 <= (#[trigger] v@[k]).user < table.ids.len()
                && table.ids@[v@[k].user as int] == rows@[k].uid && v@[k].item == (rows@[k].item
                as i16) - 1 && v@[k].rating == rows@[k].rating && v@[k].date == rows@[k].date,
{
    let mut out: Vec<Rating> = Vec::with_capacity(rows.len());
    let mut k: usize = 0;
    while k < rows.len()
        invariant
            table.wf(),
            is_user_table(table.ids@, rows@),
            k <= rows.len(),
            out.len() == k,
            forall|j: int| 0 <= j < k ==> has_index(#[trigger] rows@[j].item),
            forall|j: int| 0 <= j < k ==> indexed_row(table.ids@, rows@[j], #[trigger] out@[j]),
        decreases rows.len() - k,
    {
        let raw: RawRow = rows[k];
        let it: i16 = raw.item as i16;
        if it == i16::MIN {
            assert(!has_index(rows@[k as int].item));
            return None;
        }
        match table.index_of(raw.uid) {
            Some(u) => {
                out.push(Rating { user: u, item: it - 1, rating: raw.rating, date: raw.date });
            },
            None => {
                proof {
                    assert(rows@[k as int].uid == raw.uid as u64);
                    assert(table.ids@.contains(raw.uid as u64));
                    let i = choose|i: int|
                        0 <= i < table.ids@.len() && table.ids@[i] == raw.uid as u64;
                    assert(index_of_user(table.ids@, raw.uid, i));
                }
                return None;
            },
        }
        k += 1;
    }
    Some(out)
}

// ---------------------------------------------------------------------------
// Probe and qualifying lists
// ---------------------------------------------------------------------------

/// The item index that a header opens, if it opens one.
pub open spec fn header_item(line: Seq<u8>) -> Option<i16> {
    let v = (digits_value(line.drop_last()) as u32) as i16;
    if is_u32(line.drop_last()) && v != i16::MIN {
        Some((v - 1) as i16)
    } else {
        None
    }
}

fn parse_header_item(line: &[u8]) -> (r: Option<i16>)
    requires
        is_header(line@),
    ensures
        r == header_item(line@),
{
    proof {
        assert(line@.drop_last() =~= line@.take(line.len() - 1));
    }
    match parse_digits(slice_subrange(line, 0, line.len() - 1)) {
        Some(v) => {
            let it: i16 = v as i16;
            if it == i16::MIN {
                None
            } else {
                Some(it - 1)
            }
        },
        None => None,
    }
}

/// The index of a user id, where the table holds it.
pub open spec fn user_index(ids: Seq<u64>, uid: u32) -> Option<i32> {
    if ids.contains(uid as u64) {
        Some(ids.index_of(uid as u64) as i32)
    } else {
        None
    }
}

fn lookup_user(table: &UserTable, uid: u32) -> (r: Option<i32>)
    requires
        table.wf(),
    ensures
        r == user_index(table.ids@, uid),
{
    let r: Option<i32> = table.index_of(uid);
    proof {
        let ids = table.ids@;
        match r {
            Some(i) => {
                assert(ids[i as int] == uid as u64);
                assert(ids.contains(uid as u64));
                let j = ids.index_of(uid as u64);
                crate::order::lemma_increasing_unique(ids, i as int, j);
            },
            None => {
                if ids.contains(uid as u64) {
                    let j = ids.index_of(uid as u64);
                    assert(index_of_user(ids, uid, j));
                }
            },
        }
    }
    r
}

/// The pair that a line of the probe list writes under the open item, if it writes one.
pub open spec fn probe_pair(line: Seq<u8>, item: i16, ids: Seq<u64>, n_items: int) -> Option<Pair> {
    if is_u32(line) && 0 <= item < n_items {
        match user_index(ids, digits_value(line) as u32) {
            Some(user) => Some(Pair { user, item }),
            None => None,
        }
    } else {
        None
    }
}

/// The pairs of the probe list, and the item whose block is open at its end. Before the first
/// header the first item is open. `None` where a line is neither a header nor the id of a known
/// user under an item of the data set.
pub open spec fn probe_pairs(lines: Seq<Seq<u8>>, ids: Seq<u64>, n_items: int) -> Option<
    (Seq<Pair>, i16),
>
    decreases lines.len(),
{
    if lines.len() == 0 {
        Some((Seq::empty(), 0))
    } else {
        match probe_pairs(lines.drop_last(), ids, n_items) {
            None => None,
            Some((pairs, item)) => {
                let line = lines.last();
                if is_header(line) {
                    match header_item(line) {
                        Some(i) => Some((pairs, i)),
                        None => None,
                    }
                } else {
                    match probe_pair(line, item, ids, n_items) {
                        Some(p) => Some((pairs.push(p), item)),
                        None => None,
                    }
                }
            },
        }
    }
}

proof fn lemma_probe_stuck(lines: Seq<Seq<u8>>, i: int, ids: Seq<u64>, n_items: int)
    requires
        0 <= i <= lines.len(),
        probe_pairs(lines.take(i), ids, n_items) is None,
    ensures
        probe_pairs(lines, ids, n_items) is None,
    decreases lines.len() - i,
{
    if i < lines.len() {
        assert(lines.take(i + 1).drop_last() =~= lines.take(i));
        lemma_probe_stuck(lines, i + 1, ids, n_items);
    } else {
        assert(lines.take(i) =~= lines);
    }
}

fn parse_probe_pair(line: &[u8], item: i16, table: &UserTable, n_items: usize) -> (r: Option<Pair>)
    requires
        table.wf(),
    ensures
        r == probe_pair(line@, item, table.ids@, n_items as int),
{
    match parse_digits(line) {
        Some(uid) => {
            if item < 0 || item as usize >= n_items {
                return None;
            }
            match lookup_user(table, uid) {
                Some(user) => Some(Pair { user, item }),
                None => None,
            }
        },
        None => None,
    }
}

/// Reads the probe list.
pub fn read_probe(lines: &Vec<Vec<u8>>, table: &UserTable, n_items: usize) -> (r: Option<Vec<Pair>>)
    requires
        table.wf(),
    ensures
        match probe_pairs(byte_views(lines@), table.ids@, n_items as int) {
            Some((pairs, _)) => r matches Some(v) && v@ == pairs,
            None => r is None,
        },
{
    let mut out: Vec<Pair> = Vec::new();
    let mut item: i16 = 0;
    let mut i: usize = 0;
    let ghost views = byte_views(lines@);
    let ghost ids = table.ids@;
    let ghost n = n_items as int;
    proof {
        assert(views.take(0) =~= Seq::empty());
    }
    while i < lines.len()
        invariant
            table.wf(),
            ids == table.ids@,
            n == n_items,
            i <= lines.len(),
            views == byte_views(lines@),
            probe_pairs(views.take(i as int), ids, n) is Some,
            out@ == probe_pairs(views.take(i as int), ids, n)->Some_0.0,
            item == probe_pairs(views.take(i as int), ids, n)->Some_0.1,
        decreases lines.len() - i,
    {
        let line: &[u8] = lines[i].as_slice();
        proof {
            assert(views.take(i + 1).drop_last() =~= views.take(i as int));
            assert(views.take(i + 1).last() == line@);
        }
        if ends_in_colon(line) {
            match parse_header_item(line) {
                Some(it) => {
                    item = it;
                },
                None => {
                    proof {
                        lemma_probe_stuck(views, i + 1, ids, n);
                    }
                    return None;
                },
            }
        } else {
            match parse_probe_pair(line, item, table, n_items) {
                Some(p) => {
                    out.push(p);
                },
                None => {
                    proof {
                        lemma_probe_stuck(views, i + 1, ids, n);
                    }
                    return None;
                },
            }
        }
        i += 1;
    }
    proof {
        assert(views.take(lines.len() as int) =~= views);
    }
    Some(out)
}

/// The entry that a line `user,date` of the qualifying list writes under the open item.
pub open spec fn qual_row(line: Seq<u8>, item: i16, ids: Seq<u64>) -> Option<QualRow> {
    let c = first_index(line, 44, 0);
    if c < line.len() && is_u32(line.take(c)) && is_date(line.skip(c + 1)) {
        match user_index(ids, digits_value(line.take(c)) as u32) {
            Some(user) => Some(
                QualRow { user, item, date: date_value(line.skip(c + 1)) as i16 },
            ),
            None => None,
        }
    } else {
        None
    }
}

/// The entries of the qualifying list in file order, and the item whose block is open at its end.
pub open spec fn qual_rows(lines: Seq<Seq<u8>>, ids: Seq<u64>) -> Option<(Seq<QualRow>, i16)>
    decreases lines.len(),
{
    if lines.len() == 0 {
        Some((Seq::empty(), 0))
    } else {
        match qual_rows(lines.drop_last(), ids) {
            None => None,
            Some((rows, item)) => {
                let line = lines.last();
                if is_header(line) {
                    match header_item(line) {
                        Some(i) => Some((rows, i)),
                        None => None,
                    }
                } else {
                    match qual_row(line, item, ids) {
                        Some(q) => Some((rows.push(q), item)),
                        None => None,
                    }
                }
            },
        }
    }
}

proof fn lemma_qual_stuck(lines: Seq<Seq<u8>>, i: int, ids: Seq<u64>)
    requires
        0 <= i <= lines.len(),
        qual_rows(lines.take(i), ids) is None,
    ensures
        qual_rows(lines, ids) is None,
    decreases lines.len() - i,
{
    if i < lines.len() {
        assert(lines.take(i + 1).drop_last() =~= lines.take(i));
        lemma_qual_stuck(lines, i + 1, ids);
    } else {
        assert(lines.take(i) =~= lines);
    }
}

fn parse_qual_row(line: &[u8], item: i16, table: &UserTable) -> (r: Option<QualRow>)
    requires
        table.wf(),
    ensures
        r == qual_row(line@, item, table.ids@),
{
    let c: usize = match find_byte(line, 44, 0) {
        Some(i) => i,
        None => {
            return None;
        },
    };
    let uid: u32 = match parse_digits(slice_subrange(line, 0, c)) {
        Some(v) => v,
        None => {
            return None;
        },
    };
    let date: i16 = match parse_date(slice_subrange(line, c + 1, line.len())) {
        Some(d) => d,
        None => {
            return None;
        },
    };
    match lookup_user(table, uid) {
        Some(user) => Some(QualRow { user, item, date }),
        None => None,
    }
}

/// Reads the qualifying list.
pub fn read_qualifying(lines: &Vec<Vec<u8>>, table: &UserTable) -> (r: Option<Vec<QualRow>>)
    requires
        table.wf(),
    ensures
        match qual_rows(byte_views(lines@), table.ids@) {
            Some((rows, _)) => r matches Some(v) && v@ == rows,
            None => r is None,
        },
{
    let mut out: Vec<QualRow> = Vec::new();
    let mut item: i16 = 0;
    let mut i: usize = 0;
    let ghost views = byte_views(lines@);
    let ghost ids = table.ids@;
    proof {
        assert(views.take(0) =~= Seq::empty());
    }
    while i < lines.len()
        invariant
            table.wf(),
            ids == table.ids@,
            i <= lines.len(),
            views == byte_views(lines@),
            qual_rows(views.take(i as int), ids) is Some,
            out@ == qual_rows(views.take(i as int), ids)->Some_0.0,
            item == qual_rows(views.take(i as int), ids)->Some_0.1,
        decreases lines.len() - i,
    {
        let line: &[u8] = lines[i].as_slice();
        proof {
            assert(views.take(i + 1).drop_last() =~= views.take(i as int));
            assert(views.take(i + 1).last() == line@);
        }
        if ends_in_colon(line) {
            match parse_header_item(line) {
                Some(it) => {
                    item = it;
                },
                None => {
                    proof {
                        lemma_qual_stuck(views, i + 1, ids);
                    }
                    return None;
                },
            }
        } else {
            match parse_qual_row(line, item, table) {
                Some(q) => {
                    out.push(q);
                },
                None => {
                    proof {
                        lemma_qual_stuck(views, i + 1, ids);
                    }
                    return None;
                },
            }
        }
        i += 1;
    }
    proof {
        assert(views.take(lines.len() as int) =~= views);
    }
    Some(out)
}

/// Every line of the probe list below a header, up to the next header, writes a pair of the item
/// that the header opens, whatever came before; and the list is read if and only if each line can be.
pub proof fn lemma_probe_block(
    before: Seq<Seq<u8>>,
    header: Seq<u8>,
    body: Seq<Seq<u8>>,
    ids: Seq<u64>,
    n_items: int,
)
    requires
        header.len() > 0 && header.last() == 58,
        forall|i: int|
            0 <= i < body.len() ==> (#[trigger] body[i]).len() == 0 || body[i].last() != 58,
    ensures
        ({
            let all = before.push(header) + body;
            let open = header_item(header);
            match (probe_pairs(all, ids, n_items), probe_pairs(before, ids, n_items)) {
                (Some((new, last)), Some((old_rows, _))) => {
                    &&& open == Some(last)
                    &&& new.len() == old_rows.len() + body.len()
                    &&& forall|i: int| 0 <= i < old_rows.len() ==> #[trigger] new[i] == old_rows[i]
                    &&& forall|i: int|
                        0 <= i < body.len() ==> #[trigger] new[old_rows.len() + i].item == last
                    &&& forall|i: int|
                        0 <= i < body.len() ==> probe_pair(#[trigger] body[i], last, ids, n_items) == Some(
                            new[old_rows.len() + i],
                        )
                },
                (None, Some(_)) => open is None || exists|i: int|
                    0 <= i < body.len() && probe_pair(#[trigger] body[i], open->Some_0, ids, n_items) is None,
                (r, None) => r is None,
            }
        }),
    decreases body.len(),
{
    let all = before.push(header) + body;
    let open = header_item(header);
    if body.len() == 0 {
        assert(all =~= before.push(header));
        assert(all.drop_last() =~= before);
        assert(all.last() == header);
    } else {
        let rest = body.drop_last();
        assert forall|i: int| 0 <= i < rest.len() implies (#[trigger] rest[i]).len() == 0
            || rest[i].last() != 58 by {
            assert(rest[i] == body[i]);
        }
        lemma_probe_block(before, header, rest, ids, n_items);
        let fewer = before.push(header) + rest;
        let x = body[body.len() - 1];
        assert(all.drop_last() =~= fewer);
        assert(all.last() == x);
        assert(x.len() == 0 || x.last() != 58);
        if probe_pairs(before, ids, n_items) is Some {
            let n = probe_pairs(before, ids, n_items)->Some_0.0.len();
            if probe_pairs(fewer, ids, n_items) is Some {
                let (mid, last) = probe_pairs(fewer, ids, n_items)->Some_0;
                if probe_pair(x, last, ids, n_items) is Some {
                    let row = probe_pair(x, last, ids, n_items)->Some_0;
                    let new = mid.push(row);
                    assert(probe_pairs(all, ids, n_items) == Some((new, last)));
                    assert forall|i: int| 0 <= i < body.len() implies #[trigger] new[n + i].item
                        == last by {
                        if i < rest.len() {
                            assert(new[n + i] == mid[n + i]);
                        }
                    }
                    assert forall|i: int| 0 <= i < body.len() implies probe_pair(
                        #[trigger] body[i],
                        last, ids, n_items,
                    ) == Some(new[n + i]) by {
                        if i < rest.len() {
                            assert(rest[i] == body[i]);
                            assert(new[n + i] == mid[n + i]);
                        }
                    }
                } else {
                    assert(probe_pair(body[body.len() - 1], open->Some_0, ids, n_items) is None);
                }
            } else if open is Some {
                let i = choose|i: int|
                    0 <= i < rest.len() && probe_pair(#[trigger] rest[i], open->Some_0, ids, n_items) is None;
                assert(body[i] == rest[i]);
            }
        }
    }
}

/// Every line of the qualifying list below a header, up to the next header, writes an entry of the
/// item that the header opens, whatever came before; and the list is read if and only if each line
/// can be.
pub proof fn lemma_qual_block(
    before: Seq<Seq<u8>>,
    header: Seq<u8>,
    body: Seq<Seq<u8>>,
    ids: Seq<u64>,
)
    requires
        header.len() > 0 && header.last() == 58,
        forall|i: int|
            0 <= i < body.len() ==> (#[trigger] body[i]).len() == 0 || body[i].last() != 58,
    ensures
        ({
            let all = before.push(header) + body;
            let open = header_item(header);
            match (qual_rows(all, ids), qual_rows(before, ids)) {
                (Some((new, last)), Some((old_rows, _))) => {
                    &&& open == Some(last)
                    &&& new.len() == old_rows.len() + body.len()
                    &&& forall|i: int| 0 <= i < old_rows.len() ==> #[trigger] new[i] == old_rows[i]
                    &&& forall|i: int|
                        0 <= i < body.len() ==> #[trigger] new[old_rows.len() + i].item == last
                    &&& forall|i: int|
                        0 <= i < body.len() ==> qual_row(#[trigger] body[i], last, ids) == Some(
                            new[old_rows.len() + i],
                        )
                },
                (None, Some(_)) => open is None || exists|i: int|
                    0 <= i < body.len() && qual_row(#[trigger] body[i], open->Some_0, ids) is None,
                (r, None) => r is None,
            }
        }),
    decreases body.len(),
{
    let all = before.push(header) + body;
    let open = header_item(header);
    if body.len() == 0 {
        assert(all =~= before.push(header));
        assert(all.drop_last() =~= before);
        assert(all.last() == header);
    } else {
        let rest = body.drop_last();
        assert forall|i: int| 0 <= i < rest.len() implies (#[trigger] rest[i]).len() == 0
            || rest[i].last() != 58 by {
            assert(rest[i] == body[i]);
        }
        lemma_qual_block(before, header, rest, ids);
        let fewer = before.push(header) + rest;
        let x = body[body.len() - 1];
        assert(all.drop_last() =~= fewer);
        assert(all.last() == x);
        assert(x.len() == 0 || x.last() != 58);
        if qual_rows(before, ids) is Some {
            let n = qual_rows(before, ids)->Some_0.0.len();
            if qual_rows(fewer, ids) is Some {
                let (mid, last) = qual_rows(fewer, ids)->Some_0;
                if qual_row(x, last, ids) is Some {
                    let row = qual_row(x, last, ids)->Some_0;
                    let new = mid.push(row);
                    assert(qual_rows(all, ids) == Some((new, last)));
                    assert forall|i: int| 0 <= i < body.len() implies #[trigger] new[n + i].item
                        == last by {
                        if i < rest.len() {
                            assert(new[n + i] == mid[n + i]);
                        }
                    }
                    assert forall|i: int| 0 <= i < body.len() implies qual_row(
                        #[trigger] body[i],
                        last, ids,
                    ) == Some(new[n + i]) by {
                        if i < rest.len() {
                            assert(rest[i] == body[i]);
                            assert(new[n + i] == mid[n + i]);
                        }
                    }
                } else {
                    assert(qual_row(body[body.len() - 1], open->Some_0, ids) is None);
                }
            } else if open is Some {
                let i = choose|i: int|
                    0 <= i < rest.len() && qual_row(#[trigger] rest[i], open->Some_0, ids) is None;
                assert(body[i] == rest[i]);
            }
        }
    }
}

/// A header writes the number of its item, counted from one.
pub proof fn lemma_header_item(line: Seq<u8>)
    requires
        line.len() > 0,
        forall|i: int| 0 <= i < line.len() - 1 ==> #[trigger] line[i] >= 48,
        digits_value(line.drop_last()) <= i16::MAX,
    ensures
        header_item(line) == Some((digits_value(line.drop_last()) - 1) as i16),
{
    let v = digits_value(line.drop_last()) as u32;
    assert forall|i: int| 0 <= i < line.drop_last().len() implies counts(
        #[trigger] line.drop_last()[i],
    ) by {
        assert(line.drop_last()[i] == line[i]);
    }
}

/// The user of a pair is the one whose id the line writes, and the item the one that is open.
pub proof fn lemma_probe_pair(line: Seq<u8>, item: i16, ids: Seq<u64>, n_items: int)
    requires
        ids.len() <= i32::MAX,
    ensures
        match probe_pair(line, item, ids, n_items) {
            Some(p) => p.item == item && 0 <= item < n_items && 0 <= p.user < ids.len()
                && ids[p.user as int] == digits_value(line) && is_u32(line),
            None => !is_u32(line) || item < 0 || item >= n_items || !ids.contains(
                digits_value(line) as u64,
            ),
        },
{
}

/// The entry that a line writes: the user whose id stands before the first comma, the item that is
/// open, and the date after the comma.
pub proof fn lemma_qual_row(line: Seq<u8>, c: int, item: i16, ids: Seq<u64>)
    requires
        ids.len() <= i32::MAX,
        0 <= c < line.len(),
        line[c] == 44,
        forall|i: int| 0 <= i < c ==> #[trigger] line[i] != 44,
    ensures
        match qual_row(line, item, ids) {
            Some(q) => q.item == item && 0 <= q.user < ids.len() && ids[q.user as int]
                == digits_value(line.take(c)) && is_u32(line.take(c)) && is_date(line.skip(c + 1))
                && q.date == date_value(line.skip(c + 1)) as i16,
            None => !is_u32(line.take(c)) || !is_date(line.skip(c + 1)) || !ids.contains(
                digits_value(line.take(c)) as u64,
            ),
        },
{
    lemma_comma(line, 0, c);
}

/// A line without a comma writes no row, no entry, no rating and no year.
pub proof fn lemma_no_comma(line: Seq<u8>, movie: u16, item: i16, ids: Seq<u64>, n_items: int)
    requires
        forall|i: int| 0 <= i < line.len() ==> #[trigger] line[i] != 44,
    ensures
        training_row(line, movie) is None,
        qual_row(line, item, ids) is None,
        qual_rating(line) is None,
        title_year(line, n_items) is None,
{
    lemma_first_index(line, 44, 0);
}

/// The row that a line writes: the user before the first comma, the first byte after it as the
/// rating, the date after the second comma, and the movie that is open.
pub proof fn lemma_training_row(line: Seq<u8>, c: int, d: int, movie: u16)
    requires
        0 <= c < d < line.len(),
        line[c] == 44,
        line[d] == 44,
        forall|i: int| 0 <= i < d && i != c ==> #[trigger] line[i] != 44,
    ensures
        match training_row(line, movie) {
            Some(r) => r.item == movie && r.uid == digits_value(line.take(c)) && is_u32(line.take(c))
                && line[c + 1] >= 48 && r.rating == ((line[c + 1] - 48) as u8) as i8 && is_date(
                line.skip(d + 1),
            ) && r.date == date_value(line.skip(d + 1)) as i16,
            None => !is_u32(line.take(c)) || line[c + 1] < 48 || !is_date(line.skip(d + 1)),
        },
{
    lemma_comma(line, 0, c);
    lemma_comma(line, c + 1, d);
}

/// The rating and the half that a line writes: the numbers before and after the first comma.
pub proof fn lemma_qual_rating(line: Seq<u8>, c: int)
    requires
        0 <= c < line.len(),
        line[c] == 44,
        forall|i: int| 0 <= i < c ==> #[trigger] line[i] != 44,
    ensures
        match qual_rating(line) {
            Some(q) => is_u32(line.take(c)) && is_u32(line.skip(c + 1)) && q.rating == (digits_value(
                line.take(c),
            ) as u32) as i8 && q.is_test == (digits_value(line.skip(c + 1)) as u32) as i8,
            None => !is_u32(line.take(c)) || !is_u32(line.skip(c + 1)),
        },
{
    lemma_comma(line, 0, c);
}

proof fn lemma_comma(line: Seq<u8>, from: int, c: int)
    requires
        0 <= from <= c < line.len(),
        line[c] == 44,
        forall|i: int| from <= i < c ==> #[trigger] line[i] != 44,
    ensures
        first_index(line, 44, from) == c,
    decreases c - from,
{
    if from < c {
        lemma_comma(line, from + 1, c);
    }
}

// ---------------------------------------------------------------------------
// Qualifying ratings
// ---------------------------------------------------------------------------

/// The rating and the half that a line `rating,is_test` writes.
pub open spec fn qual_rating(line: Seq<u8>) -> Option<QualRating> {
    let c = first_index(line, 44, 0);
    if c < line.len() && is_u32(line.take(c)) && is_u32(line.skip(c + 1)) {
        Some(
            QualRating {
                rating: (digits_value(line.take(c)) as u32) as i8,
                is_test: (digits_value(line.skip(c + 1)) as u32) as i8,
            },
        )
    } else {
        None
    }
}

fn parse_qual_rating(line: &[u8]) -> (r: Option<QualRating>)
    ensures
        r == qual_rating(line@),
{
    let c: usize = match find_byte(line, 44, 0) {
        Some(i) => i,
        None => {
            return None;
        },
    };
    match (
        parse_digits(slice_subrange(line, 0, c)),
        parse_digits(slice_subrange(line, c + 1, line.len())),
    ) {
        (Some(a), Some(b)) => Some(QualRating { rating: a as i8, is_test: b as i8 }),
        _ => None,
    }
}

/// Reads the qualifying ratings: a header line, which is skipped, and then one entry a line.
/// `None` where a line after the first is not an entry.
pub fn read_qual_ratings(lines: &Vec<Vec<u8>>) -> (r: Option<Vec<QualRating>>)
    ensures
        r is Some <==> forall|k: int| 1 <= k < lines.len() ==> qual_rating(#[trigger] lines@[k]@) is Some,
        r matches Some(v) ==> {
            &&& v.len() == (if lines.len() == 0 {
                0
            } else {
                lines.len() - 1
            })
            &&& forall|k: int|
                0 <= k < v.len() ==> Some(#[trigger] v@[k]) == qual_rating(lines@[k + 1]@)
        },
{
    let mut out: Vec<QualRating> = Vec::new();
    if lines.len() == 0 {
        return Some(out);
    }
    let mut i: usize = 1;
    while i < lines.len()
        invariant
            1 <= i <= lines.len(),
            out.len() == i - 1,
            forall|k: int| 1 <= k < i ==> qual_rating(#[trigger] lines@[k]@) is Some,
            forall|k: int|
                0 <= k < out.len() ==> Some(#[trigger] out@[k]) == qual_rating(lines@[k + 1]@),
        decreases lines.len() - i,
    {
        match parse_qual_rating(lines[i].as_slice()) {
            Some(q) => {
                out.push(q);
            },
            None => {
                assert(qual_rating(lines@[i as int]@) is None);
                return None;
            },
        }
        i += 1;
    }
    Some(out)
}

// ---------------------------------------------------------------------------
// Movie titles
// ---------------------------------------------------------------------------

/// The number that a decimal with an optional sign writes, if it writes one and it fits.
pub open spec fn signed_value(b: Seq<u8>) -> Option<i32> {
    let signed = b.len() > 0 && (b[0] == 43 || b[0] == 45);
    let digits = if signed {
        b.skip(1)
    } else {
        b
    };
    let v = if b.len() > 0 && b[0] == 45 {
        -(digits_value(digits) as int)
    } else {
        digits_value(digits) as int
    };
    if digits.len() > 0 && all_digits(digits) && i32::MIN <= v <= i32::MAX {
        Some(v as i32)
    } else {
        None
    }
}

/// Reads a decimal with an optional sign.
pub fn parse_i32(b: &[u8]) -> (r: Option<i32>)
    ensures
        r == signed_value(b@),
{
    let signed: bool = b.len() > 0 && (b[0] == 43 || b[0] == 45);
    let negative: bool = b.len() > 0 && b[0] == 45;
    let digits: &[u8] = if signed {
        slice_subrange(b, 1, b.len())
    } else {
        b
    };
    proof {
        if signed {
            assert(digits@ =~= b@.skip(1));
        }
    }
    if digits.len() == 0 || !only_digits(digits) {
        return None;
    }
    proof {
        assert forall|i: int| 0 <= i < digits@.len() implies counts(#[trigger] digits@[i]) by {
            assert(is_digit(digits@[i]));
        }
    }
    match parse_digits(digits) {
        None => None,
        Some(v) => {
            let w: i64 = if negative {
                -(v as i64)
            } else {
                v as i64
            };
            if w < -0x8000_0000 || w > 0x7FFF_FFFF {
                None
            } else {
                Some(w as i32)
            }
        },
    }
}

/// The year that a line writes, where `NULL` stands for none and is read as zero.
pub open spec fn year_value(b: Seq<u8>) -> Option<i32> {
    if b == seq![78u8, 85u8, 76u8, 76u8] {
        Some(0)
    } else {
        signed_value(b)
    }
}

/// The place in the list of years that a line `id,year,title` sets, and the year.
pub open spec fn title_year(line: Seq<u8>, n_items: int) -> Option<(int, i32)> {
    let c1 = first_index(line, 44, 0);
    let c2 = first_index(line, 44, c1 + 1);
    if c1 < line.len() && c2 < line.len() && is_u32(line.take(c1)) && 1 <= digits_value(
        line.take(c1),
    ) <= n_items {
        match year_value(line.subrange(c1 + 1, c2)) {
            Some(y) => Some((digits_value(line.take(c1)) - 1, y)),
            None => None,
        }
    } else {
        None
    }
}

/// The years of `n_items` items after the lines of the title list; items that no line names have
/// the year zero, and the last line that names an item counts.
pub open spec fn title_years(lines: Seq<Seq<u8>>, n_items: int) -> Option<Seq<i32>>
    decreases lines.len(),
{
    if lines.len() == 0 {
        Some(Seq::new(n_items as nat, |i: int| 0i32))
    } else {
        match title_years(lines.drop_last(), n_items) {
            None => None,
            Some(years) => match title_year(lines.last(), n_items) {
                Some((i, y)) => Some(years.update(i, y)),
                None => None,
            },
        }
    }
}

fn is_null(b: &[u8]) -> (r: bool)
    ensures
        r == (b@ == seq![78u8, 85u8, 76u8, 76u8]),
{
    let r: bool = b.len() == 4 && b[0] == 78 && b[1] == 85 && b[2] == 76 && b[3] == 76;
    proof {
        if r {
            assert(b@ =~= seq![78u8, 85u8, 76u8, 76u8]);
        }
    }
    r
}

fn parse_title_year(line: &[u8], n_items: usize) -> (r: Option<(usize, i32)>)
    ensures
        match title_year(line@, n_items as int) {
            Some((i, y)) => r matches Some((j, z)) && i == j && y == z && j < n_items,
            None => r is None,
        },
{
    let c1: usize = match find_byte(line, 44, 0) {
        Some(i) => i,
        None => {
            return None;
        },
    };
    let c2: usize = match find_byte(line, 44, c1 + 1) {
        Some(i) => i,
        None => {
            return None;
        },
    };
    proof {
        lemma_first_index(line@, 44, c1 + 1);
    }
    let id: u32 = match parse_digits(slice_subrange(line, 0, c1)) {
        Some(v) => v,
        None => {
            return None;
        },
    };
    if id == 0 || id as u64 > n_items as u64 {
        return None;
    }
    let text: &[u8] = slice_subrange(line, c1 + 1, c2);
    let year: i32 = if is_null(text) {
        0
    } else {
        match parse_i32(text) {
            Some(y) => y,
            None => {
                return None;
            },
        }
    };
    Some((id as usize - 1, year))
}

proof fn lemma_title_stuck(lines: Seq<Seq<u8>>, i: int, n: int)
    requires
        0 <= i <= lines.len(),
        title_years(lines.take(i), n) is None,
    ensures
        title_years(lines, n) is None,
    decreases lines.len() - i,
{
    if i < lines.len() {
        assert(lines.take(i + 1).drop_last() =~= lines.take(i));
        lemma_title_stuck(lines, i + 1, n);
    } else {
        assert(lines.take(i) =~= lines);
    }
}

/// Reads the list of titles for the years of the items.
pub fn read_title_years(lines: &Vec<Vec<u8>>, n_items: usize) -> (r: Option<Vec<i32>>)
    ensures
        match title_years(byte_views(lines@), n_items as int) {
            Some(years) => r matches Some(v) && v@ == years,
            None => r is None,
        },
        r matches Some(v) ==> v.len() == n_items,
{
    let mut years: Vec<i32> = Vec::with_capacity(n_items);
    let mut k: usize = 0;
    while k < n_items
        invariant
            k <= n_items,
            years@ == Seq::new(k as nat, |i: int| 0i32),
        decreases n_items - k,
    {
        years.push(0);
        k += 1;
    }
    let ghost views = byte_views(lines@);
    let ghost n = n_items as int;
    proof {
        assert(views.take(0) =~= Seq::empty());
    }
    let mut i: usize = 0;
    while i < lines.len()
        invariant
            n == n_items,
            i <= lines.len(),
            views == byte_views(lines@),
            years.len() == n_items,
            title_years(views.take(i as int), n) == Some(years@),
        decreases lines.len() - i,
    {
        let line: &[u8] = lines[i].as_slice();
        proof {
            assert(views.take(i + 1).drop_last() =~= views.take(i as int));
            assert(views.take(i + 1).last() == line@);
        }
        match parse_title_year(line, n_items) {
            Some((p, y)) => {
                years.set(p, y);
            },
            None => {
                proof {
                    lemma_title_stuck(views, i + 1, n);
                }
                return None;
            },
        }
        i += 1;
    }
    proof {
        assert(views.take(lines.len() as int) =~= views);
    }
    Some(years)
}

/// The year of an item is the one on the last line that names it, and zero where none does; every
/// line has to name an item of the data set.
pub proof fn lemma_title_years(lines: Seq<Seq<u8>>, n_items: int, item: int)
    requires
        0 <= item < n_items,
    ensures
        match title_years(lines, n_items) {
            Some(years) => {
                &&& years.len() == n_items
                &&& forall|k: int| 0 <= k < lines.len() ==> title_year(#[trigger] lines[k], n_items) is Some
                &&& (exists|k: int|
                    0 <= k < lines.len() && title_year(#[trigger] lines[k], n_items)->Some_0.0 == item
                        && title_year(lines[k], n_items)->Some_0.1 == years[item] && forall|j: int|
                        k < j < lines.len() ==> title_year(#[trigger] lines[j], n_items)->Some_0.0
                            != item) || (years[item] == 0 && forall|k: int|
                    0 <= k < lines.len() ==> title_year(#[trigger] lines[k], n_items)->Some_0.0
                        != item)
            },
            None => exists|k: int|
                0 <= k < lines.len() && title_year(#[trigger] lines[k], n_items) is None,
        },
    decreases lines.len(),
{
    if lines.len() > 0 {
        let h = lines.drop_last();
        let n = lines.len() - 1;
        lemma_title_years(h, n_items, item);
        if title_years(h, n_items) is None {
            let k = choose|k: int| 0 <= k < h.len() && title_year(#[trigger] h[k], n_items) is None;
            assert(lines[k] == h[k]);
        } else if title_year(lines[n], n_items) is Some {
            let old_years = title_years(h, n_items)->Some_0;
            let (i, y) = title_year(lines[n], n_items)->Some_0;
            assert forall|k: int| 0 <= k < lines.len() implies title_year(
                #[trigger] lines[k],
                n_items,
            ) is Some by {
                if k < n {
                    assert(h[k] == lines[k]);
                }
            }
            if i != item {
                if exists|k: int|
                    0 <= k < h.len() && title_year(#[trigger] h[k], n_items)->Some_0.0 == item
                        && title_year(h[k], n_items)->Some_0.1 == old_years[item] && forall|j: int|
                        k < j < h.len() ==> title_year(#[trigger] h[j], n_items)->Some_0.0 != item {
                    let k = choose|k: int|
                        0 <= k < h.len() && title_year(#[trigger] h[k], n_items)->Some_0.0 == item
                            && title_year(h[k], n_items)->Some_0.1 == old_years[item]
                            && forall|j: int|
                            k < j < h.len() ==> title_year(#[trigger] h[j], n_items)->Some_0.0
                                != item;
                    assert(lines[k] == h[k]);
                    assert forall|j: int| k < j < lines.len() implies title_year(
                        #[trigger] lines[j],
                        n_items,
                    )->Some_0.0 != item by {
                        if j < n {
                            assert(h[j] == lines[j]);
                        }
                    }
                } else {
                    assert forall|k: int| 0 <= k < lines.len() implies title_year(
                        #[trigger] lines[k],
                        n_items,
                    )->Some_0.0 != item by {
                        if k < n {
                            assert(h[k] == lines[k]);
                        }
                    }
                }
            } else {
                assert(title_year(lines[n], n_items)->Some_0.0 == item);
            }
        } else {
            assert(title_year(lines[n], n_items) is None);
        }
    }
}

/// The year that a line sets: that of the item whose number stands before the first comma, read
/// between the first comma and the second; `NULL` reads as zero.
pub proof fn lemma_title_year(line: Seq<u8>, c: int, d: int, n_items: int)
    requires
        0 <= c < d < line.len(),
        line[c] == 44,
        line[d] == 44,
        forall|i: int| 0 <= i < d && i != c ==> #[trigger] line[i] != 44,
    ensures
        ({
            let text = line.subrange(c + 1, d);
            let null = text.len() == 4 && text[0] == 78 && text[1] == 85 && text[2] == 76 && text[3]
                == 76;
            let id = digits_value(line.take(c));
            match title_year(line, n_items) {
                Some((i, y)) => is_u32(line.take(c)) && 1 <= id <= n_items && i == id - 1 && (null
                    ==> y == 0) && (!null ==> signed_value(text) == Some(y)),
                None => !is_u32(line.take(c)) || id < 1 || id > n_items || (!null && signed_value(
                    text,
                ) is None),
            }
        }),
{
    lemma_comma(line, 0, c);
    lemma_comma(line, c + 1, d);
    let text = line.subrange(c + 1, d);
    let null = text.len() == 4 && text[0] == 78 && text[1] == 85 && text[2] == 76 && text[3] == 76;
    if null {
        assert(text =~= seq![78u8, 85u8, 76u8, 76u8]);
    }
}

/// The years of the items whose year the title list leaves out.
pub open spec fn fixed_years(years: Seq<i32>) -> Seq<i32> {
    years.update(4387, 2001).update(4793, 2001).update(7240, 2001).update(10781, 1974).update(
        15917,
        1999,
    ).update(16677, 2004).update(17666, 1999)
}

/// Fills in the years that the title list leaves out. A list too short to hold those items stays
/// as it is, and the result says so.
pub fn fix_years(years: &mut Vec<i32>) -> (r: bool)
    ensures
        r == (old(years).len() > 17666),
        final(years)@ == (if r {
            fixed_years(old(years)@)
        } else {
            old(years)@
        }),
{
    if years.len() <= 17666 {
        return false;
    }
    years.set(4387, 2001);
    years.set(4793, 2001);
    years.set(7240, 2001);
    years.set(10781, 1974);
    years.set(15917, 1999);
    years.set(16677, 2004);
    years.set(17666, 1999);
    true
}

/// Two increasing lists with the same members are the same list.
pub proof fn lemma_increasing_same(a: Seq<u64>, b: Seq<u64>)
    requires
        increasing(a),
        increasing(b),
        forall|x: u64| a.contains(x) <==> b.contains(x),
    ensures
        a == b,
    decreases a.len(),
{
    if a.len() == 0 {
        if b.len() > 0 {
            assert(b.contains(b[0]));
        }
        assert(a =~= b);
    } else {
        assert(a.contains(a[0]));
        let x = a.last();
        assert(a.contains(x));
        assert(b.len() > 0);
        let y = b.last();
        assert(b.contains(y));
        let ja = choose|j: int| 0 <= j < a.len() && a[j] == y;
        let jb = choose|j: int| 0 <= j < b.len() && b[j] == x;
        assert(y <= x && x <= y);
        let a1 = a.drop_last();
        let b1 = b.drop_last();
        assert forall|z: u64| a1.contains(z) <==> b1.contains(z) by {
            if a1.contains(z) {
                let i = choose|i: int| 0 <= i < a1.len() && a1[i] == z;
                assert(a[i] == z && a[i] < x);
                assert(a.contains(z));
                let j = choose|j: int| 0 <= j < b.len() && b[j] == z;
                assert(j != b.len() - 1);
                assert(b1[j] == z);
            }
            if b1.contains(z) {
                let i = choose|i: int| 0 <= i < b1.len() && b1[i] == z;
                assert(b[i] == z && b[i] < y);
                assert(b.contains(z));
                let j = choose|j: int| 0 <= j < a.len() && a[j] == z;
                assert(j != a.len() - 1);
                assert(a1[j] == z);
            }
        }
        lemma_increasing_same(a1, b1);
        assert(a =~= a1.push(x));
        assert(b =~= b1.push(y));
    }
}

/// Without a header the lines belong to the movie that was open before them.
pub proof fn lemma_headless_training(body: Seq<Seq<u8>>, movie: u16)
    requires
        forall|i: int|
            0 <= i < body.len() ==> (#[trigger] body[i]).len() == 0 || body[i].last() != 58,
    ensures
        match training_rows(body, movie) {
            Some((rows, open)) => {
                &&& open == movie
                &&& rows.len() == body.len()
                &&& forall|i: int|
                    0 <= i < body.len() ==> training_row(#[trigger] body[i], movie) == Some(rows[i])
            },
            None => exists|i: int|
                0 <= i < body.len() && training_row(#[trigger] body[i], movie) is None,
        },
    decreases body.len(),
{
    if body.len() > 0 {
        let rest = body.drop_last();
        let n = body.len() - 1;
        assert forall|i: int| 0 <= i < rest.len() implies (#[trigger] rest[i]).len() == 0
            || rest[i].last() != 58 by {
            assert(rest[i] == body[i]);
        }
        lemma_headless_training(rest, movie);
        assert(body[n].len() == 0 || body[n].last() != 58);
        if training_rows(rest, movie) is Some {
            let (mid, open) = training_rows(rest, movie)->Some_0;
            if training_row(body[n], movie) is Some {
                let rows = mid.push(training_row(body[n], movie)->Some_0);
                assert(training_rows(body, movie) == Some((rows, open)));
                assert forall|i: int| 0 <= i < body.len() implies training_row(#[trigger] body[i], movie)
                    == Some(rows[i]) by {
                    if i < n {
                        assert(rest[i] == body[i]);
                    }
                }
            }
        } else {
            let i = choose|i: int|
                0 <= i < rest.len() && training_row(#[trigger] rest[i], movie) is None;
            assert(body[i] == rest[i]);
        }
    }
}

/// Without a header the lines of the probe set belong to the first item.
pub proof fn lemma_headless_probe(body: Seq<Seq<u8>>, ids: Seq<u64>, n_items: int)
    requires
        forall|i: int|
            0 <= i < body.len() ==> (#[trigger] body[i]).len() == 0 || body[i].last() != 58,
    ensures
        match probe_pairs(body, ids, n_items) {
            Some((rows, open)) => {
                &&& open == 0
                &&& rows.len() == body.len()
                &&& forall|i: int|
                    0 <= i < body.len() ==> probe_pair(#[trigger] body[i], 0, ids, n_items) == Some(rows[i])
            },
            None => exists|i: int|
                0 <= i < body.len() && probe_pair(#[trigger] body[i], 0, ids, n_items) is None,
        },
    decreases body.len(),
{
    if body.len() > 0 {
        let rest = body.drop_last();
        let n = body.len() - 1;
        assert forall|i: int| 0 <= i < rest.len() implies (#[trigger] rest[i]).len() == 0
            || rest[i].last() != 58 by {
            assert(rest[i] == body[i]);
        }
        lemma_headless_probe(rest, ids, n_items);
        assert(body[n].len() == 0 || body[n].last() != 58);
        if probe_pairs(rest, ids, n_items) is Some {
            let (mid, open) = probe_pairs(rest, ids, n_items)->Some_0;
            if probe_pair(body[n], 0, ids, n_items) is Some {
                let rows = mid.push(probe_pair(body[n], 0, ids, n_items)->Some_0);
                assert(probe_pairs(body, ids, n_items) == Some((rows, open)));
                assert forall|i: int| 0 <= i < body.len() implies probe_pair(#[trigger] body[i], 0, ids, n_items)
                    == Some(rows[i]) by {
                    if i < n {
                        assert(rest[i] == body[i]);
                    }
                }
            }
        } else {
            let i = choose|i: int|
                0 <= i < rest.len() && probe_pair(#[trigger] rest[i], 0, ids, n_items) is None;
            assert(body[i] == rest[i]);
        }
    }
}

/// Without a header the lines of the qualifying set belong to the first item.
pub proof fn lemma_headless_qual(body: Seq<Seq<u8>>, ids: Seq<u64>)
    requires
        forall|i: int|
            0 <= i < body.len() ==> (#[trigger] body[i]).len() == 0 || body[i].last() != 58,
    ensures
        match qual_rows(body, ids) {
            Some((rows, open)) => {
                &&& open == 0
                &&& rows.len() == body.len()
                &&& forall|i: int|
                    0 <= i < body.len() ==> qual_row(#[trigger] body[i], 0, ids) == Some(rows[i])
            },
            None => exists|i: int|
                0 <= i < body.len() && qual_row(#[trigger] body[i], 0, ids) is None,
        },
    decreases body.len(),
{
    if body.len() > 0 {
        let rest = body.drop_last();
        let n = body.len() - 1;
        assert forall|i: int| 0 <= i < rest.len() implies (#[trigger] rest[i]).len() == 0
            || rest[i].last() != 58 by {
            assert(rest[i] == body[i]);
        }
        lemma_headless_qual(rest, ids);
        assert(body[n].len() == 0 || body[n].last() != 58);
        if qual_rows(rest, ids) is Some {
            let (mid, open) = qual_rows(rest, ids)->Some_0;
            if qual_row(body[n], 0, ids) is Some {
                let rows = mid.push(qual_row(body[n], 0, ids)->Some_0);
                assert(qual_rows(body, ids) == Some((rows, open)));
                assert forall|i: int| 0 <= i < body.len() implies qual_row(#[trigger] body[i], 0, ids)
                    == Some(rows[i]) by {
                    if i < n {
                        assert(rest[i] == body[i]);
                    }
                }
            }
        } else {
            let i = choose|i: int|
                0 <= i < rest.len() && qual_row(#[trigger] rest[i], 0, ids) is None;
            assert(body[i] == rest[i]);
        }
    }
}

/// A movie id has an item index unless it is the one that has none before it.
pub proof fn lemma_has_index(item: u16)
    ensures
        has_index(item) <==> item != 0x8000,
{
    assert(item as i16 != -32768i16 <==> item != 0x8000u16) by (bit_vector);
}

/// A user's index is the place of the user's id in the table, and every id of the table has one.
pub proof fn lemma_user_index(ids: Seq<u64>, uid: u32)
    requires
        increasing(ids),
        ids.len() <= i32::MAX,
    ensures
        match user_index(ids, uid) {
            Some(u) => 0 <= u < ids.len() && ids[u as int] == uid,
            None => forall|u: int| 0 <= u < ids.len() ==> #[trigger] ids[u] != uid,
        },
{
    if ids.contains(uid as u64) {
        let u = ids.index_of(uid as u64);
        assert(ids[u] == uid);
    }
}

/// Seven years are filled in, and every other one stays as it is.
pub proof fn lemma_fixed_years(years: Seq<i32>, i: int)
    requires
        17666 < years.len(),
        0 <= i < years.len(),
    ensures
        fixed_years(years).len() == years.len(),
        i != 4387 && i != 4793 && i != 7240 && i != 10781 && i != 15917 && i != 16677 && i != 17666
            ==> fixed_years(years)[i] == years[i],
        i == 4387 || i == 4793 || i == 7240 ==> fixed_years(years)[i] == 2001,
        i == 10781 ==> fixed_years(years)[i] == 1974,
        i == 15917 || i == 17666 ==> fixed_years(years)[i] == 1999,
        i == 16677 ==> fixed_years(years)[i] == 2004,
{
}

/// A number is digits, with a sign before them or not, as far as 32 bits go.
pub proof fn lemma_signed_value(digits: Seq<u8>)
    requires
        digits.len() > 0,
        forall|i: int| 0 <= i < digits.len() ==> 48 <= #[trigger] digits[i] <= 57,
    ensures
        ({
            let v = digits_value(digits) as int;
            &&& signed_value(digits) == (if v <= i32::MAX {
                Some(v as i32)
            } else {
                None
            })
            &&& signed_value(seq![43u8] + digits) == signed_value(digits)
            &&& signed_value(seq![45u8] + digits) == (if -v >= i32::MIN {
                Some((-v) as i32)
            } else {
                None
            })
        }),
{
    crate::lines::lemma_numbers_read(digits);
    assert((seq![43u8] + digits).skip(1) =~= digits);
    assert((seq![45u8] + digits).skip(1) =~= digits);
    assert(48 <= digits[0] <= 57);
}

/// A text with anything but digits behind its sign is no number, and neither is one without a digit.
pub proof fn lemma_signed_refused(b: Seq<u8>, i: int)
    requires
        b.len() == 0 || (b.len() == 1 && (b[0] == 43 || b[0] == 45)) || (0 <= i < b.len() && !(48
            <= b[i] <= 57) && (i > 0 || (b[0] != 43 && b[0] != 45))),
    ensures
        signed_value(b) is None,
{
    let signed = b.len() > 0 && (b[0] == 43 || b[0] == 45);
    let digits = if signed {
        b.skip(1)
    } else {
        b
    };
    crate::lines::lemma_numbers_read(digits);
    if digits.len() > 0 {
        if signed {
            assert(digits[i - 1] == b[i]);
        } else {
            assert(digits[i] == b[i]);
        }
    }
}

/// A header has an item unless it writes no number of 32 bits, or one whose lower half has no index.
pub proof fn lemma_header_refused(line: Seq<u8>)
    requires
        line.len() > 0,
    ensures
        header_item(line) is None <==> !is_u32(line.drop_last()) || digits_value(line.drop_last())
            % 0x1_0000 == 0x8000,
{
    let v = digits_value(line.drop_last()) as u32;
    assert(v as i16 == -32768i16 <==> v % 0x1_0000 == 0x8000) by (bit_vector);
}

} // verus!
