//! Passes over rows in blocks, and where the pieces of a system of normal equations lie.

use vstd::prelude::*;

verus! {

/// The rows that one block of a streaming pass holds at most.
pub const ROW_BLOCK: usize = 100_000;

/// A run of rows.
#[derive(Clone, Copy, PartialEq, Eq, Structural, Debug)]
pub struct Block {
    pub start: usize,
    pub len: usize,
}

/// The blocks of `n` rows from `start` on, each of `size` rows but for the last.
pub open spec fn blocks_from(start: int, n: int, size: int) -> Seq<Block>
    decreases n - start,
{
    if start >= n || size <= 0 {
        Seq::empty()
    } else if n - start <= size {
        seq![(Block { start: start as usize, len: (n - start) as usize })]
    } else {
        seq![(Block { start: start as usize, len: size as usize })] + blocks_from(
            start + size,
            n,
            size,
        )
    }
}

/// Cuts `n` rows into blocks of `size` rows, the last one perhaps shorter.
pub fn row_blocks(n: usize, size: usize) -> (r: Vec<Block>)
    requires
        size > 0,
    ensures
        r@ == blocks_from(0, n as int, size as int),
{
    let mut out: Vec<Block> = Vec::new();
    let mut start: usize = 0;
    proof {
        assert(out@ + blocks_from(0, n as int, size as int) =~= blocks_from(
            0,
            n as int,
            size as int,
        ));
    }
    while start < n
        invariant
            start <= n,
            size > 0,
            out@ + blocks_from(start as int, n as int, size as int) == blocks_from(
                0,
                n as int,
                size as int,
            ),
        decreases n - start,
    {
        let ghost before = out@;
        let left: usize = n - start;
        let len: usize = if left < size {
            left
        } else {
            size
        };
        let b: Block = Block { start, len };
        out.push(b);
        proof {
            let rest = blocks_from(start + len, n as int, size as int);
            assert(blocks_from(start as int, n as int, size as int) =~= seq![b] + rest);
            assert(out@ + rest =~= before + blocks_from(start as int, n as int, size as int));
        }
        start += len;
    }
    proof {
        assert(out@ + blocks_from(start as int, n as int, size as int) =~= out@);
    }
    out
}

/// The blocks follow each other without a gap, from the first row to the last; none is empty, and
/// none is larger than it may be.
pub proof fn lemma_blocks_cover(start: int, n: int, size: int, row: int)
    requires
        0 <= start <= row < n <= usize::MAX,
        0 < size <= usize::MAX,
    ensures
        exists|k: int|
            0 <= k < blocks_from(start, n, size).len() && (#[trigger] blocks_from(
                start,
                n,
                size,
            )[k]).start <= row < blocks_from(start, n, size)[k].start + blocks_from(
                start,
                n,
                size,
            )[k].len,
    decreases n - start,
{
    let all = blocks_from(start, n, size);
    if n - start <= size || row < start + size {
        assert(all[0].start <= row < all[0].start + all[0].len);
    } else {
        lemma_blocks_cover(start + size, n, size, row);
        let rest = blocks_from(start + size, n, size);
        let k = choose|k: int|
            0 <= k < rest.len() && (#[trigger] rest[k]).start <= row < rest[k].start + rest[k].len;
        assert(all[k + 1] == rest[k]);
    }
}

/// Each block begins where the one before it ends; the first begins at the first row and the last
/// ends at the last.
pub proof fn lemma_blocks_follow(start: int, n: int, size: int, k: int)
    requires
        0 <= start < n <= usize::MAX,
        0 < size <= usize::MAX,
        0 <= k < blocks_from(start, n, size).len(),
    ensures
        0 < blocks_from(start, n, size)[k].len <= size,
        k == 0 ==> blocks_from(start, n, size)[k].start == start,
        k + 1 < blocks_from(start, n, size).len() ==> blocks_from(start, n, size)[k + 1].start
            == blocks_from(start, n, size)[k].start + blocks_from(start, n, size)[k].len,
        k + 1 == blocks_from(start, n, size).len() ==> blocks_from(start, n, size)[k].start
            + blocks_from(start, n, size)[k].len == n,
    decreases n - start,
{
    if n - start > size {
        let all = blocks_from(start, n, size);
        let rest = blocks_from(start + size, n, size);
        assert(rest.len() > 0);
        if k > 0 {
            lemma_blocks_follow(start + size, n, size, k - 1);
            assert(all[k] == rest[k - 1]);
            if k + 1 < all.len() {
                assert(all[k + 1] == rest[k]);
            }
        } else {
            lemma_blocks_follow(start + size, n, size, 0);
            assert(all[1] == rest[0]);
        }
    }
}

// ---------------------------------------------------------------------------
// Rows of a fold, rows that count
// ---------------------------------------------------------------------------

/// The rows of a run that belong to a fold, counted from the beginning of the run.
pub open spec fn members(fold_of: Seq<u32>, start: int, len: int, fold: int) -> Seq<usize>
    decreases len,
{
    if len <= 0 {
        Seq::empty()
    } else if fold_of[start + len - 1] == fold {
        members(fold_of, start, len - 1, fold).push((len - 1) as usize)
    } else {
        members(fold_of, start, len - 1, fold)
    }
}

/// Lists the rows of a block that belong to a fold, counted from the beginning of the block.
pub fn fold_members(fold_of: &Vec<u32>, block: Block, fold: u32) -> (r: Vec<usize>)
    requires
        block.start + block.len <= fold_of.len(),
    ensures
        r@ == members(fold_of@, block.start as int, block.len as int, fold as int),
{
    let mut out: Vec<usize> = Vec::new();
    let mut k: usize = 0;
    while k < block.len
        invariant
            k <= block.len,
            block.start + block.len <= fold_of.len(),
            out@ == members(fold_of@, block.start as int, k as int, fold as int),
        decreases block.len - k,
    {
        if fold_of[block.start + k] == fold {
            out.push(k);
        }
        k += 1;
    }
    out
}

/// A row of a block stands in the list of its own fold and in no other.
pub proof fn lemma_members(fold_of: Seq<u32>, start: int, len: int, fold: int, k: usize)
    requires
        0 <= start,
        0 <= len <= usize::MAX,
        start + len <= fold_of.len(),
    ensures
        members(fold_of, start, len, fold).contains(k) <==> k < len && fold_of[start + k] == fold,
    decreases len,
{
    if len > 0 {
        lemma_members(fold_of, start, len - 1, fold, k);
        let a = members(fold_of, start, len - 1, fold);
        let b = members(fold_of, start, len, fold);
        if a.contains(k) {
            let i = a.index_of(k);
            assert(b[i] == k);
        }
        if b.contains(k) {
            let i = b.index_of(k);
            if i < a.len() {
                assert(a[i] == k);
            }
        }
        if fold_of[start + len - 1] == fold {
            assert(b[a.len() as int] == (len - 1) as usize);
        }
    }
}

/// How many rows are not held out.
pub open spec fn open_rows(is_test: Seq<i8>) -> int
    decreases is_test.len(),
{
    if is_test.len() == 0 {
        0
    } else if is_test.last() == 0 {
        open_rows(is_test.drop_last()) + 1
    } else {
        open_rows(is_test.drop_last())
    }
}

/// Counts the rows that are not held out, and those that are.
pub fn count_rows(is_test: &Vec<i8>) -> (r: (usize, usize))
    ensures
        r.0 == open_rows(is_test@),
        r.0 + r.1 == is_test.len(),
{
    let mut n: usize = 0;
    let mut i: usize = 0;
    proof {
        assert(is_test@.take(0) =~= Seq::<i8>::empty());
    }
    while i < is_test.len()
        invariant
            i <= is_test.len(),
            n <= i,
            n == open_rows(is_test@.take(i as int)),
        decreases is_test.len() - i,
    {
        proof {
            assert(is_test@.take(i + 1).drop_last() =~= is_test@.take(i as int));
            assert(is_test@.take(i + 1).last() == is_test@[i as int]);
        }
        if is_test[i] == 0 {
            n += 1;
        }
        i += 1;
    }
    proof {
        assert(is_test@.take(is_test.len() as int) =~= is_test@);
    }
    (n, is_test.len() - n)
}

// ---------------------------------------------------------------------------
// Systems
// ---------------------------------------------------------------------------

/// The columns of a fit: those chosen, and the bias last.
pub fn with_bias(indices: &Vec<usize>, dim: usize) -> (r: Vec<usize>)
    requires
        dim > 0,
    ensures
        r@ == indices@.push((dim - 1) as usize),
{
    let mut out: Vec<usize> = Vec::new();
    let mut i: usize = 0;
    while i < indices.len()
        invariant
            i <= indices.len(),
            out@ =~= indices@.take(i as int),
        decreases indices.len() - i,
    {
        out.push(indices[i]);
        i += 1;
    }
    out.push(dim - 1);
    proof {
        assert(out@ =~= indices@.push((dim - 1) as usize));
    }
    out
}

/// The place of a row and a column in a square matrix stored by rows.
pub open spec fn cell(i: int, j: int, dim: int) -> int {
    i * dim + j
}

/// Where the entries of a part of a square matrix lie: those of the chosen rows and columns, by
/// rows.
pub fn part_places(chosen: &Vec<usize>, dim: usize) -> (r: Vec<usize>)
    requires
        forall|k: int| 0 <= k < chosen.len() ==> #[trigger] chosen@[k] < dim,
        dim * dim <= usize::MAX,
        chosen.len() * chosen.len() <= usize::MAX,
    ensures
        r.len() == chosen.len() * chosen.len(),
        forall|a: int, b: int|
            0 <= a < chosen.len() && 0 <= b < chosen.len() ==> r@[#[trigger] cell(
                a,
                b,
                chosen.len() as int,
            )] == cell(chosen@[a] as int, chosen@[b] as int, dim as int),
{
    let n: usize = chosen.len();
    let mut out: Vec<usize> = Vec::new();
    let mut a: usize = 0;
    proof {
        assert(0 * n == 0);
    }
    while a < n
        invariant
            a <= n,
            n == chosen.len(),
            forall|k: int| 0 <= k < chosen.len() ==> #[trigger] chosen@[k] < dim,
            dim * dim <= usize::MAX,
            out.len() == a * n,
            forall|x: int, y: int|
                0 <= x < a && 0 <= y < n ==> out@[#[trigger] cell(x, y, n as int)] == cell(
                    chosen@[x] as int,
                    chosen@[y] as int,
                    dim as int,
                ),
        decreases n - a,
    {
        let i: usize = chosen[a];
        let mut b: usize = 0;
        while b < n
            invariant
                a < n,
                b <= n,
                n == chosen.len(),
                i == chosen@[a as int],
                forall|k: int| 0 <= k < chosen.len() ==> #[trigger] chosen@[k] < dim,
                dim * dim <= usize::MAX,
                out.len() == a * n + b,
                forall|x: int, y: int|
                    0 <= x < a && 0 <= y < n ==> out@[#[trigger] cell(x, y, n as int)] == cell(
                        chosen@[x] as int,
                        chosen@[y] as int,
                        dim as int,
                    ),
                forall|y: int|
                    0 <= y < b ==> out@[#[trigger] cell(a as int, y, n as int)] == cell(
                        i as int,
                        chosen@[y] as int,
                        dim as int,
                    ),
            decreases n - b,
        {
            let j: usize = chosen[b];
            proof {
                assert(chosen@[a as int] < dim);
                assert(chosen@[b as int] < dim);
                assert(i * dim + j < dim * dim) by (nonlinear_arith)
                    requires
                        i < dim,
                        j < dim,
                ;
                assert(i * dim <= dim * dim) by (nonlinear_arith)
                    requires
                        i < dim,
                ;
            }
            let ghost before = out@;
            out.push(i * dim + j);
            proof {
                assert forall|x: int, y: int| 0 <= x < a && 0 <= y < n implies out@[
                #[trigger] cell(x, y, n as int)] == cell(
                    chosen@[x] as int,
                    chosen@[y] as int,
                    dim as int,
                ) by {
                    lemma_cell_before(x, y, a as int, n as int);
                    assert(before[cell(x, y, n as int)] == out@[cell(x, y, n as int)]);
                }
                assert forall|y: int| 0 <= y < b + 1 implies out@[#[trigger] cell(
                    a as int,
                    y,
                    n as int,
                )] == cell(i as int, chosen@[y] as int, dim as int) by {
                    if y < b {
                        lemma_cell_before(a as int, y, a + 1, n as int);
                        assert(before[cell(a as int, y, n as int)] == out@[cell(
                            a as int,
                            y,
                            n as int,
                        )]);
                    }
                }
            }
            b += 1;
        }
        proof {
            assert((a + 1) * n == a * n + n) by (nonlinear_arith);
            assert forall|x: int, y: int| 0 <= x < a + 1 && 0 <= y < n implies out@[
            #[trigger] cell(x, y, n as int)] == cell(
                chosen@[x] as int,
                chosen@[y] as int,
                dim as int,
            ) by {
                if x == a {
                    assert(out@[cell(a as int, y, n as int)] == cell(
                        i as int,
                        chosen@[y] as int,
                        dim as int,
                    ));
                }
            }
        }
        a += 1;
    }
    out
}

proof fn lemma_cell_before(x: int, y: int, a: int, n: int)
    requires
        0 <= x < a,
        0 <= y < n,
    ensures
        0 <= cell(x, y, n) < a * n,
{
    assert(0 <= x * n && x * n + n <= a * n) by (nonlinear_arith)
        requires
            0 <= x < a,
            0 <= n,
    ;
}

/// Every block but the last is full.
pub proof fn lemma_blocks_full(start: int, n: int, size: int, k: int)
    requires
        0 <= start < n <= usize::MAX,
        0 < size <= usize::MAX,
        0 <= k < blocks_from(start, n, size).len() - 1,
    ensures
        blocks_from(start, n, size)[k].len == size,
        blocks_from(start, n, size)[k].start == start + k * size,
    decreases n - start,
{
    let rest = blocks_from(start + size, n, size);
    if k > 0 {
        lemma_blocks_full(start + size, n, size, k - 1);
        assert(blocks_from(start, n, size)[k] == rest[k - 1]);
        assert(size + (k - 1) * size == k * size) by (nonlinear_arith);
    } else {
        assert(0 * size == 0);
    }
}

/// The members of a fold come in order.
pub proof fn lemma_members_in_order(fold_of: Seq<u32>, start: int, len: int, fold: int)
    requires
        0 <= start,
        0 <= len <= usize::MAX,
        start + len <= fold_of.len(),
    ensures
        forall|i: int, j: int|
            0 <= i < j < members(fold_of, start, len, fold).len() ==> #[trigger] members(
                fold_of,
                start,
                len,
                fold,
            )[i] < #[trigger] members(fold_of, start, len, fold)[j],
    decreases len,
{
    if len > 0 {
        lemma_members_in_order(fold_of, start, len - 1, fold);
        let a = members(fold_of, start, len - 1, fold);
        let b = members(fold_of, start, len, fold);
        assert forall|i: int, j: int| 0 <= i < j < b.len() implies #[trigger] b[i] < #[trigger] b[j] by {
            assert(b[i] == a[i]);
            lemma_members(fold_of, start, len - 1, fold, a[i]);
            assert(a.contains(a[i]));
            if j < a.len() {
                assert(b[j] == a[j]);
            }
        }
    }
}

/// The open rows are those that are not marked for the test.
pub proof fn lemma_open_rows(is_test: Seq<i8>)
    ensures
        open_rows(is_test) == is_test.filter(|t: i8| t == 0).len(),
    decreases is_test.len(),
{
    reveal(Seq::filter);
    if is_test.len() > 0 {
        lemma_open_rows(is_test.drop_last());
        assert(is_test =~= is_test.drop_last().push(is_test.last()));
        is_test.drop_last().lemma_filter_push(is_test.last(), |t: i8| t == 0);
    }
}

/// The cells of a square go row by row, and no two are at one place.
pub proof fn lemma_cells(dim: int, i: int, j: int, k: int, l: int)
    requires
        0 <= i < dim,
        0 <= j < dim,
        0 <= k < dim,
        0 <= l < dim,
    ensures
        cell(0, 0, dim) == 0,
        cell(i, j + 1, dim) == cell(i, j, dim) + 1,
        cell(i + 1, 0, dim) == cell(i, dim - 1, dim) + 1,
        0 <= cell(i, j, dim) < dim * dim,
        cell(i, j, dim) == cell(k, l, dim) ==> i == k && j == l,
{
    assert(0 * dim == 0);
    assert((i + 1) * dim == i * dim + dim) by (nonlinear_arith);
    assert(0 <= i * dim + j < dim * dim) by (nonlinear_arith)
        requires
            0 <= i < dim,
            0 <= j < dim,
    ;
    if i < k {
        assert(i * dim + dim <= k * dim) by (nonlinear_arith)
            requires
                i < k,
                0 < dim,
        ;
    } else if k < i {
        assert(k * dim + dim <= i * dim) by (nonlinear_arith)
            requires
                k < i,
                0 < dim,
        ;
    }
}

} // verus!
