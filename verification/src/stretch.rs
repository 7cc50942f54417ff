//! The beginnings of walks through the grid, and how many there are.

use vstd::prelude::*;
use vstd::relations::injective_on;
use vstd::set_lib::*;

use crate::head::cell_at;
use crate::search::{subtree_moves, branch_moves, moves_below, lemma_same_cell};
use crate::walk::row_step;

verus! {

/// `q` runs to the right from column `c`, one column per cell, within the
/// first `rows` rows and `cols` columns, each step changing the row by at
/// most one.
pub open spec fn stretch(q: Seq<[u8; 2]>, c: int, rows: int, cols: int) -> bool {
    &&& 1 <= q.len()
    &&& c + q.len() <= cols
    &&& forall|k: int| 0 <= k < q.len() ==> (#[trigger] q[k])[1] == c + k && q[k][0] < rows
    &&& forall|i: int, j: int|
        0 <= i && j == i + 1 && j < q.len() ==> row_step(#[trigger] q[i], #[trigger] q[j])
}

/// The stretches from column `c` that start in row `r`.
pub open spec fn stretches_from(r: int, c: int, rows: int, cols: int) -> Set<Seq<[u8; 2]>> {
    Set::new(|q: Seq<[u8; 2]>| stretch(q, c, rows, cols) && q[0][0] == r)
}

/// Every beginning of a walk through the grid: its first cells, one or
/// more, from the first column on.
pub open spec fn walk_beginnings(rows: int, cols: int) -> Set<Seq<[u8; 2]>> {
    Set::new(|q: Seq<[u8; 2]>| stretch(q, 0, rows, cols))
}

/// How many stretches from column `c` start in row `r`: the one of a single
/// cell, and for each neighbour in the next column those that go on there.
pub open spec fn stretch_count(r: int, c: int, rows: int, cols: int) -> nat
    decreases cols - c,
{
    if 0 <= r < rows && 0 <= c < cols {
        1 + stretch_count(r - 1, c + 1, rows, cols) + stretch_count(r, c + 1, rows, cols)
            + stretch_count(r + 1, c + 1, rows, cols)
    } else {
        0
    }
}

/// How many stretches from the first column start in one of the first `k`
/// rows.
pub open spec fn stretch_count_below(k: int, rows: int, cols: int) -> nat
    decreases k,
{
    if k <= 0 {
        0
    } else {
        stretch_count_below(k - 1, rows, cols) + stretch_count(k - 1, 0, rows, cols)
    }
}

/// Searching below a cell and coming back takes two moves for each stretch
/// from it, less two: one step there and one back for every other stretch.
pub proof fn lemma_subtree_stretches(r: int, c: int, rows: int, cols: int)
    requires
        0 <= r < rows,
        0 <= c < cols,
    ensures
        subtree_moves(r, c, rows, cols) + 2 == 2 * stretch_count(r, c, rows, cols),
    decreases cols - c,
{
    assert(stretch_count(r, c, rows, cols) == 1 + stretch_count(r - 1, c + 1, rows, cols)
        + stretch_count(r, c + 1, rows, cols) + stretch_count(r + 1, c + 1, rows, cols));
    if c + 1 < cols {
        if 0 <= r - 1 {
            lemma_subtree_stretches(r - 1, c + 1, rows, cols);
        }
        lemma_subtree_stretches(r, c + 1, rows, cols);
        if r + 1 < rows {
            lemma_subtree_stretches(r + 1, c + 1, rows, cols);
        }
        assert(branch_moves(r - 1, c, rows, cols) == 2 * stretch_count(r - 1, c + 1, rows, cols));
        assert(branch_moves(r, c, rows, cols) == 2 * stretch_count(r, c + 1, rows, cols));
        assert(branch_moves(r + 1, c, rows, cols) == 2 * stretch_count(r + 1, c + 1, rows, cols));
    } else {
        assert(stretch_count(r - 1, c + 1, rows, cols) == 0);
        assert(stretch_count(r, c + 1, rows, cols) == 0);
        assert(stretch_count(r + 1, c + 1, rows, cols) == 0);
    }
}

/// The stretches from a cell that go on to row `rho` of the next column:
/// the cell followed by each stretch from there.
spec fn stretches_on(r: int, c: int, rho: int, rows: int, cols: int) -> Set<Seq<[u8; 2]>> {
    stretches_from(rho, c + 1, rows, cols).map(|t: Seq<[u8; 2]>| seq![cell_at(r, c)] + t)
}

/// A stretch of two or more cells is its first cell followed by a stretch
/// from the next column, which starts next to it.
proof fn lemma_stretch_split(q: Seq<[u8; 2]>, r: int, c: int, rows: int, cols: int)
    requires
        stretches_from(r, c, rows, cols).contains(q),
        q.len() >= 2,
        0 <= c,
        cols <= 256,
    ensures
        stretches_from(q[1][0] as int, c + 1, rows, cols).contains(q.subrange(1, q.len() as int)),
        stretches_on(r, c, q[1][0] as int, rows, cols).contains(q),
        r - 1 <= q[1][0] <= r + 1,
{
    let t = q.subrange(1, q.len() as int);
    assert(row_step(q[0], q[1]));
    assert forall|k: int| 0 <= k < t.len() implies (#[trigger] t[k])[1] == c + 1 + k && t[k][0]
        < rows by {
        assert(t[k] == q[k + 1]);
    }
    assert forall|i: int, j: int| 0 <= i && j == i + 1 && j < t.len() implies row_step(
        #[trigger] t[i],
        #[trigger] t[j],
    ) by {
        assert(t[i] == q[i + 1] && t[j] == q[j + 1]);
    }
    assert(stretches_from(q[1][0] as int, c + 1, rows, cols).contains(t));
    lemma_same_cell(q[0], cell_at(r, c));
    assert(q =~= seq![cell_at(r, c)] + t);
}

/// The cell followed by a stretch from a neighbour in the next column is a
/// stretch from the cell.
proof fn lemma_stretch_join(t: Seq<[u8; 2]>, r: int, c: int, rho: int, rows: int, cols: int)
    requires
        stretches_from(rho, c + 1, rows, cols).contains(t),
        0 <= r < rows,
        0 <= c,
        rows <= 256,
        cols <= 256,
        r - 1 <= rho <= r + 1,
    ensures
        stretches_from(r, c, rows, cols).contains(seq![cell_at(r, c)] + t),
        (seq![cell_at(r, c)] + t).len() >= 2,
        (seq![cell_at(r, c)] + t)[1][0] == rho,
{
    let q = seq![cell_at(r, c)] + t;
    assert(q[0] == cell_at(r, c));
    assert forall|k: int| 0 <= k < q.len() implies (#[trigger] q[k])[1] == c + k && q[k][0]
        < rows by {
        if k > 0 {
            assert(q[k] == t[k - 1]);
        }
    }
    assert forall|i: int, j: int| 0 <= i && j == i + 1 && j < q.len() implies row_step(
        #[trigger] q[i],
        #[trigger] q[j],
    ) by {
        assert(q[j] == t[j - 1]);
        if i > 0 {
            assert(q[i] == t[i - 1]);
        }
    }
}

/// The stretches from row `r` of column `c` are finite, and
/// `stretch_count` counts them.
pub proof fn lemma_stretches_counted(r: int, c: int, rows: int, cols: int)
    requires
        0 <= c,
        rows <= 256,
        cols <= 256,
    ensures
        stretches_from(r, c, rows, cols).finite(),
        stretches_from(r, c, rows, cols).len() == stretch_count(r, c, rows, cols),
    decreases cols - c,
{
    broadcast use group_set_properties;

    let all = stretches_from(r, c, rows, cols);
    if !(0 <= r < rows && 0 <= c < cols) {
        assert(all =~= Set::empty());
    } else {
        let x = cell_at(r, c);
        let f = |t: Seq<[u8; 2]>| seq![x] + t;
        let one = Set::empty().insert(seq![x]);
        let up = stretches_on(r, c, r - 1, rows, cols);
        let mid = stretches_on(r, c, r, rows, cols);
        let down = stretches_on(r, c, r + 1, rows, cols);
        assert forall|rho: int| r - 1 <= rho <= r + 1 implies #[trigger] stretches_on(
            r,
            c,
            rho,
            rows,
            cols,
        ).finite() && stretches_on(r, c, rho, rows, cols).len() == stretch_count(
            rho,
            c + 1,
            rows,
            cols,
        ) && (forall|q: Seq<[u8; 2]>| #[trigger]
            stretches_on(r, c, rho, rows, cols).contains(q) ==> q.len() >= 2 && q[1][0] == rho) by {
            let from = stretches_from(rho, c + 1, rows, cols);
            lemma_stretches_counted(rho, c + 1, rows, cols);
            assert(injective_on(f, from)) by {
                assert forall|a: Seq<[u8; 2]>, b: Seq<[u8; 2]>|
                    from.contains(a) && from.contains(b) && #[trigger] f(a) == #[trigger] f(b)
                    implies a == b by {
                    assert(a =~= f(a).subrange(1, f(a).len() as int));
                    assert(b =~= f(b).subrange(1, f(b).len() as int));
                }
            }
            lemma_map_size(from, stretches_on(r, c, rho, rows, cols), f);
            assert forall|q: Seq<[u8; 2]>| #[trigger]
                stretches_on(r, c, rho, rows, cols).contains(q) implies q.len() >= 2 && q[1][0]
                == rho by {
                let t = choose|t: Seq<[u8; 2]>| from.contains(t) && f(t) == q;
                lemma_stretch_join(t, r, c, rho, rows, cols);
            }
        }
        assert(all =~= one + up + mid + down) by {
            assert forall|q: Seq<[u8; 2]>| all.contains(q) implies (one + up + mid + down).contains(
                q,
            ) by {
                if q.len() == 1 {
                    lemma_same_cell(q[0], x);
                    assert(q =~= seq![x]);
                } else {
                    lemma_stretch_split(q, r, c, rows, cols);
                }
            }
            assert forall|q: Seq<[u8; 2]>| (one + up + mid + down).contains(q) implies all.contains(
                q,
            ) by {
                if one.contains(q) {
                    assert(q[0] == x);
                    assert(stretch(q, c, rows, cols));
                } else {
                    let rho = if up.contains(q) {
                        r - 1
                    } else if mid.contains(q) {
                        r
                    } else {
                        r + 1
                    };
                    let from = stretches_from(rho, c + 1, rows, cols);
                    assert(stretches_on(r, c, rho, rows, cols).contains(q));
                    let t = choose|t: Seq<[u8; 2]>| from.contains(t) && f(t) == q;
                    lemma_stretch_join(t, r, c, rho, rows, cols);
                }
            }
        }
        assert(stretches_on(r, c, r - 1, rows, cols).finite());
        assert(stretches_on(r, c, r, rows, cols).finite());
        assert(stretches_on(r, c, r + 1, rows, cols).finite());
        assert(one.disjoint(up));
        assert((one + up).disjoint(mid));
        assert((one + up + mid).disjoint(down));
        assert((one + up).len() == 1 + up.len());
        assert((one + up + mid).len() == 1 + up.len() + mid.len());
        assert((one + up + mid + down).len() == 1 + up.len() + mid.len() + down.len());
    }
}

/// The beginnings of walks that start in one of the first `k` rows.
spec fn beginnings_below(k: int, rows: int, cols: int) -> Set<Seq<[u8; 2]>> {
    Set::new(|q: Seq<[u8; 2]>| stretch(q, 0, rows, cols) && q[0][0] < k)
}

proof fn lemma_beginnings_below(k: int, rows: int, cols: int)
    requires
        0 <= k,
        rows <= 256,
        cols <= 256,
    ensures
        beginnings_below(k, rows, cols).finite(),
        beginnings_below(k, rows, cols).len() == stretch_count_below(k, rows, cols),
    decreases k,
{
    broadcast use group_set_properties;

    if k == 0 {
        assert(beginnings_below(k, rows, cols) =~= Set::empty());
    } else {
        lemma_beginnings_below(k - 1, rows, cols);
        lemma_stretches_counted(k - 1, 0, rows, cols);
        let lower = beginnings_below(k - 1, rows, cols);
        let last = stretches_from(k - 1, 0, rows, cols);
        assert(beginnings_below(k, rows, cols) =~= lower + last);
        assert(lower.disjoint(last));
    }
}

/// The beginnings of walks through the grid are finite, and
/// `stretch_count_below` over all rows counts them.
pub proof fn lemma_walk_beginnings_counted(rows: int, cols: int)
    requires
        0 <= rows <= 256,
        cols <= 256,
    ensures
        walk_beginnings(rows, cols).finite(),
        walk_beginnings(rows, cols).len() == stretch_count_below(rows, rows, cols),
{
    lemma_beginnings_below(rows, rows, cols);
    assert(walk_beginnings(rows, cols) =~= beginnings_below(rows, rows, cols));
}

/// Searching the rows from `s` on takes two moves for each stretch from
/// their first cells, less one for each of those rows.
pub proof fn lemma_moves_below_stretches(s: int, rows: int, cols: int)
    requires
        0 <= s <= rows,
        1 <= cols,
    ensures
        moves_below(s, rows, cols) + 2 * stretch_count_below(s, rows, cols) + rows == 2
            * stretch_count_below(rows, rows, cols) + s,
    decreases rows - s,
{
    if s < rows {
        lemma_moves_below_stretches(s + 1, rows, cols);
        lemma_subtree_stretches(s, 0, rows, cols);
    }
}

} // verus!
