//! Which walks the head has already passed. The head searches the walks of
//! a start row depth first, trying the upper right, right and lower right
//! neighbour in that order; the locked cell is the neighbour it came back
//! from, so the neighbours up to it have been searched. The facts here show
//! that each move keeps every passed walk passed, and that a row is done
//! only when all of its walks have been passed.

use vstd::prelude::*;

use crate::head::{forward_target, is_cell, cell_at};
use crate::walk::{is_walk, row_step};

verus! {

/// `w` is a walk from the first cell of row `start` through all `cols`
/// columns of a grid of `rows` rows.
pub open spec fn full_walk(w: Seq<[u8; 2]>, start: int, rows: int, cols: int) -> bool {
    is_walk(w, start, rows) && w.len() == cols
}

/// `w` and `p` hold the same cells before index `i`.
pub open spec fn agree_before(w: Seq<[u8; 2]>, p: Seq<[u8; 2]>, i: int) -> bool {
    forall|j: int| 0 <= j < i ==> #[trigger] w[j] == p[j]
}

/// `w` leaves `p`, at some cell of `p` after the first, for a smaller row:
/// the search reached it before `p`.
pub open spec fn left_behind(w: Seq<[u8; 2]>, p: Seq<[u8; 2]>) -> bool {
    exists|i: int| 0 < i < p.len() && i < w.len() && agree_before(w, p, i) && #[trigger] w[i][0] < p[i][0]
}

/// `lock` is a neighbour of `last` in the next column.
pub open spec fn next_to(lock: [u8; 2], last: [u8; 2]) -> bool {
    lock[1] == last[1] + 1 && row_step(last, lock)
}

/// `w` goes on from `p` into a neighbour of `p`'s last cell at or above the
/// locked one: a neighbour the search has come back from.
pub open spec fn locked_out(w: Seq<[u8; 2]>, p: Seq<[u8; 2]>, lock: [u8; 2]) -> bool {
    &&& 0 < p.len() < w.len()
    &&& agree_before(w, p, p.len() as int)
    &&& next_to(lock, p.last())
    &&& w[p.len() as int][0] <= lock[0]
}

/// The search, standing at the end of `p` with `lock` locked, has passed `w`.
pub open spec fn visited(w: Seq<[u8; 2]>, p: Seq<[u8; 2]>, lock: [u8; 2]) -> bool {
    left_behind(w, p) || locked_out(w, p, lock) || w == p
}

/// The locked cell lies at most one column past the end of `p`, and one
/// column past it only as a neighbour; or the search is still on its first
/// way along row 0 with the lock it started with.
pub open spec fn lock_ok(p: Seq<[u8; 2]>, lock: [u8; 2], start: int) -> bool {
    p.len() > 0 ==> {
        ||| lock[1] <= p.last()[1] + 1 && (lock[1] == p.last()[1] + 1 ==> row_step(p.last(), lock))
        ||| start == 0 && is_cell(lock, 10, 10) && forall|i: int|
            0 <= i < p.len() ==> (#[trigger] p[i])[0] == 0
    }
}

/// Two cells with the same row and column are the same.
pub proof fn lemma_same_cell(a: [u8; 2], b: [u8; 2])
    requires
        a[0] == b[0],
        a[1] == b[1],
    ensures
        a == b,
{
}

/// A walk's last cell lies in column `len - 1`.
proof fn lemma_walk_last(p: Seq<[u8; 2]>, start: int, rows: int)
    requires
        is_walk(p, start, rows),
    ensures
        p.last()[1] == p.len() - 1,
        p.last()[0] < rows,
        p.last() == p[p.len() - 1],
{
}

/// Where no step is open from the end of `p`, every walk that follows `p`
/// and goes on into a further column is locked out.
pub proof fn lemma_closed_end(
    p: Seq<[u8; 2]>,
    lock: [u8; 2],
    table: [u8; 2],
    start: int,
    w: Seq<[u8; 2]>,
)
    requires
        table[0] <= 128,
        is_walk(p, start, table[0] as int),
        forward_target(p.last(), lock, table) is None,
        is_walk(w, start, table[0] as int),
        w.len() <= table[1],
        w.len() > p.len(),
        agree_before(w, p, p.len() as int),
    ensures
        locked_out(w, p, lock),
{
    let k = p.len() as int;
    lemma_walk_last(p, start, table[0] as int);
    // the walk's next cell is a neighbour of the end of `p`
    assert(row_step(w[k - 1], w[k]));
}

/// A forward move keeps every passed walk passed: a walk passed after the
/// move was passed before it, or is the new walk itself.
pub proof fn lemma_forward_visit(
    p: Seq<[u8; 2]>,
    lock: [u8; 2],
    table: [u8; 2],
    start: int,
    n: [u8; 2],
    w: Seq<[u8; 2]>,
)
    requires
        table[0] <= 128,
        is_walk(p, start, table[0] as int),
        forward_target(p.last(), lock, table) == Some(n),
        lock_ok(p, lock, start),
        is_walk(w, start, table[0] as int),
        w.len() == table[1],
        visited(w, p.push(n), lock),
    ensures
        visited(w, p, lock) || w == p.push(n),
{
    let q = p.push(n);
    let k = p.len() as int;
    lemma_walk_last(p, start, table[0] as int);
    if left_behind(w, q) {
        let i = choose|i: int|
            0 < i < q.len() && i < w.len() && agree_before(w, q, i) && #[trigger] w[i][0] < q[i][0];
        assert forall|j: int| 0 <= j < i implies #[trigger] w[j] == p[j] by {}
        if i == k {
            // `w` leaves `p` at its end for a neighbour above `n`: one the
            // lock shows searched
            assert(row_step(w[k - 1], w[k]));
        }
    }
}

/// A step back keeps every passed walk passed.
pub proof fn lemma_back_visit(
    p: Seq<[u8; 2]>,
    lock: [u8; 2],
    table: [u8; 2],
    start: int,
    w: Seq<[u8; 2]>,
)
    requires
        table[0] <= 128,
        is_walk(p, start, table[0] as int),
        p.len() >= 2,
        p.len() <= table[1],
        forward_target(p.last(), lock, table) is None,
        is_walk(w, start, table[0] as int),
        w.len() == table[1],
        visited(w, p.drop_last(), p.last()),
    ensures
        visited(w, p, lock),
{
    let q = p.drop_last();
    let k = q.len() as int;
    lemma_walk_last(p, start, table[0] as int);
    if left_behind(w, q) {
        let i = choose|i: int|
            0 < i < q.len() && i < w.len() && agree_before(w, q, i) && #[trigger] w[i][0] < q[i][0];
        assert forall|j: int| 0 <= j < i implies #[trigger] w[j] == p[j] by {}
    } else if locked_out(w, q, p.last()) {
        assert forall|j: int| 0 <= j < k implies #[trigger] w[j] == p[j] by {}
        if w[k][0] >= p[k][0] {
            // `w` follows `p` to its end
            lemma_same_cell(w[k], p[k]);
            if w.len() == p.len() {
                assert(w =~= p);
            } else {
                lemma_closed_end(p, lock, table, start, w);
            }
        }
    }
}

/// When the head stands on a start cell with no step open, every walk from
/// that cell through all columns has been passed.
pub proof fn lemma_row_done(
    p: Seq<[u8; 2]>,
    lock: [u8; 2],
    table: [u8; 2],
    start: int,
    w: Seq<[u8; 2]>,
)
    requires
        table[0] <= 128,
        is_walk(p, start, table[0] as int),
        p.len() == 1,
        forward_target(p.last(), lock, table) is None,
        is_walk(w, start, table[0] as int),
        w.len() == table[1],
    ensures
        visited(w, p, lock),
{
    lemma_same_cell(w[0], p[0]);
    if w.len() == 1 {
        assert(w =~= p);
    } else {
        lemma_closed_end(p, lock, table, start, w);
    }
}

/// A forward move keeps the lock in its place.
pub proof fn lemma_forward_lock(
    p: Seq<[u8; 2]>,
    lock: [u8; 2],
    table: [u8; 2],
    start: int,
    n: [u8; 2],
)
    requires
        is_walk(p, start, table[0] as int),
        forward_target(p.last(), lock, table) == Some(n),
        lock_ok(p, lock, start),
    ensures
        lock_ok(p.push(n), lock, start),
{
    let q = p.push(n);
    lemma_walk_last(p, start, table[0] as int);
    let last = p.last();
    if !(lock[1] <= last[1] + 1 && (lock[1] == last[1] + 1 ==> row_step(last, lock))) {
        // still on the first way along row 0: the step goes right
        assert forall|i: int| 0 <= i < q.len() implies (#[trigger] q[i])[0] == 0 by {}
    }
}

/// The moves it takes to search every walk below the cell at row `r`,
/// column `c`, and come back: for each neighbour in the next column, a step
/// there, its own search, and a step back.
pub open spec fn subtree_moves(r: int, c: int, rows: int, cols: int) -> nat
    decreases cols - c,
{
    if c + 1 >= cols {
        0
    } else {
        branch_moves(r - 1, c, rows, cols) + branch_moves(r, c, rows, cols) + branch_moves(
            r + 1,
            c,
            rows,
            cols,
        )
    }
}

/// The moves it takes to step from column `c` to row `rho` of the next
/// column, search there and step back; 0 where there is no such cell.
pub open spec fn branch_moves(rho: int, c: int, rows: int, cols: int) -> nat
    decreases cols - c, 0int,
{
    if 0 <= rho < rows && c + 1 < cols {
        2 + subtree_moves(rho, c + 1, rows, cols)
    } else {
        0
    }
}

/// The moves it takes to search the neighbours of the cell at row `r`,
/// column `c` whose rows lie below `l` (numbers greater than `l`).
pub open spec fn moves_after(r: int, c: int, l: int, rows: int, cols: int) -> nat {
    (if r - 1 > l { branch_moves(r - 1, c, rows, cols) } else { 0 }) + (if r > l {
        branch_moves(r, c, rows, cols)
    } else {
        0
    }) + (if r + 1 > l { branch_moves(r + 1, c, rows, cols) } else { 0 })
}

/// The moves left for the neighbours of `cell` under `lock`: those past the
/// locked neighbour, or all when the lock is no neighbour.
pub open spec fn moves_here(cell: [u8; 2], lock: [u8; 2], rows: int, cols: int) -> nat {
    let r = cell[0] as int;
    let c = cell[1] as int;
    if next_to(lock, cell) {
        moves_after(r, c, lock[0] as int, rows, cols)
    } else {
        moves_after(r, c, r - 2, rows, cols)
    }
}

/// The moves left for the cells of `p` before its last: for each, the
/// neighbours past the one `p` went on to, and the step back.
pub open spec fn moves_above(p: Seq<[u8; 2]>, rows: int, cols: int) -> nat
    decreases p.len(),
{
    if p.len() <= 1 {
        0
    } else {
        let q = p.drop_last();
        moves_above(q, rows, cols) + moves_after(
            q.last()[0] as int,
            q.last()[1] as int,
            p.last()[0] as int,
            rows,
            cols,
        ) + 1
    }
}

/// The moves left for the start rows from `s` on: each row's search from
/// its first cell and the step that leaves it.
pub open spec fn moves_below(s: int, rows: int, cols: int) -> nat
    decreases rows - s,
{
    if s >= rows {
        0
    } else {
        subtree_moves(s, 0, rows, cols) + 1 + moves_below(s + 1, rows, cols)
    }
}

/// The moves the head has left before the search ends, standing at the end
/// of `p` with `lock` locked, searching row `start`; 0 once it has ended.
pub open spec fn moves_left(p: Seq<[u8; 2]>, lock: [u8; 2], start: int, rows: int, cols: int) -> nat {
    if p.len() == 0 {
        0
    } else {
        moves_here(p.last(), lock, rows, cols) + 1 + moves_above(p, rows, cols) + moves_below(
            start + 1,
            rows,
            cols,
        )
    }
}

/// No step is open from the end of a walk exactly when no moves are left
/// for its neighbours; otherwise the step goes to the first neighbour that
/// has moves left, and the moves left split into that neighbour's and the
/// ones after it.
pub proof fn lemma_moves_here(p: Seq<[u8; 2]>, lock: [u8; 2], table: [u8; 2], start: int)
    requires
        table[0] <= 128,
        is_walk(p, start, table[0] as int),
        p.last()[1] < table[1],
    ensures
        ({
            let rows = table[0] as int;
            let cols = table[1] as int;
            let last = p.last();
            match forward_target(last, lock, table) {
                None => moves_here(last, lock, rows, cols) == 0,
                Some(n) => moves_here(last, lock, rows, cols) == branch_moves(
                    n[0] as int,
                    last[1] as int,
                    rows,
                    cols,
                ) + moves_after(last[0] as int, last[1] as int, n[0] as int, rows, cols)
                    && branch_moves(n[0] as int, last[1] as int, rows, cols) == 2
                    + subtree_moves(n[0] as int, n[1] as int, rows, cols),
            }
        }),
{
    lemma_walk_last(p, start, table[0] as int);
}

/// A forward move takes one move off the moves left.
pub proof fn lemma_forward_moves(
    p: Seq<[u8; 2]>,
    lock: [u8; 2],
    table: [u8; 2],
    start: int,
    n: [u8; 2],
)
    requires
        table[0] <= 128,
        is_walk(p, start, table[0] as int),
        p.last()[1] < table[1],
        forward_target(p.last(), lock, table) == Some(n),
        lock_ok(p, lock, start),
    ensures
        moves_left(p.push(n), lock, start, table[0] as int, table[1] as int) + 1 == moves_left(
            p,
            lock,
            start,
            table[0] as int,
            table[1] as int,
        ),
{
    lemma_moves_here(p, lock, table, start);
    lemma_forward_lock(p, lock, table, start, n);
    lemma_walk_last(p, start, table[0] as int);
    assert(p.push(n).drop_last() == p);
    // the lock is no neighbour of the new end: all its neighbours are left
    assert(!next_to(lock, n));
}

/// A step back from a walk of two or more cells takes one move off the
/// moves left.
pub proof fn lemma_back_moves(p: Seq<[u8; 2]>, lock: [u8; 2], table: [u8; 2], start: int)
    requires
        table[0] <= 128,
        is_walk(p, start, table[0] as int),
        p.len() >= 2,
        p.last()[1] < table[1],
        forward_target(p.last(), lock, table) is None,
    ensures
        moves_left(p.drop_last(), p.last(), start, table[0] as int, table[1] as int) + 1
            == moves_left(p, lock, start, table[0] as int, table[1] as int),
{
    lemma_moves_here(p, lock, table, start);
    lemma_walk_last(p, start, table[0] as int);
}

/// Leaving the start cell of a row with no step open takes one move off
/// the moves left: the next row starts, or the search ends.
pub proof fn lemma_root_moves(p: Seq<[u8; 2]>, lock: [u8; 2], table: [u8; 2], start: int)
    requires
        table[0] <= 128,
        is_walk(p, start, table[0] as int),
        p.len() == 1,
        p.last()[1] < table[1],
        forward_target(p.last(), lock, table) is None,
        start < table[0],
    ensures
        start + 1 < table[0] ==> moves_left(
            seq![cell_at(start + 1, 0)],
            p.last(),
            start + 1,
            table[0] as int,
            table[1] as int,
        ) + 1 == moves_left(p, lock, start, table[0] as int, table[1] as int),
        start + 1 == table[0] ==> moves_left(p, lock, start, table[0] as int, table[1] as int)
            == 1,
{
    let rows = table[0] as int;
    let cols = table[1] as int;
    lemma_moves_here(p, lock, table, start);
    lemma_walk_last(p, start, rows);
    if start + 1 < rows {
        assert(moves_below(start + 1, rows, cols) == subtree_moves(start + 1, 0, rows, cols) + 1
            + moves_below(start + 2, rows, cols));
    }
}

/// `w` comes before `v` when their rows are read cell by cell: at the first
/// cell where they differ, `w` lies in the smaller row.
pub open spec fn lex_less(w: Seq<[u8; 2]>, v: Seq<[u8; 2]>) -> bool {
    exists|i: int| 0 <= i < w.len() && i < v.len() && agree_before(w, v, i) && #[trigger] w[i][0] < v[i][0]
}

/// Every walk through all columns that the search has passed comes before
/// the walk a forward move leads to, and is passed by it too.
pub proof fn lemma_forward_order(
    p: Seq<[u8; 2]>,
    lock: [u8; 2],
    table: [u8; 2],
    start: int,
    n: [u8; 2],
    w: Seq<[u8; 2]>,
)
    requires
        table[0] <= 128,
        is_walk(p, start, table[0] as int),
        forward_target(p.last(), lock, table) == Some(n),
        is_walk(w, start, table[0] as int),
        w.len() == table[1],
        visited(w, p, lock),
    ensures
        lex_less(w, p.push(n)),
        left_behind(w, p.push(n)),
{
    let q = p.push(n);
    let k = p.len() as int;
    lemma_walk_last(p, start, table[0] as int);
    if left_behind(w, p) {
        let i = choose|i: int|
            0 < i < p.len() && i < w.len() && agree_before(w, p, i) && #[trigger] w[i][0] < p[i][0];
        assert(q[i] == p[i]);
        assert(agree_before(w, q, i));
    } else if locked_out(w, p, lock) {
        assert(q[k] == n);
        assert(agree_before(w, q, k));
        assert(w[k][0] < q[k][0]);
    }
}

/// A step back keeps every passed walk through all columns passed.
pub proof fn lemma_back_order(p: Seq<[u8; 2]>, lock: [u8; 2], start: int, rows: int, w: Seq<[u8; 2]>)
    requires
        is_walk(p, start, rows),
        p.len() >= 2,
        w.len() >= p.len(),
        visited(w, p, lock),
    ensures
        visited(w, p.drop_last(), p.last()),
{
    let q = p.drop_last();
    let k = p.len() as int;
    lemma_walk_last(p, start, rows);
    assert(row_step(p[k - 2], p[k - 1]));
    assert(q.last() == p[k - 2]);
    if left_behind(w, p) {
        let i = choose|i: int|
            0 < i < p.len() && i < w.len() && agree_before(w, p, i) && #[trigger] w[i][0] < p[i][0];
        assert(agree_before(w, q, if i < k - 1 { i } else { k - 1 }));
        if i < k - 1 {
            assert(q[i] == p[i]);
            assert(left_behind(w, q));
        } else {
            assert(locked_out(w, q, p.last()));
        }
    } else {
        assert(agree_before(w, q, k - 1));
        assert(w[k - 1] == p[k - 1]);
        assert(locked_out(w, q, p.last()));
    }
}

} // verus!
