//! Walks through the grid and the sums of their numbers.

use vstd::prelude::*;

use crate::head::{is_cell, number_at};

verus! {

/// The row of `b` differs from the row of `a` by at most one.
pub open spec fn row_step(a: [u8; 2], b: [u8; 2]) -> bool {
    -1 <= b[0] - a[0] <= 1
}

/// `path` is a walk from the first cell of row `start`: its `i`-th cell lies
/// in column `i` and in one of the first `rows` rows, and each step changes
/// the row by at most one.
pub open spec fn is_walk(path: Seq<[u8; 2]>, start: int, rows: int) -> bool {
    &&& path.len() > 0
    &&& is_cell(path[0], start, 0)
    &&& forall|i: int| 0 <= i < path.len() ==> (#[trigger] path[i])[1] == i && path[i][0] < rows
    &&& forall|i: int, j: int|
        0 <= i && j == i + 1 && j < path.len() ==> row_step(#[trigger] path[i], #[trigger] path[j])
}

/// The sum of a list of numbers.
pub open spec fn seq_sum(s: Seq<u8>) -> int
    decreases s.len(),
{
    if s.len() == 0 {
        0
    } else {
        seq_sum(s.drop_last()) + s.last()
    }
}

/// The sum of the numbers that the grid holds along `path`.
pub open spec fn walk_sum(numbers: Seq<Vec<u8>>, path: Seq<[u8; 2]>) -> int
    decreases path.len(),
{
    if path.len() == 0 {
        0
    } else {
        walk_sum(numbers, path.drop_last()) + number_at(numbers, path.last())
    }
}

/// `sums` lists the numbers that the grid holds along `path`, in order.
pub open spec fn sums_follow(sums: Seq<u8>, numbers: Seq<Vec<u8>>, path: Seq<[u8; 2]>) -> bool {
    &&& sums.len() == path.len()
    &&& forall|i: int| 0 <= i < path.len() ==> sums[i] == number_at(numbers, #[trigger] path[i])
}

/// A list that follows a walk sums to the walk's sum.
pub proof fn lemma_sums_follow(sums: Seq<u8>, numbers: Seq<Vec<u8>>, path: Seq<[u8; 2]>)
    requires
        sums_follow(sums, numbers, path),
    ensures
        seq_sum(sums) == walk_sum(numbers, path),
    decreases path.len(),
{
    if path.len() > 0 {
        let s2 = sums.drop_last();
        let p2 = path.drop_last();
        assert forall|i: int| 0 <= i < p2.len() implies s2[i] == number_at(numbers, #[trigger] p2[i]) by {}
        lemma_sums_follow(s2, numbers, p2);
    }
}

/// Every number is at most 255, so `n` of them sum to at most `255 * n`.
pub proof fn lemma_seq_sum_bound(s: Seq<u8>)
    ensures
        0 <= seq_sum(s) <= 255 * s.len(),
    decreases s.len(),
{
    if s.len() > 0 {
        lemma_seq_sum_bound(s.drop_last());
    }
}

/// Dropping the last cell of a walk of two or more cells leaves a walk.
pub proof fn lemma_walk_prefix(path: Seq<[u8; 2]>, start: int, rows: int)
    requires
        is_walk(path, start, rows),
        path.len() > 1,
    ensures
        is_walk(path.drop_last(), start, rows),
{
    let p = path.drop_last();
    assert forall|i: int| 0 <= i < p.len() implies (#[trigger] p[i])[1] == i && p[i][0] < rows by {}
    assert forall|i: int, j: int| 0 <= i && j == i + 1 && j < p.len() implies row_step(
        #[trigger] p[i],
        #[trigger] p[j],
    ) by {}
}

/// Appending a cell of the next column, at most one row away from the last
/// cell and inside the grid, extends a walk.
pub proof fn lemma_walk_push(path: Seq<[u8; 2]>, start: int, rows: int, n: [u8; 2])
    requires
        is_walk(path, start, rows),
        n[1] == path.len(),
        n[0] < rows,
        row_step(path.last(), n),
    ensures
        is_walk(path.push(n), start, rows),
{
    let p = path.push(n);
    assert forall|i: int| 0 <= i < p.len() implies (#[trigger] p[i])[1] == i && p[i][0] < rows by {}
    assert forall|i: int, j: int| 0 <= i && j == i + 1 && j < p.len() implies row_step(
        #[trigger] p[i],
        #[trigger] p[j],
    ) by {}
}

} // verus!
