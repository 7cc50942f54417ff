//! The searching head: the cell it stands on, the walk that led there and
//! the single locked cell that tells it which neighbour it came back from.

use vstd::prelude::*;

use crate::walk::{is_walk, sums_follow};

verus! {

/// `cell` names row `r`, column `c`.
pub open spec fn is_cell(cell: [u8; 2], r: int, c: int) -> bool {
    cell[0] == r && cell[1] == c
}

/// The cell at row `r`, column `c`.
pub open spec fn cell_at(r: int, c: int) -> [u8; 2] {
    [r as u8, c as u8]
}

/// The grid holds a number at row `r`, column `c`.
pub open spec fn has_number(numbers: Seq<Vec<u8>>, r: int, c: int) -> bool {
    0 <= r < numbers.len() && 0 <= c < numbers[r]@.len()
}

/// The number that the grid holds at `cell`.
pub open spec fn number_at(numbers: Seq<Vec<u8>>, cell: [u8; 2]) -> u8 {
    numbers[cell[0] as int]@[cell[1] as int]
}

/// The head may step to the upper right neighbour: it is not on the top row
/// (nor on a row that a signed byte cannot hold), the next column exists and
/// none of the three neighbours in the next column is the locked cell.
pub open spec fn up_right_open(location: [u8; 2], locked: [u8; 2], table: [u8; 2]) -> bool {
    let r = location[0] as int;
    let c = location[1] as int;
    &&& 1 <= r < 128
    &&& c + 1 < table[1]
    &&& !is_cell(locked, r - 1, c + 1)
    &&& !is_cell(locked, r, c + 1)
    &&& !is_cell(locked, r + 1, c + 1)
}

/// The head may step to the right neighbour: the next column exists and
/// neither the right nor the lower right neighbour is the locked cell.
pub open spec fn right_open(location: [u8; 2], locked: [u8; 2], table: [u8; 2]) -> bool {
    let r = location[0] as int;
    let c = location[1] as int;
    &&& c + 1 < table[1]
    &&& !is_cell(locked, r, c + 1)
    &&& !is_cell(locked, r + 1, c + 1)
}

/// The head may step to the lower right neighbour: the next row and the next
/// column exist and that neighbour is not the locked cell.
pub open spec fn down_right_open(location: [u8; 2], locked: [u8; 2], table: [u8; 2]) -> bool {
    let r = location[0] as int;
    let c = location[1] as int;
    &&& r + 1 < table[0]
    &&& c + 1 < table[1]
    &&& !is_cell(locked, r + 1, c + 1)
}

/// The cell that the head steps to, trying upper right, right and lower
/// right in that order; `None` when it has to step back.
pub open spec fn forward_target(location: [u8; 2], locked: [u8; 2], table: [u8; 2]) -> Option<[u8; 2]> {
    let r = location[0] as int;
    let c = location[1] as int;
    if up_right_open(location, locked, table) {
        Some(cell_at(r - 1, c + 1))
    } else if right_open(location, locked, table) {
        Some(cell_at(r, c + 1))
    } else if down_right_open(location, locked, table) {
        Some(cell_at(r + 1, c + 1))
    } else {
        None
    }
}

/// The head of the search.
pub struct HeadNode {
    /// The row whose walks are being searched.
    pub start_row: u8,
    /// The cell the head stands on, `[row, column]`.
    pub location: [u8; 2],
    /// The walk from the start cell to `location`.
    pub path: Vec<[u8; 2]>,
    /// The last cell the head stepped back from.
    pub locked_location: [u8; 2],
    /// `false` once every start row has been searched.
    pub game_not_finished: bool,
}

impl HeadNode {
    /// `new_move` can run on these arguments without a panic: no byte
    /// arithmetic overflows, every index it reads exists and every `pop` finds
    /// an element.
    pub open spec fn can_move(
        self,
        table: [u8; 2],
        numbers: Seq<Vec<u8>>,
        sums_len: int,
        rows: Seq<Vec<[u8; 2]>>,
    ) -> bool {
        let r = self.location[0] as int;
        let c = self.location[1] as int;
        let sr = self.start_row as int;
        &&& r != 128 && r != 255 && c != 255
        &&& sr < rows.len()
        &&& match forward_target(self.location, self.locked_location, table) {
            Some(n) => has_number(numbers, n[0] as int, n[1] as int),
            None => {
                &&& self.path@.len() > 0
                &&& sums_len > 0
                &&& rows[sr]@.len() > 0
                &&& self.path@.len() == 1 ==> {
                    &&& table[0] >= 1
                    &&& sr != table[0] - 1 ==> sr < 255 && has_number(numbers, sr + 1, 0)
                }
            },
        }
    }

    /// The head is searching, on a grid of `table[0]` rows and `table[1]`
    /// columns that `numbers` covers: its walk runs from the first cell of
    /// its start row through at most `table[1]` columns and ends where it
    /// stands; the list of its start row is that walk, `sums` lists the
    /// numbers along it, and every later row's list holds its first cell
    /// alone.
    pub open spec fn walk_ok(
        self,
        table: [u8; 2],
        numbers: Seq<Vec<u8>>,
        sums: Seq<u8>,
        rows: Seq<Vec<[u8; 2]>>,
    ) -> bool {
        let sr = self.start_row as int;
        let n_rows = table[0] as int;
        &&& self.game_not_finished
        &&& n_rows >= 1 && table[1] >= 1
        &&& numbers.len() == n_rows
        &&& forall|i: int| 0 <= i < n_rows ==> (#[trigger] numbers[i])@.len() == table[1]
        &&& sr < n_rows <= rows.len()
        &&& is_walk(self.path@, sr, n_rows)
        &&& self.path@.len() <= table[1]
        &&& self.location == self.path@.last()
        &&& rows[sr]@ == self.path@
        &&& sums_follow(sums, numbers, self.path@)
        &&& forall|r: int| sr < r < n_rows ==> (#[trigger] rows[r])@ == seq![cell_at(r, 0)]
    }

    /// What one call of `new_move` does: `pre` and `post` are the head before
    /// and after, `sums` and `rows` the number list and the per-row cell
    /// lists it is handed, `result` what it returns.
    pub open spec fn move_relation(
        pre: HeadNode,
        post: HeadNode,
        table: [u8; 2],
        numbers: Seq<Vec<u8>>,
        sums_pre: Seq<u8>,
        sums_post: Seq<u8>,
        rows_pre: Seq<Vec<[u8; 2]>>,
        rows_post: Seq<Vec<[u8; 2]>>,
        result: [u8; 2],
    ) -> bool {
        let sr = pre.start_row as int;
        &&& result == post.location
        &&& rows_post.len() == rows_pre.len()
        &&& forall|i: int| 0 <= i < rows_pre.len() && i != sr ==> rows_post[i] == rows_pre[i]
        &&& match forward_target(pre.location, pre.locked_location, table) {
            Some(n) => {
                &&& post.location == n
                &&& post.path@ == pre.path@.push(n)
                &&& sums_post == sums_pre.push(number_at(numbers, n))
                &&& rows_post[sr]@ == rows_pre[sr]@.push(n)
                &&& post.start_row == pre.start_row
                &&& post.locked_location == pre.locked_location
                &&& post.game_not_finished == pre.game_not_finished
            },
            None => {
                let rest = pre.path@.drop_last();
                &&& post.locked_location == pre.location
                &&& rows_post[sr]@ == rows_pre[sr]@.drop_last()
                &&& if rest.len() > 0 {
                    &&& post.location == rest.last()
                    &&& post.path@ == rest
                    &&& sums_post == sums_pre.drop_last()
                    &&& post.start_row == pre.start_row
                    &&& post.game_not_finished == pre.game_not_finished
                } else if sr == table[0] - 1 {
                    &&& post.location == pre.location
                    &&& post.path@ == rest
                    &&& sums_post == sums_pre.drop_last()
                    &&& post.start_row == pre.start_row
                    &&& !post.game_not_finished
                } else {
                    &&& post.start_row == sr + 1
                    &&& post.location == cell_at(sr + 1, 0)
                    &&& post.path@ == seq![cell_at(sr + 1, 0)]
                    &&& sums_post == sums_pre.drop_last().push(numbers[sr + 1]@[0])
                    &&& post.game_not_finished == pre.game_not_finished
                }
            },
        }
    }

    /// A head at the first cell of the first row, with a one-cell walk, the
    /// locked cell at row 10, column 10, and the search not finished.
    pub fn new() -> (head: HeadNode)
        ensures
            head.start_row == 0,
            head.location == cell_at(0, 0),
            head.path@ == seq![cell_at(0, 0)],
            head.locked_location == cell_at(10, 10),
            head.game_not_finished,
    {
        let mut path: Vec<[u8; 2]> = Vec::new();
        path.push([0, 0]);
        HeadNode {
            start_row: 0,
            location: [0, 0],
            path,
            locked_location: [10, 10],
            game_not_finished: true,
        }
    }

    /// One step of the search over a grid of `table[0]` rows and `table[1]`
    /// columns. The head steps forward into the next column (upper right,
    /// right or lower right, the first that is open), recording the cell in
    /// its walk, its number in `menu_sum_numbers` and the cell in the list of
    /// its start row; or, when no step is open, it locks the cell it stands
    /// on and steps back, undoing those three records. A walk stepped back
    /// to nothing moves the search to the first cell of the next row, or,
    /// on the last row, ends it. Returns the cell the head stands on after.
    pub fn new_move(
        &mut self,
        table: [u8; 2],
        numbers: &mut Vec<Vec<u8>>,
        menu_sum_numbers: &mut Vec<u8>,
        current_in_rows_cells_location: &mut Vec<Vec<[u8; 2]>>,
    ) -> (location: [u8; 2])
        requires
            old(self).can_move(
                table,
                old(numbers)@,
                old(menu_sum_numbers)@.len() as int,
                old(current_in_rows_cells_location)@,
            ),
        ensures
            final(numbers)@ == old(numbers)@,
            HeadNode::move_relation(
                *old(self),
                *final(self),
                table,
                old(numbers)@,
                old(menu_sum_numbers)@,
                final(menu_sum_numbers)@,
                old(current_in_rows_cells_location)@,
                final(current_in_rows_cells_location)@,
                location,
            ),
    {
        let r = self.location[0];
        let c = self.location[1];
        let lk = self.locked_location;
        let up_right = 1 <= r && r < 128 && c + 1 < table[1] && !(lk[0] == r - 1 && lk[1] == c
            + 1) && !(lk[0] == r && lk[1] == c + 1) && !(lk[0] == r + 1 && lk[1] == c + 1);
        let right = c + 1 < table[1] && !(lk[0] == r && lk[1] == c + 1) && !(lk[0] == r + 1
            && lk[1] == c + 1);
        let down_right = r + 1 < table[0] && c + 1 < table[1] && !(lk[0] == r + 1 && lk[1] == c
            + 1);
        let sr = self.start_row;
        if up_right || right || down_right {
            let target: [u8; 2] = if up_right {
                [r - 1, c + 1]
            } else if right {
                [r, c + 1]
            } else {
                [r + 1, c + 1]
            };
            self.location = target;
            self.path.push(target);
            let value = numbers[target[0] as usize][target[1] as usize];
            menu_sum_numbers.push(value);
            push_to_row(current_in_rows_cells_location, sr as usize, target);
        } else {
            self.locked_location = self.location;
            let _ = self.path.pop();
            let _ = menu_sum_numbers.pop();
            pop_from_row(current_in_rows_cells_location, sr as usize);
            if self.path.len() != 0 {
                self.location = self.path[self.path.len() - 1];
            } else if sr == table[0] - 1 {
                self.game_not_finished = false;
            } else {
                let next = sr + 1;
                self.start_row = next;
                self.location = [next, 0];
                self.path.push([next, 0]);
                assert(self.path@ =~= seq![cell_at(next as int, 0)]);
                let value = numbers[next as usize][0];
                menu_sum_numbers.push(value);
            }
        }
        self.location
    }
}

/// Appends `cell` to the list of row `i`.
fn push_to_row(rows: &mut Vec<Vec<[u8; 2]>>, i: usize, cell: [u8; 2])
    requires
        i < old(rows)@.len(),
    ensures
        final(rows)@.len() == old(rows)@.len(),
        final(rows)@[i as int]@ == old(rows)@[i as int]@.push(cell),
        forall|j: int| 0 <= j < old(rows)@.len() && j != i ==> final(rows)@[j] == old(rows)@[j],
{
    let mut row = rows.remove(i);
    row.push(cell);
    rows.insert(i, row);
}

/// Drops the last cell of the list of row `i`.
fn pop_from_row(rows: &mut Vec<Vec<[u8; 2]>>, i: usize)
    requires
        i < old(rows)@.len(),
        old(rows)@[i as int]@.len() > 0,
    ensures
        final(rows)@.len() == old(rows)@.len(),
        final(rows)@[i as int]@ == old(rows)@[i as int]@.drop_last(),
        forall|j: int| 0 <= j < old(rows)@.len() && j != i ==> final(rows)@[j] == old(rows)@[j],
{
    let mut row = rows.remove(i);
    let _ = row.pop();
    rows.insert(i, row);
}

} // verus!
