//! The state of the search and its clock-driven step.

use vstd::prelude::*;

use crate::head::{HeadNode, cell_at, forward_target, number_at};
use crate::walk::{
    is_walk, row_step, seq_sum, walk_sum, sums_follow, lemma_sums_follow, lemma_seq_sum_bound,
    lemma_walk_prefix, lemma_walk_push,
};
use crate::random::random_numbers;
use crate::search::{
    full_walk, visited, lock_ok, lemma_forward_visit, lemma_back_visit, lemma_row_done,
    lemma_forward_lock,
};
use crate::settings::Settings;
use crate::text::{
    max_label_of, sum_label_of, final_label_of, max_label, sum_label, sum_of, final_label,
};

verus! {

/// The largest value in `m`, or 0 when there is none.
pub open spec fn seq_max(m: Seq<u16>) -> int
    decreases m.len(),
{
    if m.len() == 0 {
        0
    } else if m.last() > seq_max(m.drop_last()) {
        m.last() as int
    } else {
        seq_max(m.drop_last())
    }
}

/// The first index of a strictly positive largest value in `m`, or 0 when
/// every value is 0.
pub open spec fn seq_argmax(m: Seq<u16>) -> int
    decreases m.len(),
{
    if m.len() == 0 {
        0
    } else if m.last() > seq_max(m.drop_last()) {
        m.len() - 1
    } else {
        seq_argmax(m.drop_last())
    }
}

/// The largest value bounds every value; when it is positive, the first
/// index of a largest value holds it and every earlier value is smaller; when
/// it is 0, that index is 0.
pub proof fn lemma_seq_max(m: Seq<u16>)
    ensures
        0 <= seq_max(m) <= u16::MAX,
        m.len() > 0 ==> 0 <= seq_argmax(m) < m.len(),
        forall|i: int| 0 <= i < m.len() ==> m[i] <= seq_max(m),
        seq_max(m) > 0 ==> m[seq_argmax(m)] == seq_max(m),
        seq_max(m) > 0 ==> forall|i: int| 0 <= i < seq_argmax(m) ==> m[i] < seq_max(m),
        seq_max(m) == 0 ==> seq_argmax(m) == 0,
    decreases m.len(),
{
    if m.len() > 0 {
        let p = m.drop_last();
        lemma_seq_max(p);
        assert forall|i: int| 0 <= i < p.len() implies m[i] == p[i] by {}
    }
}

/// What a row's best record holds: nothing and a best of 0, or a walk from
/// the row's first cell through all `cols` columns whose sum is the best,
/// which is then positive.
pub open spec fn best_record(
    numbers: Seq<Vec<u8>>,
    best: u16,
    cells: Seq<[u8; 2]>,
    row: int,
    rows: int,
    cols: int,
) -> bool {
    if cells.len() == 0 {
        best == 0
    } else {
        &&& is_walk(cells, row, rows)
        &&& cells.len() == cols
        &&& best == walk_sum(numbers, cells)
        &&& best > 0
    }
}

/// Every walk from the first cell of row `r` through all `cols` columns
/// sums to at most `best`.
pub open spec fn row_searched(numbers: Seq<Vec<u8>>, best: u16, r: int, rows: int, cols: int) -> bool {
    forall|w: Seq<[u8; 2]>| #[trigger] full_walk(w, r, rows, cols) ==> walk_sum(numbers, w) <= best
}

/// What a step of the clock did.
pub enum Update {
    /// The time for the next step has not come.
    Wait,
    /// The time has come but the search ended before.
    Idle,
    /// The head moved.
    Moved {
        /// The cell the head stands on now.
        location: [u8; 2],
        /// The row being searched now.
        start_row: u8,
        /// The label of that row's best sum, as it stood before this step.
        max_label: Vec<u8>,
        /// The label of the numbers along the head's walk.
        sum_label: Vec<u8>,
    },
    /// The search had ended and the overall best is reported.
    Finished {
        /// The row whose best is the overall best.
        best_row: u8,
        /// The overall best sum.
        best: u16,
        /// The label of the overall best sum.
        final_label: Vec<u8>,
        /// The walk that has that sum.
        best_cells: Vec<[u8; 2]>,
    },
}

/// The search over a grid of numbers.
pub struct GoldMiner {
    /// `[rows, columns]`.
    pub table: [u8; 2],
    /// The numbers along the head's walk.
    pub menu_sum_numbers: Vec<u8>,
    /// The grid, row by row.
    pub numbers: Vec<Vec<u8>>,
    /// The head of the search.
    pub head_node: HeadNode,
    /// The best sum found so far for each start row.
    pub maximum_in_rows: Vec<u16>,
    /// For each start row, the cells of its walk under search.
    pub current_in_rows_cells_location: Vec<Vec<[u8; 2]>>,
    /// For each start row, the walk with its best sum.
    pub maximum_in_rows_cells_location: Vec<Vec<[u8; 2]>>,
    /// The time, in milliseconds, after which the next step is due.
    pub current_milisec: u64,
    /// The time, in milliseconds, of the last clock reading.
    pub next_milisec: u64,
    /// The pause between two steps, in milliseconds.
    pub refresh_rate_in_miliseconds: u64,
    /// `false` once the overall best has been reported.
    pub game_not_finished: bool,
}

impl GoldMiner {
    /// The invariant of the search state.
    pub open spec fn wf(self) -> bool {
        let rows = self.table[0] as int;
        let cols = self.table[1] as int;
        let h = self.head_node;
        let sr = h.start_row as int;
        let numbers = self.numbers@;
        let current = self.current_in_rows_cells_location@;
        let best_cells = self.maximum_in_rows_cells_location@;
        &&& rows >= 1 && cols >= 1
        &&& numbers.len() == rows
        &&& forall|i: int| 0 <= i < rows ==> (#[trigger] numbers[i])@.len() == cols
        &&& self.maximum_in_rows@.len() == rows
        &&& current.len() == rows
        &&& best_cells.len() == rows
        &&& sr < rows
        &&& h.location[0] < rows && h.location[1] < cols
        &&& current[sr]@ == h.path@
        &&& sums_follow(self.menu_sum_numbers@, numbers, h.path@)
        &&& h.game_not_finished ==> is_walk(h.path@, sr, rows) && h.location == h.path@.last()
        &&& !h.game_not_finished ==> h.path@.len() == 0 && sr == rows - 1
        &&& forall|r: int| sr < r < rows ==> (#[trigger] current[r])@ == seq![cell_at(r, 0)]
        &&& forall|r: int|
            0 <= r < rows ==> best_record(
                numbers,
                #[trigger] self.maximum_in_rows@[r],
                best_cells[r]@,
                r,
                rows,
                cols,
            )
        &&& !self.game_not_finished ==> !h.game_not_finished
    }

    /// What the search has established, on a grid of at most 128 rows: the
    /// lock is where the search left it, every row before the current start
    /// row has been searched completely (its best bounds all its walks), no
    /// later row has a best yet, and every walk of the current row that the
    /// head has passed is bounded by the row's best. Once the head has
    /// finished, the last row has been searched completely too.
    pub open spec fn explored(self) -> bool {
        self.explored_with(false)
    }

    /// `explored`, where with `head_walk_open` the head's own walk through
    /// all columns may still exceed the row's best.
    pub open spec fn explored_with(self, head_walk_open: bool) -> bool {
        let rows = self.table[0] as int;
        let cols = self.table[1] as int;
        let h = self.head_node;
        let sr = h.start_row as int;
        let numbers = self.numbers@;
        let best = self.maximum_in_rows@;
        &&& rows <= 128
        &&& lock_ok(h.path@, h.locked_location, sr)
        &&& forall|r: int| 0 <= r < sr ==> #[trigger] row_searched(numbers, best[r], r, rows, cols)
        &&& forall|r: int| sr < r < rows ==> #[trigger] best[r] == 0
        &&& h.game_not_finished ==> forall|w: Seq<[u8; 2]>|
            #[trigger] full_walk(w, sr, rows, cols) && visited(w, h.path@, h.locked_location) ==> (
            walk_sum(numbers, w) <= best[sr] || (head_walk_open && w == h.path@))
        &&& !h.game_not_finished ==> row_searched(numbers, best[sr], sr, rows, cols)
    }

    /// The search is at its start over `numbers`, with the given clock
    /// settings.
    pub open spec fn is_start(
        self,
        table: [u8; 2],
        numbers: Seq<Vec<u8>>,
        refresh_rate: u64,
        wait: u64,
    ) -> bool {
        let rows = table[0] as int;
        &&& self.table == table
        &&& self.numbers@ == numbers
        &&& self.menu_sum_numbers@ == seq![numbers[0]@[0]]
        &&& self.head_node.start_row == 0
        &&& self.head_node.location == cell_at(0, 0)
        &&& self.head_node.path@ == seq![cell_at(0, 0)]
        &&& self.head_node.locked_location == cell_at(10, 10)
        &&& self.head_node.game_not_finished
        &&& self.maximum_in_rows@ == Seq::new(rows as nat, |i: int| 0u16)
        &&& self.current_in_rows_cells_location@.len() == rows
        &&& forall|r: int|
            0 <= r < rows ==> (#[trigger] self.current_in_rows_cells_location@[r])@ == seq![
                cell_at(r, 0),
            ]
        &&& self.maximum_in_rows_cells_location@.len() == rows
        &&& forall|r: int|
            0 <= r < rows ==> (#[trigger] self.maximum_in_rows_cells_location@[r])@.len() == 0
        &&& self.current_milisec == wait
        &&& self.next_milisec == 0
        &&& self.refresh_rate_in_miliseconds == refresh_rate
        &&& self.game_not_finished
    }

    /// The search itself (the head, the lists and the best records) is the
    /// same in `self` and `other`.
    pub open spec fn same_search(self, other: GoldMiner) -> bool {
        &&& self.head_node == other.head_node
        &&& self.menu_sum_numbers@ == other.menu_sum_numbers@
        &&& self.current_in_rows_cells_location@ == other.current_in_rows_cells_location@
        &&& self.maximum_in_rows@ == other.maximum_in_rows@
        &&& self.maximum_in_rows_cells_location@ == other.maximum_in_rows_cells_location@
    }

    /// `update_logic` can run at time `now` without a panic: the next due
    /// time fits in 64 bits, and a head that moves is not on row 128, whose
    /// row number overflows when taken as a signed byte less one.
    pub open spec fn can_update(self, now: u64) -> bool {
        self.current_milisec < now ==> {
            &&& now + self.refresh_rate_in_miliseconds <= u64::MAX
            &&& self.game_not_finished && self.head_node.game_not_finished
                ==> self.head_node.location[0] != 128
        }
    }

    /// What a move of the head does to the search and what it reports.
    pub open spec fn move_update(pre: GoldMiner, post: GoldMiner, update: Update) -> bool {
        match update {
            Update::Moved { location, start_row, max_label, sum_label } => {
                let sr = post.head_node.start_row as int;
                let sums = post.menu_sum_numbers@;
                let beaten = sums.len() == pre.table[1] && seq_sum(sums) > pre.maximum_in_rows@[sr];
                &&& HeadNode::move_relation(
                    pre.head_node,
                    post.head_node,
                    pre.table,
                    pre.numbers@,
                    pre.menu_sum_numbers@,
                    sums,
                    pre.current_in_rows_cells_location@,
                    post.current_in_rows_cells_location@,
                    location,
                )
                &&& start_row == sr
                &&& max_label@ == max_label_of(pre.maximum_in_rows@[sr] as nat)
                &&& sum_label@ == sum_label_of(sums, pre.table[1] as int)
                &&& post.game_not_finished == pre.game_not_finished
                &&& if beaten {
                    &&& post.maximum_in_rows@ == pre.maximum_in_rows@.update(sr, seq_sum(sums) as u16)
                    &&& post.maximum_in_rows_cells_location@.len()
                        == pre.maximum_in_rows_cells_location@.len()
                    &&& post.maximum_in_rows_cells_location@[sr]@
                        == post.current_in_rows_cells_location@[sr]@
                    &&& forall|i: int|
                        0 <= i < pre.maximum_in_rows_cells_location@.len() && i != sr
                            ==> post.maximum_in_rows_cells_location@[i]
                            == pre.maximum_in_rows_cells_location@[i]
                } else {
                    &&& post.maximum_in_rows@ == pre.maximum_in_rows@
                    &&& post.maximum_in_rows_cells_location@
                        == pre.maximum_in_rows_cells_location@
                }
            },
            _ => false,
        }
    }

    /// What reporting the overall best does.
    pub open spec fn finish_update(pre: GoldMiner, post: GoldMiner, update: Update) -> bool {
        match update {
            Update::Finished { best_row, best, final_label, best_cells } => {
                &&& best_row == seq_argmax(pre.maximum_in_rows@)
                &&& best == seq_max(pre.maximum_in_rows@)
                &&& final_label@ == final_label_of(best as nat)
                &&& best_cells@ == pre.maximum_in_rows_cells_location@[best_row as int]@
                &&& post.same_search(pre)
                &&& !post.game_not_finished
            },
            _ => false,
        }
    }

    /// What one call of `update_logic` at time `now` does to the search
    /// and what it reports.
    pub open spec fn update_relation(pre: GoldMiner, post: GoldMiner, now: u64, update: Update) -> bool {
        if !(pre.current_milisec < now) {
            &&& update is Wait
            &&& post.same_search(pre)
            &&& post.game_not_finished == pre.game_not_finished
        } else if !pre.game_not_finished {
            &&& update is Idle
            &&& post.same_search(pre)
            &&& !post.game_not_finished
        } else if pre.head_node.game_not_finished {
            GoldMiner::move_update(pre, post, update)
        } else {
            GoldMiner::finish_update(pre, post, update)
        }
    }

    /// The search at its start over the grid `numbers` of `table[0]` rows
    /// and `table[1]` columns: the head on the first cell, each row's walk
    /// list holding its first cell, every best 0 with no walk, the first
    /// step due after `wait_then_solve_in_miliseconds` and each later one
    /// `refresh_rate_in_miliseconds` after the clock reading that made the
    /// step before.
    pub fn from_numbers(
        table: [u8; 2],
        numbers: Vec<Vec<u8>>,
        refresh_rate_in_miliseconds: u64,
        wait_then_solve_in_miliseconds: u64,
    ) -> (miner: GoldMiner)
        requires
            table[0] >= 1,
            table[1] >= 1,
            numbers@.len() == table[0],
            forall|i: int| 0 <= i < table[0] ==> (#[trigger] numbers@[i])@.len() == table[1],
        ensures
            miner.wf(),
            miner.is_start(
                table,
                numbers@,
                refresh_rate_in_miliseconds,
                wait_then_solve_in_miliseconds,
            ),
            table[0] <= 128 && table[1] >= 2 ==> miner.explored(),
    {
        let rows = table[0];
        let mut maximum_in_rows: Vec<u16> = Vec::new();
        let mut current_in_rows_cells_location: Vec<Vec<[u8; 2]>> = Vec::new();
        let mut maximum_in_rows_cells_location: Vec<Vec<[u8; 2]>> = Vec::new();
        let mut index: u8 = 0;
        while index < rows
            invariant
                index <= rows,
                maximum_in_rows@ == Seq::new(index as nat, |i: int| 0u16),
                current_in_rows_cells_location@.len() == index,
                forall|r: int|
                    0 <= r < index ==> (#[trigger] current_in_rows_cells_location@[r])@
                        == seq![cell_at(r, 0)],
                maximum_in_rows_cells_location@.len() == index,
                forall|r: int|
                    0 <= r < index ==> (#[trigger] maximum_in_rows_cells_location@[r])@.len()
                        == 0,
            decreases rows - index,
        {
            maximum_in_rows.push(0);
            let mut first: Vec<[u8; 2]> = Vec::new();
            first.push([index, 0]);
            current_in_rows_cells_location.push(first);
            maximum_in_rows_cells_location.push(Vec::new());
            index = index + 1;
        }
        let mut menu_sum_numbers: Vec<u8> = Vec::new();
        menu_sum_numbers.push(numbers[0][0]);
        let miner = GoldMiner {
            table,
            menu_sum_numbers,
            numbers,
            head_node: HeadNode::new(),
            maximum_in_rows,
            current_in_rows_cells_location,
            maximum_in_rows_cells_location,
            current_milisec: wait_then_solve_in_miliseconds,
            next_milisec: 0,
            refresh_rate_in_miliseconds,
            game_not_finished: true,
        };
        proof {
            let h = miner.head_node;
            assert(is_walk(h.path@, 0, rows as int));
            assert(forall|r: int|
                0 <= r < rows ==> #[trigger] miner.maximum_in_rows@[r] == 0u16);
            if table[0] <= 128 && table[1] >= 2 {
                let cols = table[1] as int;
                assert forall|w: Seq<[u8; 2]>|
                    #[trigger] full_walk(w, 0, rows as int, cols) && visited(
                        w,
                        h.path@,
                        h.locked_location,
                    ) implies walk_sum(miner.numbers@, w) <= miner.maximum_in_rows@[0] by {}
            }
        }
        miner
    }

    /// The search at its start over a grid of random numbers below
    /// `settings.max_number`, of the size and with the clock settings that
    /// `settings` give. A grid without rows or columns, and numbers below 0,
    /// are refused.
    pub fn new(settings: &Settings) -> (miner: GoldMiner)
        requires
            settings.table[0] >= 1,
            settings.table[1] >= 1,
            settings.max_number >= 1,
        ensures
            miner.wf(),
            miner.is_start(
                settings.table,
                miner.numbers@,
                settings.refresh_rate_in_miliseconds,
                settings.wait_then_solve_in_miliseconds,
            ),
            forall|i: int, j: int|
                0 <= i < settings.table[0] && 0 <= j < settings.table[1]
                    ==> #[trigger] miner.numbers@[i]@[j] < settings.max_number,
            settings.table[0] <= 128 && settings.table[1] >= 2 ==> miner.explored(),
    {
        let numbers = random_numbers(settings.table[0], settings.table[1], settings.max_number);
        GoldMiner::from_numbers(
            settings.table,
            numbers,
            settings.refresh_rate_in_miliseconds,
            settings.wait_then_solve_in_miliseconds,
        )
    }

    /// One clock reading at `now_ms` milliseconds. When the next step is due
    /// (`now_ms` is past it), the next one is set `refresh_rate_in_miliseconds`
    /// after `now_ms`, and then: while the head is searching, it makes one
    /// move, and a walk through all columns whose sum beats its row's best
    /// becomes that row's best; once the head has finished, the overall
    /// best is reported once.
    pub fn update_logic(&mut self, now_ms: u64) -> (update: Update)
        requires
            old(self).wf(),
            old(self).can_update(now_ms),
        ensures
            final(self).wf(),
            final(self).table == old(self).table,
            final(self).numbers@ == old(self).numbers@,
            final(self).refresh_rate_in_miliseconds == old(self).refresh_rate_in_miliseconds,
            final(self).next_milisec == now_ms,
            final(self).current_milisec == if old(self).current_milisec < now_ms {
                (now_ms + old(self).refresh_rate_in_miliseconds) as u64
            } else {
                old(self).current_milisec
            },
            GoldMiner::update_relation(*old(self), *final(self), now_ms, update),
            forall|r: int|
                0 <= r < old(self).maximum_in_rows@.len() ==> #[trigger] final(self).maximum_in_rows@[r]
                    >= old(self).maximum_in_rows@[r],
            old(self).explored() ==> final(self).explored(),
    {
        self.next_milisec = now_ms;
        if self.current_milisec < self.next_milisec {
            self.current_milisec = self.next_milisec + self.refresh_rate_in_miliseconds;
            if self.game_not_finished {
                if self.head_node.game_not_finished {
                    self.step()
                } else {
                    self.game_not_finished = false;
                    proof {
                        lemma_seq_max(self.maximum_in_rows@);
                    }
                    let (best_row, best) = best_row(&self.maximum_in_rows);
                    let final_label = final_label(best);
                    let best_cells = copy_cells(
                        &self.maximum_in_rows_cells_location[best_row as usize],
                    );
                    Update::Finished { best_row, best, final_label, best_cells }
                }
            } else {
                Update::Idle
            }
        } else {
            Update::Wait
        }
    }

    /// One move of the head and the bookkeeping after it.
    fn step(&mut self) -> (update: Update)
        requires
            old(self).wf(),
            old(self).head_node.game_not_finished,
            old(self).game_not_finished,
            old(self).head_node.location[0] != 128,
        ensures
            final(self).wf(),
            final(self).table == old(self).table,
            final(self).numbers@ == old(self).numbers@,
            final(self).refresh_rate_in_miliseconds == old(self).refresh_rate_in_miliseconds,
            final(self).next_milisec == old(self).next_milisec,
            final(self).current_milisec == old(self).current_milisec,
            final(self).game_not_finished,
            GoldMiner::move_update(*old(self), *final(self), update),
            forall|r: int|
                0 <= r < old(self).maximum_in_rows@.len() ==> #[trigger] final(self).maximum_in_rows@[r]
                    >= old(self).maximum_in_rows@[r],
            old(self).explored() ==> final(self).explored(),
    {
        let ghost pre = *self;
        let location = self.head_node.new_move(
            self.table,
            &mut self.numbers,
            &mut self.menu_sum_numbers,
            &mut self.current_in_rows_cells_location,
        );
        proof {
            lemma_move_keeps_wf(pre, *self, location);
            if pre.explored() {
                lemma_move_keeps_explored(pre, *self, location);
            }
        }
        let ghost mid = *self;
        let sr = self.head_node.start_row;
        let max_label = max_label(self.maximum_in_rows[sr as usize]);
        let sum_label = sum_label(&self.menu_sum_numbers, self.table[1]);
        if self.menu_sum_numbers.len() == self.table[1] as usize {
            proof {
                lemma_seq_sum_bound(self.menu_sum_numbers@);
            }
            let total = sum_of(&self.menu_sum_numbers);
            if total > self.maximum_in_rows[sr as usize] {
                let cells = copy_cells(&self.current_in_rows_cells_location[sr as usize]);
                set_cells(&mut self.maximum_in_rows_cells_location, sr as usize, cells);
                self.maximum_in_rows.set(sr as usize, total);
                proof {
                    lemma_record_keeps_wf(mid, *self);
                    if pre.explored() {
                        lemma_settle_explored(mid, *self);
                    }
                }
                return Update::Moved { location, start_row: sr, max_label, sum_label };
            }
        }
        proof {
            if pre.explored() {
                lemma_settle_explored(mid, *self);
            }
        }
        Update::Moved { location, start_row: sr, max_label, sum_label }
    }
}

/// A clock reading keeps what the search has established: whatever
/// `update_logic` reports, a state that had `explored` still has it after.
pub proof fn lemma_update_keeps_explored(pre: GoldMiner, post: GoldMiner, now: u64, update: Update)
    requires
        pre.wf(),
        pre.explored(),
        GoldMiner::update_relation(pre, post, now, update),
        post.table == pre.table,
        post.numbers@ == pre.numbers@,
    ensures
        post.explored(),
{
    if pre.current_milisec < now && pre.game_not_finished && pre.head_node.game_not_finished {
        if let Update::Moved { location, .. } = update {
            let mid = GoldMiner {
                maximum_in_rows: pre.maximum_in_rows,
                maximum_in_rows_cells_location: pre.maximum_in_rows_cells_location,
                ..post
            };
            lemma_move_keeps_wf(pre, mid, location);
            lemma_move_keeps_explored(pre, mid, location);
            lemma_settle_explored(mid, post);
        }
    }
}

/// A clock reading keeps the invariant: whatever `update_logic` reports, the
/// state after it is valid.
pub proof fn lemma_update_keeps_wf(pre: GoldMiner, post: GoldMiner, now: u64, update: Update)
    requires
        pre.wf(),
        GoldMiner::update_relation(pre, post, now, update),
        post.table == pre.table,
        post.numbers@ == pre.numbers@,
    ensures
        post.wf(),
{
    if pre.current_milisec < now && pre.game_not_finished && pre.head_node.game_not_finished {
        if let Update::Moved { location, .. } = update {
            let mid = GoldMiner {
                maximum_in_rows: pre.maximum_in_rows,
                maximum_in_rows_cells_location: pre.maximum_in_rows_cells_location,
                ..post
            };
            lemma_move_keeps_wf(pre, mid, location);
            let sr = post.head_node.start_row as int;
            let sums = post.menu_sum_numbers@;
            if sums.len() == pre.table[1] && seq_sum(sums) > pre.maximum_in_rows@[sr] {
                lemma_record_keeps_wf(mid, post);
            }
        }
    }
}

/// A move of the head keeps the invariant.
proof fn lemma_move_keeps_wf(pre: GoldMiner, post: GoldMiner, location: [u8; 2])
    requires
        pre.wf(),
        pre.head_node.game_not_finished,
        HeadNode::move_relation(
            pre.head_node,
            post.head_node,
            pre.table,
            pre.numbers@,
            pre.menu_sum_numbers@,
            post.menu_sum_numbers@,
            pre.current_in_rows_cells_location@,
            post.current_in_rows_cells_location@,
            location,
        ),
        post.table == pre.table,
        post.numbers@ == pre.numbers@,
        post.maximum_in_rows@ == pre.maximum_in_rows@,
        post.maximum_in_rows_cells_location@ == pre.maximum_in_rows_cells_location@,
        post.game_not_finished == pre.game_not_finished,
    ensures
        post.wf(),
{
    let rows = pre.table[0] as int;
    let h = pre.head_node;
    let g = post.head_node;
    let numbers = pre.numbers@;
    let sr = h.start_row as int;
    let path = h.path@;
    let s2 = post.menu_sum_numbers@;
    match forward_target(h.location, h.locked_location, pre.table) {
        Some(n) => {
            lemma_walk_push(path, sr, rows, n);
            let p2 = g.path@;
            assert forall|i: int| 0 <= i < p2.len() implies s2[i] == number_at(
                numbers,
                #[trigger] p2[i],
            ) by {}
        },
        None => {
            let rest = path.drop_last();
            if rest.len() > 0 {
                lemma_walk_prefix(path, sr, rows);
                assert forall|i: int| 0 <= i < rest.len() implies s2[i] == number_at(
                    numbers,
                    #[trigger] rest[i],
                ) by {}
            }
        },
    }
    assert forall|r: int| g.start_row < r < rows implies (#[trigger] post.current_in_rows_cells_location@[r])@
        == seq![cell_at(r, 0)] by {}
}

/// A move of the head keeps what the search has established, except that
/// the head's new walk itself is not yet weighed against its row's best.
proof fn lemma_move_keeps_explored(pre: GoldMiner, post: GoldMiner, location: [u8; 2])
    requires
        pre.wf(),
        pre.explored(),
        pre.head_node.game_not_finished,
        post.wf(),
        HeadNode::move_relation(
            pre.head_node,
            post.head_node,
            pre.table,
            pre.numbers@,
            pre.menu_sum_numbers@,
            post.menu_sum_numbers@,
            pre.current_in_rows_cells_location@,
            post.current_in_rows_cells_location@,
            location,
        ),
        post.table == pre.table,
        post.numbers@ == pre.numbers@,
        post.maximum_in_rows@ == pre.maximum_in_rows@,
    ensures
        post.explored_with(true),
{
    let rows = pre.table[0] as int;
    let cols = pre.table[1] as int;
    let table = pre.table;
    let h = pre.head_node;
    let g = post.head_node;
    let numbers = pre.numbers@;
    let best = pre.maximum_in_rows@;
    let sr = h.start_row as int;
    let p = h.path@;
    let lock = h.locked_location;
    match forward_target(h.location, lock, table) {
        Some(n) => {
            lemma_forward_lock(p, lock, table, sr, n);
            assert forall|w: Seq<[u8; 2]>|
                #[trigger] full_walk(w, sr, rows, cols) && visited(w, g.path@, g.locked_location)
                    implies walk_sum(numbers, w) <= best[sr] || w == g.path@ by {
                lemma_forward_visit(p, lock, table, sr, n, w);
            }
        },
        None => {
            let q = p.drop_last();
            if q.len() > 0 {
                assert forall|w: Seq<[u8; 2]>|
                    #[trigger] full_walk(w, sr, rows, cols) && visited(w, g.path@, g.locked_location)
                        implies walk_sum(numbers, w) <= best[sr] by {
                    lemma_back_visit(p, lock, table, sr, w);
                }
            } else {
                assert forall|w: Seq<[u8; 2]>| #[trigger] full_walk(w, sr, rows, cols) implies walk_sum(
                    numbers,
                    w,
                ) <= best[sr] by {
                    lemma_row_done(p, lock, table, sr, w);
                }
                if sr != rows - 1 {
                    let s2 = sr + 1;
                    assert forall|r: int| 0 <= r < s2 implies #[trigger] row_searched(
                        numbers,
                        best[r],
                        r,
                        rows,
                        cols,
                    ) by {}
                    assert forall|w: Seq<[u8; 2]>|
                        #[trigger] full_walk(w, s2, rows, cols) && visited(
                            w,
                            g.path@,
                            g.locked_location,
                        ) implies walk_sum(numbers, w) <= best[s2] || w == g.path@ by {}
                }
            }
        },
    }
}

/// Weighing the head's walk against its row's best, and recording it when
/// it beats it, completes what the search has established.
proof fn lemma_settle_explored(mid: GoldMiner, post: GoldMiner)
    requires
        mid.wf(),
        mid.explored_with(true),
        post.table == mid.table,
        post.numbers@ == mid.numbers@,
        post.head_node == mid.head_node,
        post.menu_sum_numbers@ == mid.menu_sum_numbers@,
        ({
            let sr = mid.head_node.start_row as int;
            let sums = mid.menu_sum_numbers@;
            if sums.len() == mid.table[1] && seq_sum(sums) > mid.maximum_in_rows@[sr] {
                post.maximum_in_rows@ == mid.maximum_in_rows@.update(sr, seq_sum(sums) as u16)
            } else {
                post.maximum_in_rows@ == mid.maximum_in_rows@
            }
        }),
    ensures
        post.explored(),
{
    let rows = mid.table[0] as int;
    let cols = mid.table[1] as int;
    let h = mid.head_node;
    let sr = h.start_row as int;
    let numbers = mid.numbers@;
    let sums = mid.menu_sum_numbers@;
    lemma_sums_follow(sums, numbers, h.path@);
    lemma_seq_sum_bound(sums);
    let best = post.maximum_in_rows@;
    assert forall|r: int| 0 <= r < sr implies #[trigger] row_searched(numbers, best[r], r, rows, cols) by {}
    assert forall|r: int| sr < r < rows implies #[trigger] best[r] == 0 by {}
    if h.game_not_finished {
        assert forall|w: Seq<[u8; 2]>|
            #[trigger] full_walk(w, sr, rows, cols) && visited(w, h.path@, h.locked_location)
                implies walk_sum(numbers, w) <= best[sr] by {}
    } else {
        assert forall|w: Seq<[u8; 2]>| #[trigger] full_walk(w, sr, rows, cols) implies walk_sum(
            numbers,
            w,
        ) <= best[sr] by {}
    }
}

/// Recording the head's full walk as its row's best keeps the invariant.
proof fn lemma_record_keeps_wf(mid: GoldMiner, post: GoldMiner)
    requires
        mid.wf(),
        mid.menu_sum_numbers@.len() == mid.table[1],
        seq_sum(mid.menu_sum_numbers@) > mid.maximum_in_rows@[mid.head_node.start_row as int],
        post.table == mid.table,
        post.numbers@ == mid.numbers@,
        post.head_node == mid.head_node,
        post.menu_sum_numbers@ == mid.menu_sum_numbers@,
        post.current_in_rows_cells_location@ == mid.current_in_rows_cells_location@,
        post.game_not_finished == mid.game_not_finished,
        post.maximum_in_rows@ == mid.maximum_in_rows@.update(
            mid.head_node.start_row as int,
            seq_sum(mid.menu_sum_numbers@) as u16,
        ),
        post.maximum_in_rows_cells_location@.len() == mid.maximum_in_rows_cells_location@.len(),
        post.maximum_in_rows_cells_location@[mid.head_node.start_row as int]@
            == mid.current_in_rows_cells_location@[mid.head_node.start_row as int]@,
        forall|i: int|
            0 <= i < mid.maximum_in_rows_cells_location@.len() && i != mid.head_node.start_row
                ==> post.maximum_in_rows_cells_location@[i] == mid.maximum_in_rows_cells_location@[i],
    ensures
        post.wf(),
{
    let rows = mid.table[0] as int;
    let cols = mid.table[1] as int;
    let sr = mid.head_node.start_row as int;
    lemma_sums_follow(mid.menu_sum_numbers@, mid.numbers@, mid.head_node.path@);
    lemma_seq_sum_bound(mid.menu_sum_numbers@);
    assert forall|r: int| 0 <= r < rows implies best_record(
        post.numbers@,
        #[trigger] post.maximum_in_rows@[r],
        post.maximum_in_rows_cells_location@[r]@,
        r,
        rows,
        cols,
    ) by {
        if r != sr {
            assert(best_record(
                mid.numbers@,
                mid.maximum_in_rows@[r],
                mid.maximum_in_rows_cells_location@[r]@,
                r,
                rows,
                cols,
            ));
        }
    }
}

/// Replaces the list of row `i`.
fn set_cells(rows: &mut Vec<Vec<[u8; 2]>>, i: usize, cells: Vec<[u8; 2]>)
    requires
        i < old(rows)@.len(),
    ensures
        final(rows)@ == old(rows)@.update(i as int, cells),
{
    let _ = rows.remove(i);
    rows.insert(i, cells);
}

/// Copies a list of cells.
fn copy_cells(cells: &Vec<[u8; 2]>) -> (copy: Vec<[u8; 2]>)
    ensures
        copy@ == cells@,
{
    let mut copy: Vec<[u8; 2]> = Vec::new();
    let mut i: usize = 0;
    while i < cells.len()
        invariant
            0 <= i <= cells@.len(),
            copy@ == cells@.take(i as int),
        decreases cells@.len() - i,
    {
        copy.push(cells[i]);
        i += 1;
    }
    copy
}

/// The first row with the largest best, and that best: the rows are scanned
/// in order and a row is taken when its best beats every one before it.
pub fn best_row(maximum_in_rows: &Vec<u16>) -> (found: (u8, u16))
    requires
        maximum_in_rows@.len() <= 255,
    ensures
        found.0 == seq_argmax(maximum_in_rows@),
        found.1 == seq_max(maximum_in_rows@),
{
    let mut max_of_max: u16 = 0;
    let mut i: u8 = 0;
    let mut j: u8 = 0;
    while (i as usize) < maximum_in_rows.len()
        invariant
            maximum_in_rows@.len() <= 255,
            i <= maximum_in_rows@.len(),
            max_of_max == seq_max(maximum_in_rows@.take(i as int)),
            j == seq_argmax(maximum_in_rows@.take(i as int)),
        decreases maximum_in_rows@.len() - i,
    {
        let m = maximum_in_rows[i as usize];
        proof {
            assert(maximum_in_rows@.take(i + 1).drop_last() == maximum_in_rows@.take(i as int));
        }
        if m > max_of_max {
            max_of_max = m;
            j = i;
        }
        i = i + 1;
    }
    assert(maximum_in_rows@.take(i as int) == maximum_in_rows@);
    (j, max_of_max)
}

} // verus!
