//! What the search and its labels promise across calls.

use vstd::prelude::*;

use crate::miner::{
    GoldMiner, Update, seq_max, seq_argmax, lemma_seq_max, best_record, row_searched,
    lemma_update_keeps_wf, lemma_update_keeps_explored,
};
use crate::search::{
    full_walk, moves_left, moves_below, subtree_moves, lemma_forward_moves, lemma_back_moves, lemma_root_moves, lex_less,
    visited, lock_ok, left_behind, locked_out, lemma_forward_order, lemma_back_order,
    lemma_forward_visit, lemma_back_visit, lemma_row_done, lemma_forward_lock,
};
use crate::walk::{is_walk, row_step, sums_follow, lemma_walk_push, lemma_walk_prefix};
use crate::head::{HeadNode, forward_target, cell_at, number_at};
use crate::walk::walk_sum;
use crate::stretch::{walk_beginnings, lemma_walk_beginnings_counted, lemma_moves_below_stretches};
use crate::text::{decimal, ascii_digit};
use crate::settings::{parse_unsigned, digits_value, is_digit, without_plus};

verus! {

/// Once the head has finished on a grid of at most 128 rows, searched from
/// its start with at least two columns, each row's best is the largest sum
/// of any walk from its first cell through all columns: no such walk sums
/// to more, and a positive best is the sum of the walk recorded for it.
pub proof fn lemma_finished_search_is_complete(g: GoldMiner)
    requires
        g.wf(),
        g.explored(),
        !g.head_node.game_not_finished,
    ensures
        forall|r: int, w: Seq<[u8; 2]>|
            0 <= r < g.table[0] && #[trigger] full_walk(w, r, g.table[0] as int, g.table[1] as int)
                ==> walk_sum(g.numbers@, w) <= #[trigger] g.maximum_in_rows@[r],
        forall|r: int|
            0 <= r < g.table[0] && #[trigger] g.maximum_in_rows@[r] > 0 ==> full_walk(
                g.maximum_in_rows_cells_location@[r]@,
                r,
                g.table[0] as int,
                g.table[1] as int,
            ) && walk_sum(g.numbers@, g.maximum_in_rows_cells_location@[r]@)
                == g.maximum_in_rows@[r],
{
    let rows = g.table[0] as int;
    let cols = g.table[1] as int;
    let sr = g.head_node.start_row as int;
    assert forall|r: int, w: Seq<[u8; 2]>|
        0 <= r < rows && #[trigger] full_walk(w, r, rows, cols) implies walk_sum(g.numbers@, w)
        <= #[trigger] g.maximum_in_rows@[r] by {
        if r < sr {
            assert(row_searched(g.numbers@, g.maximum_in_rows@[r], r, rows, cols));
        }
    }
    assert forall|r: int| 0 <= r < rows && #[trigger] g.maximum_in_rows@[r] > 0 implies full_walk(
        g.maximum_in_rows_cells_location@[r]@,
        r,
        rows,
        cols,
    ) && walk_sum(g.numbers@, g.maximum_in_rows_cells_location@[r]@) == g.maximum_in_rows@[r] by {
        assert(best_record(
            g.numbers@,
            g.maximum_in_rows@[r],
            g.maximum_in_rows_cells_location@[r]@,
            r,
            rows,
            cols,
        ));
    }
}

/// The overall best that a clock reading reports is the sum of the walk it
/// reports, from the first cell of the reported row through all columns;
/// a best of 0 comes with no walk.
pub proof fn lemma_final_report_is_walk(pre: GoldMiner, post: GoldMiner, now: u64, update: Update)
    requires
        pre.wf(),
        GoldMiner::update_relation(pre, post, now, update),
        update is Finished,
    ensures
        match update {
            Update::Finished { best_row, best, best_cells, .. } => {
                &&& 0 <= best_row < pre.table[0]
                &&& best == pre.maximum_in_rows@[best_row as int]
                &&& best > 0 ==> full_walk(
                    best_cells@,
                    best_row as int,
                    pre.table[0] as int,
                    pre.table[1] as int,
                ) && walk_sum(pre.numbers@, best_cells@) == best
                &&& best == 0 ==> best_cells@.len() == 0
            },
            _ => false,
        },
{
    lemma_seq_max(pre.maximum_in_rows@);
    let j = seq_argmax(pre.maximum_in_rows@);
    assert(best_record(
        pre.numbers@,
        pre.maximum_in_rows@[j],
        pre.maximum_in_rows_cells_location@[j]@,
        j,
        pre.table[0] as int,
        pre.table[1] as int,
    ));
}

/// On a grid of at most 128 rows, searched from its start with at least two
/// columns, the overall best that a clock reading reports is at least the
/// sum of every walk from the first cell of any row through all columns:
/// it is the largest such sum.
pub proof fn lemma_final_report_is_best(pre: GoldMiner, post: GoldMiner, now: u64, update: Update)
    requires
        pre.wf(),
        pre.explored(),
        GoldMiner::update_relation(pre, post, now, update),
        update is Finished,
    ensures
        match update {
            Update::Finished { best, .. } => forall|r: int, w: Seq<[u8; 2]>|
                0 <= r < pre.table[0] && #[trigger] full_walk(
                    w,
                    r,
                    pre.table[0] as int,
                    pre.table[1] as int,
                ) ==> walk_sum(pre.numbers@, w) <= best,
            _ => false,
        },
{
    lemma_finished_search_is_complete(pre);
    lemma_seq_max(pre.maximum_in_rows@);
    match update {
        Update::Finished { best, .. } => {
            assert forall|r: int, w: Seq<[u8; 2]>|
                0 <= r < pre.table[0] && #[trigger] full_walk(
                    w,
                    r,
                    pre.table[0] as int,
                    pre.table[1] as int,
                ) implies walk_sum(pre.numbers@, w) <= best by {
                assert(walk_sum(pre.numbers@, w) <= pre.maximum_in_rows@[r]);
            }
        },
        _ => {},
    }
}

/// The decimal digits of `n`, as the labels show them, are digits, and
/// read back as `n`.
pub proof fn lemma_decimal_reads_back(n: nat)
    ensures
        decimal(n).len() > 0,
        forall|i: int| 0 <= i < decimal(n).len() ==> is_digit(#[trigger] decimal(n)[i]),
        digits_value(decimal(n)) == n,
        parse_unsigned(decimal(n), n) == Some(n),
    decreases n,
{
    if n >= 10 {
        lemma_decimal_reads_back(n / 10);
        let d = decimal(n / 10);
        let e = decimal(n);
        assert(e.drop_last() == d);
        assert forall|i: int| 0 <= i < e.len() implies is_digit(#[trigger] e[i]) by {}
    } else {
        assert(digits_value(decimal(n).drop_last()) == 0);
    }
}

/// The moves the head has left before the search ends.
pub open spec fn search_moves_left(g: GoldMiner) -> nat {
    moves_left(
        g.head_node.path@,
        g.head_node.locked_location,
        g.head_node.start_row as int,
        g.table[0] as int,
        g.table[1] as int,
    )
}

/// No moves are left exactly when the head has finished.
pub proof fn lemma_no_moves_left_when_finished(g: GoldMiner)
    requires
        g.wf(),
    ensures
        (search_moves_left(g) == 0) <==> !g.head_node.game_not_finished,
{
}

/// A move of the head, from a valid state of at most 128 rows whose lock
/// lies where the search can have left it, takes one move off the moves
/// left.
proof fn lemma_move_takes_one(pre: GoldMiner, post: GoldMiner, now: u64, update: Update)
    requires
        pre.wf(),
        pre.table[0] <= 128,
        lock_ok(pre.head_node.path@, pre.head_node.locked_location, pre.head_node.start_row as int),
        GoldMiner::update_relation(pre, post, now, update),
        post.table == pre.table,
        update is Moved,
    ensures
        search_moves_left(post) + 1 == search_moves_left(pre),
{
    let h = pre.head_node;
    let p = h.path@;
    let lock = h.locked_location;
    let sr = h.start_row as int;
    let table = pre.table;
    let g = post.head_node;
    match forward_target(h.location, lock, table) {
        Some(n) => {
            lemma_forward_moves(p, lock, table, sr, n);
        },
        None => {
            if p.len() >= 2 {
                lemma_back_moves(p, lock, table, sr);
            } else {
                lemma_root_moves(p, lock, table, sr);
            }
        },
    }
}

/// On a grid of at most 128 rows, searched from its start with at least two
/// columns, every move of the head takes exactly one move off the moves
/// left: the head finishes after that many moves, and the next due clock
/// reading reports the overall best.
pub proof fn lemma_each_move_brings_the_end_closer(
    pre: GoldMiner,
    post: GoldMiner,
    now: u64,
    update: Update,
)
    requires
        pre.wf(),
        pre.explored(),
        GoldMiner::update_relation(pre, post, now, update),
        post.table == pre.table,
        update is Moved,
    ensures
        search_moves_left(post) + 1 == search_moves_left(pre),
{
    lemma_move_takes_one(pre, post, now, update);
}

/// `post` follows `pre` by one clock reading, at some time, with whatever
/// report it gave.
pub open spec fn reads_on(pre: GoldMiner, post: GoldMiner) -> bool {
    &&& post.table == pre.table
    &&& post.numbers@ == pre.numbers@
    &&& exists|now: u64, update: Update| GoldMiner::update_relation(pre, post, now, update)
}

/// State `i + 1` of `t` follows state `i` by one clock reading.
pub open spec fn reading_at(t: Seq<GoldMiner>, i: int) -> bool {
    reads_on(t[i], t[i + 1])
}

/// Each state of a run of clock readings keeps the invariant and what the
/// search has established.
proof fn lemma_run_state(t: Seq<GoldMiner>, k: int)
    requires
        0 <= k < t.len(),
        t[0].wf(),
        t[0].explored(),
        forall|i: int| 0 <= i < t.len() - 1 ==> #[trigger] reading_at(t, i),
    ensures
        t[k].wf(),
        t[k].explored(),
        t[k].table == t[0].table,
        t[k].numbers@ == t[0].numbers@,
    decreases k,
{
    if k > 0 {
        lemma_run_state(t, k - 1);
        assert(reading_at(t, k - 1));
        let (now, update) = choose|now: u64, update: Update|
            #[trigger] GoldMiner::update_relation(t[k - 1], t[k], now, update);
        lemma_update_keeps_wf(t[k - 1], t[k], now, update);
        lemma_update_keeps_explored(t[k - 1], t[k], now, update);
    }
}

/// A run of clock readings from the start of a search on a grid of at most
/// 128 rows and at least two columns (where `GoldMiner::new` and
/// `from_numbers` give `explored`): every state keeps the invariant and what
/// the search has established, and once the head has finished, each row's
/// best is the largest sum of any walk from its first cell through all
/// columns, a positive best being the sum of the walk recorded for it.
pub proof fn lemma_run_finds_every_best(t: Seq<GoldMiner>)
    requires
        t.len() >= 1,
        t[0].wf(),
        t[0].explored(),
        forall|i: int| 0 <= i < t.len() - 1 ==> #[trigger] reading_at(t, i),
    ensures
        forall|i: int| 0 <= i < t.len() ==> (#[trigger] t[i]).wf() && t[i].explored(),
        !t.last().head_node.game_not_finished ==> {
            let g = t.last();
            &&& forall|r: int, w: Seq<[u8; 2]>|
                0 <= r < g.table[0] && #[trigger] full_walk(w, r, g.table[0] as int, g.table[1] as int)
                    ==> walk_sum(g.numbers@, w) <= #[trigger] g.maximum_in_rows@[r]
            &&& forall|r: int|
                0 <= r < g.table[0] && #[trigger] g.maximum_in_rows@[r] > 0 ==> full_walk(
                    g.maximum_in_rows_cells_location@[r]@,
                    r,
                    g.table[0] as int,
                    g.table[1] as int,
                ) && walk_sum(g.numbers@, g.maximum_in_rows_cells_location@[r]@)
                    == g.maximum_in_rows@[r]
        },
{
    assert forall|i: int| 0 <= i < t.len() implies (#[trigger] t[i]).wf() && t[i].explored() by {
        lemma_run_state(t, i);
    }
    lemma_run_state(t, t.len() - 1);
    if !t.last().head_node.game_not_finished {
        lemma_finished_search_is_complete(t.last());
    }
}

/// `post` follows `pre` by one clock reading that moved the head.
pub open spec fn moves_on(pre: GoldMiner, post: GoldMiner) -> bool {
    &&& post.table == pre.table
    &&& post.numbers@ == pre.numbers@
    &&& exists|now: u64, update: Update|
        #[trigger] GoldMiner::update_relation(pre, post, now, update) && update is Moved
}

/// State `i + 1` of `t` follows state `i` by a move of the head.
pub open spec fn move_at(t: Seq<GoldMiner>, i: int) -> bool {
    moves_on(t[i], t[i + 1])
}

/// The head's walk in state `i` of `t`.
pub open spec fn head_walk(t: Seq<GoldMiner>, i: int) -> Seq<[u8; 2]> {
    t[i].head_node.path@
}

/// In state `i` of `t` the head is searching and its walk goes through all
/// columns.
pub open spec fn full_at(t: Seq<GoldMiner>, i: int) -> bool {
    t[i].head_node.game_not_finished && head_walk(t, i).len() == t[0].table[1]
}

/// The head's walk was `w` in one of the states `0..=k` of `t`.
pub open spec fn seen(t: Seq<GoldMiner>, k: int, w: Seq<[u8; 2]>) -> bool {
    exists|i: int| 0 <= i <= k && t[i].head_node.game_not_finished && #[trigger] head_walk(t, i) == w
}

/// `t` starts with the head on the first cell of row 0, with its first lock,
/// on a valid state of at most 128 rows, and each later state follows by a
/// move of the head from a valid state.
pub open spec fn head_run(t: Seq<GoldMiner>) -> bool {
    &&& t.len() >= 1
    &&& forall|i: int| 0 <= i < t.len() ==> (#[trigger] t[i]).wf()
    &&& t[0].table[0] <= 128
    &&& t[0].head_node.start_row == 0
    &&& t[0].head_node.path@ == seq![cell_at(0, 0)]
    &&& t[0].head_node.locked_location == cell_at(10, 10)
    &&& t[0].head_node.game_not_finished
    &&& forall|i: int| 0 <= i < t.len() - 1 ==> #[trigger] move_at(t, i)
}

/// What the first `k + 1` states of a head run have shown.
spec fn order_inv(t: Seq<GoldMiner>, k: int) -> bool {
    let g = t[k];
    let h = g.head_node;
    let rows = t[0].table[0] as int;
    let cols = t[0].table[1] as int;
    let sr = h.start_row as int;
    &&& forall|i: int| 0 <= i <= k ==> (#[trigger] t[i]).table == t[0].table
    &&& lock_ok(h.path@, h.locked_location, sr)
    &&& forall|i: int| 0 <= i <= k ==> (#[trigger] t[i]).head_node.start_row <= sr
    &&& forall|i: int|
        0 <= i <= k && #[trigger] full_at(t, i) && h.game_not_finished ==> t[i].head_node.start_row < sr
            || visited(head_walk(t, i), h.path@, h.locked_location)
    &&& h.game_not_finished ==> forall|w: Seq<[u8; 2]>|
        #[trigger] full_walk(w, sr, rows, cols) && visited(w, h.path@, h.locked_location) ==> seen(
            t,
            k,
            w,
        )
    &&& forall|r: int, w: Seq<[u8; 2]>| 0 <= r < sr && #[trigger] full_walk(w, r, rows, cols) ==> seen(t, k, w)
    &&& !h.game_not_finished ==> forall|w: Seq<[u8; 2]>| #[trigger] full_walk(w, sr, rows, cols) ==> seen(
        t,
        k,
        w,
    )
    &&& forall|i: int, j: int|
        0 <= i < j <= k && #[trigger] full_at(t, i) && #[trigger] full_at(t, j) ==> lex_less(
            head_walk(t, i),
            head_walk(t, j),
        )
}

proof fn lemma_order_inv(t: Seq<GoldMiner>, k: int)
    requires
        head_run(t),
        0 <= k < t.len(),
    ensures
        order_inv(t, k),
    decreases k,
{
    let rows = t[0].table[0] as int;
    let cols = t[0].table[1] as int;
    if k == 0 {
        let h = t[0].head_node;
        assert(t[0].wf());
        assert(h.path@.last() == cell_at(0, 0));
        assert forall|w: Seq<[u8; 2]>|
            #[trigger] full_walk(w, 0, rows, cols) && visited(w, h.path@, h.locked_location) implies seen(
            t,
            0,
            w,
        ) by {
            assert(!left_behind(w, h.path@));
            assert(!locked_out(w, h.path@, h.locked_location));
            assert(head_walk(t, 0) == w);
        }
    } else {
        lemma_order_inv(t, k - 1);
        let pre = t[k - 1];
        let post = t[k];
        assert(pre.wf() && post.wf());
        assert(move_at(t, k - 1));
        let (now, update) = choose|now: u64, update: Update|
            #[trigger] GoldMiner::update_relation(pre, post, now, update) && update is Moved;
        let table = pre.table;
        let h = pre.head_node;
        let g = post.head_node;
        let p = h.path@;
        let lock = h.locked_location;
        let sr = h.start_row as int;
        assert(h.game_not_finished);
        assert(p.last() == p[p.len() - 1]);
        assert(h.location == p.last());
        assert(p.last()[1] == p.len() - 1);
        assert forall|w: Seq<[u8; 2]>| seen(t, k - 1, w) implies seen(t, k, w) by {
            let i = choose|i: int|
                0 <= i <= k - 1 && t[i].head_node.game_not_finished && #[trigger] head_walk(t, i) == w;
            assert(head_walk(t, i) == w);
        }
        assert(head_walk(t, k) == g.path@);
        assert forall|i: int| 0 <= i <= k implies (#[trigger] t[i]).table == t[0].table
            && t[i].head_node.start_row <= g.start_row by {}
        match forward_target(h.location, lock, table) {
            Some(n) => {
                lemma_forward_lock(p, lock, table, sr, n);
                assert(g.path@ == p.push(n));
                assert forall|i: int|
                    0 <= i <= k && #[trigger] full_at(t, i) && g.game_not_finished implies t[i].head_node.start_row
                        < g.start_row || visited(head_walk(t, i), g.path@, g.locked_location) by {
                    if i < k && full_at(t, i) && t[i].head_node.start_row == sr {
                        assert(t[i].wf());
                        lemma_forward_order(p, lock, table, sr, n, head_walk(t, i));
                    }
                }
                assert forall|w: Seq<[u8; 2]>|
                    #[trigger] full_walk(w, sr, rows, cols) && visited(w, g.path@, g.locked_location)
                        implies seen(t, k, w) by {
                    lemma_forward_visit(p, lock, table, sr, n, w);
                    if w == g.path@ {
                        assert(head_walk(t, k) == w);
                    } else {
                        assert(seen(t, k - 1, w));
                    }
                }
                assert forall|i: int, j: int|
                    0 <= i < j <= k && #[trigger] full_at(t, i) && #[trigger] full_at(t, j) implies lex_less(
                    head_walk(t, i),
                    head_walk(t, j),
                ) by {
                    if j == k {
                        assert(t[i].wf());
                        let wi = head_walk(t, i);
                        if t[i].head_node.start_row < sr {
                            assert(wi[0][0] == t[i].head_node.start_row);
                            assert(g.path@[0] == p[0]);
                            assert(crate::search::agree_before(wi, g.path@, 0));
                            assert(wi[0][0] < g.path@[0][0]);
                        } else {
                            lemma_forward_order(p, lock, table, sr, n, wi);
                        }
                    }
                }
            },
            None => {
                let q = p.drop_last();
                if q.len() > 0 {
                    assert(g.path@ == q);
                    assert(row_step(p[p.len() - 2], p[p.len() - 1]));
                    assert(q.last() == p[p.len() - 2]);
                    assert(lock_ok(g.path@, g.locked_location, sr));
                    assert forall|i: int|
                    0 <= i <= k && #[trigger] full_at(t, i) && g.game_not_finished implies t[i].head_node.start_row
                        < g.start_row || visited(head_walk(t, i), g.path@, g.locked_location) by {
                        if i < k && full_at(t, i) && t[i].head_node.start_row == sr {
                            assert(visited(head_walk(t, i), p, lock));
                            assert(head_walk(t, i).len() == cols);
                            lemma_back_order(p, lock, sr, rows, head_walk(t, i));
                        }
                        if i == k {
                            assert(!full_at(t, k));
                        }
                    }
                    assert forall|w: Seq<[u8; 2]>|
                        #[trigger] full_walk(w, sr, rows, cols) && visited(w, g.path@, g.locked_location)
                            implies seen(t, k, w) by {
                        lemma_back_visit(p, lock, table, sr, w);
                    }
                } else {
                    assert forall|w: Seq<[u8; 2]>| #[trigger] full_walk(w, sr, rows, cols) implies seen(
                        t,
                        k,
                        w,
                    ) by {
                        lemma_row_done(p, lock, table, sr, w);
                    }
                    if sr != rows - 1 {
                        let s2 = sr + 1;
                        assert(g.path@ == seq![cell_at(s2, 0)]);
                        assert(g.path@.last() == cell_at(s2, 0));
                        assert forall|r: int, w: Seq<[u8; 2]>|
                            0 <= r < s2 && #[trigger] full_walk(w, r, rows, cols) implies seen(t, k, w) by {
                            if r == sr {
                                assert(full_walk(w, sr, rows, cols));
                            }
                        }
                        assert forall|w: Seq<[u8; 2]>|
                            #[trigger] full_walk(w, s2, rows, cols) && visited(w, g.path@, g.locked_location)
                                implies seen(t, k, w) by {
                            assert(!left_behind(w, g.path@));
                            assert(!locked_out(w, g.path@, g.locked_location));
                            assert(head_walk(t, k) == w);
                        }
                        assert forall|i: int|
                    0 <= i <= k && #[trigger] full_at(t, i) && g.game_not_finished implies t[i].head_node.start_row
                        < g.start_row || visited(head_walk(t, i), g.path@, g.locked_location) by {
                            if i == k && full_at(t, k) {
                                assert(head_walk(t, k) == g.path@);
                            }
                        }
                        assert forall|i: int, j: int|
                            0 <= i < j <= k && #[trigger] full_at(t, i) && #[trigger] full_at(t, j)
                                implies lex_less(head_walk(t, i), head_walk(t, j)) by {
                            if j == k {
                                assert(t[i].wf());
                                let wi = head_walk(t, i);
                                assert(wi[0][0] == t[i].head_node.start_row);
                                assert(g.path@[0] == cell_at(s2, 0));
                                assert(crate::search::agree_before(wi, g.path@, 0));
                                assert(wi[0][0] < g.path@[0][0]);
                            }
                        }
                    }
                }
            },
        }
    }
}

/// A run of head moves from the start, on a grid of at most 128 rows: the
/// walks through all columns that the head's walk becomes come in strictly
/// increasing order of their rows read cell by cell, so each comes at most
/// once; and once the head has finished, every walk from the first cell of
/// any row through all columns has come. In every state the listed sums are
/// the numbers along the head's walk.
pub proof fn lemma_head_walks_every_walk_once_in_order(t: Seq<GoldMiner>)
    requires
        head_run(t),
    ensures
        forall|i: int, j: int|
            0 <= i < j < t.len() && #[trigger] full_at(t, i) && #[trigger] full_at(t, j) ==> lex_less(
                head_walk(t, i),
                head_walk(t, j),
            ) && head_walk(t, i) != head_walk(t, j),
        !t.last().head_node.game_not_finished ==> forall|r: int, w: Seq<[u8; 2]>|
            0 <= r < t[0].table[0] && #[trigger] full_walk(w, r, t[0].table[0] as int, t[0].table[1] as int)
                ==> exists|i: int| 0 <= i < t.len() && full_at(t, i) && #[trigger] head_walk(t, i) == w,
        forall|i: int|
            0 <= i < t.len() ==> sums_follow(
                (#[trigger] t[i]).menu_sum_numbers@,
                t[i].numbers@,
                head_walk(t, i),
            ),
{
    let k = t.len() - 1;
    lemma_order_inv(t, k);
    let rows = t[0].table[0] as int;
    let cols = t[0].table[1] as int;
    assert forall|i: int, j: int|
        0 <= i < j < t.len() && #[trigger] full_at(t, i) && #[trigger] full_at(t, j) implies lex_less(
        head_walk(t, i),
        head_walk(t, j),
    ) && head_walk(t, i) != head_walk(t, j) by {
        assert(lex_less(head_walk(t, i), head_walk(t, j)));
    }
    if !t.last().head_node.game_not_finished {
        let g = t[k];
        assert(g.wf());
        assert forall|r: int, w: Seq<[u8; 2]>|
            0 <= r < rows && #[trigger] full_walk(w, r, rows, cols) implies exists|i: int|
            0 <= i < t.len() && full_at(t, i) && #[trigger] head_walk(t, i) == w by {
            if r == g.head_node.start_row {
                assert(full_walk(w, g.head_node.start_row as int, rows, cols));
            }
            assert(seen(t, k, w));
            let i = choose|i: int|
                0 <= i <= k && t[i].head_node.game_not_finished && #[trigger] head_walk(t, i) == w;
            assert(full_at(t, i));
        }
    }
}

/// From the head's start on a valid grid, the moves the search has left are
/// twice the number of beginnings of walks through the grid, less one for
/// each row.
pub proof fn lemma_moves_from_the_start(g: GoldMiner)
    requires
        g.wf(),
        g.head_node.start_row == 0,
        g.head_node.path@ == seq![cell_at(0, 0)],
        g.head_node.locked_location == cell_at(10, 10),
        g.head_node.game_not_finished,
    ensures
        walk_beginnings(g.table[0] as int, g.table[1] as int).finite(),
        search_moves_left(g) + g.table[0] == 2 * walk_beginnings(
            g.table[0] as int,
            g.table[1] as int,
        ).len(),
{
    let rows = g.table[0] as int;
    let cols = g.table[1] as int;
    lemma_walk_beginnings_counted(rows, cols);
    lemma_moves_below_stretches(0, rows, cols);
    assert(moves_below(0, rows, cols) == subtree_moves(0, 0, rows, cols) + 1 + moves_below(
        1,
        rows,
        cols,
    ));
}

/// A run of head moves from the start, on a grid of at most 128 rows: after
/// `i` moves the moves left and `i` add up to twice the number of beginnings
/// of walks through the grid, less one for each row; so the head finishes
/// on exactly that many moves, and no earlier.
pub proof fn lemma_search_ends_after_twice_the_beginnings_less_the_rows(t: Seq<GoldMiner>)
    requires
        head_run(t),
    ensures
        walk_beginnings(t[0].table[0] as int, t[0].table[1] as int).finite(),
        forall|i: int|
            0 <= i < t.len() ==> search_moves_left(#[trigger] t[i]) + i + t[0].table[0] == 2
                * walk_beginnings(t[0].table[0] as int, t[0].table[1] as int).len(),
        forall|i: int|
            0 <= i < t.len() ==> (!(#[trigger] t[i]).head_node.game_not_finished <==> i
                + t[0].table[0] == 2 * walk_beginnings(t[0].table[0] as int, t[0].table[1] as int).len()),
{
    let n = walk_beginnings(t[0].table[0] as int, t[0].table[1] as int).len();
    lemma_moves_from_the_start(t[0]);
    assert forall|i: int| 0 <= i < t.len() implies search_moves_left(#[trigger] t[i]) + i
        + t[0].table[0] == 2 * n by {
        lemma_moves_after(t, i);
    }
    assert forall|i: int| 0 <= i < t.len() implies (!(#[trigger] t[i]).head_node.game_not_finished
        <==> i + t[0].table[0] == 2 * n) by {
        lemma_moves_after(t, i);
        lemma_no_moves_left_when_finished(t[i]);
    }
}

/// After `i` moves of a head run, `i` moves have come off the moves left.
proof fn lemma_moves_after(t: Seq<GoldMiner>, i: int)
    requires
        head_run(t),
        0 <= i < t.len(),
    ensures
        search_moves_left(t[i]) + i == search_moves_left(t[0]),
    decreases i,
{
    if i > 0 {
        lemma_moves_after(t, i - 1);
        lemma_order_inv(t, i - 1);
        assert(move_at(t, i - 1));
        let (now, update) = choose|now: u64, update: Update|
            #[trigger] GoldMiner::update_relation(t[i - 1], t[i], now, update) && update is Moved;
        lemma_move_takes_one(t[i - 1], t[i], now, update);
    }
}

/// A call of `new_move` on a searching head whose walk, row lists and sums
/// agree leaves them agreeing again while the search goes on: the walk
/// stays a walk from the first cell of the start row, through at most all
/// columns, ending where the head stands.
pub proof fn lemma_new_move_keeps_head_walk(
    pre: HeadNode,
    post: HeadNode,
    table: [u8; 2],
    numbers: Seq<Vec<u8>>,
    sums_pre: Seq<u8>,
    sums_post: Seq<u8>,
    rows_pre: Seq<Vec<[u8; 2]>>,
    rows_post: Seq<Vec<[u8; 2]>>,
    result: [u8; 2],
)
    requires
        pre.walk_ok(table, numbers, sums_pre, rows_pre),
        pre.can_move(table, numbers, sums_pre.len() as int, rows_pre),
        HeadNode::move_relation(
            pre,
            post,
            table,
            numbers,
            sums_pre,
            sums_post,
            rows_pre,
            rows_post,
            result,
        ),
    ensures
        post.game_not_finished ==> post.walk_ok(table, numbers, sums_post, rows_post),
        post.game_not_finished ==> result == post.path@.last() && post.path@.len() <= table[1],
{
    let p = pre.path@;
    let sr = pre.start_row as int;
    let n_rows = table[0] as int;
    assert(p.last() == p[p.len() - 1]);
    match forward_target(pre.location, pre.locked_location, table) {
        Some(n) => {
            lemma_walk_push(p, sr, n_rows, n);
            assert(sums_follow(sums_post, numbers, post.path@));
        },
        None => {
            let rest = p.drop_last();
            if rest.len() > 0 {
                lemma_walk_prefix(p, sr, n_rows);
                assert(sums_follow(sums_post, numbers, post.path@));
            } else if sr != n_rows - 1 {
                let q = post.path@;
                assert(rows_post[sr + 1] == rows_pre[sr + 1]);
                assert(is_walk(q, sr + 1, n_rows));
                assert(sums_post =~= seq![number_at(numbers, cell_at(sr + 1, 0))]);
                assert(sums_follow(sums_post, numbers, q));
            }
        },
    }
}

} // verus!
