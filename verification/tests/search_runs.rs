use gold_miner::miner::{best_row, GoldMiner, Update};
use gold_miner::settings::Settings;

fn grid(rows: &[&[u8]]) -> Vec<Vec<u8>> {
    rows.iter().map(|r| r.to_vec()).collect()
}

fn text(bytes: &[u8]) -> String {
    String::from_utf8(bytes.to_vec()).unwrap()
}

/// The largest sum of a walk from the first cell of `start` through all columns.
fn brute_best(numbers: &[Vec<u8>], start: usize) -> u32 {
    let rows = numbers.len();
    let cols = numbers[0].len();
    fn go(numbers: &[Vec<u8>], r: usize, c: usize, rows: usize, cols: usize) -> u32 {
        let here = numbers[r][c] as u32;
        if c + 1 == cols {
            return here;
        }
        let mut best = go(numbers, r, c + 1, rows, cols);
        if r > 0 {
            best = best.max(go(numbers, r - 1, c + 1, rows, cols));
        }
        if r + 1 < rows {
            best = best.max(go(numbers, r + 1, c + 1, rows, cols));
        }
        here + best
    }
    go(numbers, start, 0, rows, cols)
}

/// Runs the clock one millisecond past each due time until the best is
/// reported; returns every update.
fn run(miner: &mut GoldMiner) -> Vec<Update> {
    let mut updates = Vec::new();
    for _ in 0..100_000 {
        let now = miner.current_milisec + 1;
        let before = miner.maximum_in_rows.clone();
        let update = miner.update_logic(now);
        for (a, b) in before.iter().zip(miner.maximum_in_rows.iter()) {
            assert!(b >= a);
        }
        let done = matches!(update, Update::Finished { .. });
        updates.push(update);
        if done {
            return updates;
        }
    }
    panic!("the search did not end");
}

#[test]
fn search_starts_on_the_first_cell() {
    let miner = GoldMiner::from_numbers([2, 3], grid(&[&[1, 2, 3], &[4, 5, 6]]), 50, 1000);
    assert_eq!(miner.table, [2, 3]);
    assert_eq!(miner.menu_sum_numbers, vec![1]);
    assert_eq!(miner.head_node.path, vec![[0, 0]]);
    assert_eq!(miner.maximum_in_rows, vec![0, 0]);
    assert_eq!(miner.current_in_rows_cells_location, vec![vec![[0, 0]], vec![[1, 0]]]);
    assert!(miner.maximum_in_rows_cells_location.iter().all(|c| c.is_empty()));
    assert_eq!(miner.current_milisec, 1000);
    assert_eq!(miner.next_milisec, 0);
    assert_eq!(miner.refresh_rate_in_miliseconds, 50);
    assert!(miner.game_not_finished);
}

#[test]
fn search_waits_until_its_time_has_passed() {
    let mut miner = GoldMiner::from_numbers([2, 2], grid(&[&[1, 2], &[3, 4]]), 50, 1000);
    assert!(matches!(miner.update_logic(999), Update::Wait));
    assert!(matches!(miner.update_logic(1000), Update::Wait));
    assert_eq!(miner.next_milisec, 1000);
    assert_eq!(miner.current_milisec, 1000);
    assert_eq!(miner.head_node.path, vec![[0, 0]]);
    match miner.update_logic(1001) {
        Update::Moved { location, start_row, .. } => {
            assert_eq!(location, [0, 1]);
            assert_eq!(start_row, 0);
        }
        _ => panic!("expected a move"),
    }
    assert_eq!(miner.current_milisec, 1051);
    assert_eq!(miner.next_milisec, 1001);
    assert!(matches!(miner.update_logic(1051), Update::Wait));
}

#[test]
fn search_of_a_two_by_two_grid_step_by_step() {
    let mut miner = GoldMiner::from_numbers([2, 2], grid(&[&[1, 2], &[3, 4]]), 10, 0);
    let updates = run(&mut miner);
    let expected: Vec<([u8; 2], u8, &str, &str)> = vec![
        ([0, 1], 0, "Max : 0 ->", "1 + 2  = 3"),
        ([0, 0], 0, "Max : 3 ->", "1 + "),
        ([1, 1], 0, "Max : 3 ->", "1 + 4  = 5"),
        ([0, 0], 0, "Max : 5 ->", "1 + "),
        ([1, 0], 1, "Max : 0 ->", "3 + "),
        ([0, 1], 1, "Max : 0 ->", "3 + 2  = 5"),
        ([1, 0], 1, "Max : 5 ->", "3 + "),
        ([1, 1], 1, "Max : 5 ->", "3 + 4  = 7"),
        ([1, 0], 1, "Max : 7 ->", "3 + "),
        ([1, 0], 1, "Max : 7 ->", ""),
    ];
    assert_eq!(updates.len(), expected.len() + 1);
    for (update, (loc, row, max, sum)) in updates.iter().zip(expected.iter()) {
        match update {
            Update::Moved { location, start_row, max_label, sum_label } => {
                assert_eq!(location, loc);
                assert_eq!(start_row, row);
                assert_eq!(text(max_label), *max);
                assert_eq!(text(sum_label), *sum);
            }
            _ => panic!("expected a move"),
        }
    }
    match updates.last().unwrap() {
        Update::Finished { best_row, best, final_label, best_cells } => {
            assert_eq!(*best_row, 1);
            assert_eq!(*best, 7);
            assert_eq!(text(final_label), "Final Maximum : ?7");
            assert_eq!(best_cells, &vec![[1, 0], [1, 1]]);
        }
        _ => panic!("expected the final report"),
    }
    assert_eq!(miner.maximum_in_rows, vec![5, 7]);
    assert_eq!(miner.maximum_in_rows_cells_location, vec![vec![[0, 0], [1, 1]], vec![[1, 0], [1, 1]]]);
    assert!(!miner.game_not_finished);
    let now = miner.current_milisec + 1;
    assert!(matches!(miner.update_logic(now), Update::Idle));
}

#[test]
fn search_of_a_three_by_three_grid_finds_the_diagonal() {
    let numbers = grid(&[&[5, 1, 1], &[1, 9, 1], &[1, 1, 7]]);
    let mut miner = GoldMiner::from_numbers([3, 3], numbers, 1, 0);
    let updates = run(&mut miner);
    assert_eq!(updates.len(), 52);
    assert_eq!(miner.maximum_in_rows, vec![21, 17, 17]);
    match updates.last().unwrap() {
        Update::Finished { best_row, best, best_cells, .. } => {
            assert_eq!(*best_row, 0);
            assert_eq!(*best, 21);
            assert_eq!(best_cells, &vec![[0, 0], [1, 1], [2, 2]]);
        }
        _ => panic!("expected the final report"),
    }
}

#[test]
fn search_finds_the_largest_walk_sum_of_every_row() {
    let mut seed: u32 = 12345;
    for rows in 1..6u8 {
        for cols in 2..7u8 {
            let mut numbers = Vec::new();
            for _ in 0..rows {
                let mut row = Vec::new();
                for _ in 0..cols {
                    seed = seed.wrapping_mul(1103515245).wrapping_add(12345);
                    row.push(((seed >> 16) % 100) as u8);
                }
                numbers.push(row);
            }
            let mut miner = GoldMiner::from_numbers([rows, cols], numbers.clone(), 1, 0);
            let updates = run(&mut miner);
            let mut overall = 0;
            for r in 0..rows as usize {
                let best = brute_best(&numbers, r);
                assert_eq!(miner.maximum_in_rows[r] as u32, best);
                overall = overall.max(best);
            }
            match updates.last().unwrap() {
                Update::Finished { best, best_cells, best_row, .. } => {
                    assert_eq!(*best as u32, overall);
                    let sum: u32 = best_cells.iter().map(|c| numbers[c[0] as usize][c[1] as usize] as u32).sum();
                    assert_eq!(sum, overall);
                    assert_eq!(best_cells[0], [*best_row, 0]);
                }
                _ => panic!("expected the final report"),
            }
        }
    }
}

#[test]
fn search_with_one_column_never_weighs_the_first_start_cell() {
    let mut miner = GoldMiner::from_numbers([2, 1], grid(&[&[4], &[6]]), 1, 0);
    let updates = run(&mut miner);
    assert_eq!(miner.maximum_in_rows, vec![0, 6]);
    match updates.last().unwrap() {
        Update::Finished { best_row, best, best_cells, .. } => {
            assert_eq!(*best_row, 1);
            assert_eq!(*best, 6);
            assert_eq!(best_cells, &vec![[1, 0]]);
        }
        _ => panic!("expected the final report"),
    }
}

#[test]
fn search_of_zeros_reports_zero_without_a_walk() {
    let mut miner = GoldMiner::from_numbers([2, 2], grid(&[&[0, 0], &[0, 0]]), 1, 0);
    let updates = run(&mut miner);
    match updates.last().unwrap() {
        Update::Finished { best_row, best, best_cells, final_label } => {
            assert_eq!(*best_row, 0);
            assert_eq!(*best, 0);
            assert!(best_cells.is_empty());
            assert_eq!(text(final_label), "Final Maximum : ?0");
        }
        _ => panic!("expected the final report"),
    }
}

#[test]
fn search_on_random_numbers_below_the_bound() {
    let settings = Settings {
        table: [4, 5],
        max_number: 7,
        refresh_rate_in_miliseconds: 20,
        wait_then_solve_in_miliseconds: 300,
    };
    let miner = GoldMiner::new(&settings);
    assert_eq!(miner.table, [4, 5]);
    assert_eq!(miner.numbers.len(), 4);
    for row in &miner.numbers {
        assert_eq!(row.len(), 5);
        assert!(row.iter().all(|&n| n < 7));
    }
    assert_eq!(miner.menu_sum_numbers, vec![miner.numbers[0][0]]);
    assert_eq!(miner.current_milisec, 300);
    assert_eq!(miner.refresh_rate_in_miliseconds, 20);
}

#[test]
fn best_row_takes_the_first_largest() {
    assert_eq!(best_row(&vec![3, 7, 7, 2]), (1, 7));
    assert_eq!(best_row(&vec![0, 0]), (0, 0));
    assert_eq!(best_row(&vec![]), (0, 0));
    assert_eq!(best_row(&vec![1, 2, 9]), (2, 9));
}

/// The moves of a depth-first search below a cell: a step into each
/// neighbour of the next column, its own search, and a step back.
fn subtree_moves(r: i64, c: i64, rows: i64, cols: i64) -> u64 {
    if c + 1 >= cols {
        return 0;
    }
    let mut total = 0;
    for rho in [r - 1, r, r + 1] {
        if 0 <= rho && rho < rows {
            total += 2 + subtree_moves(rho, c + 1, rows, cols);
        }
    }
    total
}

#[test]
fn search_takes_one_move_per_step_of_its_depth_first_order() {
    for rows in 1..5u8 {
        for cols in 2..6u8 {
            let numbers: Vec<Vec<u8>> = (0..rows).map(|r| (0..cols).map(|c| r * 7 + c).collect()).collect();
            let mut miner = GoldMiner::from_numbers([rows, cols], numbers, 1, 0);
            let updates = run(&mut miner);
            let moves = updates.iter().filter(|u| matches!(u, Update::Moved { .. })).count() as u64;
            let expected: u64 = (0..rows as i64)
                .map(|r| subtree_moves(r, 0, rows as i64, cols as i64) + 1)
                .sum();
            assert_eq!(moves, expected);
        }
    }
}

/// Every beginning of a walk through the grid, listed one by one: its first
/// cells, one or more, from the first column on.
fn walk_beginnings(rows: u8, cols: u8) -> Vec<Vec<(u8, u8)>> {
    let mut done: Vec<Vec<(u8, u8)>> = (0..rows).map(|r| vec![(r, 0)]).collect();
    let mut frontier = done.clone();
    while let Some(q) = frontier.pop() {
        let (r, c) = *q.last().unwrap();
        if c + 1 >= cols {
            continue;
        }
        for rho in [r as i16 - 1, r as i16, r as i16 + 1] {
            if 0 <= rho && rho < rows as i16 {
                let mut next = q.clone();
                next.push((rho as u8, c + 1));
                done.push(next.clone());
                frontier.push(next);
            }
        }
    }
    done
}

#[test]
fn search_ends_after_twice_the_walk_beginnings_less_the_rows() {
    for rows in 1..5u8 {
        for cols in 2..6u8 {
            let numbers: Vec<Vec<u8>> = (0..rows).map(|r| (0..cols).map(|c| r + c).collect()).collect();
            let mut miner = GoldMiner::from_numbers([rows, cols], numbers, 1, 0);
            let updates = run(&mut miner);
            let moves = updates.iter().filter(|u| matches!(u, Update::Moved { .. })).count();
            let n = walk_beginnings(rows, cols).len();
            assert_eq!(moves, 2 * n - rows as usize);
        }
    }
    let mut miner = GoldMiner::from_numbers([2, 2], grid(&[&[1, 2], &[3, 4]]), 1, 0);
    let updates = run(&mut miner);
    assert_eq!(updates.iter().filter(|u| matches!(u, Update::Moved { .. })).count(), 10);
}
