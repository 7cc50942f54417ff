use gold_miner::head::HeadNode;

fn grid(rows: &[&[u8]]) -> Vec<Vec<u8>> {
    rows.iter().map(|r| r.to_vec()).collect()
}

fn first_cells(rows: u8) -> Vec<Vec<[u8; 2]>> {
    (0..rows).map(|r| vec![[r, 0]]).collect()
}

#[test]
fn head_starts_on_the_first_cell() {
    let head = HeadNode::new();
    assert_eq!(head.start_row, 0);
    assert_eq!(head.location, [0, 0]);
    assert_eq!(head.path, vec![[0, 0]]);
    assert_eq!(head.locked_location, [10, 10]);
    assert!(head.game_not_finished);
}

#[test]
fn head_steps_right_from_the_top_row() {
    let mut head = HeadNode::new();
    let mut numbers = grid(&[&[1, 2], &[3, 4]]);
    let mut sums = vec![1];
    let mut rows = first_cells(2);
    let at = head.new_move([2, 2], &mut numbers, &mut sums, &mut rows);
    assert_eq!(at, [0, 1]);
    assert_eq!(head.path, vec![[0, 0], [0, 1]]);
    assert_eq!(sums, vec![1, 2]);
    assert_eq!(rows[0], vec![[0, 0], [0, 1]]);
    assert_eq!(rows[1], vec![[1, 0]]);
    assert_eq!(numbers, grid(&[&[1, 2], &[3, 4]]));
}

#[test]
fn head_steps_back_and_locks_the_cell_it_leaves() {
    let mut head = HeadNode::new();
    let mut numbers = grid(&[&[1, 2], &[3, 4]]);
    let mut sums = vec![1];
    let mut rows = first_cells(2);
    head.new_move([2, 2], &mut numbers, &mut sums, &mut rows);
    let at = head.new_move([2, 2], &mut numbers, &mut sums, &mut rows);
    assert_eq!(at, [0, 0]);
    assert_eq!(head.locked_location, [0, 1]);
    assert_eq!(head.path, vec![[0, 0]]);
    assert_eq!(sums, vec![1]);
    assert_eq!(rows[0], vec![[0, 0]]);
    // the right neighbour is locked: the lower right one comes next
    let at = head.new_move([2, 2], &mut numbers, &mut sums, &mut rows);
    assert_eq!(at, [1, 1]);
    assert_eq!(sums, vec![1, 4]);
    assert_eq!(rows[0], vec![[0, 0], [1, 1]]);
}

#[test]
fn head_prefers_the_upper_right_neighbour() {
    let mut head = HeadNode {
        start_row: 1,
        location: [1, 0],
        path: vec![[1, 0]],
        locked_location: [0, 0],
        game_not_finished: true,
    };
    let mut numbers = grid(&[&[1, 2, 3], &[4, 5, 6], &[7, 8, 9]]);
    let mut sums = vec![4];
    let mut rows = first_cells(3);
    let at = head.new_move([3, 3], &mut numbers, &mut sums, &mut rows);
    assert_eq!(at, [0, 1]);
    assert_eq!(sums, vec![4, 2]);
    assert_eq!(rows[1], vec![[1, 0], [0, 1]]);
    assert_eq!(rows[0], vec![[0, 0]]);
}

#[test]
fn head_with_its_upper_neighbour_locked_steps_right() {
    let mut head = HeadNode {
        start_row: 1,
        location: [1, 0],
        path: vec![[1, 0]],
        locked_location: [0, 1],
        game_not_finished: true,
    };
    let mut numbers = grid(&[&[1, 2, 3], &[4, 5, 6], &[7, 8, 9]]);
    let mut sums = vec![4];
    let mut rows = first_cells(3);
    let at = head.new_move([3, 3], &mut numbers, &mut sums, &mut rows);
    assert_eq!(at, [1, 1]);
    assert_eq!(sums, vec![4, 5]);
}

#[test]
fn head_moves_on_to_the_next_row_when_its_walk_is_used_up() {
    let mut head = HeadNode {
        start_row: 0,
        location: [0, 0],
        path: vec![[0, 0]],
        locked_location: [1, 1],
        game_not_finished: true,
    };
    let mut numbers = grid(&[&[1, 2], &[3, 4]]);
    let mut sums = vec![1];
    let mut rows = first_cells(2);
    let at = head.new_move([2, 2], &mut numbers, &mut sums, &mut rows);
    assert_eq!(at, [1, 0]);
    assert_eq!(head.start_row, 1);
    assert_eq!(head.locked_location, [0, 0]);
    assert_eq!(head.path, vec![[1, 0]]);
    assert_eq!(sums, vec![3]);
    assert!(rows[0].is_empty());
    assert_eq!(rows[1], vec![[1, 0]]);
    assert!(head.game_not_finished);
}

#[test]
fn head_finishes_on_the_last_row() {
    let mut head = HeadNode {
        start_row: 1,
        location: [1, 0],
        path: vec![[1, 0]],
        locked_location: [1, 1],
        game_not_finished: true,
    };
    let mut numbers = grid(&[&[1, 2], &[3, 4]]);
    let mut sums = vec![3];
    let mut rows = first_cells(2);
    let at = head.new_move([2, 2], &mut numbers, &mut sums, &mut rows);
    assert_eq!(at, [1, 0]);
    assert!(!head.game_not_finished);
    assert!(head.path.is_empty());
    assert!(sums.is_empty());
    assert!(rows[1].is_empty());
    assert_eq!(head.start_row, 1);
}

#[test]
fn head_walk_stays_a_walk_while_the_search_goes_on() {
    let (n_rows, n_cols) = (4u8, 4u8);
    let mut numbers: Vec<Vec<u8>> = (0..n_rows).map(|r| (0..n_cols).map(|c| 3 * r + c + 1).collect()).collect();
    let mut head = HeadNode::new();
    let mut sums = vec![numbers[0][0]];
    let mut rows = first_cells(n_rows);
    let mut calls = 0;
    while head.game_not_finished {
        let at = head.new_move([n_rows, n_cols], &mut numbers, &mut sums, &mut rows);
        calls += 1;
        if !head.game_not_finished {
            break;
        }
        let sr = head.start_row;
        assert_eq!(at, *head.path.last().unwrap());
        assert_eq!(head.location, at);
        assert!(head.path.len() <= n_cols as usize);
        assert_eq!(head.path[0], [sr, 0]);
        for (k, cell) in head.path.iter().enumerate() {
            assert_eq!(cell[1] as usize, k);
            assert!(cell[0] < n_rows);
            if k > 0 {
                assert!((cell[0] as i16 - head.path[k - 1][0] as i16).abs() <= 1);
            }
        }
        assert_eq!(rows[sr as usize], head.path);
        let along: Vec<u8> = head.path.iter().map(|c| numbers[c[0] as usize][c[1] as usize]).collect();
        assert_eq!(sums, along);
        for r in sr + 1..n_rows {
            assert_eq!(rows[r as usize], vec![[r, 0]]);
        }
    }
    assert!(calls > 0);
}
