use lights_out_solver::board::{Binary, Board};
use lights_out_solver::gf2;
use lights_out_solver::recursive;

#[test]
fn toggle_twice_restores_board() {
    let mut board = Binary::new_from_values(
        &vec![true, false, true, false, true, false, true, false, true],
        3,
        3,
    );
    let before = board.cells();
    for idx in 0..9 {
        board.trigger_index(idx);
        board.trigger_index(idx);
        assert_eq!(board.cells(), before);
    }
}

#[test]
fn toggle_outside_board_is_noop() {
    let mut board = Binary::new_blank(3, 3);
    board.trigger_index(9);
    board.trigger_index(100);
    assert_eq!(board.cells(), vec![0; 9]);
}

#[test]
fn solution_order_does_not_matter() {
    let solution = gf2::solve(&Binary::new_blank(3, 3)).unwrap();

    let mut forward = Binary::new_blank(3, 3);
    for &step in &solution {
        forward.trigger_index(step);
    }
    let mut backward = Binary::new_blank(3, 3);
    for &step in solution.iter().rev() {
        backward.trigger_index(step);
    }
    assert_eq!(forward.cells(), backward.cells());
    assert!(forward.is_solved());
    assert!(backward.is_solved());
}

#[test]
fn gf2_solves_blank_boards_of_many_sizes() {
    for (cols, rows) in [(1, 1), (2, 2), (3, 2), (2, 5), (4, 4), (5, 5)] {
        let mut board = Binary::new_blank(cols, rows);
        let solution = gf2::solve(&board)
            .expect("a blank board must always have a solution");
        for &step in &solution {
            board.trigger_index(step);
        }
        assert!(board.is_solved(), "{cols}x{rows} blank board not solved");
    }
}

#[test]
fn gf2_solution_is_ascending() {
    let solution = gf2::solve(&Binary::new_blank(4, 4)).unwrap();
    for pair in solution.windows(2) {
        assert!(pair[0] < pair[1]);
    }
}

#[test]
fn gf2_reports_unsolvable_board() {
    // On the 5x5 grid the move-effect matrix is singular; a board with only
    // its top-left light on cannot be driven to the all-lit state.
    let mut values = vec![false; 25];
    values[0] = true;
    let board = Binary::new_from_values(&values, 5, 5);
    assert!(gf2::solve(&board).is_none());
}

#[test]
fn recursive_returns_none_on_solved_board() {
    let board = Binary::new_from_values(&vec![true; 4], 2, 2);
    assert!(recursive::solve(&board).is_none());
}

#[test]
fn recursive_finds_four_move_solution() {
    // Lighting all of a 2x2 board from blank needs every cell pressed: any
    // two presses flip two shared cells an even number of times.
    let board = Binary::new_blank(2, 2);
    let solution = recursive::solve(&board).unwrap();
    assert_eq!(solution.len(), 4);
    let mut check = Binary::new_blank(2, 2);
    for &step in &solution {
        check.trigger_index(step);
    }
    assert!(check.is_solved());
}

#[test]
fn recursive_never_beats_gf2_length() {
    let board = Binary::new_from_values(
        &vec![false, true, false, true, true, true, false, true, false],
        3,
        3,
    );
    let best = recursive::solve(&board).unwrap();
    let linear = gf2::solve(&board).unwrap();
    assert!(best.len() <= linear.len());
}

#[test]
fn board_set_and_get() {
    let mut board = Binary::new_blank(2, 2);
    assert!(board.set(0, 1, 1));
    assert_eq!(board.get(0, 1), Some(1));
    assert!(board.set(0, 1, 0));
    assert_eq!(board.get(0, 1), Some(0));
    assert!(!board.set(2, 0, 1));
    assert!(!board.set(0, 0, 2));
    assert_eq!(board.get(2, 0), None);
    assert_eq!(board.get(0, 2), None);
    assert_eq!(board.size(), (2, 2));
    assert_eq!(board.cols(), 2);
    assert_eq!(board.rows(), 2);
}

#[test]
fn blank_board_is_not_solved() {
    assert!(!Binary::new_blank(2, 2).is_solved());
    assert!(Binary::new_from_values(&vec![true; 4], 2, 2).is_solved());
}

#[test]
fn board_from_positions_marks_cells() {
    let board = Binary::new_from_positions(&vec![0, 3, 3], 2, 2);
    assert_eq!(board.cells(), vec![1, 0, 0, 1]);
}
