use lights_out_solver::args::{Display, Input, Origin};
use lights_out_solver::board::Board;
use lights_out_solver::program::{InputError, Outcome, Program};

fn input(lights: Vec<usize>, steps: Vec<usize>, origin: Origin) -> Input {
    Input {
        lights,
        rows: 3,
        cols: 3,
        verbose: false,
        simulation_steps: steps,
        display_mode: Display::Draw,
        origin_location: origin,
    }
}

#[test]
fn run_solves_corner_board() {
    let mut program = Program::new(input(vec![1, 3, 7, 9], vec![], Origin::TopLeft));
    match program.run() {
        Ok(Outcome::Solution(Some(solution))) => assert_eq!(solution, vec![4]),
        other => panic!("expected a solution, got {:?}", other),
    }
}

#[test]
fn run_accepts_duplicate_lights() {
    let mut program = Program::new(input(vec![5, 5, 5], vec![], Origin::TopLeft));
    match program.run() {
        Ok(Outcome::Solution(Some(solution))) => {
            let mut board = lights_out_solver::board::Binary::new_from_positions(&vec![4], 3, 3);
            for &step in &solution {
                board.trigger_index(step);
            }
            assert!(board.is_solved());
        }
        other => panic!("expected a solution, got {:?}", other),
    }
}

#[test]
fn run_rejects_too_many_lights() {
    let mut program = Program::new(input((1..=10).collect(), vec![], Origin::TopLeft));
    assert_eq!(program.run().err(), Some(InputError::TooManyLights));
}

#[test]
fn run_rejects_light_out_of_range() {
    let mut program = Program::new(input(vec![10], vec![], Origin::TopLeft));
    assert_eq!(program.run().err(), Some(InputError::IndexOutOfRange));
}

#[test]
fn run_rejects_zero_index() {
    let mut program = Program::new(input(vec![0], vec![], Origin::TopLeft));
    assert_eq!(program.run().err(), Some(InputError::IndexOutOfRange));

    let mut program = Program::new(input(vec![], vec![0], Origin::TopLeft));
    assert_eq!(program.run().err(), Some(InputError::IndexOutOfRange));
}

#[test]
fn run_simulation_toggles_board() {
    let mut program = Program::new(input(vec![], vec![1], Origin::TopLeft));
    match program.run() {
        Ok(Outcome::Simulation) => {
            assert_eq!(program.board().cells(), vec![1, 1, 0, 1, 0, 0, 0, 0, 0]);
        }
        other => panic!("expected a simulation, got {:?}", other),
    }
}

#[test]
fn run_simulation_respects_origin() {
    // Index 1 counted from the bottom left of a 3x3 grid names the
    // bottom-left corner: cell 6 in top-left row-major order.
    let mut program = Program::new(input(vec![], vec![1], Origin::BottomLeft));
    match program.run() {
        Ok(Outcome::Simulation) => {
            assert_eq!(program.board().cells(), vec![0, 0, 0, 1, 0, 0, 1, 1, 0]);
        }
        other => panic!("expected a simulation, got {:?}", other),
    }
}

#[test]
fn prettify_draws_rows() {
    let mut program = Program::new(input(vec![1], vec![2], Origin::TopLeft));
    program.run().unwrap();
    let text = program.prettify_board(program.board());
    // lights: cell 0 on; step: toggle cell 1 -> flips cells 0, 1, 2, 4.
    assert_eq!(text, "\n\u{b7}##\n\u{b7}#\u{b7}\n\u{b7}\u{b7}\u{b7}");
}

#[test]
fn map_board_uses_one_glyph_per_cell() {
    let board = lights_out_solver::board::Binary::new_from_positions(&vec![0, 3], 2, 2);
    let glyphs = Program::map_board(&board);
    let flat: Vec<&str> = glyphs.iter().map(|s| s.as_str()).collect();
    assert_eq!(flat, vec!["#", "\u{b7}", "\u{b7}", "#"]);
}
