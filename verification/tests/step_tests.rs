use sudoku_solver::sudoku::Sudoku;

/// The first solution of the empty grid under ascending-position,
/// ascending-digit search.
const EMPTY_GRID_SOLUTION: &str =
    "123456789456789123789123456214365897365897214897214365531642978642978531978531642";

#[test]
fn first_steps_place_then_reject() {
    let mut sudoku = Sudoku::new(vec![0u8; 81]);
    // First step: the seeded trail bumps its first entry to 1.
    sudoku.back_prop_next_step().unwrap();
    assert_eq!(sudoku.cells[0], 1);
    // Second step: the grid is consistent, so 1 is tried at position 1 even
    // though it repeats in the row; the conflict stays visible for one step.
    sudoku.back_prop_next_step().unwrap();
    assert_eq!(sudoku.cells[1], 1);
    // Third step: the conflict is detected and the digit is retried as 2.
    sudoku.back_prop_next_step().unwrap();
    assert_eq!(sudoku.cells[1], 2);
    assert_eq!(sudoku.cells[0], 1);
}

#[test]
fn stepping_solves_the_empty_grid() {
    let mut sudoku = Sudoku::new(vec![0u8; 81]);
    sudoku.visualizer = true;
    let mut steps = 0u32;
    while sudoku.visualizer {
        sudoku
            .back_prop_next_step()
            .expect("stepping the empty grid never exhausts the trail");
        steps += 1;
        assert!(steps < 1_000_000, "stepping did not terminate");
    }
    let expected: Vec<u8> = EMPTY_GRID_SOLUTION.bytes().map(|b| b - b'0').collect();
    assert_eq!(sudoku.cells, expected);
    // Both modes walk positions and digits in the same ascending order, so
    // the stepped run ends in the grid the one-shot solver returns.
    let solved = Sudoku::new(vec![0u8; 81]).solve().unwrap();
    assert_eq!(sudoku.cells, solved.cells);
}

#[test]
fn stepping_reports_exhaustion_on_conflicting_clues() {
    // Two 1s fixed in the top-left block: inconsistent from the start, so
    // the very first step finds the cursor at position 0 with nothing to
    // retry.
    let mut cells = vec![0u8; 81];
    cells[1] = 1;
    cells[11] = 1;
    let mut sudoku = Sudoku::new(cells.clone());
    let err = sudoku.back_prop_next_step().unwrap_err();
    assert_eq!(err, "Back propogation failed!");
    assert_eq!(sudoku.cells, cells);
}

#[test]
fn stepping_eventually_exhausts_an_unsolvable_prefix() {
    // Clues that leave no legal digit for position 0: its row holds
    // 2..=9 and its column also holds a 1 further down.
    let mut cells = vec![0u8; 81];
    for c in 1..9 {
        cells[c] = (c + 1) as u8;
    }
    cells[9] = 1;
    let mut sudoku = Sudoku::new(cells);
    assert!(sudoku.check());
    let mut steps = 0u32;
    let err = loop {
        match sudoku.back_prop_next_step() {
            Ok(()) => {
                steps += 1;
                assert!(steps < 1_000_000, "stepping did not terminate");
            }
            Err(e) => break e,
        }
    };
    assert_eq!(err, "Back propogation failed!");
}
