use sudoku_solver::{solve, Grid, StepResult, StepSolver};

const EXAMPLE: &str = "\
___26_7_1
68__7__9_
19___45__
82_1___4_
__46_29__
_5___3_28
__93___74
_4__5__36
7_3_18___";

const DEAD_END: &str = "\
1234567__
_______9_
________9
_________
_________
_________
_________
_________
_________";

fn values(grid: &Grid) -> Vec<Option<u32>> {
    grid.cells.iter().map(|c| c.value).collect()
}

fn each_digit_once(cells: Vec<Option<u32>>) -> bool {
    let mut seen = [false; 10];
    for c in cells {
        match c {
            Some(n) if (1..=9).contains(&n) && !seen[n as usize] => seen[n as usize] = true,
            _ => return false,
        }
    }
    true
}

#[test]
fn solve_example() {
    let mut grid = Grid::from_str(EXAMPLE).unwrap();
    let before = values(&grid);
    assert!(solve(&mut grid));
    for i in 0..9 {
        assert!(each_digit_once(grid.get_row(i).iter().map(|c| c.value).collect()));
        assert!(each_digit_once(grid.get_col(i).iter().map(|c| c.value).collect()));
    }
    let after = values(&grid);
    for i in 0..81 {
        if before[i].is_some() {
            assert_eq!(before[i], after[i]);
        }
    }
    assert_eq!(grid.get_empty_cell(), None);
}

#[test]
fn solve_full_board() {
    let full = "123456789\n".repeat(9);
    let mut grid = Grid::from_str(&full).unwrap();
    assert!(solve(&mut grid));
    assert_eq!(values(&grid), values(&Grid::from_str(&full).unwrap()));
}

#[test]
fn solve_unsatisfiable_restores_grid() {
    let mut grid = Grid::from_str(DEAD_END).unwrap();
    let before = values(&grid);
    assert!(!solve(&mut grid));
    assert_eq!(values(&grid), before);
}

#[test]
fn solve_duplicate_clue_in_row() {
    // Two 5s in row 0; column 2 holds every other digit.
    let text = "\
55_______
__1______
__2______
__3______
__4______
__6______
__7______
__8______
__9______";
    let mut grid = Grid::from_str(text).unwrap();
    let before = values(&grid);
    assert!(!solve(&mut grid));
    assert_eq!(values(&grid), before);
}

#[test]
fn step_solver_matches_solve() {
    let mut a = Grid::from_str(EXAMPLE).unwrap();
    let mut b = a.clone();
    assert!(solve(&mut a));
    let mut solver = StepSolver::new(&b);
    let mut steps = 0;
    loop {
        match solver.solve_step(&mut b) {
            StepResult::InProgress => steps += 1,
            StepResult::Solved => break,
            StepResult::Unsatisfiable => panic!("example has a solution"),
        }
        assert!(steps < 10_000_000);
    }
    assert_eq!(values(&a), values(&b));
    // The search is over: further steps change nothing.
    assert_eq!(solver.solve_step(&mut b), StepResult::Solved);
    assert_eq!(values(&a), values(&b));
}

#[test]
fn step_solver_reports_unsatisfiable() {
    let mut grid = Grid::from_str(DEAD_END).unwrap();
    let before = values(&grid);
    let mut solver = StepSolver::new(&grid);
    assert_eq!(solver.solve_step(&mut grid), StepResult::InProgress);
    assert_eq!(grid.get_value([7, 0]), Some(8));
    assert_eq!(solver.solve_step(&mut grid), StepResult::InProgress);
    assert_eq!(solver.solve_step(&mut grid), StepResult::Unsatisfiable);
    assert_eq!(values(&grid), before);
    assert_eq!(solver.solve_step(&mut grid), StepResult::Unsatisfiable);
}

#[test]
fn step_solver_unsatisfiable_in_finite_steps() {
    let text = "\
55_______
__1______
__2______
__3______
__4______
__6______
__7______
__8______
__9______";
    let mut grid = Grid::from_str(text).unwrap();
    let before = values(&grid);
    let mut solver = StepSolver::new(&grid);
    let mut steps = 0;
    while solver.solve_step(&mut grid) == StepResult::InProgress {
        steps += 1;
        assert!(steps < 10_000_000);
    }
    assert_eq!(values(&grid), before);
}

#[test]
fn step_solver_first_decision() {
    let mut grid = Grid::from_str(EXAMPLE).unwrap();
    let mut solver = StepSolver::new(&grid);
    assert_eq!(solver.solve_step(&mut grid), StepResult::InProgress);
    // 3 is the smallest digit in neither row 0 nor column 0.
    assert_eq!(grid.get_value([0, 0]), Some(3));
}

#[test]
fn finish_matches_solve() {
    let mut a = Grid::from_str(EXAMPLE).unwrap();
    let mut b = a.clone();
    assert!(solve(&mut a));
    let mut solver = StepSolver::new(&b);
    assert_eq!(solver.finish(&mut b), StepResult::Solved);
    assert_eq!(values(&a), values(&b));
}

#[test]
fn finish_unsatisfiable() {
    let mut grid = Grid::from_str(DEAD_END).unwrap();
    let before = values(&grid);
    let mut solver = StepSolver::new(&grid);
    assert_eq!(solver.finish(&mut grid), StepResult::Unsatisfiable);
    assert_eq!(values(&grid), before);
}

#[test]
fn solve_single_gap() {
    let text = "\
_23456789
234567891
345678912
456789123
567891234
678912345
789123456
891234567
912345678";
    let mut grid = Grid::from_str(text).unwrap();
    assert!(solve(&mut grid));
    assert_eq!(grid.get_value([0, 0]), Some(1));
}

#[test]
fn step_solver_first_three_decisions() {
    let mut grid = Grid::from_str(EXAMPLE).unwrap();
    let parsed = values(&grid);
    let mut solver = StepSolver::new(&grid);
    assert_eq!(solver.solve_step(&mut grid), StepResult::InProgress);
    assert_eq!(grid.get_value([0, 0]), Some(3));
    // No digit fits at (1, 0): it is taken off the stack.
    assert_eq!(solver.solve_step(&mut grid), StepResult::InProgress);
    assert_eq!(grid.get_value([0, 0]), Some(3));
    assert_eq!(grid.get_value([1, 0]), None);
    assert_eq!(solver.solve_step(&mut grid), StepResult::InProgress);
    assert_eq!(grid.get_value([0, 0]), Some(4));
    let now = values(&grid);
    for i in 1..81 {
        assert_eq!(now[i], parsed[i]);
    }
}

#[test]
fn step_solver_no_candidate_at_first_cell() {
    let text = format!(
        "12345678_\n{}9{}",
        "_".repeat(8),
        format!("\n{}", "_".repeat(9)).repeat(7)
    );
    let mut grid = Grid::from_str(&text).unwrap();
    let before = values(&grid);
    let mut solver = StepSolver::new(&grid);
    assert_eq!(solver.solve_step(&mut grid), StepResult::Unsatisfiable);
    assert_eq!(values(&grid), before);
}
