use sudoku::grid::Grid;
use sudoku::search::{solve, solve_first};

fn solver_grid(cells: Vec<u8>) -> Grid {
    Grid::from_cells(cells).unwrap()
}

fn solver_solved_cells() -> Vec<u8> {
    vec![
        5, 3, 4, 6, 7, 8, 9, 1, 2, //
        6, 7, 2, 1, 9, 5, 3, 4, 8, //
        1, 9, 8, 3, 4, 2, 5, 6, 7, //
        8, 5, 9, 7, 6, 1, 4, 2, 3, //
        4, 2, 6, 8, 5, 3, 7, 9, 1, //
        7, 1, 3, 9, 2, 4, 8, 5, 6, //
        9, 6, 1, 5, 3, 7, 2, 8, 4, //
        2, 8, 7, 4, 1, 9, 6, 3, 5, //
        3, 4, 5, 2, 8, 6, 1, 7, 9,
    ]
}

fn assert_valid_complete(g: &Grid) {
    for r in 0..9usize {
        for c in 0..9usize {
            let v = g.get(r, c);
            assert!((1..=9).contains(&v));
        }
    }
    for unit in 0..9usize {
        let mut row_seen = [false; 10];
        let mut col_seen = [false; 10];
        let mut box_seen = [false; 10];
        for k in 0..9usize {
            row_seen[g.get(unit, k) as usize] = true;
            col_seen[g.get(k, unit) as usize] = true;
            let r = unit / 3 * 3 + k / 3;
            let c = unit % 3 * 3 + k % 3;
            box_seen[g.get(r, c) as usize] = true;
        }
        for v in 1..=9usize {
            assert!(row_seen[v]);
            assert!(col_seen[v]);
            assert!(box_seen[v]);
        }
    }
}

#[test]
fn solve_unique_puzzle_emits_exactly_one_solution() {
    let full = solver_solved_cells();
    let mut cells = full.clone();
    cells[0] = 0;
    cells[9 + 3] = 0;
    cells[2 * 9 + 6] = 0;
    let g = solver_grid(cells);
    let solutions = solve(&g);
    assert_eq!(solutions.len(), 1);
    let s = &solutions[0];
    for r in 0..9usize {
        for c in 0..9usize {
            assert_eq!(s.get(r, c), full[r * 9 + c]);
        }
    }
    assert_valid_complete(s);
}

#[test]
fn solve_complete_grid_returns_it() {
    let g = solver_grid(solver_solved_cells());
    let solutions = solve(&g);
    assert_eq!(solutions.len(), 1);
    for r in 0..9usize {
        for c in 0..9usize {
            assert_eq!(solutions[0].get(r, c), g.get(r, c));
        }
    }
}

#[test]
fn solve_rejects_duplicate_in_row() {
    let mut cells = vec![0u8; 81];
    cells[0] = 5;
    cells[3] = 5;
    let g = solver_grid(cells);
    let solutions = solve(&g);
    assert_eq!(solutions.len(), 0);
}

#[test]
fn solve_rejects_duplicate_in_box() {
    let mut cells = vec![0u8; 81];
    cells[0] = 7;
    cells[9 + 1] = 7;
    let g = solver_grid(cells);
    assert_eq!(solve(&g).len(), 0);
}

#[test]
fn solve_unsatisfiable_grid_terminates_with_no_solution() {
    let mut cells = vec![0u8; 81];
    for j in 0..8usize {
        cells[j] = (j + 1) as u8;
    }
    cells[9 + 8] = 9;
    let g = solver_grid(cells);
    let solutions = solve(&g);
    assert_eq!(solutions.len(), 0);
    assert!(solve_first(&g).is_none());
}

#[test]
fn blank_grid_has_a_valid_completion() {
    let g = Grid::blank();
    let s = solve_first(&g).unwrap();
    assert_valid_complete(&s);
}

#[test]
fn solve_keeps_the_given_cells() {
    let full = solver_solved_cells();
    let mut cells = vec![0u8; 81];
    for k in 0..81usize {
        if k % 4 == 0 {
            cells[k] = full[k];
        }
    }
    let g = solver_grid(cells.clone());
    let s = solve_first(&g).unwrap();
    for k in 0..81usize {
        if cells[k] != 0 {
            assert_eq!(s.get(k / 9, k % 9), cells[k]);
        }
    }
    assert_valid_complete(&s);
}
