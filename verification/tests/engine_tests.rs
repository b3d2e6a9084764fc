use sudoku::engine::{get_all_possible_values, possible};
use sudoku::grid::{complete, Grid};

fn engine_grid(cells: Vec<u8>) -> Grid {
    Grid::from_cells(cells).unwrap()
}

fn solved_cells() -> Vec<u8> {
    vec![
        5, 3, 4, 6, 7, 8, 9, 1, 2, //
        6, 7, 2, 1, 9, 5, 3, 4, 8, //
        1, 9, 8, 3, 4, 2, 5, 6, 7, //
        8, 5, 9, 7, 6, 1, 4, 2, 3, //
        4, 2, 6, 8, 5, 3, 7, 9, 1, //
        7, 1, 3, 9, 2, 4, 8, 5, 6, //
        9, 6, 1, 5, 3, 7, 2, 8, 4, //
        2, 8, 7, 4, 1, 9, 6, 3, 5, //
        3, 4, 5, 2, 8, 6, 1, 7, 9,
    ]
}

#[test]
fn possible_respects_row_column_and_box() {
    let mut cells = vec![0u8; 81];
    cells[0] = 5;
    let g = engine_grid(cells);
    assert!(!possible(&g, (0, 4), 5));
    assert!(!possible(&g, (4, 0), 5));
    assert!(!possible(&g, (1, 1), 5));
    assert!(possible(&g, (4, 4), 5));
    assert!(possible(&g, (0, 4), 6));
}

#[test]
fn possible_agrees_with_digit_set_recomputation() {
    let mut cells = solved_cells();
    for k in [0usize, 10, 20, 30, 40, 50, 60, 70, 80] {
        cells[k] = 0;
    }
    let g = engine_grid(cells);
    for r in 0..9usize {
        for c in 0..9usize {
            for v in 1..=9u8 {
                let row_has = (0..9usize).any(|j| g.get(r, j) == v);
                let col_has = (0..9usize).any(|i| g.get(i, c) == v);
                let rs = r / 3 * 3;
                let cs = c / 3 * 3;
                let mut box_has = false;
                for i in rs..rs + 3 {
                    for j in cs..cs + 3 {
                        if g.get(i, j) == v {
                            box_has = true;
                        }
                    }
                }
                assert_eq!(possible(&g, (r, c), v), !(row_has || col_has || box_has));
            }
        }
    }
}

#[test]
fn complete_detects_blank_and_full() {
    let blank = Grid::blank();
    assert!(!complete(&blank));
    let full = engine_grid(solved_cells());
    assert!(complete(&full));
    let mut one_missing = solved_cells();
    one_missing[40] = 0;
    let g = engine_grid(one_missing);
    assert!(!complete(&g));
}

#[test]
fn from_cells_refuses_bad_input() {
    assert!(Grid::from_cells(vec![0u8; 80]).is_none());
    let mut cells = vec![0u8; 81];
    cells[3] = 10;
    assert!(Grid::from_cells(cells).is_none());
}

#[test]
fn propagation_commits_forced_cell() {
    let mut cells = vec![0u8; 81];
    for j in 0..8usize {
        cells[j] = (j + 1) as u8;
    }
    let mut g = engine_grid(cells);
    let m = get_all_possible_values(&mut g);
    assert_eq!(g.get(0, 8), 9);
    for e in &m {
        assert_ne!(e.values.len(), 1);
    }
    assert_eq!(m.len(), 72);
}

#[test]
fn propagation_idempotent_at_fixed_point() {
    let mut cells = vec![0u8; 81];
    for j in 0..8usize {
        cells[j] = (j + 1) as u8;
    }
    let mut g = engine_grid(cells);
    let first = get_all_possible_values(&mut g);
    let mut snapshot = Vec::new();
    for r in 0..9usize {
        for c in 0..9usize {
            snapshot.push(g.get(r, c));
        }
    }
    let second = get_all_possible_values(&mut g);
    for r in 0..9usize {
        for c in 0..9usize {
            assert_eq!(g.get(r, c), snapshot[r * 9 + c]);
        }
    }
    assert_eq!(first.len(), second.len());
    for k in 0..first.len() {
        assert_eq!(first[k].row, second[k].row);
        assert_eq!(first[k].col, second[k].col);
        assert_eq!(first[k].values, second[k].values);
    }
}

#[test]
fn propagation_reports_empty_candidate_set() {
    let mut cells = vec![0u8; 81];
    for j in 0..8usize {
        cells[j] = (j + 1) as u8;
    }
    cells[9 + 8] = 9;
    let mut g = engine_grid(cells);
    let m = get_all_possible_values(&mut g);
    let stuck = m.iter().find(|e| e.row == 0 && e.col == 8).unwrap();
    assert_eq!(stuck.values.len(), 0);
}
