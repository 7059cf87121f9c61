use sudoku::cell::{Cell, Highlight};
use sudoku::grid::{Grid, GridStatus, LoadError};
use sudoku::solve::StripeHint;
use sudoku::units::Unit;

const CLASSIC: &str = "123456789";

fn complete_values() -> Vec<u8> {
    let mut v = Vec::new();
    for r in 0..9usize {
        for c in 0..9usize {
            v.push(((r * 3 + r / 3 + c) % 9 + 1) as u8);
        }
    }
    v
}

fn loaded(arr: Vec<u8>) -> Grid {
    let mut g = Grid::new(CLASSIC);
    let n = arr.iter().filter(|&&x| x > 0).count() as u32;
    assert_eq!(g.bodge("test".to_string(), arr), Ok(n));
    g
}

fn highlights(g: &Grid) -> Vec<Highlight> {
    (0..g.size()).map(|a| g.cell(a).highlight).collect()
}

#[test]
fn new_classic_grid_is_empty() {
    let g = Grid::new(CLASSIC);
    assert!(g.isempty());
    assert_eq!(g.status(), GridStatus::Empty);
    assert_eq!(g.states(), 9);
    assert_eq!(g.block_size(), 3);
    assert_eq!(g.size(), 81);
    assert_eq!(g.name().as_str(), "Empty grid for 123456789");
    assert_eq!(g.alphabet().as_str(), CLASSIC);
    assert_eq!(g.solved_cells(), 0);
    for a in 0..81 {
        assert_eq!(g.cell(a), Cell::empty());
    }
}

#[test]
fn new_hexdoku_grid() {
    let g = Grid::new("0123456789abcdef");
    assert!(g.isempty());
    assert_eq!(g.states(), 16);
    assert_eq!(g.block_size(), 4);
    assert_eq!(g.size(), 256);
}

#[test]
fn new_not_square_grid() {
    let g = Grid::new("12345678");
    assert!(!g.isempty());
    assert_eq!(g.status(), GridStatus::NotSquare);
    assert_eq!(g.states(), 8);
    assert_eq!(g.block_size(), 2);
    assert_eq!(g.size(), 64);
}

#[test]
fn empty_alphabet_grid() {
    let g = Grid::new("");
    assert!(g.isempty());
    assert_eq!(g.size(), 0);
}

#[test]
fn bodge_counts_solved_entries() {
    let mut arr = vec![0u8; 81];
    arr[0] = 7;
    arr[8] = 3;
    arr[80] = 1;
    let mut g = Grid::new(CLASSIC);
    assert_eq!(g.bodge("demo".to_string(), arr), Ok(3));
    assert_eq!(g.name().as_str(), "demo");
    assert_eq!(g.cell(0), Cell { solved: true, solution: 6, highlight: Highlight::Plain });
    assert_eq!(g.cell(8), Cell { solved: true, solution: 2, highlight: Highlight::Plain });
    assert_eq!(g.cell(80), Cell { solved: true, solution: 0, highlight: Highlight::Plain });
    assert!(!g.cell(1).solved);
    assert_eq!(g.solved_cells(), 3);
    assert_eq!(g.status(), GridStatus::Empty);
}

#[test]
fn bodge_zero_keeps_earlier_values() {
    let mut g = Grid::new(CLASSIC);
    let mut first = vec![0u8; 81];
    first[5] = 4;
    assert_eq!(g.bodge("a".to_string(), first), Ok(1));
    let mut second = vec![0u8; 81];
    second[6] = 9;
    assert_eq!(g.bodge("b".to_string(), second), Ok(1));
    assert_eq!(g.cell(5).solution, 3);
    assert!(g.cell(5).solved);
    assert_eq!(g.cell(6).solution, 8);
    assert_eq!(g.solved_cells(), 2);
}

#[test]
fn bodge_wrong_length_leaves_cells() {
    let mut g = Grid::new(CLASSIC);
    let mut arr = vec![0u8; 81];
    arr[10] = 5;
    assert_eq!(g.bodge("first".to_string(), arr), Ok(1));
    let before: Vec<Cell> = (0..81).map(|a| g.cell(a)).collect();
    let r = g.bodge("second".to_string(), vec![1u8; 80]);
    assert_eq!(r, Err(LoadError::WrongLength { expected: 81, found: 80 }));
    let after: Vec<Cell> = (0..81).map(|a| g.cell(a)).collect();
    assert_eq!(before, after);
    assert_eq!(g.name().as_str(), "second");
    let r = g.bodge("third".to_string(), vec![0u8; 82]);
    assert_eq!(r, Err(LoadError::WrongLength { expected: 81, found: 82 }));
    assert_eq!(g.solved_cells(), 1);
}

#[test]
fn validate_complete_grid() {
    let mut g = loaded(complete_values());
    assert!(g.validate());
    assert!(highlights(&g).iter().all(|h| *h == Highlight::Plain));
    assert_eq!(g.solved_cells(), 81);
}

#[test]
fn validate_empty_grid() {
    let mut g = Grid::new(CLASSIC);
    assert!(g.validate());
    assert!(highlights(&g).iter().all(|h| *h == Highlight::Plain));
}

#[test]
fn validate_row_duplicate() {
    let mut arr = vec![0u8; 81];
    arr[2] = 5;
    arr[7] = 5;
    let mut g = loaded(arr);
    assert!(!g.validate());
    assert_eq!(g.cell(7).highlight, Highlight::Conflict);
    assert_eq!(g.cell(2).highlight, Highlight::Plain);
    assert_eq!(highlights(&g).iter().filter(|h| **h == Highlight::Conflict).count(), 1);
    assert_eq!(g.cell(7).solution, 4);
    assert!(g.cell(7).solved);
}

#[test]
fn validate_flags_every_duplicate() {
    let mut arr = vec![0u8; 81];
    // row 0: 1 twice
    arr[0] = 1;
    arr[5] = 1;
    // column 8: 2 twice
    arr[8 + 9 * 3] = 2;
    arr[8 + 9 * 7] = 2;
    // block 4 (centre): 3 twice, different rows and columns
    arr[3 * 9 + 3] = 3;
    arr[5 * 9 + 5] = 3;
    let mut g = loaded(arr);
    assert!(!g.validate());
    let flagged: Vec<usize> = (0..81).filter(|&a| g.cell(a).highlight == Highlight::Conflict).collect();
    assert_eq!(flagged, vec![5, 50, 71]);
}

#[test]
fn validate_column_duplicate() {
    let mut arr = vec![0u8; 81];
    arr[4] = 6;
    arr[4 + 9 * 8] = 6;
    let mut g = loaded(arr);
    assert!(!g.validate());
    assert_eq!(g.cell(76).highlight, Highlight::Conflict);
    assert_eq!(g.cell(4).highlight, Highlight::Plain);
}

#[test]
fn validate_complete_grid_with_one_swap() {
    let mut v = complete_values();
    v.swap(0, 1);
    let mut g = loaded(v);
    assert!(!g.validate());
    assert!(highlights(&g).iter().any(|h| *h == Highlight::Conflict));
}

#[test]
fn solve_next_fills_last_cell_of_row() {
    let mut arr = vec![0u8; 81];
    arr[..9].copy_from_slice(&[2, 3, 4, 5, 6, 7, 8, 9, 0]);
    let mut g = loaded(arr);
    assert!(g.validate());
    assert_eq!(g.solve_next(), 1);
    assert_eq!(g.cell(8), Cell { solved: true, solution: 0, highlight: Highlight::Claimed });
    let symbol = g.alphabet().chars().nth(g.cell(8).solution as usize).unwrap();
    assert_eq!(symbol, '1');
    assert_eq!(g.solved_cells(), 9);
    assert_eq!(g.solve_next(), 0);
    assert_eq!(g.solved_cells(), 9);
}

#[test]
fn solve_next_fills_gap_inside_row() {
    let mut arr = vec![0u8; 81];
    arr[36..45].copy_from_slice(&[9, 1, 8, 2, 0, 3, 7, 4, 6]);
    let mut g = loaded(arr);
    assert_eq!(g.solve_next(), 1);
    assert_eq!(g.cell(40), Cell { solved: true, solution: 4, highlight: Highlight::Claimed });
    assert_eq!(g.solve_next(), 0);
}

#[test]
fn solve_next_fills_column() {
    let mut arr = vec![0u8; 81];
    let col = [1, 2, 3, 4, 5, 6, 7, 0, 9];
    for r in 0..9 {
        arr[r * 9 + 2] = col[r];
    }
    let mut g = loaded(arr);
    assert_eq!(g.solve_next(), 1);
    assert_eq!(g.cell(7 * 9 + 2), Cell { solved: true, solution: 7, highlight: Highlight::Claimed });
    assert_eq!(g.solve_next(), 0);
}

#[test]
fn solve_next_fills_block() {
    let mut arr = vec![0u8; 81];
    // block 8 (bottom right), all but its centre
    let vals = [1, 2, 3, 4, 0, 6, 7, 8, 9];
    for i in 0..9 {
        arr[(6 + i / 3) * 9 + 6 + i % 3] = vals[i];
    }
    let mut g = loaded(arr);
    assert_eq!(g.solve_next(), 1);
    assert_eq!(g.cell(7 * 9 + 7), Cell { solved: true, solution: 4, highlight: Highlight::Claimed });
    assert_eq!(g.solve_next(), 0);
}

#[test]
fn solve_next_prefers_rows_over_columns() {
    let mut arr = vec![0u8; 81];
    // column 0 lacks only row 8's value; row 4 lacks only its last cell
    let col = [1, 2, 3, 4, 5, 6, 7, 8, 0];
    for r in 0..9 {
        arr[r * 9] = col[r];
    }
    arr[36..45].copy_from_slice(&[5, 1, 2, 3, 4, 6, 7, 8, 0]);
    let mut g = loaded(arr);
    assert!(g.validate());
    assert_eq!(g.solve_next(), 1);
    assert_eq!(g.cell(44).solution, 8);
    assert!(g.cell(44).solved);
    assert!(!g.cell(72).solved);
    assert_eq!(g.solve_next(), 1);
    assert_eq!(g.cell(72), Cell { solved: true, solution: 8, highlight: Highlight::Claimed });
}

#[test]
fn solve_next_without_near_full_unit() {
    let mut arr = vec![0u8; 81];
    arr[0] = 1;
    arr[10] = 2;
    arr[80] = 3;
    let mut g = loaded(arr);
    let before: Vec<Cell> = (0..81).map(|a| g.cell(a)).collect();
    assert_eq!(g.solve_next(), 0);
    let after: Vec<Cell> = (0..81).map(|a| g.cell(a)).collect();
    assert_eq!(before, after);
}

#[test]
fn solve_next_on_empty_and_full_grids() {
    let mut g = Grid::new(CLASSIC);
    assert_eq!(g.solve_next(), 0);
    let mut full = loaded(complete_values());
    assert_eq!(full.solve_next(), 0);
}

#[test]
fn solve_next_repeated_completes_grid_with_holes() {
    let mut v = complete_values();
    for &a in &[0usize, 10, 20, 30, 40, 50, 60, 70, 80] {
        v[a] = 0;
    }
    let mut g = loaded(v);
    let mut steps = 0;
    while g.solve_next() > 0 {
        steps += 1;
    }
    assert_eq!(steps, 9);
    assert_eq!(g.solved_cells(), 81);
    let expected = complete_values();
    for a in 0..81 {
        assert_eq!(g.cell(a).solution + 1, expected[a]);
    }
    assert!(g.validate());
}

#[test]
fn claim_rc_sets_claimed_value() {
    let mut g = Grid::new(CLASSIC);
    g.claim_rc(2, 5, 6);
    assert_eq!(g.cell(2 * 9 + 5), Cell { solved: true, solution: 6, highlight: Highlight::Claimed });
    g.claim_a(80, 0);
    assert_eq!(g.cell(80), Cell { solved: true, solution: 0, highlight: Highlight::Claimed });
    assert_eq!(g.solved_cells(), 2);
}

#[test]
fn mark_conflict_keeps_value() {
    let mut arr = vec![0u8; 81];
    arr[3] = 2;
    let mut g = loaded(arr);
    g.mark_conflict(3);
    assert_eq!(g.cell(3), Cell { solved: true, solution: 1, highlight: Highlight::Conflict });
}

#[test]
fn hexdoku_row_completion() {
    let mut g = Grid::new("0123456789abcdef");
    let mut arr = vec![0u8; 256];
    for c in 1..16 {
        arr[16 * 3 + c] = c as u8 + 1;
    }
    assert_eq!(g.bodge("hex".to_string(), arr), Ok(15));
    assert!(g.validate());
    assert_eq!(g.solve_next(), 1);
    assert_eq!(g.cell(48), Cell { solved: true, solution: 0, highlight: Highlight::Claimed });
}

#[test]
fn unit_addresses() {
    let g = Grid::new(CLASSIC);
    assert_eq!(g.addr(Unit::Row, 2, 4), 22);
    assert_eq!(g.addr(Unit::Column, 2, 4), 38);
    assert_eq!(g.addr(Unit::Block, 5, 0), 33);
    assert_eq!(g.addr(Unit::Block, 5, 4), 43);
    assert_eq!(g.addr(Unit::Block, 8, 8), 80);
    assert_eq!(g.addr(Unit::Block, 7, 3), 66);
}

#[test]
fn stripe_hint_two_rows_hold_value() {
    let mut arr = vec![0u8; 81];
    arr[1] = 5; // row 0, block column 0
    arr[9 + 4] = 5; // row 1, block column 1
    let g = loaded(arr);
    assert_eq!(g.stripe_hint(0, 4), Some(StripeHint { row: 2, block: 2 }));
    assert_eq!(g.stripe_hint(0, 3), None);
    assert_eq!(g.stripe_hint(1, 4), None);
}

#[test]
fn stripe_hint_middle_row_missing() {
    let mut arr = vec![0u8; 81];
    arr[3 * 9 + 8] = 9; // row 3, block column 2
    arr[5 * 9 + 0] = 9; // row 5, block column 0
    let g = loaded(arr);
    assert_eq!(g.stripe_hint(1, 8), Some(StripeHint { row: 4, block: 1 }));
    assert_eq!(g.stripe_hint(2, 8), None);
}

#[test]
fn stripe_hint_needs_exactly_all_but_one_row() {
    let mut arr = vec![0u8; 81];
    arr[6 * 9] = 2;
    arr[7 * 9 + 3] = 2;
    arr[8 * 9 + 6] = 2;
    let g = loaded(arr);
    assert_eq!(g.stripe_hint(2, 1), None);
    let mut one = vec![0u8; 81];
    one[6 * 9] = 2;
    let g = loaded(one);
    assert_eq!(g.stripe_hint(2, 1), None);
}

#[test]
fn stripe_hint_does_not_change_solve_next() {
    let mut arr = vec![0u8; 81];
    arr[1] = 5;
    arr[9 + 4] = 5;
    let mut g = loaded(arr);
    assert!(g.stripe_hint(0, 4).is_some());
    assert_eq!(g.solve_next(), 0);
    assert_eq!(g.solved_cells(), 2);
}
