use manifold_core::ManifoldEngine;
use manifold_core::Topology;

/// A complete valid classic grid, used to derive solvable puzzles.
fn base_solution() -> Vec<u8> {
    let mut g: Vec<u8> = Vec::new();
    for r in 0..9usize {
        for c in 0..9usize {
            g.push(((3 * (r % 3) + r / 3 + c) % 9 + 1) as u8);
        }
    }
    g
}

/// Checks that a classic 81-cell grid is complete and has no duplicate in
/// any row, column or box.
fn assert_valid_classic(grid: &[u8]) {
    assert_eq!(grid.len(), 81);
    for &v in grid {
        assert!(1 <= v && v <= 9);
    }
    for unit in 0..9usize {
        let mut row = [false; 10];
        let mut col = [false; 10];
        let mut boxx = [false; 10];
        for k in 0..9usize {
            let rv = grid[unit * 9 + k] as usize;
            assert!(!row[rv], "duplicate in row {}", unit);
            row[rv] = true;
            let cv = grid[k * 9 + unit] as usize;
            assert!(!col[cv], "duplicate in column {}", unit);
            col[cv] = true;
            let bi = (unit / 3 * 3 + k / 3) * 9 + (unit % 3 * 3 + k % 3);
            let bv = grid[bi] as usize;
            assert!(!boxx[bv], "duplicate in box {}", unit);
            boxx[bv] = true;
        }
    }
}

#[test]
fn fresh_engine_dimensions() {
    let e = ManifoldEngine::new(Topology::Classic9x9);
    let grid = e.get_grid();
    assert_eq!(grid.len(), 81);
    assert!(grid.iter().all(|&v| v == 0));
    let fixed = e.get_fixed_cells();
    assert_eq!(fixed.len(), 81);
    assert!(fixed.iter().all(|&v| v == 0));

    let c = ManifoldEngine::new(Topology::Cube6Faces);
    assert_eq!(c.get_grid().len(), 486);
    assert_eq!(c.get_fixed_cells().len(), 486);
}

#[test]
fn fresh_grid_is_all_safe() {
    let e = ManifoldEngine::new(Topology::Classic9x9);
    for i in 0..81usize {
        for v in 1..=9u8 {
            assert!(e.is_safe(i, v));
        }
    }
}

#[test]
fn write_guard_on_fixed_cell() {
    let mut e = ManifoldEngine::new(Topology::Classic9x9);
    let mut puzzle = vec![0u8; 81];
    puzzle[0] = 9;
    assert!(e.load_puzzle(puzzle));
    assert!(e.is_fixed(0));
    assert!(!e.set_cell(0, 5));
    assert_eq!(e.get_cell(0), 9);
    assert!(!e.set_cell(0, 0));
    assert_eq!(e.get_cell(0), 9);
}

#[test]
fn clear_always_succeeds_on_non_fixed_cell() {
    let mut e = ManifoldEngine::new(Topology::Classic9x9);
    assert!(e.set_cell(5, 7));
    assert!(!e.is_safe(4, 7));
    assert!(e.set_cell(5, 0));
    assert_eq!(e.get_cell(5), 0);
    assert!(e.is_safe(4, 7));
    assert!(e.set_cell(5, 0));
}

#[test]
fn set_cell_rejects_bad_writes() {
    let mut e = ManifoldEngine::new(Topology::Classic9x9);
    assert!(!e.set_cell(81, 5));
    assert!(!e.set_cell(0, 10));
    assert!(e.set_cell(0, 5));
    assert!(!e.set_cell(1, 5));
    assert_eq!(e.get_cell(1), 0);
    assert!(e.set_cell(1, 6));
    assert_eq!(e.get_cell(1), 6);
}

#[test]
fn safety_follows_rows_columns_and_boxes() {
    let mut e = ManifoldEngine::new(Topology::Classic9x9);
    assert!(e.set_cell(0, 5));
    assert!(!e.is_safe(1, 5));
    assert!(!e.is_safe(9, 5));
    assert!(!e.is_safe(10, 5));
    assert!(!e.is_safe(20, 5));
    assert!(e.is_safe(80, 5));
    assert!(e.is_safe(1, 6));
}

#[test]
fn every_cell_has_twenty_neighbors() {
    for &cell in &[0usize, 40, 80, 17] {
        let mut e = ManifoldEngine::new(Topology::Classic9x9);
        assert!(e.set_cell(cell, 5));
        let mut unsafe_count = 0;
        for j in 0..81usize {
            if !e.is_safe(j, 5) {
                unsafe_count += 1;
            }
        }
        assert_eq!(unsafe_count, 20, "cell {}", cell);
    }
}

#[test]
fn constraints_are_symmetric() {
    for &(a, b) in &[(0usize, 1usize), (0, 9), (0, 10), (40, 41), (40, 4), (40, 30)] {
        let mut e1 = ManifoldEngine::new(Topology::Classic9x9);
        assert!(e1.set_cell(a, 5));
        let forward = !e1.is_safe(b, 5);
        let mut e2 = ManifoldEngine::new(Topology::Classic9x9);
        assert!(e2.set_cell(b, 5));
        let backward = !e2.is_safe(a, 5);
        assert!(forward, "{} should constrain {}", a, b);
        assert!(backward, "{} should constrain {}", b, a);
    }
}

#[test]
fn load_rejects_bad_lengths_and_values() {
    let mut e = ManifoldEngine::new(Topology::Classic9x9);
    assert!(e.set_cell(3, 4));
    assert!(!e.load_puzzle(vec![0u8; 80]));
    assert!(!e.load_puzzle(vec![0u8; 82]));
    assert!(!e.load_puzzle(vec![0u8; 486]));
    let mut bad = vec![0u8; 81];
    bad[7] = 10;
    assert!(!e.load_puzzle(bad));
    // A rejected load leaves the engine untouched.
    assert_eq!(e.get_cell(3), 4);
    assert!(!e.is_fixed(3));
}

#[test]
fn load_replaces_prior_state() {
    let mut e = ManifoldEngine::new(Topology::Classic9x9);
    let mut p1 = vec![0u8; 81];
    p1[0] = 1;
    p1[10] = 2;
    assert!(e.load_puzzle(p1));
    let mut p2 = vec![0u8; 81];
    p2[20] = 3;
    assert!(e.load_puzzle(p2));
    assert_eq!(e.get_cell(0), 0);
    assert_eq!(e.get_cell(10), 0);
    assert_eq!(e.get_cell(20), 3);
    assert!(!e.is_fixed(0));
    assert!(!e.is_fixed(10));
    assert!(e.is_fixed(20));
    let fixed = e.get_fixed_cells();
    assert_eq!(fixed.iter().filter(|&&b| b == 1).count(), 1);
}

#[test]
fn reset_is_idempotent_and_keeps_fixed_cells() {
    let mut e = ManifoldEngine::new(Topology::Classic9x9);
    let mut puzzle = vec![0u8; 81];
    puzzle[0] = 9;
    puzzle[40] = 3;
    assert!(e.load_puzzle(puzzle));
    assert!(e.set_cell(1, 5));
    assert!(e.set_cell(80, 2));
    e.reset();
    let once = e.get_grid();
    e.reset();
    let twice = e.get_grid();
    assert_eq!(once, twice);
    assert_eq!(once[0], 9);
    assert_eq!(once[40], 3);
    assert_eq!(once[1], 0);
    assert_eq!(once[80], 0);
}

#[test]
fn accessors_default_out_of_range() {
    let e = ManifoldEngine::new(Topology::Classic9x9);
    assert_eq!(e.get_cell(81), 0);
    assert_eq!(e.get_cell(usize::MAX), 0);
    assert!(!e.is_fixed(81));
}

#[test]
fn solve_completes_an_empty_grid() {
    let mut e = ManifoldEngine::new(Topology::Classic9x9);
    let stats = e.solve();
    assert!(stats.success);
    assert!(stats.iterations >= 1);
    assert_valid_classic(&e.get_grid());
}

#[test]
fn solve_reports_success_on_solvable_puzzle() {
    let solution = base_solution();
    let givens: [usize; 23] = [
        0, 4, 8, 10, 14, 18, 22, 26, 30, 34, 36, 40, 44, 48, 52, 56, 60, 64, 68, 72, 74, 76, 80,
    ];
    let mut puzzle = vec![0u8; 81];
    for &i in &givens {
        puzzle[i] = solution[i];
    }
    let mut e = ManifoldEngine::new(Topology::Classic9x9);
    assert!(e.load_puzzle(puzzle.clone()));
    let stats = e.solve();
    assert!(stats.success);
    assert!(stats.iterations >= 1);
    let solved = e.get_grid();
    assert_valid_classic(&solved);
    for &i in &givens {
        assert_eq!(solved[i], solution[i]);
    }
    // The search is deterministic: this puzzle always yields this grid.
    let expected: Vec<u8> = vec![
        1, 3, 6, 4, 5, 7, 2, 8, 9, 2, 5, 8, 1, 6, 9, 4, 7, 3, 7, 9, 4, 3, 2, 8, 1, 5, 6, 4, 6, 1,
        5, 7, 3, 8, 9, 2, 5, 2, 7, 8, 9, 6, 3, 1, 4, 3, 8, 9, 2, 1, 4, 7, 6, 5, 8, 4, 5, 6, 3, 1,
        9, 2, 7, 6, 7, 3, 9, 8, 2, 5, 4, 1, 9, 1, 2, 7, 4, 5, 6, 3, 8,
    ];
    assert_eq!(solved, expected);
}

#[test]
fn solve_fails_on_duplicate_givens_in_a_row() {
    let mut e = ManifoldEngine::new(Topology::Classic9x9);
    let mut puzzle = vec![0u8; 81];
    puzzle[0] = 9;
    puzzle[1] = 9;
    assert!(e.load_puzzle(puzzle));
    let before = e.get_grid();
    let stats = e.solve();
    assert!(!stats.success);
    assert_eq!(e.get_grid(), before);
}

#[test]
fn failed_solve_leaves_grid_unchanged() {
    // Consistent but unsolvable: cell (0,8) needs a 9, which its column
    // already holds at (1,8).
    let mut e = ManifoldEngine::new(Topology::Classic9x9);
    let mut puzzle = vec![0u8; 81];
    for c in 0..8usize {
        puzzle[c] = (c + 1) as u8;
    }
    puzzle[17] = 9;
    assert!(e.load_puzzle(puzzle));
    assert!(e.set_cell(20, 4));
    let before = e.get_grid();
    let stats = e.solve();
    assert!(!stats.success);
    assert!(stats.iterations >= 1);
    assert_eq!(e.get_grid(), before);
}
