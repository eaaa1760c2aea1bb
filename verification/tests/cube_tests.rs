use manifold_core::ManifoldEngine;
use manifold_core::Topology;

/// The global indices of one border of a face, in index order: direction 0
/// is the top row, 1 the right column, 2 the bottom row, 3 the left column.
fn edge(face: usize, dir: usize) -> Vec<usize> {
    let base = face * 81;
    (0..9)
        .map(|k| match dir {
            0 => base + k,
            1 => base + 9 * k + 8,
            2 => base + 72 + k,
            _ => base + 9 * k,
        })
        .collect()
}

/// The eight seams of the six-face topology.
fn seams() -> Vec<(usize, usize, usize, usize)> {
    vec![
        (0, 1, 2, 3),
        (0, 3, 3, 1),
        (0, 0, 4, 2),
        (0, 2, 5, 0),
        (1, 3, 2, 1),
        (1, 1, 3, 3),
        (1, 0, 4, 0),
        (1, 2, 5, 2),
    ]
}

#[test]
fn glued_edges_share_constraints() {
    // Face 0's right column is glued to face 2's left column.
    let mut e = ManifoldEngine::new(Topology::Cube6Faces);
    assert!(e.set_cell(8, 7));
    assert!(!e.is_safe(162, 7));
    assert!(e.is_safe(163, 7));
    assert!(e.is_safe(162, 6));
}

#[test]
fn glued_edges_are_symmetric() {
    let mut e = ManifoldEngine::new(Topology::Cube6Faces);
    assert!(e.set_cell(162, 7));
    assert!(!e.is_safe(8, 7));
}

#[test]
fn corner_cells_join_two_seams() {
    // Cell 0 lies on face 0's top row (glued to face 4's bottom row) and on
    // its left column (glued to face 3's right column).
    let mut e = ManifoldEngine::new(Topology::Cube6Faces);
    assert!(e.set_cell(0, 5));
    assert!(!e.is_safe(1, 5));
    assert!(!e.is_safe(251, 5));
    assert!(!e.is_safe(396, 5));
    assert!(e.is_safe(100, 5));
}

#[test]
fn all_seam_pairs_constrain_both_ways() {
    for &(fa, da, fb, db) in &seams() {
        let ea = edge(fa, da);
        let eb = edge(fb, db);
        for k in 0..9 {
            let mut e = ManifoldEngine::new(Topology::Cube6Faces);
            assert!(e.set_cell(ea[k], 3));
            assert!(!e.is_safe(eb[k], 3), "seam ({},{},{},{}) position {}", fa, da, fb, db, k);
        }
    }
}

#[test]
fn single_face_load_clears_other_faces() {
    let mut e = ManifoldEngine::new(Topology::Cube6Faces);
    let mut full = vec![0u8; 486];
    full[485] = 3;
    assert!(e.load_puzzle(full));
    assert!(e.is_fixed(485));
    let mut one_face = vec![0u8; 81];
    one_face[0] = 9;
    assert!(e.load_puzzle(one_face));
    let grid = e.get_grid();
    assert_eq!(grid.len(), 486);
    assert_eq!(grid[0], 9);
    assert!(grid[81..].iter().all(|&v| v == 0));
    assert!(e.is_fixed(0));
    assert!(!e.is_fixed(485));
}

#[test]
fn solve_fails_on_glued_conflict() {
    // Cells 8 and 162 sit at the same position of a glued seam, so equal
    // givens there admit no solution.
    let mut e = ManifoldEngine::new(Topology::Cube6Faces);
    let mut puzzle = vec![0u8; 486];
    puzzle[8] = 7;
    puzzle[162] = 7;
    assert!(e.load_puzzle(puzzle));
    let before = e.get_grid();
    let stats = e.solve();
    assert!(!stats.success);
    assert_eq!(e.get_grid(), before);
}

#[test]
fn solve_completes_an_empty_cube() {
    let mut e = ManifoldEngine::new(Topology::Cube6Faces);
    let stats = e.solve();
    assert!(stats.success);
    let grid = e.get_grid();
    assert_eq!(grid.len(), 486);
    assert!(grid.iter().all(|&v| 1 <= v && v <= 9));
    // Within every face: rows, columns and boxes hold no duplicate.
    for face in 0..6 {
        let g = &grid[face * 81..face * 81 + 81];
        for unit in 0..9usize {
            let mut row = [false; 10];
            let mut col = [false; 10];
            let mut boxx = [false; 10];
            for k in 0..9usize {
                let rv = g[unit * 9 + k] as usize;
                assert!(!row[rv]);
                row[rv] = true;
                let cv = g[k * 9 + unit] as usize;
                assert!(!col[cv]);
                col[cv] = true;
                let bi = (unit / 3 * 3 + k / 3) * 9 + (unit % 3 * 3 + k % 3);
                let bv = g[bi] as usize;
                assert!(!boxx[bv]);
                boxx[bv] = true;
            }
        }
    }
    // Across every seam: glued cells differ.
    for &(fa, da, fb, db) in &seams() {
        let ea = edge(fa, da);
        let eb = edge(fb, db);
        for k in 0..9 {
            assert_ne!(grid[ea[k]], grid[eb[k]]);
        }
    }
}
