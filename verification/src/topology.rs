//! Constraint-graph generation.
//!
//! A topology is a set of 9x9 faces together with a symmetric adjacency
//! relation on cells.  Within a face, two distinct cells are adjacent when
//! they share a row, a column or a 3x3 box.  The stitched six-face topology
//! additionally links the border cells of glued face edges pairwise.
//!
//! The generators in this module produce, for every cell, its list of
//! adjacent cells (its neighbors), deduplicated and bounded, and the proofs
//! here pin the lists down exactly: membership coincides with the adjacency
//! relation, the lists are symmetric, no cell is its own neighbor, and on a
//! planar face every cell has exactly 20 neighbors.

use vstd::prelude::*;

verus! {

/// Which constraint-graph recipe an engine is built with.
#[derive(PartialEq, Eq, Clone, Copy, Debug, Structural)]
pub enum Topology {
    Classic9x9,
    Cube6Faces,
}

/// Total number of cells of a topology.
pub open spec fn topo_cells(t: Topology) -> int {
    match t {
        Topology::Classic9x9 => 81,
        Topology::Cube6Faces => 486,
    }
}

/// The face a global cell index lies on.
pub open spec fn cell_face(u: int) -> int {
    u / 81
}

/// The face-local index of a global cell index.
pub open spec fn cell_local(u: int) -> int {
    u % 81
}

/// Row of a face-local cell index.
pub open spec fn local_row(a: int) -> int {
    a / 9
}

/// Column of a face-local cell index.
pub open spec fn local_col(a: int) -> int {
    a % 9
}

/// Two face-local cells share a row, a column or a 3x3 box.
pub open spec fn same_unit(a: int, b: int) -> bool {
    ||| local_row(a) == local_row(b)
    ||| local_col(a) == local_col(b)
    ||| (local_row(a) / 3 == local_row(b) / 3 && local_col(a) / 3 == local_col(b) / 3)
}

/// Face-local adjacency: two distinct cells of one face sharing a row, a
/// column or a box.
pub open spec fn local_adj(a: int, b: int) -> bool {
    &&& 0 <= a < 81
    &&& 0 <= b < 81
    &&& a != b
    &&& same_unit(a, b)
}

/// Planar adjacency on a grid of `n` cells (`n` a multiple of 81): distinct
/// cells of the same face sharing a row, a column or a box.
pub open spec fn planar_adj(n: int, u: int, v: int) -> bool {
    &&& 0 <= u < n
    &&& 0 <= v < n
    &&& cell_face(u) == cell_face(v)
    &&& cell_local(u) != cell_local(v)
    &&& same_unit(cell_local(u), cell_local(v))
}

/// The `k`-th cell (0 <= k < 9) along a border of a face, in index order:
/// direction 0 is the top row, 1 the right column, 2 the bottom row and
/// 3 the left column.
pub open spec fn edge_cell(face: int, dir: int, k: int) -> int {
    81 * face + if dir == 0 {
        k
    } else if dir == 1 {
        9 * k + 8
    } else if dir == 2 {
        72 + k
    } else {
        9 * k
    }
}

/// `u` and `v` are linked by one of the first `kmax` position pairs of the
/// seam gluing edge (`fa`, `da`) to edge (`fb`, `db`).
pub open spec fn seam_links_upto(
    fa: int,
    da: int,
    fb: int,
    db: int,
    kmax: int,
    u: int,
    v: int,
) -> bool {
    exists|k: int|
        0 <= k < kmax && ((u == edge_cell(fa, da, k) && v == edge_cell(fb, db, k)) || (v
            == edge_cell(fa, da, k) && u == edge_cell(fb, db, k)))
}

/// `u` and `v` are linked by the seam gluing edge (`fa`, `da`) to edge
/// (`fb`, `db`): they sit at the same position along the two borders.
pub open spec fn seam_links(fa: int, da: int, fb: int, db: int, u: int, v: int) -> bool {
    seam_links_upto(fa, da, fb, db, 9, u, v)
}

/// The eight seams of the six-face stitched topology.  Faces 0 and 1 are
/// opposite; each is glued along all four of its borders to one of the four
/// side faces 2..=5.
pub open spec fn cube_glue(u: int, v: int) -> bool {
    ||| seam_links(0, 1, 2, 3, u, v)
    ||| seam_links(0, 3, 3, 1, u, v)
    ||| seam_links(0, 0, 4, 2, u, v)
    ||| seam_links(0, 2, 5, 0, u, v)
    ||| seam_links(1, 3, 2, 1, u, v)
    ||| seam_links(1, 1, 3, 3, u, v)
    ||| seam_links(1, 0, 4, 0, u, v)
    ||| seam_links(1, 2, 5, 2, u, v)
}

/// Adjacency of the six-face stitched topology: planar adjacency within
/// each face plus the glued seams.
pub open spec fn cube_adj(u: int, v: int) -> bool {
    planar_adj(486, u, v) || cube_glue(u, v)
}

/// The adjacency relation of a topology.
pub open spec fn topo_adj(t: Topology, u: int, v: int) -> bool {
    match t {
        Topology::Classic9x9 => planar_adj(81, u, v),
        Topology::Cube6Faces => cube_adj(u, v),
    }
}

/// The mathematical view of a constraint graph held as neighbor lists.
pub open spec fn lists_view(g: Seq<Vec<usize>>) -> Seq<Seq<usize>> {
    g.map_values(|l: Vec<usize>| l@)
}

/// Structural well-formedness of a constraint graph: every neighbor index
/// is in range and differs from its owner, the relation is symmetric, and
/// each neighbor list is deduplicated.
pub open spec fn graph_wf(g: Seq<Seq<usize>>) -> bool {
    &&& forall|i: int, k: int|
        0 <= i < g.len() && 0 <= k < g[i].len() ==> ((#[trigger] g[i][k]) as int) < g.len()
            && g[i][k] as int != i
    &&& forall|i: int, k: int|
        0 <= i < g.len() && 0 <= k < g[i].len() ==> g[(#[trigger] g[i][k]) as int].contains(i as usize)
    &&& forall|i: int, k1: int, k2: int|
        0 <= i < g.len() && 0 <= k1 < g[i].len() && 0 <= k2 < g[i].len() && k1 != k2 ==> #[trigger] g[i][k1]
            != #[trigger] g[i][k2]
}

/// The graph `g` is exactly the constraint graph of topology `t`: it has
/// one neighbor list per cell, and a cell's list holds exactly the cells
/// adjacent to it under the topology's relation.
pub open spec fn graph_matches(g: Seq<Seq<usize>>, t: Topology) -> bool {
    &&& g.len() == topo_cells(t)
    &&& forall|u: int, v: usize|
        0 <= u < g.len() ==> ((#[trigger] g[u].contains(v)) <==> topo_adj(t, u, v as int))
}

/// The `m`-th neighbor (0 <= m < 20) of face-local cell `a`: first the 8
/// other cells of its row, then the 8 other cells of its column, then the
/// 4 cells of its box that share neither its row nor its column.
pub open spec fn lnb(a: int, m: int) -> int {
    let row = a / 9;
    let col = a % 9;
    let br = 3 * (row / 3);
    let bc = 3 * (col / 3);
    if m < 8 {
        9 * row + if m < col {
            m
        } else {
            m + 1
        }
    } else if m < 16 {
        9 * (if m - 8 < row {
            m - 8
        } else {
            m - 7
        }) + col
    } else {
        let rr = if m < 18 {
            if br == row {
                br + 1
            } else {
                br
            }
        } else {
            if br + 2 == row {
                br + 1
            } else {
                br + 2
            }
        };
        let cc = if m % 2 == 0 {
            if bc == col {
                bc + 1
            } else {
                bc
            }
        } else {
            if bc + 2 == col {
                bc + 1
            } else {
                bc + 2
            }
        };
        9 * rr + cc
    }
}

/// A face-local index in 0..81 splits into a row and a column in 0..9.
proof fn lemma_split9(x: int)
    requires
        0 <= x < 81,
    ensures
        x == 9 * local_row(x) + local_col(x),
        0 <= local_row(x) < 9,
        0 <= local_col(x) < 9,
{
    vstd::arithmetic::div_mod::lemma_fundamental_div_mod(x, 9);
    vstd::arithmetic::div_mod::lemma_mod_bound(x, 9);
}

/// Composing a row and a column in 0..9 inverts `local_row` and `local_col`.
proof fn lemma_join9(r: int, c: int)
    requires
        0 <= r < 9,
        0 <= c < 9,
    ensures
        local_row(9 * r + c) == r,
        local_col(9 * r + c) == c,
        0 <= 9 * r + c < 81,
{
    vstd::arithmetic::div_mod::lemma_fundamental_div_mod_converse(9 * r + c, 9, r, c);
}

/// A value in 0..9 splits into its box coordinate (0, 3 or 6) and an
/// offset in 0..3.
proof fn lemma_split3(x: int)
    requires
        0 <= x < 9,
    ensures
        3 * (x / 3) <= x < 3 * (x / 3) + 3,
        x / 3 == (3 * (x / 3)) / 3,
        x / 3 == (3 * (x / 3) + 1) / 3,
        x / 3 == (3 * (x / 3) + 2) / 3,
{
    vstd::arithmetic::div_mod::lemma_fundamental_div_mod(x, 3);
    vstd::arithmetic::div_mod::lemma_mod_bound(x, 3);
    let q = x / 3;
    vstd::arithmetic::div_mod::lemma_fundamental_div_mod_converse(3 * q, 3, q, 0);
    vstd::arithmetic::div_mod::lemma_fundamental_div_mod_converse(3 * q + 1, 3, q, 1);
    vstd::arithmetic::div_mod::lemma_fundamental_div_mod_converse(3 * q + 2, 3, q, 2);
}

/// The row and column of the `m`-th neighbor of `a`, and how they relate
/// to `a`'s own coordinates: row mates keep the row and change the column,
/// column mates keep the column and change the row, and the box corner
/// mates change both but stay in `a`'s box.
proof fn lemma_lnb_coords(a: int, m: int)
    requires
        0 <= a < 81,
        0 <= m < 20,
    ensures
        0 <= lnb(a, m) < 81,
        m < 8 ==> local_row(lnb(a, m)) == local_row(a) && local_col(lnb(a, m)) == (if m
            < local_col(a) {
            m
        } else {
            m + 1
        }) && local_col(lnb(a, m)) != local_col(a),
        8 <= m < 16 ==> local_col(lnb(a, m)) == local_col(a) && local_row(lnb(a, m)) == (if m - 8
            < local_row(a) {
            m - 8
        } else {
            m - 7
        }) && local_row(lnb(a, m)) != local_row(a),
        16 <= m ==> local_row(lnb(a, m)) != local_row(a) && local_col(lnb(a, m)) != local_col(a)
            && local_row(lnb(a, m)) / 3 == local_row(a) / 3 && local_col(lnb(a, m)) / 3
            == local_col(a) / 3 && local_row(lnb(a, m)) == (if m < 18 {
            if 3 * (local_row(a) / 3) == local_row(a) {
                3 * (local_row(a) / 3) + 1
            } else {
                3 * (local_row(a) / 3)
            }
        } else {
            if 3 * (local_row(a) / 3) + 2 == local_row(a) {
                3 * (local_row(a) / 3) + 1
            } else {
                3 * (local_row(a) / 3) + 2
            }
        }) && local_col(lnb(a, m)) == (if m % 2 == 0 {
            if 3 * (local_col(a) / 3) == local_col(a) {
                3 * (local_col(a) / 3) + 1
            } else {
                3 * (local_col(a) / 3)
            }
        } else {
            if 3 * (local_col(a) / 3) + 2 == local_col(a) {
                3 * (local_col(a) / 3) + 1
            } else {
                3 * (local_col(a) / 3) + 2
            }
        }),
{
    let row = local_row(a);
    let col = local_col(a);
    lemma_split9(a);
    if m < 8 {
        let c2 = if m < col {
            m
        } else {
            m + 1
        };
        lemma_join9(row, c2);
    } else if m < 16 {
        let r2 = if m - 8 < row {
            m - 8
        } else {
            m - 7
        };
        lemma_join9(r2, col);
    } else {
        lemma_split3(row);
        lemma_split3(col);
        let br = 3 * (row / 3);
        let bc = 3 * (col / 3);
        let rr = if m < 18 {
            if br == row {
                br + 1
            } else {
                br
            }
        } else {
            if br + 2 == row {
                br + 1
            } else {
                br + 2
            }
        };
        let cc = if m % 2 == 0 {
            if bc == col {
                bc + 1
            } else {
                bc
            }
        } else {
            if bc + 2 == col {
                bc + 1
            } else {
                bc + 2
            }
        };
        lemma_join9(rr, cc);
    }
}

/// Every entry of a cell's neighbor formula names a cell adjacent to it.
proof fn lemma_lnb_adj(a: int, m: int)
    requires
        0 <= a < 81,
        0 <= m < 20,
    ensures
        local_adj(a, lnb(a, m)),
{
    lemma_split9(a);
    lemma_lnb_coords(a, m);
    lemma_split9(lnb(a, m));
}

/// The 20 entries of a cell's neighbor formula are pairwise distinct.
proof fn lemma_lnb_distinct(a: int, m1: int, m2: int)
    requires
        0 <= a < 81,
        0 <= m1 < 20,
        0 <= m2 < 20,
        m1 != m2,
    ensures
        lnb(a, m1) != lnb(a, m2),
{
    lemma_split9(a);
    lemma_lnb_coords(a, m1);
    lemma_lnb_coords(a, m2);
    lemma_split9(lnb(a, m1));
    lemma_split9(lnb(a, m2));
}

/// Every cell adjacent to `a` appears in `a`'s neighbor formula.
proof fn lemma_lnb_complete(a: int, b: int)
    requires
        local_adj(a, b),
    ensures
        exists|m: int| 0 <= m < 20 && lnb(a, m) == b,
{
    let row = local_row(a);
    let col = local_col(a);
    let rb = local_row(b);
    let cb = local_col(b);
    lemma_split9(a);
    lemma_split9(b);
    if rb == row {
        let m = if cb < col {
            cb
        } else {
            cb - 1
        };
        lemma_lnb_coords(a, m);
        lemma_join9(rb, cb);
        assert(lnb(a, m) == b);
    } else if cb == col {
        let m = 8 + if rb < row {
            rb
        } else {
            rb - 1
        };
        lemma_lnb_coords(a, m);
        lemma_join9(rb, cb);
        assert(lnb(a, m) == b);
    } else {
        lemma_split3(row);
        lemma_split3(col);
        lemma_split3(rb);
        lemma_split3(cb);
        let br = 3 * (row / 3);
        let bc = 3 * (col / 3);
        let r0 = if br == row {
            br + 1
        } else {
            br
        };
        let r1 = if br + 2 == row {
            br + 1
        } else {
            br + 2
        };
        let c0 = if bc == col {
            bc + 1
        } else {
            bc
        };
        let c1 = if bc + 2 == col {
            bc + 1
        } else {
            bc + 2
        };
        assert(rb == r0 || rb == r1);
        assert(cb == c0 || cb == c1);
        let m = if rb == r0 {
            if cb == c0 {
                16
            } else {
                17
            }
        } else {
            if cb == c0 {
                18
            } else {
                19
            }
        };
        lemma_lnb_coords(a, m);
        lemma_join9(rb, cb);
        assert(lnb(a, m) == b);
    }
}

/// Splitting a global index into face and face-local index inverts
/// `cell_face` and `cell_local`.
pub(crate) proof fn lemma_face_local(f: int, l: int)
    requires
        0 <= f,
        0 <= l < 81,
    ensures
        cell_face(81 * f + l) == f,
        cell_local(81 * f + l) == l,
{
    vstd::arithmetic::div_mod::lemma_fundamental_div_mod_converse(81 * f + l, 81, f, l);
}

/// The `m`-th neighbor of global cell `u`: the face-local formula shifted
/// onto `u`'s face.
pub open spec fn gnb(u: int, m: int) -> int {
    81 * cell_face(u) + lnb(cell_local(u), m)
}

/// A global index on one of `faces` faces splits into a face and a
/// face-local index.
pub(crate) proof fn lemma_split81(faces: int, u: int)
    requires
        0 <= u < 81 * faces,
    ensures
        u == 81 * cell_face(u) + cell_local(u),
        0 <= cell_local(u) < 81,
        0 <= cell_face(u) < faces,
{
    vstd::arithmetic::div_mod::lemma_fundamental_div_mod(u, 81);
    vstd::arithmetic::div_mod::lemma_mod_bound(u, 81);
}

/// Every entry of a cell's global neighbor formula is planar-adjacent to it.
proof fn lemma_gnb_adj(faces: int, u: int, m: int)
    requires
        0 <= u < 81 * faces,
        0 <= m < 20,
    ensures
        planar_adj(81 * faces, u, gnb(u, m)),
{
    lemma_split81(faces, u);
    lemma_lnb_adj(cell_local(u), m);
    lemma_face_local(cell_face(u), lnb(cell_local(u), m));
}

/// Distinct positions of the global neighbor formula name distinct cells.
proof fn lemma_gnb_distinct(faces: int, u: int, m1: int, m2: int)
    requires
        0 <= u < 81 * faces,
        0 <= m1 < 20,
        0 <= m2 < 20,
        m1 != m2,
    ensures
        gnb(u, m1) != gnb(u, m2),
{
    lemma_split81(faces, u);
    lemma_lnb_distinct(cell_local(u), m1, m2);
}

/// Every cell planar-adjacent to `u` appears in `u`'s global neighbor
/// formula.
proof fn lemma_gnb_complete(faces: int, u: int, v: int)
    requires
        planar_adj(81 * faces, u, v),
    ensures
        exists|m: int| 0 <= m < 20 && gnb(u, m) == v,
{
    lemma_split81(faces, u);
    lemma_split81(faces, v);
    lemma_lnb_complete(cell_local(u), cell_local(v));
    let m = choose|m: int| 0 <= m < 20 && lnb(cell_local(u), m) == cell_local(v);
    assert(gnb(u, m) == v);
}

/// The neighbor list of the cell at face-local index `a` on face `face`:
/// its 20 planar neighbors, as global indices.
fn face_neighbors(face: usize, a: usize) -> (v: Vec<usize>)
    requires
        a < 81,
        81 * (face as int) + 81 <= usize::MAX as int,
    ensures
        v@.len() == 20,
        forall|m: int| 0 <= m < 20 ==> (#[trigger] v@[m]) as int == 81 * (face as int) + lnb(
            a as int,
            m,
        ),
{
    let row: usize = a / 9;
    let col: usize = a % 9;
    let br: usize = 3 * (row / 3);
    let bc: usize = 3 * (col / 3);
    let base: usize = 81 * face;
    proof {
        lemma_split9(a as int);
    }
    let mut v: Vec<usize> = Vec::new();
    let mut k: usize = 0;
    while k < 9
        invariant
            k <= 9,
            a < 81,
            row == a as int / 9,
            col == a as int % 9,
            base == 81 * (face as int),
            base + 81 <= usize::MAX as int,
            v@.len() == if k <= col {
                k as int
            } else {
                k - 1
            },
            forall|m: int| 0 <= m < v@.len() ==> (#[trigger] v@[m]) as int == base + lnb(
                a as int,
                m,
            ),
        decreases 9 - k,
    {
        if k != col {
            v.push(base + (9 * row + k));
        }
        k = k + 1;
    }
    let mut k2: usize = 0;
    while k2 < 9
        invariant
            k2 <= 9,
            a < 81,
            row == a as int / 9,
            col == a as int % 9,
            base == 81 * (face as int),
            base + 81 <= usize::MAX as int,
            v@.len() == 8 + if k2 <= row {
                k2 as int
            } else {
                k2 - 1
            },
            forall|m: int| 0 <= m < v@.len() ==> (#[trigger] v@[m]) as int == base + lnb(
                a as int,
                m,
            ),
        decreases 9 - k2,
    {
        if k2 != row {
            v.push(base + (9 * k2 + col));
        }
        k2 = k2 + 1;
    }
    let r0: usize = if br == row {
        br + 1
    } else {
        br
    };
    let r1: usize = if br + 2 == row {
        br + 1
    } else {
        br + 2
    };
    let c0: usize = if bc == col {
        bc + 1
    } else {
        bc
    };
    let c1: usize = if bc + 2 == col {
        bc + 1
    } else {
        bc + 2
    };
    proof {
        lemma_split3(row as int);
        lemma_split3(col as int);
    }
    v.push(base + (9 * r0 + c0));
    v.push(base + (9 * r0 + c1));
    v.push(base + (9 * r1 + c0));
    v.push(base + (9 * r1 + c1));
    v
}

/// Builds the planar constraint graph of `num_faces` independent faces:
/// all cells empty, and every cell's neighbor list holding exactly the 20
/// distinct cells of its face that share its row, column or box.
pub fn generate_sudoku_constraints(num_faces: usize) -> (res: (Vec<u8>, Vec<Vec<usize>>))
    requires
        81 * (num_faces as int) <= usize::MAX as int,
    ensures
        res.0@.len() == 81 * (num_faces as int),
        forall|i: int| 0 <= i < res.0@.len() ==> res.0@[i] == 0,
        lists_view(res.1@).len() == 81 * (num_faces as int),
        graph_wf(lists_view(res.1@)),
        forall|u: int| 0 <= u < lists_view(res.1@).len() ==> (#[trigger] lists_view(res.1@)[u]).len()
            == 20,
        forall|u: int, w: usize|
            0 <= u < lists_view(res.1@).len() ==> ((#[trigger] lists_view(res.1@)[u].contains(w))
                <==> planar_adj(81 * (num_faces as int), u, w as int)),
{
    let total: usize = 81 * num_faces;
    let mut cells: Vec<u8> = Vec::new();
    let mut i: usize = 0;
    while i < total
        invariant
            i <= total,
            cells@.len() == i,
            forall|j: int| 0 <= j < i ==> cells@[j] == 0,
        decreases total - i,
    {
        cells.push(0);
        i = i + 1;
    }
    let mut constraints: Vec<Vec<usize>> = Vec::new();
    let mut face: usize = 0;
    while face < num_faces
        invariant
            face <= num_faces,
            total == 81 * (num_faces as int),
            constraints@.len() == 81 * (face as int),
            forall|u: int, m: int|
                0 <= u < constraints@.len() && 0 <= m < 20 ==> (#[trigger] constraints@[u]@[m])
                    as int == gnb(u, m),
            forall|u: int| 0 <= u < constraints@.len() ==> (#[trigger] constraints@[u]@).len()
                == 20,
        decreases num_faces - face,
    {
        let mut a: usize = 0;
        while a < 81
            invariant
                a <= 81,
                face < num_faces,
                total == 81 * (num_faces as int),
                constraints@.len() == 81 * (face as int) + a,
                forall|u: int, m: int|
                    0 <= u < constraints@.len() && 0 <= m < 20 ==> (#[trigger] constraints@[u]@[m])
                        as int == gnb(u, m),
                forall|u: int| 0 <= u < constraints@.len() ==> (#[trigger] constraints@[u]@).len()
                    == 20,
            decreases 81 - a,
        {
            let nbrs = face_neighbors(face, a);
            proof {
                lemma_face_local(face as int, a as int);
            }
            constraints.push(nbrs);
            a = a + 1;
        }
        face = face + 1;
    }
    proof {
        let n = 81 * (num_faces as int);
        let g = lists_view(constraints@);
        assert forall|u: int, w: usize| 0 <= u < g.len() implies ((#[trigger] g[u].contains(w))
            <==> planar_adj(n, u, w as int)) by {
            if g[u].contains(w) {
                let m = choose|m: int| 0 <= m < g[u].len() && g[u][m] == w;
                lemma_gnb_adj(num_faces as int, u, m);
            }
            if planar_adj(n, u, w as int) {
                lemma_gnb_complete(num_faces as int, u, w as int);
                let m = choose|m: int| 0 <= m < 20 && gnb(u, m) == w as int;
                assert(g[u][m] == w);
            }
        }
        assert forall|u: int, k: int| 0 <= u < g.len() && 0 <= k < g[u].len() implies ((
        #[trigger] g[u][k]) as int) < g.len() && g[u][k] as int != u by {
            lemma_gnb_adj(num_faces as int, u, k);
            lemma_split81(num_faces as int, u);
            lemma_split81(num_faces as int, g[u][k] as int);
        }
        assert forall|u: int, k: int| 0 <= u < g.len() && 0 <= k < g[u].len() implies g[(
        #[trigger] g[u][k]) as int].contains(u as usize) by {
            lemma_gnb_adj(num_faces as int, u, k);
            let w = g[u][k] as int;
            assert(planar_adj(n, w, u));
        }
        assert forall|u: int, k1: int, k2: int|
            0 <= u < g.len() && 0 <= k1 < g[u].len() && 0 <= k2 < g[u].len() && k1 != k2 implies (
        #[trigger] g[u][k1]) != (#[trigger] g[u][k2]) by {
            lemma_gnb_distinct(num_faces as int, u, k1, k2);
        }
    }
    (cells, constraints)
}

/// Whether a neighbor list holds a given cell, by linear scan.
fn list_contains(l: &Vec<usize>, x: usize) -> (b: bool)
    ensures
        b == l@.contains(x),
{
    let mut i: usize = 0;
    while i < l.len()
        invariant
            i <= l@.len(),
            forall|j: int| 0 <= j < i ==> l@[j] != x,
        decreases l@.len() - i,
    {
        if l[i] == x {
            return true;
        }
        i = i + 1;
    }
    false
}

/// A mutable borrow of one neighbor list of the graph.
fn list_at(g: &mut Vec<Vec<usize>>, i: usize) -> (l: &mut Vec<usize>)
    requires
        i < old(g)@.len(),
    ensures
        *l == old(g)@[i as int],
        final(g)@ == old(g)@.update(i as int, *final(l)),
{
    &mut g[i]
}

/// The `k`-th cell along a border of a face, as executable arithmetic.
fn edge_index(face: usize, dir: usize, k: usize) -> (u: usize)
    requires
        81 * (face as int) + 81 <= usize::MAX as int,
        dir < 4,
        k < 9,
    ensures
        u as int == edge_cell(face as int, dir as int, k as int),
        81 * (face as int) <= (u as int) < 81 * (face as int) + 81,
{
    let base: usize = 81 * face;
    if dir == 0 {
        base + k
    } else if dir == 1 {
        base + (9 * k + 8)
    } else if dir == 2 {
        base + (72 + k)
    } else {
        base + 9 * k
    }
}

/// Extending a seam by its `k`-th position pair adds exactly that pair, in
/// both directions, to the pairs the seam links.
proof fn lemma_seam_step(fa: int, da: int, fb: int, db: int, k: int, x: int, y: int)
    requires
        0 <= k < 9,
    ensures
        seam_links_upto(fa, da, fb, db, k + 1, x, y) <==> (seam_links_upto(fa, da, fb, db, k, x, y)
            || (x == edge_cell(fa, da, k) && y == edge_cell(fb, db, k)) || (y == edge_cell(
            fa,
            da,
            k,
        ) && x == edge_cell(fb, db, k))),
{
    if seam_links_upto(fa, da, fb, db, k + 1, x, y) {
        let k2 = choose|k2: int|
            0 <= k2 < k + 1 && ((x == edge_cell(fa, da, k2) && y == edge_cell(fb, db, k2)) || (y
                == edge_cell(fa, da, k2) && x == edge_cell(fb, db, k2)));
        if k2 < k {
            assert(seam_links_upto(fa, da, fb, db, k, x, y));
        }
    }
    if seam_links_upto(fa, da, fb, db, k, x, y) {
        let k2 = choose|k2: int|
            0 <= k2 < k && ((x == edge_cell(fa, da, k2) && y == edge_cell(fb, db, k2)) || (y
                == edge_cell(fa, da, k2) && x == edge_cell(fb, db, k2)));
        assert(0 <= k2 < k + 1 && ((x == edge_cell(fa, da, k2) && y == edge_cell(fb, db, k2)) || (y
            == edge_cell(fa, da, k2) && x == edge_cell(fb, db, k2))));
    }
}

/// Glues edge (`fa`, `da`) to edge (`fb`, `db`) of two distinct faces of
/// any multi-face graph: adds a symmetric constraint between the cells at
/// equal positions along the two borders, keeping the lists deduplicated.
/// Membership grows by exactly the seam's pairs.  An arbitrary stitched
/// topology is an enumeration of such calls after the planar generator.
pub fn stitch_edges(g: &mut Vec<Vec<usize>>, fa: usize, da: usize, fb: usize, db: usize)
    requires
        81 * (fa as int) + 81 <= old(g)@.len(),
        81 * (fb as int) + 81 <= old(g)@.len(),
        fa != fb,
        da < 4,
        db < 4,
        graph_wf(lists_view(old(g)@)),
    ensures
        final(g)@.len() == old(g)@.len(),
        graph_wf(lists_view(final(g)@)),
        forall|u: int, w: usize|
            0 <= u < old(g)@.len() ==> ((#[trigger] lists_view(final(g)@)[u].contains(w))
                <==> lists_view(old(g)@)[u].contains(w) || seam_links(
                fa as int,
                da as int,
                fb as int,
                db as int,
                u,
                w as int,
            )),
{
    broadcast use vstd::seq_lib::lemma_seq_contains_after_push;

    let n = g.len();
    let mut k: usize = 0;
    while k < 9
        invariant
            k <= 9,
            g@.len() == n,
            n == old(g)@.len(),
            81 * (fa as int) + 81 <= n,
            81 * (fb as int) + 81 <= n,
            fa != fb,
            da < 4,
            db < 4,
            graph_wf(lists_view(g@)),
            forall|u: int, w: usize|
                0 <= u < n ==> ((#[trigger] lists_view(g@)[u].contains(w)) <==> lists_view(
                    old(g)@,
                )[u].contains(w) || seam_links_upto(
                    fa as int,
                    da as int,
                    fb as int,
                    db as int,
                    k as int,
                    u,
                    w as int,
                )),
        decreases 9 - k,
    {
        broadcast use vstd::seq_lib::lemma_seq_contains_after_push;

        let u = edge_index(fa, da, k);
        let v = edge_index(fb, db, k);
        proof {
            lemma_face_local(fa as int, (u - 81 * fa) as int);
            lemma_face_local(fb as int, (v - 81 * fb) as int);
            assert(cell_face(u as int) == fa as int);
            assert(cell_face(v as int) == fb as int);
            assert(u != v);
        }
        let ghost gs0 = g@;
        let dup = list_contains(&g[u], v);
        proof {
            // By symmetry the reverse entry is present exactly when the
            // forward one is.
            if lists_view(gs0)[v as int].contains(u) {
                let kk = choose|kk: int|
                    0 <= kk < lists_view(gs0)[v as int].len() && lists_view(gs0)[v as int][kk] == u;
                assert(lists_view(gs0)[(lists_view(gs0)[v as int][kk]) as int].contains(v));
            }
            if lists_view(gs0)[u as int].contains(v) {
                let kk = choose|kk: int|
                    0 <= kk < lists_view(gs0)[u as int].len() && lists_view(gs0)[u as int][kk] == v;
                assert(lists_view(gs0)[(lists_view(gs0)[u as int][kk]) as int].contains(u));
            }
        }
        if !dup {
            let lu = list_at(g, u);
            lu.push(v);
            let lv = list_at(g, v);
            lv.push(u);
            proof {
                assert(lists_view(g@) =~= lists_view(gs0).update(
                    u as int,
                    lists_view(gs0)[u as int].push(v),
                ).update(v as int, lists_view(gs0)[v as int].push(u)));
            }
        }
        proof {
            let fa2 = fa as int;
            let da2 = da as int;
            let fb2 = fb as int;
            let db2 = db as int;
            let gv = lists_view(g@);
            let g0 = lists_view(gs0);
            assert forall|x: int, w: usize| 0 <= x < n implies ((#[trigger] gv[x].contains(w))
                <==> lists_view(old(g)@)[x].contains(w) || seam_links_upto(
                fa2,
                da2,
                fb2,
                db2,
                k as int + 1,
                x,
                w as int,
            )) by {
                lemma_seam_step(fa2, da2, fb2, db2, k as int, x, w as int);
            }
            assert forall|x: int, kk: int| 0 <= x < gv.len() && 0 <= kk < gv[x].len() implies ((
            #[trigger] gv[x][kk]) as int) < gv.len() && gv[x][kk] as int != x by {
                if !dup && x == u as int && kk == gv[x].len() - 1 {
                } else if !dup && x == v as int && kk == gv[x].len() - 1 {
                } else {
                    assert(g0[x][kk] == gv[x][kk]);
                }
            }
            assert forall|x: int, kk: int| 0 <= x < gv.len() && 0 <= kk < gv[x].len() implies gv[(
            #[trigger] gv[x][kk]) as int].contains(x as usize) by {
                if !dup && x == u as int && kk == gv[x].len() - 1 {
                    assert(gv[v as int].contains(u));
                } else if !dup && x == v as int && kk == gv[x].len() - 1 {
                    assert(gv[u as int].contains(v));
                } else {
                    assert(g0[x][kk] == gv[x][kk]);
                    assert(g0[(g0[x][kk]) as int].contains(x as usize));
                }
            }
            assert forall|x: int, k1: int, k2: int|
                0 <= x < gv.len() && 0 <= k1 < gv[x].len() && 0 <= k2 < gv[x].len() && k1
                    != k2 implies (#[trigger] gv[x][k1]) != (#[trigger] gv[x][k2]) by {
                if !dup && x == u as int {
                    if k1 == gv[x].len() - 1 {
                        assert(g0[x][k2] == gv[x][k2]);
                        assert(!g0[x].contains(v));
                    } else if k2 == gv[x].len() - 1 {
                        assert(g0[x][k1] == gv[x][k1]);
                        assert(!g0[x].contains(v));
                    }
                } else if !dup && x == v as int {
                    if k1 == gv[x].len() - 1 {
                        assert(g0[x][k2] == gv[x][k2]);
                        assert(!g0[x].contains(u));
                    } else if k2 == gv[x].len() - 1 {
                        assert(g0[x][k1] == gv[x][k1]);
                        assert(!g0[x].contains(u));
                    }
                }
            }
        }
        k = k + 1;
    }
}

/// Builds the classic single-face topology: an 81-cell grid, all empty,
/// with the standard row, column and box constraints.
pub fn generate_classic_9x9() -> (res: (Vec<u8>, Vec<Vec<usize>>))
    ensures
        res.0@.len() == 81,
        forall|i: int| 0 <= i < res.0@.len() ==> res.0@[i] == 0,
        graph_wf(lists_view(res.1@)),
        graph_matches(lists_view(res.1@), Topology::Classic9x9),
        forall|u: int| 0 <= u < lists_view(res.1@).len() ==> (#[trigger] lists_view(res.1@)[u]).len()
            == 20,
{
    generate_sudoku_constraints(1)
}

/// Builds the six-face stitched topology: six planar faces glued along the
/// eight seams of `cube_glue`.  All cells are empty, and every cell's
/// neighbor list holds exactly the cells adjacent to it under `cube_adj`.
pub fn generate_cube_topology() -> (res: (Vec<u8>, Vec<Vec<usize>>))
    ensures
        res.0@.len() == 486,
        forall|i: int| 0 <= i < res.0@.len() ==> res.0@[i] == 0,
        graph_wf(lists_view(res.1@)),
        graph_matches(lists_view(res.1@), Topology::Cube6Faces),
{
    let (cells, mut constraints) = generate_sudoku_constraints(6);
    let ghost planar = lists_view(constraints@);
    stitch_edges(&mut constraints, 0, 1, 2, 3);
    stitch_edges(&mut constraints, 0, 3, 3, 1);
    stitch_edges(&mut constraints, 0, 0, 4, 2);
    stitch_edges(&mut constraints, 0, 2, 5, 0);
    stitch_edges(&mut constraints, 1, 3, 2, 1);
    stitch_edges(&mut constraints, 1, 1, 3, 3);
    stitch_edges(&mut constraints, 1, 0, 4, 0);
    stitch_edges(&mut constraints, 1, 2, 5, 2);
    proof {
        let g = lists_view(constraints@);
        assert forall|u: int, v: usize| 0 <= u < g.len() implies ((#[trigger] g[u].contains(v))
            <==> cube_adj(u, v as int)) by {
            assert(planar[u].contains(v) <==> planar_adj(486, u, v as int));
        }
    }
    (cells, constraints)
}

} // verus!
