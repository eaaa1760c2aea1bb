//! Laws of the library, stated once and proved for all inputs.
//!
//! Each proof function here records a property that relates several
//! operations or holds of every state, over the same spec functions that
//! the operations' own contracts use.

use vstd::prelude::*;

verus! {

use crate::topology::Topology;
use crate::topology::cell_face;
use crate::topology::cell_local;
use crate::topology::graph_matches;
use crate::topology::graph_wf;
use crate::topology::lemma_split81;
use crate::topology::local_row;
use crate::topology::planar_adj;
use crate::topology::topo_adj;
use crate::topology::topo_cells;
use crate::engine::consistent;
use crate::engine::reset_grid;
use crate::engine::spec_safe;

/// Law: the constraint graph is symmetric.  Whenever `j` stands in the
/// neighbor list of `i`, `i` stands in the neighbor list of `j`.
pub proof fn lemma_neighbor_symmetry(g: Seq<Seq<usize>>, i: usize, j: usize)
    requires
        graph_wf(g),
        (i as int) < g.len(),
        g[i as int].contains(j),
    ensures
        (j as int) < g.len(),
        g[j as int].contains(i),
{
    let k = choose|k: int| 0 <= k < g[i as int].len() && g[i as int][k] == j;
    assert(g[(g[i as int][k]) as int].contains(i));
}

/// Law: on a grid with every cell empty, every placement of a symbol on
/// any cell is safe.
pub proof fn lemma_fresh_grid_all_safe(c: Seq<u8>, g: Seq<Seq<usize>>)
    requires
        c.len() == g.len(),
        graph_wf(g),
        forall|i: int| 0 <= i < c.len() ==> c[i] == 0,
    ensures
        forall|i: int, v: u8| 0 <= i < g.len() && 1 <= v <= 9 ==> spec_safe(c, g, i, v),
{
    assert forall|i: int, v: u8| 0 <= i < g.len() && 1 <= v <= 9 implies spec_safe(c, g, i, v) by {
        assert forall|k: int| 0 <= k < g[i].len() implies c[(#[trigger] g[i][k]) as int] != v by {
            assert(c[(g[i][k]) as int] == 0);
        }
    }
}

/// Law: a reset is idempotent — resetting a grid a second time changes
/// nothing — and a reset never touches a fixed cell.
pub proof fn lemma_reset_idempotent(c: Seq<u8>, f: Seq<bool>)
    requires
        f.len() == c.len(),
    ensures
        reset_grid(reset_grid(c, f), f) == reset_grid(c, f),
        forall|i: int| 0 <= i < c.len() && f[i] ==> reset_grid(c, f)[i] == c[i],
{
    assert(reset_grid(reset_grid(c, f), f) =~= reset_grid(c, f));
}

/// Law: on a consistent grid over the constraint graph of a topology, two
/// cells adjacent under that topology — same row, column or box of one
/// face, or a glued seam pair — never share a nonzero value.  Together
/// with `solve`'s contract (a successful solve leaves a complete,
/// consistent grid) this says a solved grid has no duplicate anywhere.
pub proof fn lemma_consistent_no_adjacent_duplicates(
    c: Seq<u8>,
    g: Seq<Seq<usize>>,
    t: Topology,
    u: usize,
    v: usize,
)
    requires
        graph_matches(g, t),
        consistent(c, g),
        c.len() == g.len(),
        topo_adj(t, u as int, v as int),
        c[u as int] != 0,
    ensures
        c[v as int] != c[u as int],
{
    assert(0 <= (u as int) < g.len() && 0 <= (v as int) < g.len()) by {
        match t {
            Topology::Classic9x9 => {},
            Topology::Cube6Faces => {
                if !planar_adj(486, u as int, v as int) {
                    lemma_glue_bounds(u as int, v as int);
                }
            },
        }
    }
    assert(g[u as int].contains(v));
    let k = choose|k: int| 0 <= k < g[u as int].len() && g[u as int][k] == v;
    assert(c[(g[u as int][k]) as int] != c[u as int]);
}

/// Cells linked by a seam of the six-face topology lie within its grid.
proof fn lemma_glue_bounds(u: int, v: int)
    requires
        crate::topology::cube_glue(u, v),
    ensures
        0 <= u < 486,
        0 <= v < 486,
{
}

/// Law: a grid holding the same nonzero value on two distinct cells of one
/// row of one face is inconsistent, and therefore has no solution: by
/// `solve`'s contract (success exactly on solvable grids), every solve call
/// on such a grid fails.
pub proof fn lemma_row_duplicate_inconsistent(
    c: Seq<u8>,
    g: Seq<Seq<usize>>,
    t: Topology,
    u: usize,
    v: usize,
)
    requires
        graph_matches(g, t),
        graph_wf(g),
        c.len() == g.len(),
        (u as int) < g.len(),
        (v as int) < g.len(),
        u != v,
        cell_face(u as int) == cell_face(v as int),
        local_row(cell_local(u as int)) == local_row(cell_local(v as int)),
        c[u as int] == c[v as int],
        c[u as int] != 0,
    ensures
        !consistent(c, g),
        !crate::engine::solvable(c, g),
{
    let n = topo_cells(t);
    let faces: int = match t {
        Topology::Classic9x9 => 1,
        Topology::Cube6Faces => 6,
    };
    lemma_split81(faces, u as int);
    lemma_split81(faces, v as int);
    assert(cell_local(u as int) != cell_local(v as int));
    assert(planar_adj(n, u as int, v as int));
    assert(topo_adj(t, u as int, v as int));
    assert(g[u as int].contains(v));
    let k = choose|k: int| 0 <= k < g[u as int].len() && g[u as int][k] == v;
    if consistent(c, g) {
        assert(c[(g[u as int][k]) as int] != c[u as int]);
    }
    crate::engine::lemma_inconsistent_unsolvable(c, g);
}

} // verus!
