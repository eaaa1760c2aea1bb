//! The manifold engine: mutable grid state over a constraint graph.

use vstd::prelude::*;

verus! {

use crate::topology::Topology;
use crate::topology::generate_classic_9x9;
use crate::topology::generate_cube_topology;
use crate::topology::graph_matches;
use crate::topology::graph_wf;
use crate::topology::lists_view;
use crate::topology::topo_cells;

/// The puzzle engine: the current grid, the mask of immutable given cells,
/// the constraint graph of the topology it was built for, and the counters
/// of the most recent solver run.
pub struct ManifoldEngine {
    cells: Vec<u8>,
    fixed: Vec<bool>,
    constraints: Vec<Vec<usize>>,
    iter_count: u32,
    backtrack_count: u32,
    depth_max: u64,
}

impl ManifoldEngine {
    /// The grid: one value in 0..=9 per cell, 0 meaning empty.
    pub closed spec fn grid(self) -> Seq<u8> {
        self.cells@
    }

    /// The fixed mask: true where the loaded puzzle supplied a given value.
    pub closed spec fn fixed_mask(self) -> Seq<bool> {
        self.fixed@
    }

    /// The constraint graph: for every cell, the cells it must differ from.
    pub closed spec fn graph(self) -> Seq<Seq<usize>> {
        lists_view(self.constraints@)
    }

    /// The engine invariant: the three sequences have one entry per cell,
    /// the graph is well formed, every cell value is in 0..=9, and a fixed
    /// cell is never empty.
    pub open spec fn wf(self) -> bool {
        &&& self.graph().len() == self.grid().len()
        &&& self.fixed_mask().len() == self.grid().len()
        &&& graph_wf(self.graph())
        &&& forall|i: int| 0 <= i < self.grid().len() ==> #[trigger] self.grid()[i] <= 9
        &&& forall|i: int|
            0 <= i < self.grid().len() && self.fixed_mask()[i] ==> #[trigger] self.grid()[i] != 0
    }
}

/// Statistics of one solver run.
#[derive(PartialEq, Eq, Clone, Copy, Debug, Structural)]
pub struct SolveStats {
    pub success: bool,
    pub iterations: u32,
    pub backtracks: u32,
    pub max_depth: u32,
}

/// No neighbor of cell `i` currently holds `v`.
pub open spec fn spec_safe(c: Seq<u8>, g: Seq<Seq<usize>>, i: int, v: u8) -> bool {
    forall|k: int| 0 <= k < g[i].len() ==> c[(#[trigger] g[i][k]) as int] != v
}

/// No two adjacent cells share a nonzero value.
pub open spec fn consistent(c: Seq<u8>, g: Seq<Seq<usize>>) -> bool {
    forall|i: int, k: int|
        0 <= i < g.len() && 0 <= k < g[i].len() && c[i] != 0 ==> c[(#[trigger] g[i][k]) as int]
            != c[i]
}

/// Every cell holds a symbol (no cell is empty).
pub open spec fn complete(c: Seq<u8>) -> bool {
    forall|i: int| 0 <= i < c.len() ==> c[i] != 0
}

/// The number of empty cells of a grid: the measure of the solver's
/// recursion.
pub open spec fn count_zeros(c: Seq<u8>) -> nat
    decreases c.len(),
{
    if c.len() == 0 {
        0nat
    } else {
        count_zeros(c.drop_last()) + if c.last() == 0 {
            1nat
        } else {
            0nat
        }
    }
}

/// A grid has no more empty cells than cells.
proof fn lemma_count_zeros_le_len(c: Seq<u8>)
    ensures
        count_zeros(c) <= c.len(),
    decreases c.len(),
{
    if c.len() > 0 {
        lemma_count_zeros_le_len(c.drop_last());
    }
}

/// Filling an empty cell with a symbol lowers the number of empty cells by
/// exactly one.
proof fn lemma_count_zeros_update(c: Seq<u8>, i: int, v: u8)
    requires
        0 <= i < c.len(),
        c[i] == 0,
        v != 0,
    ensures
        count_zeros(c.update(i, v)) + 1 == count_zeros(c),
    decreases c.len(),
{
    let c2 = c.update(i, v);
    if i == c.len() - 1 {
        assert(c2.drop_last() =~= c.drop_last());
    } else {
        assert(c2.drop_last() =~= c.drop_last().update(i, v));
        lemma_count_zeros_update(c.drop_last(), i, v);
    }
}

/// Placing a safe nonzero value on an empty cell of a consistent grid
/// keeps the grid consistent.  Needs the graph's symmetry: the new value
/// must also not conflict from its neighbors' side.
proof fn lemma_place_safe(c: Seq<u8>, g: Seq<Seq<usize>>, i: int, v: u8)
    requires
        c.len() == g.len(),
        c.len() <= usize::MAX,
        graph_wf(g),
        0 <= i < c.len(),
        c[i] == 0,
        v != 0,
        consistent(c, g),
        spec_safe(c, g, i, v),
    ensures
        consistent(c.update(i, v), g),
{
    let c2 = c.update(i, v);
    assert forall|j: int, k: int|
        0 <= j < g.len() && 0 <= k < g[j].len() && c2[j] != 0 implies c2[(#[trigger] g[j][k]) as int]
        != c2[j] by {
        let t = g[j][k] as int;
        if j == i {
            assert(c[t] != v);
        } else if t == i {
            assert(g[t].contains(j as usize));
            let k2 = choose|k2: int| 0 <= k2 < g[t].len() && g[t][k2] == j as usize;
            assert(c[(g[i][k2]) as int] != v);
        }
    }
}

/// `w` is a solution of grid `c`: complete, consistent, within the symbol
/// range, and agreeing with every already-placed cell of `c`.
pub open spec fn extends(c: Seq<u8>, w: Seq<u8>, g: Seq<Seq<usize>>) -> bool {
    &&& w.len() == c.len()
    &&& complete(w)
    &&& consistent(w, g)
    &&& forall|i: int| 0 <= i < w.len() ==> #[trigger] w[i] <= 9
    &&& forall|i: int| 0 <= i < c.len() && c[i] != 0 ==> #[trigger] w[i] == c[i]
}

/// Some solution extends grid `c`.
pub open spec fn solvable(c: Seq<u8>, g: Seq<Seq<usize>>) -> bool {
    exists|w: Seq<u8>| extends(c, w, g)
}

/// On an empty cell of `c`, any solution's value is a symbol that is safe
/// to place: the solution is consistent and agrees with `c` wherever `c` is
/// nonzero.
proof fn lemma_solution_value_safe(c: Seq<u8>, w: Seq<u8>, g: Seq<Seq<usize>>, i: int)
    requires
        c.len() == g.len(),
        graph_wf(g),
        extends(c, w, g),
        0 <= i < c.len(),
        c[i] == 0,
    ensures
        1 <= w[i] <= 9,
        spec_safe(c, g, i, w[i]),
{
    assert forall|k: int| 0 <= k < g[i].len() implies c[(#[trigger] g[i][k]) as int] != w[i] by {
        let t = g[i][k] as int;
        if c[t] != 0 {
            assert(w[t] == c[t]);
            assert(w[t] != w[i]);
        }
    }
}

/// An inconsistent grid has no solution: the conflicting pair of placed
/// cells survives into any would-be solution.
pub(crate) proof fn lemma_inconsistent_unsolvable(c: Seq<u8>, g: Seq<Seq<usize>>)
    requires
        c.len() == g.len(),
        graph_wf(g),
        !consistent(c, g),
    ensures
        !solvable(c, g),
{
    assert forall|w: Seq<u8>| !extends(c, w, g) by {
        if extends(c, w, g) {
            let (i, k) = choose|i: int, k: int|
                0 <= i < g.len() && 0 <= k < g[i].len() && c[i] != 0 && c[(#[trigger] g[i][k])
                    as int] == c[i];
            let t = g[i][k] as int;
            assert(w[i] == c[i]);
            assert(w[t] == c[t]);
            assert(w[t] != w[i]);
        }
    }
}

/// The grid after a reset: non-fixed cells cleared, fixed cells kept.
pub open spec fn reset_grid(c: Seq<u8>, f: Seq<bool>) -> Seq<u8> {
    Seq::new(c.len(), |i: int| if f[i] { c[i] } else { 0 })
}

/// A load payload is accepted when it covers the whole grid, or exactly one
/// face of a larger grid, and every supplied value is a legal symbol.
pub open spec fn load_ok(n: int, p: Seq<u8>) -> bool {
    &&& (p.len() == n || (p.len() == 81 && n >= 81))
    &&& forall|i: int| 0 <= i < p.len() ==> p[i] <= 9
}

impl ManifoldEngine {
    /// Builds an engine for a topology: all cells empty, none fixed, the
    /// constraint graph exactly the topology's adjacency relation, and all
    /// solver counters zero.
    pub fn new(topo: Topology) -> (e: ManifoldEngine)
        ensures
            e.wf(),
            e.grid().len() == topo_cells(topo),
            forall|i: int| 0 <= i < e.grid().len() ==> e.grid()[i] == 0,
            forall|i: int| 0 <= i < e.grid().len() ==> !e.fixed_mask()[i],
            graph_matches(e.graph(), topo),
            topo == Topology::Classic9x9 ==> forall|u: int|
                0 <= u < e.graph().len() ==> (#[trigger] e.graph()[u]).len() == 20,
    {
        let (cells, constraints) = match topo {
            Topology::Classic9x9 => generate_classic_9x9(),
            Topology::Cube6Faces => generate_cube_topology(),
        };
        let n = cells.len();
        let mut fixed: Vec<bool> = Vec::new();
        let mut i: usize = 0;
        while i < n
            invariant
                i <= n,
                fixed@.len() == i,
                forall|j: int| 0 <= j < i ==> !fixed@[j],
            decreases n - i,
        {
            fixed.push(false);
            i = i + 1;
        }
        ManifoldEngine { cells, fixed, constraints, iter_count: 0, backtrack_count: 0, depth_max: 0 }
    }

    /// A snapshot of the grid, fresh and unaliased.
    pub fn get_grid(&self) -> (r: Vec<u8>)
        ensures
            r@ == self.grid(),
    {
        let mut out: Vec<u8> = Vec::new();
        let mut i: usize = 0;
        while i < self.cells.len()
            invariant
                i <= self.grid().len(),
                out@.len() == i,
                forall|j: int| 0 <= j < i ==> out@[j] == self.grid()[j],
            decreases self.grid().len() - i,
        {
            out.push(self.cells[i]);
            i = i + 1;
        }
        proof {
            assert(out@ =~= self.grid());
        }
        out
    }

    /// A snapshot of the fixed mask, encoded as one byte per cell: 1 where
    /// the cell is a given of the loaded puzzle, 0 elsewhere.
    pub fn get_fixed_cells(&self) -> (r: Vec<u8>)
        ensures
            r@.len() == self.fixed_mask().len(),
            forall|i: int|
                0 <= i < r@.len() ==> r@[i] == (if self.fixed_mask()[i] {
                    1u8
                } else {
                    0u8
                }),
    {
        let mut out: Vec<u8> = Vec::new();
        let mut i: usize = 0;
        while i < self.fixed.len()
            invariant
                i <= self.fixed_mask().len(),
                out@.len() == i,
                forall|j: int|
                    0 <= j < i ==> out@[j] == (if self.fixed_mask()[j] {
                        1u8
                    } else {
                        0u8
                    }),
            decreases self.fixed_mask().len() - i,
        {
            if self.fixed[i] {
                out.push(1);
            } else {
                out.push(0);
            }
            i = i + 1;
        }
        out
    }

    /// Whether a cell is a given of the loaded puzzle; false for an index
    /// out of range.
    pub fn is_fixed(&self, index: usize) -> (r: bool)
        ensures
            r == ((index as int) < self.fixed_mask().len() && self.fixed_mask()[index as int]),
    {
        if index < self.fixed.len() {
            self.fixed[index]
        } else {
            false
        }
    }

    /// The value of a cell; 0 for an index out of range.
    pub fn get_cell(&self, index: usize) -> (v: u8)
        ensures
            v == (if (index as int) < self.grid().len() {
                self.grid()[index as int]
            } else {
                0u8
            }),
    {
        if index < self.cells.len() {
            self.cells[index]
        } else {
            0
        }
    }

    /// Whether placing `value` at `index` conflicts with no neighbor: true
    /// iff no cell adjacent to `index` currently holds `value`.  The cell's
    /// own value is deliberately ignored (a cell is never its own
    /// neighbor).
    pub fn is_safe(&self, index: usize, value: u8) -> (r: bool)
        requires
            self.wf(),
            (index as int) < self.grid().len(),
        ensures
            r == spec_safe(self.grid(), self.graph(), index as int, value),
    {
        let len = self.constraints[index].len();
        let mut k: usize = 0;
        while k < len
            invariant
                self.wf(),
                (index as int) < self.grid().len(),
                len == self.graph()[index as int].len(),
                k <= len,
                forall|j: int|
                    0 <= j < k ==> self.grid()[(#[trigger] self.graph()[index as int][j]) as int]
                        != value,
            decreases len - k,
        {
            let nb = self.constraints[index][k];
            if self.cells[nb] == value {
                return false;
            }
            k = k + 1;
        }
        true
    }

    /// The single authoritative write path.  Fails, mutating nothing, when
    /// the index is out of range, the value exceeds 9, or the cell is
    /// fixed.  Clearing (value 0) then always succeeds; a nonzero value is
    /// placed exactly when it is safe.
    pub fn set_cell(&mut self, index: usize, value: u8) -> (r: bool)
        requires
            old(self).wf(),
        ensures
            final(self).wf(),
            final(self).graph() == old(self).graph(),
            final(self).fixed_mask() == old(self).fixed_mask(),
            r == ((index as int) < old(self).grid().len() && value <= 9
                && !(old(self).fixed_mask()[index as int]) && (value == 0 || spec_safe(
                old(self).grid(),
                old(self).graph(),
                index as int,
                value,
            ))),
            r ==> final(self).grid() == old(self).grid().update(index as int, value),
            !r ==> final(self).grid() == old(self).grid(),
    {
        if index >= self.cells.len() || value > 9 {
            return false;
        }
        if self.fixed[index] {
            return false;
        }
        if value == 0 {
            self.cells.set(index, 0);
            return true;
        }
        if self.is_safe(index, value) {
            self.cells.set(index, value);
            return true;
        }
        false
    }

    /// Clears every non-fixed cell; fixed cells and the fixed mask are
    /// untouched.
    pub fn reset(&mut self)
        requires
            old(self).wf(),
        ensures
            final(self).wf(),
            final(self).graph() == old(self).graph(),
            final(self).fixed_mask() == old(self).fixed_mask(),
            final(self).grid() == reset_grid(old(self).grid(), old(self).fixed_mask()),
    {
        let n = self.cells.len();
        let mut i: usize = 0;
        while i < n
            invariant
                i <= n,
                self.wf(),
                n == self.grid().len(),
                self.graph() == old(self).graph(),
                self.fixed_mask() == old(self).fixed_mask(),
                self.grid().len() == old(self).grid().len(),
                forall|j: int|
                    0 <= j < i ==> #[trigger] self.grid()[j] == (if old(self).fixed_mask()[j] {
                        old(self).grid()[j]
                    } else {
                        0u8
                    }),
                forall|j: int| i <= j < n ==> #[trigger] self.grid()[j] == old(self).grid()[j],
            decreases n - i,
        {
            if !self.fixed[i] {
                self.cells.set(i, 0);
            }
            i = i + 1;
        }
        proof {
            assert(self.grid() =~= reset_grid(old(self).grid(), old(self).fixed_mask()));
        }
    }

    /// Replaces the whole puzzle.  A payload of the grid's full length
    /// loads every cell; a payload of one face (81 cells) on a larger grid
    /// loads the first face and clears the rest.  Every nonzero value
    /// becomes a fixed given; every zero becomes an empty, editable cell.
    /// A payload of any other length, or holding a value above 9, is
    /// rejected with no mutation.
    pub fn load_puzzle(&mut self, puzzle: Vec<u8>) -> (r: bool)
        requires
            old(self).wf(),
        ensures
            final(self).wf(),
            final(self).graph() == old(self).graph(),
            final(self).grid().len() == old(self).grid().len(),
            final(self).fixed_mask().len() == old(self).fixed_mask().len(),
            r == load_ok(old(self).grid().len() as int, puzzle@),
            r && puzzle@.len() == old(self).grid().len() ==> final(self).grid() == puzzle@
                && (forall|i: int|
                0 <= i < puzzle@.len() ==> final(self).fixed_mask()[i] == (puzzle@[i] != 0)),
            r && puzzle@.len() != old(self).grid().len() ==> (forall|i: int|
                0 <= i < 81 ==> final(self).grid()[i] == puzzle@[i] && final(self).fixed_mask()[i]
                    == (puzzle@[i] != 0)) && (forall|i: int|
                81 <= i < final(self).grid().len() ==> final(self).grid()[i] == 0
                    && !(final(self).fixed_mask()[i])),
            !r ==> final(self).grid() == old(self).grid()
                && final(self).fixed_mask() == old(self).fixed_mask(),
    {
        let total = self.cells.len();
        let plen = puzzle.len();
        if !(plen == total || (plen == 81 && total >= 81)) {
            return false;
        }
        let mut i: usize = 0;
        while i < plen
            invariant
                i <= plen,
                plen == puzzle@.len(),
                self.wf(),
                self.grid() == old(self).grid(),
                self.fixed_mask() == old(self).fixed_mask(),
                self.graph() == old(self).graph(),
                forall|j: int| 0 <= j < i ==> puzzle@[j] <= 9,
            decreases plen - i,
        {
            if puzzle[i] > 9 {
                return false;
            }
            i = i + 1;
        }
        let limit: usize = if plen == total {
            total
        } else {
            81
        };
        let mut i2: usize = 0;
        while i2 < limit
            invariant
                i2 <= limit,
                limit <= total,
                limit <= plen,
                plen == puzzle@.len(),
                total == self.grid().len(),
                self.wf(),
                self.graph() == old(self).graph(),
                self.grid().len() == old(self).grid().len(),
                self.fixed_mask().len() == old(self).fixed_mask().len(),
                forall|j: int| 0 <= j < plen ==> puzzle@[j] <= 9,
                forall|j: int| 0 <= j < i2 ==> #[trigger] self.grid()[j] == puzzle@[j],
                forall|j: int| 0 <= j < i2 ==> #[trigger] self.fixed_mask()[j] == (puzzle@[j] != 0),
                forall|j: int| i2 <= j < total ==> #[trigger] self.grid()[j] == old(self).grid()[j],
                forall|j: int|
                    i2 <= j < total ==> #[trigger] self.fixed_mask()[j] == old(
                        self,
                    ).fixed_mask()[j],
            decreases limit - i2,
        {
            let ghost pre_grid = self.grid();
            let ghost pre_fixed = self.fixed_mask();
            let pv = puzzle[i2];
            self.cells.set(i2, pv);
            self.fixed.set(i2, pv != 0);
            proof {
                assert(self.grid() == pre_grid.update(i2 as int, pv));
                assert(self.fixed_mask() == pre_fixed.update(i2 as int, pv != 0));
            }
            i2 = i2 + 1;
        }
        if plen != total {
            let mut i3: usize = 81;
            while i3 < total
                invariant
                    81 <= i3 <= total,
                    plen == puzzle@.len(),
                    total == self.grid().len(),
                    self.wf(),
                    self.graph() == old(self).graph(),
                    self.grid().len() == old(self).grid().len(),
                    self.fixed_mask().len() == old(self).fixed_mask().len(),
                    forall|j: int| 0 <= j < plen ==> puzzle@[j] <= 9,
                    forall|j: int|
                        0 <= j < 81 ==> #[trigger] self.grid()[j] == puzzle@[j]
                            && self.fixed_mask()[j] == (puzzle@[j] != 0),
                    forall|j: int|
                        81 <= j < i3 ==> #[trigger] self.grid()[j] == 0 && !self.fixed_mask()[j],
                decreases total - i3,
            {
                self.cells.set(i3, 0);
                self.fixed.set(i3, false);
                i3 = i3 + 1;
            }
        }
        true
    }

    /// Whether the current grid is consistent: no nonzero cell conflicts
    /// with any of its neighbors.
    fn check_consistent(&self) -> (r: bool)
        requires
            self.wf(),
        ensures
            r == consistent(self.grid(), self.graph()),
    {
        let n = self.cells.len();
        let mut i: usize = 0;
        while i < n
            invariant
                self.wf(),
                n == self.grid().len(),
                i <= n,
                forall|i2: int, k: int|
                    0 <= i2 < i && 0 <= k < self.graph()[i2].len() && self.grid()[i2] != 0
                        ==> self.grid()[(#[trigger] self.graph()[i2][k]) as int]
                        != self.grid()[i2],
            decreases n - i,
        {
            let ci = self.cells[i];
            if ci != 0 {
                let len = self.constraints[i].len();
                let mut k: usize = 0;
                while k < len
                    invariant
                        self.wf(),
                        n == self.grid().len(),
                        i < n,
                        len == self.graph()[i as int].len(),
                        k <= len,
                        ci == self.grid()[i as int],
                        ci != 0,
                        forall|k2: int|
                            0 <= k2 < k ==> self.grid()[(#[trigger] self.graph()[i as int][k2])
                                as int] != ci,
                    decreases len - k,
                {
                    let nb = self.constraints[i][k];
                    if self.cells[nb] == ci {
                        return false;
                    }
                    k = k + 1;
                }
            }
            i = i + 1;
        }
        true
    }

    /// One level of the backtracking search.  Picks the empty cell with the
    /// fewest legal symbols (first such cell on ties, stopping early at a
    /// single-candidate cell), tries its candidates in ascending order, and
    /// undoes every placement that does not lead to a full grid.  Succeeds
    /// exactly with a complete, consistent grid extending the given one;
    /// fails with the grid exactly as it was.
    fn solve_recursive(&mut self, depth: u64) -> (r: bool)
        requires
            old(self).wf(),
            consistent(old(self).grid(), old(self).graph()),
            depth as int + count_zeros(old(self).grid()) <= u64::MAX as int,
        ensures
            final(self).wf(),
            final(self).graph() == old(self).graph(),
            final(self).fixed_mask() == old(self).fixed_mask(),
            final(self).grid().len() == old(self).grid().len(),
            r ==> complete(final(self).grid()) && consistent(
                final(self).grid(),
                old(self).graph(),
            ),
            r ==> forall|i: int|
                0 <= i < old(self).grid().len() && old(self).grid()[i] != 0 ==> (final(self).grid()[i]) == old(self).grid()[i],
            !r ==> final(self).grid() == old(self).grid(),
            !r ==> !solvable(old(self).grid(), old(self).graph()),
        decreases count_zeros(old(self).grid()),
    {
        self.iter_count = self.iter_count.saturating_add(1);
        if depth > self.depth_max {
            self.depth_max = depth;
        }
        let n = self.cells.len();
        let mut best: usize = n;
        let mut min_options: u32 = 10;
        let mut i: usize = 0;
        while i < n
            invariant
                i <= n,
                n == self.grid().len(),
                self.wf(),
                self.grid() == old(self).grid(),
                self.graph() == old(self).graph(),
                self.fixed_mask() == old(self).fixed_mask(),
                best == n || (best < n && self.grid()[best as int] == 0),
                best == n ==> forall|j: int| 0 <= j < i ==> self.grid()[j] != 0,
                (best == n) == (min_options == 10),
                min_options <= 10,
            ensures
                n == self.grid().len(),
                self.wf(),
                self.grid() == old(self).grid(),
                self.graph() == old(self).graph(),
                self.fixed_mask() == old(self).fixed_mask(),
                best == n || (best < n && self.grid()[best as int] == 0),
                best == n ==> complete(self.grid()),
            decreases n - i,
        {
            if self.cells[i] == 0 {
                let mut options: u32 = 0;
                let mut val: u8 = 1;
                while val <= 9
                    invariant
                        1 <= val <= 10,
                        options < val,
                        i < n,
                        n == self.grid().len(),
                        self.wf(),
                        self.grid() == old(self).grid(),
                        self.graph() == old(self).graph(),
                        self.fixed_mask() == old(self).fixed_mask(),
                        options == 0 ==> forall|v: u8|
                            1 <= v < val ==> !spec_safe(self.grid(), self.graph(), i as int, v),
                    decreases 10 - val,
                {
                    if self.is_safe(i, val) {
                        options = options + 1;
                    }
                    val = val + 1;
                }
                if options == 0 {
                    self.backtrack_count = self.backtrack_count.saturating_add(1);
                    proof {
                        assert forall|w: Seq<u8>| !extends(self.grid(), w, self.graph()) by {
                            if extends(self.grid(), w, self.graph()) {
                                lemma_solution_value_safe(
                                    self.grid(),
                                    w,
                                    self.graph(),
                                    i as int,
                                );
                            }
                        }
                        assert(!solvable(self.grid(), self.graph()));
                    }
                    return false;
                }
                if options < min_options {
                    min_options = options;
                    best = i;
                    if options == 1 {
                        break;
                    }
                }
            }
            i = i + 1;
        }
        if best == n {
            return true;
        }
        let idx = best;
        proof {
            assert forall|w: Seq<u8>| #[trigger] extends(self.grid(), w, self.graph()) implies 1
                <= w[idx as int] by {
                assert(w[idx as int] != 0);
            }
        }
        let mut val: u8 = 1;
        while val <= 9
            invariant
                1 <= val <= 10,
                idx < n,
                n == self.grid().len(),
                self.wf(),
                self.grid() == old(self).grid(),
                self.graph() == old(self).graph(),
                self.fixed_mask() == old(self).fixed_mask(),
                self.grid()[idx as int] == 0,
                consistent(self.grid(), self.graph()),
                depth as int + count_zeros(self.grid()) <= u64::MAX as int,
                forall|w: Seq<u8>|
                    #[trigger] extends(self.grid(), w, self.graph()) ==> val <= w[idx as int],
            decreases 10 - val,
        {
            if self.is_safe(idx, val) {
                let ghost pre = self.grid();
                self.cells.set(idx, val);
                proof {
                    assert(self.grid() == pre.update(idx as int, val));
                    lemma_place_safe(pre, self.graph(), idx as int, val);
                    lemma_count_zeros_update(pre, idx as int, val);
                }
                if self.solve_recursive(depth + 1) {
                    proof {
                        assert forall|j: int|
                            0 <= j < old(self).grid().len() && old(self).grid()[j]
                                != 0 implies self.grid()[j] == old(self).grid()[j] by {
                            assert(pre.update(idx as int, val)[j] == pre[j]);
                        }
                    }
                    return true;
                }
                self.cells.set(idx, 0);
                proof {
                    assert(self.grid() =~= pre);
                    // No solution places this value here: the recursive call
                    // refuted every solution of the extended grid.
                    assert forall|w: Seq<u8>|
                        #[trigger] extends(self.grid(), w, self.graph()) implies val + 1 <= w[idx as int] by {
                        if w[idx as int] == val {
                            assert(extends(pre.update(idx as int, val), w, self.graph()));
                        }
                    }
                }
            } else {
                proof {
                    // No solution places an unsafe value here.
                    assert forall|w: Seq<u8>|
                        #[trigger] extends(self.grid(), w, self.graph()) implies val + 1 <= w[idx as int] by {
                        if w[idx as int] == val {
                            lemma_solution_value_safe(self.grid(), w, self.graph(), idx as int);
                        }
                    }
                }
            }
            val = val + 1;
        }
        self.backtrack_count = self.backtrack_count.saturating_add(1);
        proof {
            // Every candidate symbol for the chosen cell has been refuted,
            // so no solution extends this grid.
            assert forall|w: Seq<u8>| !extends(self.grid(), w, self.graph()) by {
                if extends(self.grid(), w, self.graph()) {
                    assert(w[idx as int] <= 9);
                }
            }
            assert(!solvable(self.grid(), self.graph()));
        }
        false
    }

    /// Runs the backtracking solver on the current grid.  It succeeds
    /// exactly when the grid has a solution: a complete, consistent grid
    /// agreeing with every already-placed cell.  On success that is the
    /// grid the engine ends with, every previously nonzero cell (in
    /// particular every fixed cell) untouched; on failure the grid is
    /// exactly as it was before the call.  A grid that is already
    /// inconsistent (which only a loaded puzzle can produce) has no
    /// solution and always fails.  The returned statistics are diagnostic
    /// only.
    pub fn solve(&mut self) -> (stats: SolveStats)
        requires
            old(self).wf(),
        ensures
            final(self).wf(),
            final(self).graph() == old(self).graph(),
            final(self).fixed_mask() == old(self).fixed_mask(),
            final(self).grid().len() == old(self).grid().len(),
            stats.success ==> complete(final(self).grid()) && consistent(
                final(self).grid(),
                old(self).graph(),
            ),
            stats.success ==> consistent(old(self).grid(), old(self).graph()),
            stats.success ==> forall|i: int|
                0 <= i < old(self).grid().len() && old(self).grid()[i] != 0 ==> (final(self).grid()[i]) == old(self).grid()[i],
            stats.success ==> forall|i: int|
                0 <= i < old(self).grid().len() && old(self).fixed_mask()[i] ==> (final(self).grid()[i]) == old(self).grid()[i],
            !stats.success ==> final(self).grid() == old(self).grid(),
            stats.success == solvable(old(self).grid(), old(self).graph()),
    {
        self.iter_count = 0;
        self.backtrack_count = 0;
        self.depth_max = 0;
        if !self.check_consistent() {
            proof {
                lemma_inconsistent_unsolvable(self.grid(), self.graph());
            }
            return SolveStats { success: false, iterations: 0, backtracks: 0, max_depth: 0 };
        }
        let n = self.cells.len();
        proof {
            lemma_count_zeros_le_len(self.grid());
            assert(count_zeros(self.grid()) <= n);
        }
        let success = self.solve_recursive(0);
        proof {
            if success {
                assert(extends(old(self).grid(), self.grid(), old(self).graph()));
            }
        }
        let max_depth: u32 = if self.depth_max > u32::MAX as u64 {
            u32::MAX
        } else {
            self.depth_max as u32
        };
        SolveStats {
            success,
            iterations: self.iter_count,
            backtracks: self.backtrack_count,
            max_depth,
        }
    }
}

} // verus!
