//! Grid cells and the immutable cell network with its adjacency queries.
//!
//! A `GridCell` pairs a polygon with the scalar value it carries.  The
//! value crosses the library boundary as the IEEE-754 bit pattern of a
//! non-negative finite double: for such doubles the unsigned order of the
//! bit patterns coincides with the numeric order of the encoded values,
//! so minima and maxima computed here are exactly the numeric ones.
//!
//! A `GridNetwork` is an immutable snapshot of cells.  Adjacency is not
//! stored; it is derived on demand by scanning for shared vertices or
//! shared (undirected) edges.

use vstd::prelude::*;

use crate::coords::{cyclic_eq, edge_eq, has_edge, next_index, Edge, Polygon};
use crate::meshgen::{polys_closed, polys_with_edge};

verus! {

/// Bit pattern of the largest finite non-negative double.  A value's bit
/// pattern is valid exactly when it is at most this constant: the sign
/// bit is clear and the exponent is not the all-ones NaN/infinity code.
pub const MAX_FINITE_VALUE_BITS: u64 = 0x7FEF_FFFF_FFFF_FFFF;

/// `bits` encodes a non-negative finite double.
pub open spec fn valid_value(bits: u64) -> bool {
    bits <= MAX_FINITE_VALUE_BITS
}

/// A mesh cell: a polygon and the non-negative scalar value it carries,
/// as the bit pattern of the encoded double.
#[derive(Debug)]
pub struct GridCell {
    pub polygon: Polygon,
    pub value: u64,
}

impl GridCell {
    /// Validating constructor: the value must encode a non-negative
    /// finite double.  Invalid values are rejected, never clamped.
    pub fn new(polygon: Polygon, value: u64) -> (r: Result<GridCell, &'static str>)
        ensures
            r is Ok <==> valid_value(value),
            r matches Ok(c) ==> c.polygon@ == polygon@ && c.value == value,
    {
        if value <= MAX_FINITE_VALUE_BITS {
            Ok(GridCell { polygon, value })
        } else {
            Err("cell value must be a non-negative finite number")
        }
    }
}

impl Clone for GridCell {
    fn clone(&self) -> (r: GridCell)
        ensures
            r.polygon@ == self.polygon@,
            r.value == self.value,
    {
        GridCell { polygon: self.polygon.clone(), value: self.value }
    }
}

impl PartialEq for GridCell {
    fn eq(&self, other: &GridCell) -> (r: bool) {
        self.polygon == other.polygon
    }
}

impl vstd::std_specs::cmp::PartialEqSpecImpl for GridCell {
    open spec fn obeys_eq_spec() -> bool {
        true
    }

    open spec fn eq_spec(&self, other: &GridCell) -> bool {
        cyclic_eq(self.polygon@, other.polygon@)
    }
}

/// The cells of `cells` whose polygon has `node` among its vertices, in
/// stored order.
pub open spec fn cells_with_node(cells: Seq<GridCell>, node: usize) -> Seq<GridCell> {
    cells.filter(|c: GridCell| c.polygon@.contains(node))
}

/// The cells of `cells` whose boundary contains the undirected edge
/// `{x, y}`, in stored order.
pub open spec fn cells_with_edge(cells: Seq<GridCell>, x: usize, y: usize) -> Seq<GridCell> {
    cells.filter(|c: GridCell| has_edge(c.polygon@, x, y))
}

/// The cells of `cands` whose polygon is not (cyclically) equal to `p`.
pub open spec fn cells_not_matching(cands: Seq<GridCell>, p: Seq<usize>) -> Seq<GridCell> {
    cands.filter(|c: GridCell| !cyclic_eq(c.polygon@, p))
}

/// The neighbor list of a cell with boundary `p`: for each of the first
/// `j` boundary edges in order, the cells sharing that edge, the cell
/// itself excluded.
pub open spec fn neighbors_upto(cells: Seq<GridCell>, p: Seq<usize>, j: int) -> Seq<GridCell>
    decreases j,
{
    if j <= 0 {
        Seq::empty()
    } else {
        neighbors_upto(cells, p, j - 1) + cells_not_matching(
            cells_with_edge(cells, p[j - 1], p[next_index(j - 1, p.len() as int)]),
            p,
        )
    }
}

/// The borrowed cells of `s`, by value.
pub open spec fn deref_cells(s: Seq<&GridCell>) -> Seq<GridCell> {
    s.map_values(|c: &GridCell| *c)
}

proof fn lemma_cells_with_node_take_step(cells: Seq<GridCell>, node: usize, i: int)
    requires
        0 <= i < cells.len(),
    ensures
        cells_with_node(cells.take(i + 1), node) == (if cells[i].polygon@.contains(node) {
            cells_with_node(cells.take(i), node).push(cells[i])
        } else {
            cells_with_node(cells.take(i), node)
        }),
{
    reveal(Seq::filter);
    assert(cells.take(i + 1).drop_last() =~= cells.take(i));
    assert(cells.take(i + 1).last() == cells[i]);
}

proof fn lemma_cells_with_edge_take_step(cells: Seq<GridCell>, x: usize, y: usize, i: int)
    requires
        0 <= i < cells.len(),
    ensures
        cells_with_edge(cells.take(i + 1), x, y) == (if has_edge(cells[i].polygon@, x, y) {
            cells_with_edge(cells.take(i), x, y).push(cells[i])
        } else {
            cells_with_edge(cells.take(i), x, y)
        }),
{
    reveal(Seq::filter);
    assert(cells.take(i + 1).drop_last() =~= cells.take(i));
    assert(cells.take(i + 1).last() == cells[i]);
}

proof fn lemma_cells_not_matching_take_step(cands: Seq<GridCell>, p: Seq<usize>, i: int)
    requires
        0 <= i < cands.len(),
    ensures
        cells_not_matching(cands.take(i + 1), p) == (if !cyclic_eq(cands[i].polygon@, p) {
            cells_not_matching(cands.take(i), p).push(cands[i])
        } else {
            cells_not_matching(cands.take(i), p)
        }),
{
    reveal(Seq::filter);
    assert(cands.take(i + 1).drop_last() =~= cands.take(i));
    assert(cands.take(i + 1).last() == cands[i]);
}

/// A closed mesh: every undirected edge is shared by exactly two cells
/// or by none.
pub open spec fn mesh_closed(cells: Seq<GridCell>) -> bool {
    forall|x: usize, y: usize|
        (#[trigger] cells_with_edge(cells, x, y)).len() == 0 || cells_with_edge(
            cells,
            x,
            y,
        ).len() == 2
}

proof fn lemma_cells_with_edge_nonempty(cells: Seq<GridCell>, i: int, x: usize, y: usize)
    requires
        0 <= i < cells.len(),
        has_edge(cells[i].polygon@, x, y),
    ensures
        cells_with_edge(cells, x, y).len() >= 1,
    decreases cells.len(),
{
    reveal(Seq::filter);
    if i == cells.len() - 1 {
        assert(cells.last() == cells[i]);
    } else {
        assert(cells.drop_last()[i] == cells[i]);
        lemma_cells_with_edge_nonempty(cells.drop_last(), i, x, y);
    }
}

proof fn lemma_cells_with_edge_member(cells: Seq<GridCell>, x: usize, y: usize)
    requires
        cells_with_edge(cells, x, y).len() > 0,
    ensures
        exists|i: int| 0 <= i < cells.len() && has_edge((#[trigger] cells[i]).polygon@, x, y),
    decreases cells.len(),
{
    reveal(Seq::filter);
    if cells.len() > 0 {
        if has_edge(cells.last().polygon@, x, y) {
            assert(cells[cells.len() - 1] == cells.last());
        } else {
            lemma_cells_with_edge_member(cells.drop_last(), x, y);
            let i = choose|i: int|
                0 <= i < cells.drop_last().len() && has_edge(
                    (#[trigger] cells.drop_last()[i]).polygon@,
                    x,
                    y,
                );
            assert(cells[i] == cells.drop_last()[i]);
        }
    }
}

proof fn lemma_cells_with_edge_unordered(cells: Seq<GridCell>, x: usize, y: usize)
    ensures
        cells_with_edge(cells, x, y) == cells_with_edge(cells, y, x),
    decreases cells.len(),
{
    reveal(Seq::filter);
    if cells.len() > 0 {
        lemma_cells_with_edge_unordered(cells.drop_last(), x, y);
        assert(has_edge(cells.last().polygon@, x, y) == has_edge(cells.last().polygon@, y, x));
    }
}

/// On a closed mesh, an edge that lies on some cell's boundary is shared
/// by exactly two cells, so an edge query for it returns exactly two.
pub proof fn lemma_closed_mesh_edge_count(cells: Seq<GridCell>, i: int, x: usize, y: usize)
    requires
        mesh_closed(cells),
        0 <= i < cells.len(),
        has_edge(cells[i].polygon@, x, y),
    ensures
        cells_with_edge(cells, x, y).len() == 2,
{
    lemma_cells_with_edge_nonempty(cells, i, x, y);
}

/// The node sequences of a network's cells.
pub open spec fn network_polys(cells: Seq<GridCell>) -> Seq<Seq<usize>> {
    cells.map_values(|c: GridCell| c.polygon@)
}

proof fn lemma_edge_filter_correspondence(cells: Seq<GridCell>, x: usize, y: usize)
    ensures
        cells_with_edge(cells, x, y).len() == polys_with_edge(network_polys(cells), x, y).len(),
    decreases cells.len(),
{
    reveal(Seq::filter);
    if cells.len() > 0 {
        assert(network_polys(cells).drop_last() =~= network_polys(cells.drop_last()));
        assert(network_polys(cells).last() == cells.last().polygon@);
        lemma_edge_filter_correspondence(cells.drop_last(), x, y);
    } else {
        assert(network_polys(cells) =~= Seq::<Seq<usize>>::empty());
    }
}

/// A network whose polygons form a closed triangle mesh satisfies the
/// cell-level closed-mesh invariant, so every boundary edge query on it
/// returns exactly two cells.
pub proof fn lemma_mesh_closed_from_polys(cells: Seq<GridCell>)
    requires
        polys_closed(network_polys(cells)),
    ensures
        mesh_closed(cells),
{
    assert forall|x: usize, y: usize|
        (#[trigger] cells_with_edge(cells, x, y)).len() == 0 || cells_with_edge(
            cells,
            x,
            y,
        ).len() == 2 by {
        lemma_edge_filter_correspondence(cells, x, y);
        assert(polys_with_edge(network_polys(cells), x, y).len() == 0 || polys_with_edge(
            network_polys(cells),
            x,
            y,
        ).len() == 2);
    }
}

/// Mesh closedness depends on the polygons alone: two cell collections
/// carrying the same polygons, in the same order, are both closed or
/// both not.  In particular a step that replaces every cell's value but
/// keeps its polygon preserves closedness.
pub proof fn lemma_closedness_depends_on_polygons(a: Seq<GridCell>, b: Seq<GridCell>)
    requires
        network_polys(a) == network_polys(b),
    ensures
        mesh_closed(a) == mesh_closed(b),
{
    assert forall|x: usize, y: usize|
        (#[trigger] cells_with_edge(a, x, y)).len() == cells_with_edge(b, x, y).len() by {
        lemma_edge_filter_correspondence(a, x, y);
        lemma_edge_filter_correspondence(b, x, y);
    }
    if mesh_closed(a) {
        assert forall|x: usize, y: usize|
            (#[trigger] cells_with_edge(b, x, y)).len() == 0 || cells_with_edge(b, x, y).len()
                == 2 by {
            assert(cells_with_edge(a, x, y).len() == 0 || cells_with_edge(a, x, y).len() == 2);
        }
    }
    if mesh_closed(b) {
        assert forall|x: usize, y: usize|
            (#[trigger] cells_with_edge(a, x, y)).len() == 0 || cells_with_edge(a, x, y).len()
                == 2 by {
            assert(cells_with_edge(b, x, y).len() == 0 || cells_with_edge(b, x, y).len() == 2);
        }
    }
}

/// The first `upto` boundary edges of the polygon `p` are each shared by
/// exactly two of `cells`.
pub open spec fn cell_edges_closed(cells: Seq<GridCell>, p: Seq<usize>, upto: int) -> bool {
    forall|e: int|
        0 <= e < upto ==> (#[trigger] cells_with_edge(
            cells,
            p[e],
            p[next_index(e, p.len() as int)],
        )).len() == 2
}

/// Every boundary edge of the first `i` cells is shared by exactly two
/// of `cells`.
pub open spec fn cells_closed_upto(cells: Seq<GridCell>, i: int) -> bool {
    forall|j: int|
        0 <= j < i ==> cell_edges_closed(
            cells,
            (#[trigger] cells[j]).polygon@,
            cells[j].polygon@.len() as int,
        )
}

proof fn lemma_closed_iff_all_checked(cells: Seq<GridCell>)
    ensures
        cells_closed_upto(cells, cells.len() as int) <==> mesh_closed(cells),
{
    if cells_closed_upto(cells, cells.len() as int) {
        assert forall|x: usize, y: usize|
            (#[trigger] cells_with_edge(cells, x, y)).len() == 0 || cells_with_edge(
                cells,
                x,
                y,
            ).len() == 2 by {
            if cells_with_edge(cells, x, y).len() > 0 {
                lemma_cells_with_edge_member(cells, x, y);
                let i = choose|i: int|
                    0 <= i < cells.len() && has_edge((#[trigger] cells[i]).polygon@, x, y);
                let p = cells[i].polygon@;
                let e = choose|e: int|
                    0 <= e < p.len() && edge_eq(p[e], p[next_index(e, p.len() as int)], x, y);
                assert(cells_with_edge(cells, p[e], p[next_index(e, p.len() as int)]).len() == 2);
                if p[e] == x && p[next_index(e, p.len() as int)] == y {
                } else {
                    lemma_cells_with_edge_unordered(cells, x, y);
                }
            }
        }
    }
    if mesh_closed(cells) {
        assert forall|j: int| 0 <= j < cells.len() implies cell_edges_closed(
            cells,
            (#[trigger] cells[j]).polygon@,
            cells[j].polygon@.len() as int,
        ) by {
            let p = cells[j].polygon@;
            assert forall|e: int| 0 <= e < p.len() implies (#[trigger] cells_with_edge(
                cells,
                p[e],
                p[next_index(e, p.len() as int)],
            )).len() == 2 by {
                let x = p[e];
                let y = p[next_index(e, p.len() as int)];
                assert(edge_eq(p[e], p[next_index(e, p.len() as int)], x, y));
                assert(has_edge(p, x, y));
                lemma_cells_with_edge_nonempty(cells, j, x, y);
            }
        }
    }
}

/// An immutable snapshot of the mesh: an unordered collection of cells.
#[derive(Debug)]
pub struct GridNetwork {
    pub cells: Vec<GridCell>,
}

impl GridNetwork {
    pub fn new(cells: Vec<GridCell>) -> (n: GridNetwork)
        ensures
            n.cells@ == cells@,
    {
        GridNetwork { cells }
    }

    /// The cells whose polygon includes the vertex `node`.
    pub fn query_node(&self, node: usize) -> (r: Vec<&GridCell>)
        ensures
            deref_cells(r@) == cells_with_node(self.cells@, node),
    {
        let n: usize = self.cells.len();
        let mut out: Vec<&GridCell> = Vec::new();
        let mut i: usize = 0;
        while i < n
            invariant
                n == self.cells@.len(),
                i <= n,
                deref_cells(out@) == cells_with_node(self.cells@.take(i as int), node),
            decreases n - i,
        {
            let c = &self.cells[i];
            proof {
                lemma_cells_with_node_take_step(self.cells@, node, i as int);
            }
            if c.polygon.contains_node(node) {
                let ghost prev = deref_cells(out@);
                out.push(c);
                proof {
                    assert(deref_cells(out@) =~= prev.push(*c));
                }
            }
            i = i + 1;
        }
        proof {
            assert(self.cells@.take(n as int) =~= self.cells@);
        }
        out
    }

    /// The cells whose boundary contains the given undirected edge.
    pub fn query_edge(&self, edge: &Edge) -> (r: Vec<&GridCell>)
        ensures
            deref_cells(r@) == cells_with_edge(self.cells@, edge.a, edge.b),
    {
        let n: usize = self.cells.len();
        let mut out: Vec<&GridCell> = Vec::new();
        let mut i: usize = 0;
        while i < n
            invariant
                n == self.cells@.len(),
                i <= n,
                deref_cells(out@) == cells_with_edge(self.cells@.take(i as int), edge.a, edge.b),
            decreases n - i,
        {
            let c = &self.cells[i];
            proof {
                lemma_cells_with_edge_take_step(self.cells@, edge.a, edge.b, i as int);
            }
            if c.polygon.contains_edge(edge.a, edge.b) {
                let ghost prev = deref_cells(out@);
                out.push(c);
                proof {
                    assert(deref_cells(out@) =~= prev.push(*c));
                }
            }
            i = i + 1;
        }
        proof {
            assert(self.cells@.take(n as int) =~= self.cells@);
        }
        out
    }

    /// The cells sharing a boundary edge with `cell`, the cell itself
    /// excluded; one entry per shared edge, in edge order.
    pub fn query_neighbors(&self, cell: &GridCell) -> (r: Vec<&GridCell>)
        ensures
            deref_cells(r@) == neighbors_upto(
                self.cells@,
                cell.polygon@,
                cell.polygon@.len() as int,
            ),
    {
        let ghost p = cell.polygon@;
        let n: usize = cell.polygon.nodes.len();
        let mut out: Vec<&GridCell> = Vec::new();
        let mut j: usize = 0;
        while j < n
            invariant
                n == p.len(),
                p == cell.polygon@,
                j <= n,
                deref_cells(out@) == neighbors_upto(self.cells@, p, j as int),
            decreases n - j,
        {
            let succ: usize = if j + 1 < n {
                j + 1
            } else {
                0
            };
            let edge = Edge { a: cell.polygon.nodes[j], b: cell.polygon.nodes[succ] };
            let cands: Vec<&GridCell> = self.query_edge(&edge);
            let ghost cand_cells = cells_with_edge(self.cells@, p[j as int], p[next_index(
                j as int,
                n as int,
            )]);
            let m: usize = cands.len();
            let mut t: usize = 0;
            while t < m
                invariant
                    m == cands@.len(),
                    deref_cells(cands@) == cand_cells,
                    p == cell.polygon@,
                    t <= m,
                    deref_cells(out@) == neighbors_upto(self.cells@, p, j as int)
                        + cells_not_matching(cand_cells.take(t as int), p),
                decreases m - t,
            {
                let cand = cands[t];
                proof {
                    lemma_cells_not_matching_take_step(cand_cells, p, t as int);
                    assert(cand_cells[t as int] == *cand);
                }
                let keep: bool = !(*cand == *cell);
                if keep {
                    let ghost prev = deref_cells(out@);
                    out.push(cand);
                    proof {
                        assert(deref_cells(out@) =~= prev.push(*cand));
                    }
                }
                t = t + 1;
            }
            proof {
                assert(cand_cells.take(m as int) =~= cand_cells);
                assert(neighbors_upto(self.cells@, p, j as int + 1) == neighbors_upto(
                    self.cells@,
                    p,
                    j as int,
                ) + cells_not_matching(cand_cells, p));
            }
            j = j + 1;
        }
        out
    }

    /// The first stored cell equal (as a polygon, up to rotation) to the
    /// given cell, or a not-found failure.
    pub fn query_cell(&self, cell: &GridCell) -> (r: Result<&GridCell, ()>)
        ensures
            r is Ok <==> exists|i: int|
                0 <= i < self.cells@.len() && cyclic_eq(
                    (#[trigger] self.cells@[i]).polygon@,
                    cell.polygon@,
                ),
            r matches Ok(c) ==> exists|i: int|
                {
                    &&& 0 <= i < self.cells@.len()
                    &&& *c == self.cells@[i]
                    &&& cyclic_eq((#[trigger] self.cells@[i]).polygon@, cell.polygon@)
                    &&& forall|j: int|
                        0 <= j < i ==> !cyclic_eq(
                            (#[trigger] self.cells@[j]).polygon@,
                            cell.polygon@,
                        )
                },
    {
        let n: usize = self.cells.len();
        let mut i: usize = 0;
        while i < n
            invariant
                n == self.cells@.len(),
                i <= n,
                forall|j: int|
                    0 <= j < i ==> !cyclic_eq((#[trigger] self.cells@[j]).polygon@, cell.polygon@),
            decreases n - i,
        {
            let stored = &self.cells[i];
            if *stored == *cell {
                return Ok(stored);
            }
            i = i + 1;
        }
        Err(())
    }

    /// The largest stored value, or the encoding of zero when the network
    /// is empty.  On valid values this is the numeric maximum.
    pub fn max_value(&self) -> (r: u64)
        ensures
            forall|i: int| 0 <= i < self.cells@.len() ==> (#[trigger] self.cells@[i]).value <= r,
            r == 0 || exists|i: int|
                0 <= i < self.cells@.len() && (#[trigger] self.cells@[i]).value == r,
    {
        let n: usize = self.cells.len();
        let mut max: u64 = 0;
        let mut i: usize = 0;
        while i < n
            invariant
                n == self.cells@.len(),
                i <= n,
                forall|j: int| 0 <= j < i ==> (#[trigger] self.cells@[j]).value <= max,
                max == 0 || exists|j: int|
                    0 <= j < i && (#[trigger] self.cells@[j]).value == max,
            decreases n - i,
        {
            if self.cells[i].value > max {
                max = self.cells[i].value;
            }
            i = i + 1;
        }
        max
    }

    /// The smallest stored value, or the largest finite encoding when the
    /// network is empty.  On valid values this is the numeric minimum.
    pub fn min_value(&self) -> (r: u64)
        ensures
            r <= MAX_FINITE_VALUE_BITS,
            forall|i: int| 0 <= i < self.cells@.len() ==> r <= (#[trigger] self.cells@[i]).value,
            r == MAX_FINITE_VALUE_BITS || exists|i: int|
                0 <= i < self.cells@.len() && (#[trigger] self.cells@[i]).value == r,
    {
        let n: usize = self.cells.len();
        let mut min: u64 = MAX_FINITE_VALUE_BITS;
        let mut i: usize = 0;
        while i < n
            invariant
                n == self.cells@.len(),
                min <= MAX_FINITE_VALUE_BITS,
                i <= n,
                forall|j: int| 0 <= j < i ==> min <= (#[trigger] self.cells@[j]).value,
                min == MAX_FINITE_VALUE_BITS || exists|j: int|
                    0 <= j < i && (#[trigger] self.cells@[j]).value == min,
            decreases n - i,
        {
            if self.cells[i].value < min {
                min = self.cells[i].value;
            }
            i = i + 1;
        }
        min
    }

    /// Check the closed-mesh invariant: every boundary edge of every
    /// cell is shared by exactly two cells.  Meant to run once at
    /// mesh-build time rather than discovering a violation mid-solve.
    pub fn check_mesh_closed(&self) -> (r: bool)
        ensures
            r == mesh_closed(self.cells@),
    {
        let n: usize = self.cells.len();
        let mut ok: bool = true;
        let mut i: usize = 0;
        while i < n
            invariant
                n == self.cells@.len(),
                i <= n,
                ok == cells_closed_upto(self.cells@, i as int),
            decreases n - i,
        {
            let ghost p = self.cells@[i as int].polygon@;
            let p_len: usize = self.cells[i].polygon.nodes.len();
            let mut e: usize = 0;
            let mut cell_ok: bool = true;
            while e < p_len
                invariant
                    n == self.cells@.len(),
                    i < n,
                    p == self.cells@[i as int].polygon@,
                    p_len == p.len(),
                    e <= p_len,
                    cell_ok == cell_edges_closed(self.cells@, p, e as int),
                decreases p_len - e,
            {
                let succ: usize = if e + 1 < p_len {
                    e + 1
                } else {
                    0
                };
                let edge = Edge {
                    a: self.cells[i].polygon.nodes[e],
                    b: self.cells[i].polygon.nodes[succ],
                };
                let cands: Vec<&GridCell> = self.query_edge(&edge);
                proof {
                    assert(deref_cells(cands@).len() == cands@.len());
                    assert(edge.a == p[e as int] && edge.b == p[next_index(e as int, p.len() as int)]);
                }
                if cands.len() != 2 {
                    cell_ok = false;
                }
                e = e + 1;
            }
            if !cell_ok {
                ok = false;
            }
            i = i + 1;
        }
        proof {
            lemma_closed_iff_all_checked(self.cells@);
        }
        ok
    }
}

} // verus!
