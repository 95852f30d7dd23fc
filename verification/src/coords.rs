//! Spherical polygons over canonical vertex identifiers.
//!
//! The mesh builder assigns every vertex of the sphere a canonical
//! identifier; an `Edge` is an unordered pair of identifiers and a
//! `Polygon` is a cyclic sequence of at least three of them.  Polygon
//! equality is invariant under cyclic rotation of the node sequence but
//! not under reflection: mesh construction yields a consistent winding
//! order, and the flux solver relies on edge orientation.

use vstd::prelude::*;

verus! {

/// An unordered pair of vertex identifiers: one boundary arc of a cell.
#[derive(Clone, Copy, Debug)]
pub struct Edge {
    pub a: usize,
    pub b: usize,
}

/// `{a1, b1}` and `{a2, b2}` name the same unordered pair.
pub open spec fn edge_eq(a1: usize, b1: usize, a2: usize, b2: usize) -> bool {
    (a1 == a2 && b1 == b2) || (a1 == b2 && b1 == a2)
}

impl Edge {
    pub fn new(a: usize, b: usize) -> (e: Edge)
        ensures
            e.a == a,
            e.b == b,
    {
        Edge { a, b }
    }
}

impl PartialEq for Edge {
    fn eq(&self, other: &Edge) -> (r: bool) {
        (self.a == other.a && self.b == other.b) || (self.a == other.b && self.b == other.a)
    }
}

impl vstd::std_specs::cmp::PartialEqSpecImpl for Edge {
    open spec fn obeys_eq_spec() -> bool {
        true
    }

    open spec fn eq_spec(&self, other: &Edge) -> bool {
        edge_eq(self.a, self.b, other.a, other.b)
    }
}

/// Successor of index `i` on a cyclic sequence of length `n`.
pub open spec fn next_index(i: int, n: int) -> int {
    if i + 1 < n {
        i + 1
    } else {
        0
    }
}

/// Index `i` advanced by `k` places on a cyclic sequence of length `n`,
/// for `0 <= i < n` and `0 <= k < n`.
pub open spec fn cyclic_shift(i: int, k: int, n: int) -> int {
    if i + k < n {
        i + k
    } else {
        i + k - n
    }
}

/// The nodes of `a` read in order from position 0 equal the nodes of `b`
/// read in order from position `k`.
pub open spec fn cyclic_match(a: Seq<usize>, b: Seq<usize>, k: int) -> bool {
    forall|i: int|
        0 <= i < a.len() ==> a[i] == b[cyclic_shift(i, k, a.len() as int)]
}

/// Polygon equality: the node sequences agree up to a cyclic rotation.
/// Reflections are deliberately not identified.
pub open spec fn cyclic_eq(a: Seq<usize>, b: Seq<usize>) -> bool {
    &&& a.len() == b.len()
    &&& (a.len() == 0 || exists|k: int| 0 <= k < a.len() && cyclic_match(a, b, k))
}

/// The unordered pair `{x, y}` is a boundary edge of the cyclic node
/// sequence `p`.
pub open spec fn has_edge(p: Seq<usize>, x: usize, y: usize) -> bool {
    exists|i: int|
        0 <= i < p.len() && edge_eq(p[i], p[next_index(i, p.len() as int)], x, y)
}

/// For a triangle, the boundary-edge predicate is the plain disjunction
/// over its three edges.
pub proof fn lemma_has_edge_tri(t: Seq<usize>, x: usize, y: usize)
    requires
        t.len() == 3,
    ensures
        has_edge(t, x, y) == (edge_eq(t[0], t[1], x, y) || edge_eq(t[1], t[2], x, y) || edge_eq(
            t[2],
            t[0],
            x,
            y,
        )),
{
    if has_edge(t, x, y) {
        let i = choose|i: int|
            0 <= i < t.len() && edge_eq(t[i], t[next_index(i, t.len() as int)], x, y);
        assert(i == 0 || i == 1 || i == 2);
    }
    if edge_eq(t[0], t[1], x, y) {
        assert(edge_eq(t[0], t[next_index(0, 3)], x, y));
    }
    if edge_eq(t[1], t[2], x, y) {
        assert(edge_eq(t[1], t[next_index(1, 3)], x, y));
    }
    if edge_eq(t[2], t[0], x, y) {
        assert(edge_eq(t[2], t[next_index(2, 3)], x, y));
    }
}

/// For two triangles, cyclic equality is the plain disjunction over the
/// three possible rotations.
pub proof fn lemma_tri_cyclic_eq_iff(a: Seq<usize>, b: Seq<usize>)
    requires
        a.len() == 3,
        b.len() == 3,
    ensures
        cyclic_eq(a, b) == ((a[0] == b[0] && a[1] == b[1] && a[2] == b[2]) || (a[0] == b[1] && a[1]
            == b[2] && a[2] == b[0]) || (a[0] == b[2] && a[1] == b[0] && a[2] == b[1])),
{
    if cyclic_eq(a, b) {
        let k = choose|k: int| 0 <= k < a.len() && cyclic_match(a, b, k);
        assert(a[0] == b[cyclic_shift(0, k, 3)]);
        assert(a[1] == b[cyclic_shift(1, k, 3)]);
        assert(a[2] == b[cyclic_shift(2, k, 3)]);
        assert(k == 0 || k == 1 || k == 2);
    }
    if a[0] == b[0] && a[1] == b[1] && a[2] == b[2] {
        assert forall|i: int| 0 <= i < 3 implies a[i] == b[cyclic_shift(i, 0, 3)] by {
            assert(i == 0 || i == 1 || i == 2);
        }
        assert(cyclic_match(a, b, 0));
    }
    if a[0] == b[1] && a[1] == b[2] && a[2] == b[0] {
        assert forall|i: int| 0 <= i < 3 implies a[i] == b[cyclic_shift(i, 1, 3)] by {
            assert(i == 0 || i == 1 || i == 2);
        }
        assert(cyclic_match(a, b, 1));
    }
    if a[0] == b[2] && a[1] == b[0] && a[2] == b[1] {
        assert forall|i: int| 0 <= i < 3 implies a[i] == b[cyclic_shift(i, 2, 3)] by {
            assert(i == 0 || i == 1 || i == 2);
        }
        assert(cyclic_match(a, b, 2));
    }
}

/// Cyclically equal polygons visit the same vertices.
pub proof fn lemma_cyclic_eq_contains(a: Seq<usize>, b: Seq<usize>, v: usize)
    requires
        cyclic_eq(a, b),
        a.contains(v),
    ensures
        b.contains(v),
{
    let i = choose|i: int| 0 <= i < a.len() && a[i] == v;
    let k = choose|k: int| 0 <= k < a.len() && cyclic_match(a, b, k);
    assert(a[i] == b[cyclic_shift(i, k, a.len() as int)]);
    assert(b.contains(v));
}

/// For a triangle, membership is the plain disjunction over its three
/// nodes.
pub proof fn lemma_contains_tri(t: Seq<usize>, x: usize)
    requires
        t.len() == 3,
    ensures
        t.contains(x) == (t[0] == x || t[1] == x || t[2] == x),
{
    if t.contains(x) {
        let i = choose|i: int| 0 <= i < t.len() && t[i] == x;
        assert(i == 0 || i == 1 || i == 2);
    }
    if t[0] == x || t[1] == x || t[2] == x {
        assert(t.contains(x));
    }
}

/// A closed spherical polygon: a cyclic sequence of at least three
/// vertex identifiers with a consistent winding order.
#[derive(Debug)]
pub struct Polygon {
    pub nodes: Vec<usize>,
}

impl View for Polygon {
    type V = Seq<usize>;

    open spec fn view(&self) -> Seq<usize> {
        self.nodes@
    }
}

/// A polygon carries at least three nodes.
pub open spec fn polygon_wf(p: Seq<usize>) -> bool {
    p.len() >= 3
}

impl Polygon {
    pub fn new(nodes: Vec<usize>) -> (p: Polygon)
        ensures
            p@ == nodes@,
    {
        Polygon { nodes }
    }

    /// The boundary edges, one per node, each joining a node to its cyclic
    /// successor.
    pub fn to_edges(&self) -> (edges: Vec<Edge>)
        requires
            polygon_wf(self@),
        ensures
            edges@.len() == self@.len(),
            forall|i: int|
                0 <= i < edges@.len() ==> (#[trigger] edges@[i]).a == self@[i] && edges@[i].b
                    == self@[next_index(i, self@.len() as int)],
    {
        let n: usize = self.nodes.len();
        let mut edges: Vec<Edge> = Vec::new();
        let mut i: usize = 0;
        while i < n
            invariant
                n == self@.len(),
                polygon_wf(self@),
                i <= n,
                edges@.len() == i,
                forall|j: int|
                    0 <= j < i ==> (#[trigger] edges@[j]).a == self@[j] && edges@[j].b == self@[
                        next_index(j, n as int)
                    ],
            decreases n - i,
        {
            let succ: usize = if i + 1 < n {
                i + 1
            } else {
                0
            };
            edges.push(Edge { a: self.nodes[i], b: self.nodes[succ] });
            i = i + 1;
        }
        edges
    }

    /// Whether the unordered pair `{x, y}` is one of the boundary edges.
    pub fn contains_edge(&self, x: usize, y: usize) -> (r: bool)
        ensures
            r == has_edge(self@, x, y),
    {
        let n: usize = self.nodes.len();
        let mut found: bool = false;
        let mut i: usize = 0;
        while i < n
            invariant
                n == self@.len(),
                i <= n,
                found == exists|j: int|
                    0 <= j < i && #[trigger] edge_eq(
                        self@[j],
                        self@[next_index(j, n as int)],
                        x,
                        y,
                    ),
            decreases n - i,
        {
            let succ: usize = if i + 1 < n {
                i + 1
            } else {
                0
            };
            let na: usize = self.nodes[i];
            let nb: usize = self.nodes[succ];
            proof {
                assert(edge_eq(self@[i as int], self@[next_index(i as int, n as int)], x, y) == (
                (na == x && nb == y) || (na == y && nb == x)));
            }
            if (na == x && nb == y) || (na == y && nb == x) {
                found = true;
            }
            i = i + 1;
        }
        proof {
            assert(found == has_edge(self@, x, y));
        }
        found
    }

    /// Whether the vertex identifier `x` is one of the nodes.
    pub fn contains_node(&self, x: usize) -> (r: bool)
        ensures
            r == self@.contains(x),
    {
        let n: usize = self.nodes.len();
        let mut found: bool = false;
        let mut i: usize = 0;
        while i < n
            invariant
                n == self@.len(),
                i <= n,
                found == exists|j: int| 0 <= j < i && self@[j] == x,
            decreases n - i,
        {
            if self.nodes[i] == x {
                found = true;
            }
            i = i + 1;
        }
        if found {
            assert(self@.contains(x));
        }
        found
    }
}

impl Clone for Polygon {
    fn clone(&self) -> (r: Polygon)
        ensures
            r@ == self@,
    {
        let n: usize = self.nodes.len();
        let mut nodes: Vec<usize> = Vec::new();
        let mut i: usize = 0;
        while i < n
            invariant
                n == self.nodes@.len(),
                i <= n,
                nodes@ == self.nodes@.take(i as int),
            decreases n - i,
        {
            nodes.push(self.nodes[i]);
            assert(nodes@ =~= self.nodes@.take(i + 1));
            i = i + 1;
        }
        assert(nodes@ =~= self.nodes@);
        Polygon { nodes }
    }
}

impl PartialEq for Polygon {
    fn eq(&self, other: &Polygon) -> (r: bool) {
        let n: usize = self.nodes.len();
        if n != other.nodes.len() {
            return false;
        }
        if n == 0 {
            return true;
        }
        let mut k: usize = 0;
        while k < n
            invariant
                n == self@.len(),
                n == other@.len(),
                0 < n,
                k <= n,
                forall|k2: int| 0 <= k2 < k ==> !cyclic_match(self@, other@, k2),
            decreases n - k,
        {
            let mut matches: bool = true;
            let mut i: usize = 0;
            while i < n
                invariant
                    n == self@.len(),
                    n == other@.len(),
                    0 < n,
                    k < n,
                    i <= n,
                    matches == forall|j: int|
                        0 <= j < i ==> self@[j] == other@[cyclic_shift(j, k as int, n as int)],
                decreases n - i,
            {
                let shifted: usize = if k < n - i {
                    i + k
                } else {
                    k - (n - i)
                };
                if self.nodes[i] != other.nodes[shifted] {
                    matches = false;
                }
                i = i + 1;
            }
            if matches {
                assert(cyclic_match(self@, other@, k as int));
                return true;
            }
            k = k + 1;
        }
        false
    }
}

impl vstd::std_specs::cmp::PartialEqSpecImpl for Polygon {
    open spec fn obeys_eq_spec() -> bool {
        true
    }

    open spec fn eq_spec(&self, other: &Polygon) -> bool {
        cyclic_eq(self@, other@)
    }
}

/// Rotation of a sequence: the nodes from position `k` onward, followed by
/// the nodes before position `k`.
pub open spec fn rotated(s: Seq<usize>, k: int) -> Seq<usize> {
    s.subrange(k, s.len() as int) + s.subrange(0, k)
}

/// Polygon equality is reflexive: a node sequence equals itself.
pub proof fn lemma_polygon_eq_reflexive(s: Seq<usize>)
    ensures
        cyclic_eq(s, s),
{
    if s.len() > 0 {
        assert(cyclic_match(s, s, 0));
    }
}

/// Polygon equality is invariant under cyclic rotation: a node sequence
/// equals every rotation of itself.
pub proof fn lemma_polygon_eq_rotation(s: Seq<usize>, k: int)
    requires
        0 <= k < s.len(),
    ensures
        cyclic_eq(s, rotated(s, k)),
{
    let n = s.len() as int;
    let r = rotated(s, k);
    assert(r.len() == n);
    if k == 0 {
        assert forall|i: int| 0 <= i < n implies s[i] == r[cyclic_shift(i, 0, n)] by {
            assert(r[i] == s[i]);
        }
        assert(cyclic_match(s, r, 0));
    } else {
        let k2 = n - k;
        assert forall|i: int| 0 <= i < n implies s[i] == r[cyclic_shift(i, k2, n)] by {
            let j = cyclic_shift(i, k2, n);
            if i + k2 < n {
                // j == i + n - k >= n - k: the index lands in the copied
                // prefix s[0..k], which forms the tail of the rotation.
                assert(j == i + n - k);
                assert(j >= n - k);
                assert(r[j] == s[j - (n - k)]);
            } else {
                assert(j == i - k);
                assert(j < n - k);
                assert(r[j] == s[j + k]);
            }
        }
        assert(cyclic_match(s, r, k2));
    }
}

/// Polygon equality is symmetric.
pub proof fn lemma_polygon_eq_symmetric(a: Seq<usize>, b: Seq<usize>)
    requires
        cyclic_eq(a, b),
    ensures
        cyclic_eq(b, a),
{
    let n = a.len() as int;
    if n > 0 {
        let k = choose|k: int| 0 <= k < n && cyclic_match(a, b, k);
        let k2 = if k == 0 {
            0
        } else {
            n - k
        };
        assert forall|j: int| 0 <= j < n implies b[j] == a[cyclic_shift(j, k2, n)] by {
            let i = cyclic_shift(j, k2, n);
            assert(cyclic_shift(i, k, n) == j);
            assert(a[i] == b[cyclic_shift(i, k, n)]);
        }
        assert(cyclic_match(b, a, k2));
    }
}

/// Polygon equality does not identify reflections: a triangle read in
/// the opposite winding order is a different polygon.
pub proof fn lemma_reflection_not_identified()
    ensures
        !cyclic_eq(seq![0usize, 1, 2], seq![2usize, 1, 0]),
{
    let a: Seq<usize> = seq![0usize, 1, 2];
    let b: Seq<usize> = seq![2usize, 1, 0];
    if cyclic_eq(a, b) {
        let k = choose|k: int| 0 <= k < a.len() && cyclic_match(a, b, k);
        assert(a[0] == b[cyclic_shift(0, k, 3)]);
        assert(a[1] == b[cyclic_shift(1, k, 3)]);
        assert(k == 0 || k == 1 || k == 2);
        assert(false);
    }
}

/// An open chain of vertex identifiers, without the closing edge.
#[derive(Debug)]
pub struct PolyLine {
    pub nodes: Vec<usize>,
}

impl View for PolyLine {
    type V = Seq<usize>;

    open spec fn view(&self) -> Seq<usize> {
        self.nodes@
    }
}

impl PolyLine {
    pub fn new(nodes: Vec<usize>) -> (p: PolyLine)
        ensures
            p@ == nodes@,
    {
        PolyLine { nodes }
    }

    /// The consecutive edges of the chain; one fewer than the nodes.
    pub fn to_edges(&self) -> (edges: Vec<Edge>)
        requires
            self@.len() >= 1,
        ensures
            edges@.len() == self@.len() - 1,
            forall|i: int|
                0 <= i < edges@.len() ==> edges@[i].a == self@[i] && edges@[i].b == self@[i + 1],
    {
        let n: usize = self.nodes.len();
        let mut edges: Vec<Edge> = Vec::new();
        let mut i: usize = 0;
        while i < n - 1
            invariant
                n == self@.len(),
                n >= 1,
                i <= n - 1,
                edges@.len() == i,
                forall|j: int|
                    0 <= j < i ==> edges@[j].a == self@[j] && edges@[j].b == self@[j + 1],
            decreases n - i,
        {
            edges.push(Edge { a: self.nodes[i], b: self.nodes[i + 1] });
            i = i + 1;
        }
        edges
    }
}

/// Replace an `n`-gon by `n` triangles, each joining the freshly assigned
/// centroid identifier to one boundary edge.  The caller chooses
/// `centroid`; the mesh builder always picks an identifier not yet used by
/// any cell, which keeps the refined mesh closed.
pub fn subdivide_polygon(polygon: &Polygon, centroid: usize) -> (children: Vec<Polygon>)
    requires
        polygon_wf(polygon@),
    ensures
        children@.len() == polygon@.len(),
        forall|i: int|
            0 <= i < children@.len() ==> (#[trigger] children@[i]@) =~= seq![
                centroid,
                polygon@[i],
                polygon@[next_index(i, polygon@.len() as int)],
            ],
{
    let n: usize = polygon.nodes.len();
    let mut children: Vec<Polygon> = Vec::new();
    let mut i: usize = 0;
    while i < n
        invariant
            n == polygon@.len(),
            polygon_wf(polygon@),
            i <= n,
            children@.len() == i,
            forall|j: int|
                0 <= j < i ==> (#[trigger] children@[j]@) =~= seq![
                    centroid,
                    polygon@[j],
                    polygon@[next_index(j, n as int)],
                ],
        decreases n - i,
    {
        let succ: usize = if i + 1 < n {
            i + 1
        } else {
            0
        };
        let mut nodes: Vec<usize> = Vec::new();
        nodes.push(centroid);
        nodes.push(polygon.nodes[i]);
        nodes.push(polygon.nodes[succ]);
        children.push(Polygon { nodes });
        i = i + 1;
    }
    children
}

} // verus!
