//! Construction of the triangulated icosahedral sphere mesh.
//!
//! The base icosahedron has twelve vertices, carrying identifiers `0`
//! through `11`, and twenty triangular faces with fixed connectivity.
//! Each subdivision round replaces every triangle by the three triangles
//! joining a freshly numbered centroid vertex to the triangle's edges, so
//! the cell count grows as `20 * 3^n`.  Centroid identifiers are assigned
//! in construction order: the centroid of the `j`-th subdivided parent is
//! vertex `12 + j`, and the parent polygons are reported alongside the
//! cells so the driver can evaluate the centroid positions in the same
//! order.

use vstd::prelude::*;

use crate::coords::{
    cyclic_eq, has_edge, lemma_contains_tri, lemma_cyclic_eq_contains, lemma_has_edge_tri,
    lemma_tri_cyclic_eq_iff, next_index, polygon_wf, subdivide_polygon, Polygon,
};

verus! {

/// `3^n`.
pub open spec fn pow3(n: nat) -> nat
    decreases n,
{
    if n == 0 {
        1
    } else {
        3 * pow3((n - 1) as nat)
    }
}

pub proof fn lemma_pow3_monotonic(a: nat, b: nat)
    requires
        a <= b,
    ensures
        pow3(a) <= pow3(b),
    decreases b,
{
    if a < b {
        lemma_pow3_monotonic(a, (b - 1) as nat);
        assert(pow3(b) == 3 * pow3((b - 1) as nat));
    }
}

pub proof fn lemma_pow3_positive(n: nat)
    ensures
        pow3(n) >= 1,
    decreases n,
{
    if n > 0 {
        lemma_pow3_positive((n - 1) as nat);
    }
}

/// Number of vertices of the base icosahedron.
pub const BASE_VERTEX_COUNT: usize = 12;

/// Number of faces of the base icosahedron.
pub const BASE_FACE_COUNT: usize = 20;

/// The fixed connectivity of the base icosahedron: face `k` as a
/// winding-ordered triple of vertex identifiers.
pub open spec fn base_face(k: int) -> Seq<usize> {
    if k == 0 {
        seq![2usize, 1, 0]
    } else if k == 1 {
        seq![1usize, 2, 3]
    } else if k == 2 {
        seq![5usize, 4, 3]
    } else if k == 3 {
        seq![4usize, 8, 3]
    } else if k == 4 {
        seq![7usize, 6, 0]
    } else if k == 5 {
        seq![6usize, 9, 0]
    } else if k == 6 {
        seq![11usize, 10, 4]
    } else if k == 7 {
        seq![10usize, 11, 6]
    } else if k == 8 {
        seq![9usize, 5, 2]
    } else if k == 9 {
        seq![5usize, 9, 11]
    } else if k == 10 {
        seq![8usize, 7, 1]
    } else if k == 11 {
        seq![7usize, 8, 10]
    } else if k == 12 {
        seq![2usize, 5, 3]
    } else if k == 13 {
        seq![8usize, 1, 3]
    } else if k == 14 {
        seq![9usize, 2, 0]
    } else if k == 15 {
        seq![1usize, 7, 0]
    } else if k == 16 {
        seq![11usize, 9, 6]
    } else if k == 17 {
        seq![7usize, 10, 6]
    } else if k == 18 {
        seq![5usize, 11, 4]
    } else {
        seq![10usize, 8, 4]
    }
}

/// Every vertex identifier of `p` lies below `bound`.
pub open spec fn poly_ids_below(p: Seq<usize>, bound: int) -> bool {
    forall|i: int| 0 <= i < p.len() ==> p[i] < bound
}

pub proof fn lemma_ids_below_mono(p: Seq<usize>, b1: int, b2: int)
    requires
        poly_ids_below(p, b1),
        b1 <= b2,
    ensures
        poly_ids_below(p, b2),
{
}

/// The node sequences of a list of polygons.
pub open spec fn polys_of(cells: Seq<Polygon>) -> Seq<Seq<usize>> {
    cells.map_values(|p: Polygon| p@)
}

/// The node sequences among `polys` whose boundary contains the
/// undirected edge `{x, y}`, in order.
pub open spec fn polys_with_edge(polys: Seq<Seq<usize>>, x: usize, y: usize) -> Seq<Seq<usize>> {
    polys.filter(|p: Seq<usize>| has_edge(p, x, y))
}

/// A closed triangle mesh: every undirected edge lies on exactly two
/// faces or on none.
pub open spec fn polys_closed(polys: Seq<Seq<usize>>) -> bool {
    forall|x: usize, y: usize|
        (#[trigger] polys_with_edge(polys, x, y)).len() == 0 || polys_with_edge(
            polys,
            x,
            y,
        ).len() == 2
}

/// A triangle with three pairwise distinct nodes.
pub open spec fn tri_distinct(p: Seq<usize>) -> bool {
    p.len() == 3 && p[0] != p[1] && p[1] != p[2] && p[2] != p[0]
}

/// The three children of subdividing the triangle `p` with the fresh
/// centroid identifier `m`.
pub open spec fn children_of(p: Seq<usize>, m: usize) -> Seq<Seq<usize>> {
    seq![seq![m, p[0], p[1]], seq![m, p[1], p[2]], seq![m, p[2], p[0]]]
}

/// The mesh after subdividing the first `j` triangles of `polys`, the
/// `t`-th with centroid identifier `first_centroid + t`.
pub open spec fn round_upto(polys: Seq<Seq<usize>>, first_centroid: usize, j: int) -> Seq<
    Seq<usize>,
>
    decreases j,
{
    if j <= 0 {
        Seq::empty()
    } else {
        round_upto(polys, first_centroid, j - 1) + children_of(
            polys[j - 1],
            (first_centroid + j - 1) as usize,
        )
    }
}

/// `{x, y}` is a spoke of the `t`-th subdivision: one end is the `t`-th
/// centroid, the other a node of the `t`-th parent.
pub open spec fn is_spoke(
    polys: Seq<Seq<usize>>,
    first_centroid: usize,
    x: usize,
    y: usize,
    t: int,
) -> bool {
    (x == first_centroid + t && polys[t].contains(y)) || (y == first_centroid + t
        && polys[t].contains(x))
}

/// The mesh and the accumulated parent list after `rounds` rounds of
/// subdivision: the pair `(cells, parents)`.  Each round subdivides
/// every cell of the current mesh in order, appending the subdivided
/// cells to the parent list, so the parent at position `j` is the one
/// whose centroid carries vertex identifier `12 + j`.
pub open spec fn build_state(rounds: nat) -> (Seq<Seq<usize>>, Seq<Seq<usize>>)
    decreases rounds,
{
    if rounds == 0 {
        (base_mesh(), Seq::<Seq<usize>>::empty())
    } else {
        let prev = build_state((rounds - 1) as nat);
        let first = (12 + prev.1.len()) as usize;
        (round_upto(prev.0, first, prev.0.len() as int), prev.1 + prev.0)
    }
}

pub proof fn lemma_round_upto_len(polys: Seq<Seq<usize>>, first_centroid: usize, j: int)
    requires
        0 <= j <= polys.len(),
    ensures
        round_upto(polys, first_centroid, j).len() == 3 * j,
    decreases j,
{
    if j > 0 {
        lemma_round_upto_len(polys, first_centroid, j - 1);
    }
}

pub proof fn lemma_round_upto_index(polys: Seq<Seq<usize>>, first_centroid: usize, j: int, c: int)
    requires
        0 <= j <= polys.len(),
        first_centroid + polys.len() <= usize::MAX,
        0 <= c < 3 * j,
    ensures
        round_upto(polys, first_centroid, j)[c] == children_of(
            polys[c / 3],
            (first_centroid + c / 3) as usize,
        )[c % 3],
    decreases j,
{
    lemma_round_upto_len(polys, first_centroid, j - 1);
    if c < 3 * (j - 1) {
        lemma_round_upto_index(polys, first_centroid, j - 1, c);
    } else {
        assert(c / 3 == j - 1 && c % 3 == c - 3 * (j - 1)) by (nonlinear_arith)
            requires
                3 * (j - 1) <= c < 3 * j,
        ;
    }
}

/// `{x, y}` is a spoke of one of the first `j` subdivisions.
pub open spec fn spoke_pair(
    polys: Seq<Seq<usize>>,
    first_centroid: usize,
    x: usize,
    y: usize,
    j: int,
) -> bool {
    exists|t: int| 0 <= t < j && is_spoke(polys, first_centroid, x, y, t)
}

proof fn lemma_polys_with_edge_add(a: Seq<Seq<usize>>, b: Seq<Seq<usize>>, x: usize, y: usize)
    ensures
        polys_with_edge(a + b, x, y) == polys_with_edge(a, x, y) + polys_with_edge(b, x, y),
    decreases b.len(),
{
    reveal(Seq::filter);
    if b.len() == 0 {
        assert(a + b =~= a);
        assert(polys_with_edge(b, x, y) =~= Seq::<Seq<usize>>::empty());
        assert(polys_with_edge(a, x, y) + polys_with_edge(b, x, y) =~= polys_with_edge(a, x, y));
    } else {
        lemma_polys_with_edge_add(a, b.drop_last(), x, y);
        assert((a + b).drop_last() =~= a + b.drop_last());
        assert((a + b).last() == b.last());
        if has_edge(b.last(), x, y) {
            assert(polys_with_edge(a + b, x, y) =~= polys_with_edge(a, x, y) + polys_with_edge(
                b,
                x,
                y,
            ));
        } else {
            assert(polys_with_edge(a + b, x, y) =~= polys_with_edge(a, x, y) + polys_with_edge(
                b,
                x,
                y,
            ));
        }
    }
}

proof fn lemma_polys_with_edge_singleton(p: Seq<usize>, x: usize, y: usize)
    ensures
        polys_with_edge(seq![p], x, y).len() == (if has_edge(p, x, y) {
            1int
        } else {
            0int
        }),
{
    reveal_with_fuel(Seq::filter, 2);
    assert(seq![p].drop_last() =~= Seq::<Seq<usize>>::empty());
    assert(seq![p].last() == p);
    assert(polys_with_edge(Seq::<Seq<usize>>::empty(), x, y).len() == 0);
}

proof fn lemma_polys_with_edge_zero(polys: Seq<Seq<usize>>, bound: usize, x: usize, y: usize)
    requires
        forall|t: int| 0 <= t < polys.len() ==> poly_ids_below(#[trigger] polys[t], bound as int),
        x >= bound || y >= bound,
    ensures
        polys_with_edge(polys, x, y).len() == 0,
    decreases polys.len(),
{
    reveal(Seq::filter);
    if polys.len() > 0 {
        assert forall|t: int| 0 <= t < polys.drop_last().len() implies poly_ids_below(
            #[trigger] polys.drop_last()[t],
            bound as int,
        ) by {
            assert(polys.drop_last()[t] == polys[t]);
        }
        lemma_polys_with_edge_zero(polys.drop_last(), bound, x, y);
        let last = polys.last();
        if has_edge(last, x, y) {
            let i = choose|i: int|
                0 <= i < last.len() && crate::coords::edge_eq(
                    last[i],
                    last[next_index(i, last.len() as int)],
                    x,
                    y,
                );
            assert(last[i] < bound);
            assert(last[next_index(i, last.len() as int)] < bound);
            assert(false);
        }
    }
}

proof fn lemma_children_edge_count(p: Seq<usize>, m: usize, x: usize, y: usize)
    requires
        tri_distinct(p),
        !p.contains(m),
    ensures
        polys_with_edge(children_of(p, m), x, y).len() == (if has_edge(p, x, y) {
            1int
        } else {
            0int
        }) + (if (x == m && p.contains(y)) || (y == m && p.contains(x)) {
            2int
        } else {
            0int
        }),
{
    let c0 = seq![m, p[0], p[1]];
    let c1 = seq![m, p[1], p[2]];
    let c2 = seq![m, p[2], p[0]];
    assert(children_of(p, m) =~= (seq![c0] + seq![c1]) + seq![c2]);
    lemma_polys_with_edge_add(seq![c0], seq![c1], x, y);
    lemma_polys_with_edge_add(seq![c0] + seq![c1], seq![c2], x, y);
    lemma_polys_with_edge_singleton(c0, x, y);
    lemma_polys_with_edge_singleton(c1, x, y);
    lemma_polys_with_edge_singleton(c2, x, y);
    lemma_has_edge_tri(p, x, y);
    lemma_has_edge_tri(c0, x, y);
    lemma_has_edge_tri(c1, x, y);
    lemma_has_edge_tri(c2, x, y);
    lemma_contains_tri(p, x);
    lemma_contains_tri(p, y);
    lemma_contains_tri(p, m);
}

proof fn lemma_ids_below_not_contains(p: Seq<usize>, bound: int, v: usize)
    requires
        poly_ids_below(p, bound),
        v >= bound,
    ensures
        !p.contains(v),
{
    if p.contains(v) {
        let i = choose|i: int| 0 <= i < p.len() && p[i] == v;
        assert(p[i] < bound);
    }
}

proof fn lemma_round_count(
    polys: Seq<Seq<usize>>,
    first_centroid: usize,
    x: usize,
    y: usize,
    j: int,
)
    requires
        forall|t: int|
            0 <= t < polys.len() ==> tri_distinct(#[trigger] polys[t]) && poly_ids_below(
                polys[t],
                first_centroid as int,
            ),
        first_centroid + polys.len() <= usize::MAX,
        0 <= j <= polys.len(),
    ensures
        polys_with_edge(round_upto(polys, first_centroid, j), x, y).len() == polys_with_edge(
            polys.take(j),
            x,
            y,
        ).len() + (if spoke_pair(polys, first_centroid, x, y, j) {
            2int
        } else {
            0int
        }),
    decreases j,
{
    if j <= 0 {
        assert(polys.take(j) =~= Seq::<Seq<usize>>::empty());
        reveal_with_fuel(Seq::filter, 1);
        assert(polys_with_edge(Seq::<Seq<usize>>::empty(), x, y).len() == 0);
    } else {
        lemma_round_count(polys, first_centroid, x, y, j - 1);
        let parent = polys[j - 1];
        let m = (first_centroid + j - 1) as usize;
        lemma_polys_with_edge_add(
            round_upto(polys, first_centroid, j - 1),
            children_of(parent, m),
            x,
            y,
        );
        lemma_ids_below_not_contains(parent, first_centroid as int, m);
        lemma_children_edge_count(parent, m, x, y);
        assert(polys.take(j) =~= polys.take(j - 1) + seq![parent]);
        lemma_polys_with_edge_add(polys.take(j - 1), seq![parent], x, y);
        lemma_polys_with_edge_singleton(parent, x, y);
        if is_spoke(polys, first_centroid, x, y, j - 1) {
            // No earlier subdivision yields the same spoke: the centroid
            // end pins the subdivision index, and a centroid identifier
            // cannot be a node of any parent.
            assert(!spoke_pair(polys, first_centroid, x, y, j - 1)) by {
                if spoke_pair(polys, first_centroid, x, y, j - 1) {
                    let t = choose|t: int|
                        0 <= t < j - 1 && is_spoke(polys, first_centroid, x, y, t);
                    if x == first_centroid + t {
                        lemma_ids_below_not_contains(parent, first_centroid as int, x);
                        lemma_ids_below_not_contains(polys[t], first_centroid as int, y);
                    } else {
                        lemma_ids_below_not_contains(parent, first_centroid as int, y);
                        lemma_ids_below_not_contains(polys[t], first_centroid as int, x);
                    }
                }
            }
            assert(spoke_pair(polys, first_centroid, x, y, j)) by {
                assert(is_spoke(polys, first_centroid, x, y, j - 1));
            }
        } else {
            assert(spoke_pair(polys, first_centroid, x, y, j) == spoke_pair(
                polys,
                first_centroid,
                x,
                y,
                j - 1,
            )) by {
                if spoke_pair(polys, first_centroid, x, y, j) {
                    let t = choose|t: int| 0 <= t < j && is_spoke(polys, first_centroid, x, y, t);
                    if t < j - 1 {
                        assert(spoke_pair(polys, first_centroid, x, y, j - 1));
                    }
                }
                if spoke_pair(polys, first_centroid, x, y, j - 1) {
                    let t = choose|t: int|
                        0 <= t < j - 1 && is_spoke(polys, first_centroid, x, y, t);
                    assert(is_spoke(polys, first_centroid, x, y, t));
                }
            }
        }
    }
}

/// Subdividing every triangle of a closed mesh, assigning fresh
/// sequential centroid identifiers, yields a closed mesh again: every
/// surviving parent edge is inherited by exactly one child on each
/// side, and every new centroid spoke is shared by exactly the two
/// children flanking it.
pub proof fn lemma_subdivision_round_preserves_closed(
    polys: Seq<Seq<usize>>,
    first_centroid: usize,
)
    requires
        polys_closed(polys),
        forall|t: int|
            0 <= t < polys.len() ==> tri_distinct(#[trigger] polys[t]) && poly_ids_below(
                polys[t],
                first_centroid as int,
            ),
        first_centroid + polys.len() <= usize::MAX,
    ensures
        polys_closed(round_upto(polys, first_centroid, polys.len() as int)),
{
    let n = polys.len() as int;
    let sub = round_upto(polys, first_centroid, n);
    assert forall|x: usize, y: usize|
        (#[trigger] polys_with_edge(sub, x, y)).len() == 0 || polys_with_edge(sub, x, y).len()
            == 2 by {
        lemma_round_count(polys, first_centroid, x, y, n);
        assert(polys.take(n) =~= polys);
        assert(polys_with_edge(polys, x, y).len() == 0 || polys_with_edge(polys, x, y).len() == 2);
        if spoke_pair(polys, first_centroid, x, y, n) {
            let t = choose|t: int| 0 <= t < n && is_spoke(polys, first_centroid, x, y, t);
            assert(x >= first_centroid || y >= first_centroid);
            lemma_polys_with_edge_zero(polys, first_centroid, x, y);
        }
    }
}

/// No two faces of the mesh are equal as polygons (up to rotation).
pub open spec fn polys_pairwise_distinct(polys: Seq<Seq<usize>>) -> bool {
    forall|i: int, j: int|
        #![trigger polys[i], polys[j]]
        0 <= i < j < polys.len() ==> !cyclic_eq(polys[i], polys[j])
}

proof fn lemma_round_pairwise_distinct(polys: Seq<Seq<usize>>, first_centroid: usize)
    requires
        forall|t: int|
            0 <= t < polys.len() ==> tri_distinct(#[trigger] polys[t]) && poly_ids_below(
                polys[t],
                first_centroid as int,
            ),
        first_centroid + polys.len() <= usize::MAX,
    ensures
        polys_pairwise_distinct(round_upto(polys, first_centroid, polys.len() as int)),
{
    let n = polys.len() as int;
    let out = round_upto(polys, first_centroid, n);
    lemma_round_upto_len(polys, first_centroid, n);
    assert forall|c1: int, c2: int|
        #![trigger out[c1], out[c2]]
        0 <= c1 < c2 < out.len() implies !cyclic_eq(out[c1], out[c2]) by {
        lemma_round_upto_index(polys, first_centroid, n, c1);
        lemma_round_upto_index(polys, first_centroid, n, c2);
        let j1 = c1 / 3;
        let t1 = c1 % 3;
        let j2 = c2 / 3;
        let t2 = c2 % 3;
        assert(0 <= t1 < 3 && 0 <= j1 && 3 * j1 + t1 == c1) by (nonlinear_arith)
            requires
                0 <= c1,
                j1 == c1 / 3,
                t1 == c1 % 3,
        ;
        assert(0 <= t2 < 3 && 0 <= j2 && 3 * j2 + t2 == c2) by (nonlinear_arith)
            requires
                0 <= c2,
                j2 == c2 / 3,
                t2 == c2 % 3,
        ;
        assert(j1 <= j2 && j2 < n) by (nonlinear_arith)
            requires
                3 * j1 + t1 == c1,
                3 * j2 + t2 == c2,
                0 <= t1 < 3,
                0 <= t2 < 3,
                c1 < c2,
                c2 < 3 * n,
        ;
        let p1 = polys[j1];
        let m1 = (first_centroid + j1) as usize;
        let p2 = polys[j2];
        let m2 = (first_centroid + j2) as usize;
        lemma_contains_tri(p1, m1);
        lemma_contains_tri(p2, m1);
        lemma_ids_below_not_contains(p1, first_centroid as int, m1);
        lemma_ids_below_not_contains(p2, first_centroid as int, m1);
        if j1 == j2 {
            // Two children of one parent: they share the centroid, but
            // their parent-edge nodes cannot be rotated onto each other
            // because the parent's nodes are pairwise distinct and the
            // centroid is none of them.
            lemma_tri_cyclic_eq_iff(children_of(p1, m1)[t1], children_of(p1, m1)[t2]);
        } else {
            // Children of different parents: the first child's centroid
            // is neither the second child's centroid nor a node of the
            // second parent.
            if cyclic_eq(out[c1], out[c2]) {
                assert(out[c1].contains(m1)) by {
                    assert(out[c1][0] == m1);
                }
                lemma_cyclic_eq_contains(out[c1], out[c2], m1);
                lemma_contains_tri(out[c2], m1);
                assert(false);
            }
        }
    }
}

#[verifier::rlimit(100)]
proof fn lemma_base_mesh_pairwise_distinct()
    ensures
        polys_pairwise_distinct(base_mesh()),
{
    assert forall|i: int, j: int|
        #![trigger base_mesh()[i], base_mesh()[j]]
        0 <= i < j < base_mesh().len() implies !cyclic_eq(base_mesh()[i], base_mesh()[j]) by {
        lemma_base_face_props(i);
        lemma_base_face_props(j);
        lemma_tri_cyclic_eq_iff(base_face(i), base_face(j));
    }
}

/// The base icosahedron as node sequences, in table order.
pub open spec fn base_mesh() -> Seq<Seq<usize>> {
    Seq::new(20, |k: int| base_face(k))
}

proof fn lemma_base_face_props(k: int)
    requires
        0 <= k < 20,
    ensures
        tri_distinct(base_face(k)),
        poly_ids_below(base_face(k), 12),
{
    assert(base_face(k).len() == 3);
    assert(base_face(k)[0] < 12);
    assert(base_face(k)[1] < 12);
    assert(base_face(k)[2] < 12);
    assert forall|i: int| 0 <= i < base_face(k).len() implies base_face(k)[i] < 12 by {
        assert(i == 0 || i == 1 || i == 2);
    }
}

proof fn lemma_base_mesh_count_step(x: usize, y: usize, k: int)
    requires
        0 < k <= 20,
    ensures
        polys_with_edge(base_mesh().take(k), x, y).len() == polys_with_edge(
            base_mesh().take(k - 1),
            x,
            y,
        ).len() + (if has_edge(base_face(k - 1), x, y) {
            1int
        } else {
            0int
        }),
{
    assert(base_mesh().take(k) =~= base_mesh().take(k - 1) + seq![base_face(k - 1)]);
    lemma_polys_with_edge_add(base_mesh().take(k - 1), seq![base_face(k - 1)], x, y);
    lemma_polys_with_edge_singleton(base_face(k - 1), x, y);
}

#[verifier::rlimit(100)]
proof fn lemma_base_pair_count(x: usize, y: usize)
    requires
        x < 12,
        y < 12,
    ensures
        polys_with_edge(base_mesh(), x, y).len() == 0 || polys_with_edge(base_mesh(), x, y).len()
            == 2,
{
    assert(base_mesh().take(0) =~= Seq::<Seq<usize>>::empty());
    reveal_with_fuel(Seq::filter, 1);
    assert(polys_with_edge(Seq::<Seq<usize>>::empty(), x, y).len() == 0);
    lemma_base_mesh_count_step(x, y, 1);
    lemma_base_mesh_count_step(x, y, 2);
    lemma_base_mesh_count_step(x, y, 3);
    lemma_base_mesh_count_step(x, y, 4);
    lemma_base_mesh_count_step(x, y, 5);
    lemma_base_mesh_count_step(x, y, 6);
    lemma_base_mesh_count_step(x, y, 7);
    lemma_base_mesh_count_step(x, y, 8);
    lemma_base_mesh_count_step(x, y, 9);
    lemma_base_mesh_count_step(x, y, 10);
    lemma_base_mesh_count_step(x, y, 11);
    lemma_base_mesh_count_step(x, y, 12);
    lemma_base_mesh_count_step(x, y, 13);
    lemma_base_mesh_count_step(x, y, 14);
    lemma_base_mesh_count_step(x, y, 15);
    lemma_base_mesh_count_step(x, y, 16);
    lemma_base_mesh_count_step(x, y, 17);
    lemma_base_mesh_count_step(x, y, 18);
    lemma_base_mesh_count_step(x, y, 19);
    lemma_base_mesh_count_step(x, y, 20);
    lemma_has_edge_tri(base_face(0), x, y);
    lemma_has_edge_tri(base_face(1), x, y);
    lemma_has_edge_tri(base_face(2), x, y);
    lemma_has_edge_tri(base_face(3), x, y);
    lemma_has_edge_tri(base_face(4), x, y);
    lemma_has_edge_tri(base_face(5), x, y);
    lemma_has_edge_tri(base_face(6), x, y);
    lemma_has_edge_tri(base_face(7), x, y);
    lemma_has_edge_tri(base_face(8), x, y);
    lemma_has_edge_tri(base_face(9), x, y);
    lemma_has_edge_tri(base_face(10), x, y);
    lemma_has_edge_tri(base_face(11), x, y);
    lemma_has_edge_tri(base_face(12), x, y);
    lemma_has_edge_tri(base_face(13), x, y);
    lemma_has_edge_tri(base_face(14), x, y);
    lemma_has_edge_tri(base_face(15), x, y);
    lemma_has_edge_tri(base_face(16), x, y);
    lemma_has_edge_tri(base_face(17), x, y);
    lemma_has_edge_tri(base_face(18), x, y);
    lemma_has_edge_tri(base_face(19), x, y);
    assert(base_mesh().take(20) =~= base_mesh());
}

/// The base icosahedron is a closed mesh: each of its thirty edges lies
/// on exactly two of its twenty faces.
pub proof fn lemma_base_mesh_closed()
    ensures
        polys_closed(base_mesh()),
{
    assert forall|x: usize, y: usize|
        (#[trigger] polys_with_edge(base_mesh(), x, y)).len() == 0 || polys_with_edge(
            base_mesh(),
            x,
            y,
        ).len() == 2 by {
        if x >= 12 || y >= 12 {
            assert forall|t: int| 0 <= t < base_mesh().len() implies poly_ids_below(
                #[trigger] base_mesh()[t],
                12,
            ) by {
                lemma_base_face_props(t);
            }
            lemma_polys_with_edge_zero(base_mesh(), 12, x, y);
        } else {
            lemma_base_pair_count(x, y);
        }
    }
}

/// The twenty base faces, in table order.
pub fn base_faces() -> (cells: Vec<Polygon>)
    ensures
        cells@.len() == 20,
        forall|i: int| 0 <= i < 20 ==> (#[trigger] cells@[i])@ == base_face(i),
        forall|i: int|
            0 <= i < 20 ==> (#[trigger] cells@[i])@.len() == 3 && poly_ids_below(cells@[i]@, 12),
{
    let mut cells: Vec<Polygon> = Vec::new();
    let mut k: usize = 0;
    while k < 20
        invariant
            k <= 20,
            cells@.len() == k,
            forall|i: int| 0 <= i < k ==> (#[trigger] cells@[i])@ == base_face(i),
            forall|i: int|
                0 <= i < k ==> (#[trigger] cells@[i])@.len() == 3 && poly_ids_below(
                    cells@[i]@,
                    12,
                ),
        decreases 20 - k,
    {
        let (a, b, c): (usize, usize, usize) = match k {
            0 => (2, 1, 0),
            1 => (1, 2, 3),
            2 => (5, 4, 3),
            3 => (4, 8, 3),
            4 => (7, 6, 0),
            5 => (6, 9, 0),
            6 => (11, 10, 4),
            7 => (10, 11, 6),
            8 => (9, 5, 2),
            9 => (5, 9, 11),
            10 => (8, 7, 1),
            11 => (7, 8, 10),
            12 => (2, 5, 3),
            13 => (8, 1, 3),
            14 => (9, 2, 0),
            15 => (1, 7, 0),
            16 => (11, 9, 6),
            17 => (7, 10, 6),
            18 => (5, 11, 4),
            _ => (10, 8, 4),
        };
        let mut nodes: Vec<usize> = Vec::new();
        nodes.push(a);
        nodes.push(b);
        nodes.push(c);
        let p = Polygon { nodes };
        assert(p@ =~= base_face(k as int));
        cells.push(p);
        k = k + 1;
    }
    cells
}

/// A constructed mesh together with its centroid genealogy: the centroid
/// assigned vertex identifier `12 + j` is the centroid of `parents[j]`,
/// and every node of `parents[j]` carries an identifier below `12 + j`,
/// so positions can be evaluated in order.
pub struct MeshBuild {
    pub cells: Vec<Polygon>,
    pub parents: Vec<Polygon>,
}

/// Build the icosahedral mesh after `n_subdivisions` rounds of
/// subdivision, reporting the centroid genealogy alongside the cells.
pub fn icoshedron_build(n_subdivisions: u32) -> (r: MeshBuild)
    requires
        20 * pow3(n_subdivisions as nat) + 12 <= usize::MAX,
    ensures
        r.cells@.len() == 20 * pow3(n_subdivisions as nat),
        2 * r.parents@.len() + 20 == r.cells@.len(),
        forall|i: int|
            0 <= i < r.cells@.len() ==> (#[trigger] r.cells@[i])@.len() == 3 && poly_ids_below(
                r.cells@[i]@,
                12 + r.parents@.len() as int,
            ),
        forall|j: int|
            0 <= j < r.parents@.len() ==> (#[trigger] r.parents@[j])@.len() == 3
                && poly_ids_below(r.parents@[j]@, 12 + j),
        forall|i: int| 0 <= i < r.cells@.len() ==> tri_distinct((#[trigger] r.cells@[i])@),
        polys_closed(polys_of(r.cells@)),
        polys_pairwise_distinct(polys_of(r.cells@)),
        polys_of(r.cells@) == build_state(n_subdivisions as nat).0,
        polys_of(r.parents@) == build_state(n_subdivisions as nat).1,
        n_subdivisions == 0 ==> forall|i: int|
            0 <= i < 20 ==> (#[trigger] r.cells@[i])@ == base_face(i),
{
    let n: u32 = n_subdivisions;
    let mut cells: Vec<Polygon> = base_faces();
    let mut parents: Vec<Polygon> = Vec::new();
    let mut next_id: usize = 12;
    let mut round: u32 = 0;
    proof {
        assert(polys_of(cells@) =~= base_mesh());
        assert(polys_of(parents@) =~= build_state(0).1);
        lemma_base_mesh_closed();
        lemma_base_mesh_pairwise_distinct();
        assert forall|i: int| 0 <= i < cells@.len() implies tri_distinct(
            (#[trigger] cells@[i])@,
        ) by {
            lemma_base_face_props(i);
        }
    }
    while round < n
        invariant
            20 * pow3(n as nat) + 12 <= usize::MAX,
            round <= n,
            cells@.len() == 20 * pow3(round as nat),
            next_id == 12 + parents@.len(),
            2 * parents@.len() + 20 == cells@.len(),
            forall|i: int|
                0 <= i < cells@.len() ==> (#[trigger] cells@[i])@.len() == 3 && poly_ids_below(
                    cells@[i]@,
                    next_id as int,
                ),
            forall|i: int| 0 <= i < cells@.len() ==> tri_distinct((#[trigger] cells@[i])@),
            polys_closed(polys_of(cells@)),
            polys_pairwise_distinct(polys_of(cells@)),
            polys_of(cells@) == build_state(round as nat).0,
            polys_of(parents@) == build_state(round as nat).1,
            forall|j: int|
                0 <= j < parents@.len() ==> (#[trigger] parents@[j])@.len() == 3
                    && poly_ids_below(parents@[j]@, 12 + j),
            n == 0 ==> forall|i: int| 0 <= i < 20 ==> (#[trigger] cells@[i])@ == base_face(i),
        decreases n - round,
    {
        proof {
            lemma_pow3_monotonic(round as nat, (n - 1) as nat);
            assert(pow3(n as nat) == 3 * pow3((n - 1) as nat));
            lemma_pow3_positive(round as nat);
        }
        let cell_count: usize = cells.len();
        let ghost round_base = next_id;
        let mut new_cells: Vec<Polygon> = Vec::new();
        proof {
            assert(polys_of(new_cells@) =~= round_upto(polys_of(cells@), round_base, 0));
            assert(build_state(round as nat).1 + polys_of(cells@).take(0) =~= polys_of(
                parents@,
            ));
        }
        let mut c: usize = 0;
        while c < cell_count
            invariant
                20 * pow3(n as nat) + 12 <= usize::MAX,
                round < n,
                cell_count == cells@.len(),
                cells@.len() == 20 * pow3(round as nat),
                pow3(n as nat) == 3 * pow3((n - 1) as nat),
                pow3(round as nat) <= pow3((n - 1) as nat),
                c <= cell_count,
                next_id == 12 + parents@.len(),
                next_id == round_base + c,
                2 * parents@.len() + 20 == cells@.len() + 2 * c,
                new_cells@.len() == 3 * c,
                forall|i: int|
                    0 <= i < cells@.len() ==> (#[trigger] cells@[i])@.len() == 3
                        && poly_ids_below(cells@[i]@, round_base as int),
                forall|i: int| 0 <= i < cells@.len() ==> tri_distinct((#[trigger] cells@[i])@),
                polys_of(cells@) == build_state(round as nat).0,
                polys_of(parents@) == build_state(round as nat).1 + polys_of(cells@).take(
                    c as int,
                ),
                round_base as int == 12 + build_state(round as nat).1.len(),
                polys_of(new_cells@) == round_upto(polys_of(cells@), round_base, c as int),
                forall|i: int|
                    0 <= i < new_cells@.len() ==> (#[trigger] new_cells@[i])@.len() == 3
                        && poly_ids_below(new_cells@[i]@, next_id as int) && tri_distinct(
                        new_cells@[i]@,
                    ),
                forall|j: int|
                    0 <= j < parents@.len() ==> (#[trigger] parents@[j])@.len() == 3
                        && poly_ids_below(parents@[j]@, 12 + j),
            decreases cell_count - c,
        {
            proof {
                // next_id stays clear of usize::MAX: fewer than 30 * 3^round
                // identifiers are assigned while this round runs.
                assert(2 * next_id == 4 + cells@.len() + 2 * c);
                assert(3 * cells@.len() == 60 * pow3(round as nat));
                assert(60 * pow3(round as nat) <= 60 * pow3((n - 1) as nat));
                assert(60 * pow3((n - 1) as nat) == 20 * pow3(n as nat));
                assert(2 * next_id <= 4 + 3 * cells@.len());
                assert(2 * next_id <= 4 + 20 * pow3(n as nat));
            }
            let parent_copy = cells[c].clone();
            let mut children = subdivide_polygon(&cells[c], next_id);
            let ghost p = cells@[c as int]@;
            proof {
                assert(children@[0]@ =~= seq![next_id, p[0], p[1]]);
                assert(children@[1]@ =~= seq![next_id, p[1], p[2]]);
                assert(children@[2]@ =~= seq![next_id, p[2], p[0]]);
                assert(polys_of(children@) =~= children_of(p, next_id));
                assert forall|t: int| 0 <= t < children@.len() implies (
                #[trigger] children@[t])@.len() == 3 && poly_ids_below(
                    children@[t]@,
                    next_id + 1,
                ) && tri_distinct(children@[t]@) by {
                    assert(children@[t]@ =~= seq![
                        next_id,
                        p[t],
                        p[next_index(t, p.len() as int)],
                    ]);
                    assert(p[t] < next_id);
                    assert(p[next_index(t, p.len() as int)] < next_id);
                }
            }
            let ghost prior_len = new_cells@.len() as int;
            let ghost prior_polys = polys_of(new_cells@);
            let ghost prior_parents = polys_of(parents@);
            new_cells.append(&mut children);
            parents.push(parent_copy);
            next_id = next_id + 1;
            proof {
                assert(polys_of(cells@).take(c + 1) =~= polys_of(cells@).take(c as int).push(
                    cells@[c as int]@,
                ));
                assert(polys_of(parents@) =~= prior_parents.push(cells@[c as int]@));
                assert(polys_of(parents@) =~= build_state(round as nat).1 + polys_of(
                    cells@,
                ).take(c + 1));
                assert(polys_of(new_cells@) =~= prior_polys + children_of(p, (round_base
                    + c) as usize));
                assert(round_upto(polys_of(cells@), round_base, c + 1) == round_upto(
                    polys_of(cells@),
                    round_base,
                    c as int,
                ) + children_of(polys_of(cells@)[c as int], (round_base + c) as usize));
                assert(polys_of(cells@)[c as int] == p);
                assert forall|i: int| 0 <= i < new_cells@.len() implies (
                #[trigger] new_cells@[i])@.len() == 3 && poly_ids_below(
                    new_cells@[i]@,
                    next_id as int,
                ) && tri_distinct(new_cells@[i]@) by {
                    if i < prior_len {
                        lemma_ids_below_mono(new_cells@[i]@, next_id - 1, next_id as int);
                    }
                }
            }
            c = c + 1;
        }
        proof {
            lemma_subdivision_round_preserves_closed(polys_of(cells@), round_base);
            lemma_round_pairwise_distinct(polys_of(cells@), round_base);
            // One whole round advances the iterated-build state.
            assert(polys_of(cells@).take(cell_count as int) =~= polys_of(cells@));
            assert(polys_of(parents@) == build_state(round as nat).1 + build_state(
                round as nat,
            ).0);
            assert((12 + build_state(round as nat).1.len()) as usize == round_base);
            assert(build_state(round as nat).0.len() == cell_count);
            assert(build_state((round + 1) as nat).0 == round_upto(
                polys_of(cells@),
                round_base,
                cell_count as int,
            ));
            assert(build_state((round + 1) as nat).1 == polys_of(parents@));
        }
        cells = new_cells;
        round = round + 1;
    }
    MeshBuild { cells, parents }
}

/// The icosahedral mesh after `n_subdivisions` rounds of subdivision:
/// `20 * 3^n` triangular cells tiling the sphere.
pub fn icoshedron(n_subdivisions: u32) -> (cells: Vec<Polygon>)
    requires
        20 * pow3(n_subdivisions as nat) + 12 <= usize::MAX,
    ensures
        cells@.len() == 20 * pow3(n_subdivisions as nat),
        forall|i: int| 0 <= i < cells@.len() ==> polygon_wf((#[trigger] cells@[i])@),
        forall|i: int| 0 <= i < cells@.len() ==> tri_distinct((#[trigger] cells@[i])@),
        polys_closed(polys_of(cells@)),
        polys_pairwise_distinct(polys_of(cells@)),
        polys_of(cells@) == build_state(n_subdivisions as nat).0,
        n_subdivisions == 0 ==> forall|i: int|
            0 <= i < 20 ==> (#[trigger] cells@[i])@ == base_face(i),
{
    let build = icoshedron_build(n_subdivisions);
    build.cells
}

/// The centroid genealogy of the iterated build: after a round of
/// subdivision, cell `3 * j + t` is the `t`-th child of the `j`-th cell
/// of the previous mesh, joined to the centroid vertex numbered `12`
/// plus that parent's position in the accumulated parent list.
pub proof fn lemma_build_genealogy(rounds: nat, j: int, t: int)
    requires
        rounds > 0,
        0 <= j < build_state((rounds - 1) as nat).0.len(),
        0 <= t < 3,
        12 + build_state((rounds - 1) as nat).1.len() + build_state((rounds - 1) as nat).0.len()
            <= usize::MAX,
    ensures
        ({
            let prev = build_state((rounds - 1) as nat);
            let centroid = (12 + prev.1.len() + j) as usize;
            &&& build_state(rounds).0[3 * j + t] == children_of(prev.0[j], centroid)[t]
            &&& build_state(rounds).1[prev.1.len() + j] == prev.0[j]
        }),
{
    let prev = build_state((rounds - 1) as nat);
    let first = (12 + prev.1.len()) as usize;
    lemma_round_upto_index(prev.0, first, prev.0.len() as int, 3 * j + t);
    assert((3 * j + t) / 3 == j && (3 * j + t) % 3 == t) by (nonlinear_arith)
        requires
            0 <= j,
            0 <= t < 3,
    ;
    assert(build_state(rounds).1[prev.1.len() + j] == (prev.1 + prev.0)[prev.1.len() + j]);
}

} // verus!
