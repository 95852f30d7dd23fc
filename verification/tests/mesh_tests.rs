use icogrid::coords::{subdivide_polygon, Edge, PolyLine, Polygon};
use icogrid::meshgen::{
    base_faces, icoshedron, icoshedron_build, BASE_FACE_COUNT, BASE_VERTEX_COUNT,
};

#[test]
fn test_icoshedron_counts() {
    assert_eq!(icoshedron(0).len(), 20);
    assert_eq!(icoshedron(1).len(), 60);
    assert_eq!(icoshedron(2).len(), 180);
}

#[test]
fn test_icoshedron_cells_are_triangles() {
    for cells in [icoshedron(0), icoshedron(1), icoshedron(2)] {
        for cell in cells.iter() {
            assert_eq!(cell.nodes.len(), 3);
        }
    }
}

#[test]
fn test_base_faces_use_twelve_vertices() {
    let cells = base_faces();
    assert_eq!(cells.len(), BASE_FACE_COUNT);
    let mut seen = [false; BASE_VERTEX_COUNT];
    for cell in cells.iter() {
        for &id in cell.nodes.iter() {
            assert!(id < BASE_VERTEX_COUNT);
            seen[id] = true;
        }
    }
    assert!(seen.iter().all(|&s| s));
}

#[test]
fn test_centroid_genealogy() {
    let build = icoshedron_build(1);
    assert_eq!(build.cells.len(), 60);
    assert_eq!(build.parents.len(), 20);
    for (j, parent) in build.parents.iter().enumerate() {
        assert_eq!(parent.nodes.len(), 3);
        for &id in parent.nodes.iter() {
            assert!(id < 12 + j);
        }
    }
    // The three children of parent j share the centroid vertex 12 + j.
    for j in 0..20 {
        for t in 0..3 {
            let child = &build.cells[3 * j + t];
            assert_eq!(child.nodes[0], 12 + j);
        }
    }
}

#[test]
fn test_centroid_genealogy_second_round() {
    // At depth 2 the final cells come from the last-round parents, which
    // sit after the twenty first-round parents: cell 3j + t carries the
    // centroid vertex 12 + 20 + j of parents[20 + j].
    let build = icoshedron_build(2);
    assert_eq!(build.cells.len(), 180);
    assert_eq!(build.parents.len(), 80);
    for j in 0..60 {
        let parent = &build.parents[20 + j];
        for t in 0..3 {
            let child = &build.cells[3 * j + t];
            assert_eq!(child.nodes[0], 32 + j);
            assert!(parent.nodes.contains(&child.nodes[1]));
            assert!(parent.nodes.contains(&child.nodes[2]));
        }
    }
}

#[test]
fn test_cells_pairwise_distinct() {
    let cells = icoshedron(1);
    for i in 0..cells.len() {
        for j in 0..cells.len() {
            if i != j {
                assert!(cells[i] != cells[j]);
            }
        }
    }
}

#[test]
fn test_subdivide_polygon() {
    let poly = Polygon::new(vec![0, 1, 2]);
    let centroid: usize = 3;
    let sub = subdivide_polygon(&poly, centroid);
    assert_eq!(sub.len(), 3);

    assert_eq!(sub[0], Polygon::new(vec![centroid, 0, 1]));
    assert_eq!(sub[1], Polygon::new(vec![centroid, 1, 2]));
    assert_eq!(sub[2], Polygon::new(vec![centroid, 2, 0]));

    assert!(sub[0].ne(&sub[1]));
}

#[test]
fn test_subdivide_square() {
    let poly = Polygon::new(vec![4, 5, 6, 7]);
    let sub = subdivide_polygon(&poly, 9);
    assert_eq!(sub.len(), 4);
    assert_eq!(sub[3], Polygon::new(vec![9, 7, 4]));
}

#[test]
fn test_polygon_cyclic_equality() {
    let p = Polygon::new(vec![5, 9, 11]);
    assert_eq!(p, Polygon::new(vec![9, 11, 5]));
    assert_eq!(p, Polygon::new(vec![11, 5, 9]));
    // Reflection is deliberately not identified.
    assert_ne!(p, Polygon::new(vec![11, 9, 5]));
    // Different node sets differ.
    assert_ne!(p, Polygon::new(vec![5, 9, 12]));
    assert_ne!(p, Polygon::new(vec![5, 9, 11, 5]));
}

#[test]
fn test_edge_unordered_equality() {
    assert_eq!(Edge::new(1, 2), Edge::new(2, 1));
    assert_eq!(Edge::new(1, 2), Edge::new(1, 2));
    assert_ne!(Edge::new(1, 2), Edge::new(1, 3));
}

#[test]
fn test_polygon_to_edges_wraps() {
    let poly = Polygon::new(vec![4, 5, 6]);
    let edges = poly.to_edges();
    assert_eq!(edges.len(), 3);
    assert_eq!(edges[0], Edge::new(4, 5));
    assert_eq!(edges[1], Edge::new(5, 6));
    assert_eq!(edges[2], Edge::new(6, 4));
}

#[test]
fn test_polyline_to_edges_open() {
    let line = PolyLine::new(vec![1, 2, 3]);
    let edges = line.to_edges();
    assert_eq!(edges.len(), 2);
    assert_eq!(edges[0], Edge::new(1, 2));
    assert_eq!(edges[1], Edge::new(2, 3));
}

#[test]
fn test_polygon_contains_edge() {
    let poly = Polygon::new(vec![4, 5, 6]);
    assert!(poly.contains_edge(5, 4));
    assert!(poly.contains_edge(6, 4));
    assert!(!poly.contains_edge(4, 7));
    assert!(poly.contains_node(6));
    assert!(!poly.contains_node(7));
}
