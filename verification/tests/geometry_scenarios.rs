//! Numeric scenarios: evaluate real vertex positions for the mesh the
//! library builds, then check the spherical-geometry identities that the
//! construction is meant to preserve.

use std::f64::consts::PI;

use icogrid::coords::Polygon;
use icogrid::meshgen::{icoshedron_build, MeshBuild};
use icogrid::pgen::{init_mesh, rebuild_with_values, select_timestep, CFL_Limiter};

fn cart(phi: f64, theta: f64) -> (f64, f64, f64) {
    (phi.cos() * theta.sin(), phi.sin() * theta.sin(), theta.cos())
}

fn from_cart(x: f64, y: f64, z: f64) -> (f64, f64) {
    let mag = (x * x + y * y + z * z).sqrt();
    ((y / mag).atan2(x / mag), (z / mag).acos())
}

fn dot(a: (f64, f64), b: (f64, f64)) -> f64 {
    a.1.sin() * b.1.sin() * (a.0 - b.0).cos() + a.1.cos() * b.1.cos()
}

fn sin_dist(a: (f64, f64), b: (f64, f64)) -> f64 {
    let (x1, y1, z1) = cart(a.0, a.1);
    let (x2, y2, z2) = cart(b.0, b.1);
    let x = y1 * z2 - z1 * y2;
    let y = z1 * x2 - x1 * z2;
    let z = x1 * y2 - y1 * x2;
    (x * x + y * y + z * z).sqrt()
}

fn angle_between(a: (f64, f64), b: (f64, f64)) -> f64 {
    let (x1, y1, z1) = cart(a.0, a.1);
    let (x2, y2, z2) = cart(b.0, b.1);
    if dot(a, b) < 0.0 {
        let (dx, dy, dz) = (-x1 - x2, -y1 - y2, -z1 - z2);
        let half_mag = (dx * dx + dy * dy + dz * dz).sqrt() / 2.0;
        PI - 2.0 * half_mag.asin()
    } else {
        let (dx, dy, dz) = (x1 - x2, y1 - y2, z1 - z2);
        let half_mag = (dx * dx + dy * dy + dz * dz).sqrt() / 2.0;
        2.0 * half_mag.asin()
    }
}

fn spherical_angle(a: (f64, f64), b: (f64, f64), c: (f64, f64)) -> f64 {
    let cos_b = dot(a, c);
    let cos_c = dot(a, b);
    let sin_c = sin_dist(a, b);
    let cos_a = dot(b, c);
    let sin_a = sin_dist(b, c);
    ((cos_b - cos_c * cos_a) / (sin_c * sin_a)).acos()
}

fn area(nodes: &[(f64, f64)]) -> f64 {
    let n = nodes.len();
    let mut sum = 0.0;
    for i in 0..n {
        sum += spherical_angle(nodes[i], nodes[(i + 1) % n], nodes[(i + 2) % n]);
    }
    sum - (n as f64 - 2.0) * PI
}

fn center(nodes: &[(f64, f64)]) -> (f64, f64) {
    let n = nodes.len();
    let (mut x, mut y, mut z) = (0.0, 0.0, 0.0);
    for i in 0..n {
        let a = nodes[i];
        let b = nodes[(i + 1) % n];
        let (x1, y1, z1) = cart(a.0, a.1);
        let (x2, y2, z2) = cart(b.0, b.1);
        let (cx, cy, cz) = (y1 * z2 - z1 * y2, z1 * x2 - x1 * z2, x1 * y2 - y1 * x2);
        let mag = (cx * cx + cy * cy + cz * cz).sqrt();
        let angle = angle_between(a, b);
        x += cx / mag * angle / 2.0;
        y += cy / mag * angle / 2.0;
        z += cz / mag * angle / 2.0;
    }
    from_cart(x, y, z)
}

/// Positions for every vertex identifier: the twelve golden-ratio base
/// vertices, then the centroid of each recorded parent, in order.
fn vertex_positions(build: &MeshBuild) -> Vec<(f64, f64)> {
    let golden_ratio = (1.0 + 5.0f64.sqrt()) / 2.0;
    let a = 1.0;
    let b = 1.0 / golden_ratio;
    let mag = (a * a + b * b).sqrt();
    let (a, b) = (a / mag, b / mag);
    let base = [
        (0.0, b, -a),
        (b, a, 0.0),
        (-b, a, 0.0),
        (0.0, b, a),
        (0.0, -b, a),
        (-a, 0.0, b),
        (0.0, -b, -a),
        (a, 0.0, -b),
        (a, 0.0, b),
        (-a, 0.0, -b),
        (b, -a, 0.0),
        (-b, -a, 0.0),
    ];
    let mut coords: Vec<(f64, f64)> = base.iter().map(|&(x, y, z)| from_cart(x, y, z)).collect();
    for parent in build.parents.iter() {
        let nodes: Vec<(f64, f64)> = parent.nodes.iter().map(|&id| coords[id]).collect();
        coords.push(center(&nodes));
    }
    coords
}

fn polygon_area(p: &Polygon, coords: &[(f64, f64)]) -> f64 {
    let nodes: Vec<(f64, f64)> = p.nodes.iter().map(|&id| coords[id]).collect();
    area(&nodes)
}

#[test]
fn test_base_faces_areas_sum_to_sphere() {
    let build = icoshedron_build(0);
    let coords = vertex_positions(&build);
    let total: f64 = build.cells.iter().map(|c| polygon_area(c, &coords)).sum();
    assert!((total - 4.0 * PI).abs() < 1e-9, "total area {}", total);
}

#[test]
fn test_area_sum_invariant_under_subdivision() {
    for depth in [1u32, 2] {
        let build = icoshedron_build(depth);
        let coords = vertex_positions(&build);
        let total: f64 = build.cells.iter().map(|c| polygon_area(c, &coords)).sum();
        assert!((total - 4.0 * PI).abs() < 1e-8, "depth {} total area {}", depth, total);
    }
}

#[test]
fn test_subdivided_children_tile_their_parent() {
    let build = icoshedron_build(1);
    let coords = vertex_positions(&build);
    for (j, parent) in build.parents.iter().enumerate() {
        let parent_area = polygon_area(parent, &coords);
        let child_sum: f64 =
            (0..3).map(|t| polygon_area(&build.cells[3 * j + t], &coords)).sum();
        // Each parent splits into exactly three children whose areas sum
        // to the parent's within one percent.
        assert!(
            (child_sum - parent_area).abs() < 0.01 * parent_area,
            "parent {} area {} child sum {}",
            j,
            parent_area,
            child_sum
        );
    }
}

#[test]
fn test_first_step_from_cold_uniform_mesh() {
    // A mesh initialized uniformly to 0.0, advanced one step with both
    // coupling coefficients zero, changes every cell's value by exactly
    // its own incident flux times dt over its area: thermal flux is zero
    // at value zero, and the advective and diffusive terms are excluded
    // by the zero coefficients.
    let build = icoshedron_build(1);
    let coords = vertex_positions(&build);
    let zeros: Vec<u64> = vec![0.0f64.to_bits(); build.cells.len()];
    let net = init_mesh(&build.cells, &zeros).unwrap();

    // With zero coefficients and zero maximum value, every candidate
    // timestep is infinite and the default unit timestep applies.
    let inf = f64::INFINITY.to_bits();
    let dt = match select_timestep(inf, inf, inf) {
        CFL_Limiter::NoLimit(bits) => f64::from_bits(bits),
        other => panic!("unexpected regime {:?}", other),
    };
    assert_eq!(dt, 1.0);

    let values: Vec<u64> = net
        .cells
        .iter()
        .map(|cell| {
            let area = polygon_area(&cell.polygon, &coords);
            let nodes: Vec<(f64, f64)> = cell.polygon.nodes.iter().map(|&id| coords[id]).collect();
            let centroid = center(&nodes);
            let incident = centroid.1.sin() * area * centroid.0.cos().max(0.0);
            (f64::from_bits(cell.value) + incident * dt / area).to_bits()
        })
        .collect();
    let next = rebuild_with_values(&net, &values).unwrap();
    assert_eq!(next.cells.len(), net.cells.len());
    for (i, cell) in next.cells.iter().enumerate() {
        let area = polygon_area(&cell.polygon, &coords);
        let nodes: Vec<(f64, f64)> = cell.polygon.nodes.iter().map(|&id| coords[id]).collect();
        let centroid = center(&nodes);
        let incident = centroid.1.sin() * area * centroid.0.cos().max(0.0);
        let delta = f64::from_bits(cell.value) - f64::from_bits(net.cells[i].value);
        assert_eq!(delta, incident * dt / area);
        assert!(delta >= 0.0);
    }
}

#[test]
fn test_subdivided_areas_near_uniform() {
    let build = icoshedron_build(1);
    let coords = vertex_positions(&build);
    let expected = 4.0 * PI / build.cells.len() as f64;
    for cell in build.cells.iter() {
        let a = polygon_area(cell, &coords);
        assert!((a - expected).abs() < 0.01 * expected, "area {} expected {}", a, expected);
    }
}
