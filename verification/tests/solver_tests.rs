use icogrid::grid::{GridCell, GridNetwork};
use icogrid::meshgen::icoshedron;
use icogrid::pgen::{
    classify_energy_balance, find_edge_neighbor, init_mesh, rebuild_with_values,
    select_timestep, CFL_Limiter, EnergyBalance, INFINITY_VALUE_BITS, ONE_VALUE_BITS,
};

const COURANT_NUMBER: f64 = 0.4;

fn network_from_mesh(n_subdivisions: u32, value: f64) -> GridNetwork {
    let mut cells = Vec::new();
    for polygon in icoshedron(n_subdivisions) {
        cells.push(GridCell::new(polygon, value.to_bits()).unwrap());
    }
    GridNetwork::new(cells)
}

#[test]
fn test_select_timestep_no_limit() {
    // All three coefficients zero: every candidate is infinite, so no
    // regime binds and the default unit timestep is returned.
    let inf = f64::INFINITY.to_bits();
    assert_eq!(inf, INFINITY_VALUE_BITS);
    let r = select_timestep(inf, inf, inf);
    assert_eq!(r, CFL_Limiter::NoLimit(1.0f64.to_bits()));
    assert_eq!(r, CFL_Limiter::NoLimit(ONE_VALUE_BITS));
}

#[test]
fn test_select_timestep_advection_limited() {
    // Only the advection coefficient is nonzero: the result is exactly
    // the advection-limited candidate.
    let eps1 = 0.7f64;
    let dx = 0.25f64;
    let adv = (COURANT_NUMBER * dx / eps1).to_bits();
    let inf = f64::INFINITY.to_bits();
    let r = select_timestep(adv, inf, inf);
    assert_eq!(r, CFL_Limiter::AdvectionLimited(adv));
}

#[test]
fn test_select_timestep_diffusion_limited() {
    let eps2 = 2.0f64;
    let dx = 0.25f64;
    let diff = (COURANT_NUMBER * dx.powi(2) / eps2 / 2.0).to_bits();
    let inf = f64::INFINITY.to_bits();
    let r = select_timestep(inf, diff, inf);
    assert_eq!(r, CFL_Limiter::DiffusionLimited(diff));
}

#[test]
fn test_select_timestep_source_limited() {
    let max_temp = 3.0f64;
    let source = (COURANT_NUMBER / 4.0 / max_temp.powi(3)).to_bits();
    let adv = 10.0f64.to_bits();
    let diff = 20.0f64.to_bits();
    let r = select_timestep(adv, diff, source);
    assert_eq!(r, CFL_Limiter::SourceLimited(source));
}

#[test]
fn test_select_timestep_picks_minimum() {
    let a = 0.125f64.to_bits();
    let d = 0.5f64.to_bits();
    let s = 2.0f64.to_bits();
    assert_eq!(select_timestep(a, d, s), CFL_Limiter::AdvectionLimited(a));
    assert_eq!(select_timestep(d, a, s), CFL_Limiter::DiffusionLimited(a));
    assert_eq!(select_timestep(d, s, a), CFL_Limiter::SourceLimited(a));
}

#[test]
fn test_select_timestep_tie_prefers_advection_then_diffusion() {
    // A tied finite minimum is still the minimum: it is returned, under
    // the advection tag first, then diffusion.  The no-limit default is
    // reserved for the all-infinite case.
    let t = 0.5f64.to_bits();
    let s = 2.0f64.to_bits();
    assert_eq!(select_timestep(t, t, s), CFL_Limiter::AdvectionLimited(t));
    assert_eq!(select_timestep(t, s, t), CFL_Limiter::AdvectionLimited(t));
    assert_eq!(select_timestep(s, t, t), CFL_Limiter::DiffusionLimited(t));
    assert_eq!(select_timestep(t, t, t), CFL_Limiter::AdvectionLimited(t));
}

#[test]
fn test_select_timestep_tie_from_coefficients() {
    // dx = 1, eps1 = 2, eps2 = 1 makes the advection and diffusion
    // candidates tie at 0.2; the tied minimum is the stable timestep.
    let dx = 1.0f64;
    let adv = (COURANT_NUMBER * dx / 2.0).to_bits();
    let diff = (COURANT_NUMBER * dx.powi(2) / 1.0 / 2.0).to_bits();
    assert_eq!(adv, diff);
    let inf = f64::INFINITY.to_bits();
    assert_eq!(select_timestep(adv, diff, inf), CFL_Limiter::AdvectionLimited(adv));
}

#[test]
fn test_classify_energy_balance() {
    let b = |x: f64| x.to_bits();
    assert_eq!(classify_energy_balance(b(0.5)), EnergyBalance::Balanced(b(0.5)));
    assert_eq!(classify_energy_balance(b(-0.5)), EnergyBalance::Balanced(b(-0.5)));
    assert_eq!(classify_energy_balance(b(0.0)), EnergyBalance::Balanced(b(0.0)));
    assert_eq!(classify_energy_balance(b(2.5)), EnergyBalance::ExcessIncident(b(2.5)));
    assert_eq!(classify_energy_balance(b(-2.5)), EnergyBalance::ExcessThermal(b(-2.5)));
    // Exactly one percent is not balanced; its sign decides.
    assert_eq!(classify_energy_balance(b(1.0)), EnergyBalance::ExcessIncident(b(1.0)));
    assert_eq!(classify_energy_balance(b(-1.0)), EnergyBalance::ExcessThermal(b(-1.0)));
    assert_eq!(
        classify_energy_balance(b(f64::INFINITY)),
        EnergyBalance::ExcessIncident(b(f64::INFINITY))
    );
}

#[test]
fn test_find_edge_neighbor() {
    let net = network_from_mesh(0, 0.0);
    for cell in net.cells.iter() {
        for edge in cell.polygon.to_edges() {
            let neighbor = find_edge_neighbor(&net, cell, &edge).unwrap();
            assert!(neighbor.polygon != cell.polygon);
            assert!(neighbor.polygon.contains_edge(edge.a, edge.b));
        }
    }
}

#[test]
fn test_find_edge_neighbor_rejects_overshared_edge() {
    let mut net = network_from_mesh(0, 0.0);
    // Duplicate one cell: its edges now border three cells.
    let dup = GridCell {
        polygon: icogrid::coords::Polygon::new(net.cells[0].polygon.nodes.clone()),
        value: 0,
    };
    net.cells.push(dup);
    let edge = net.cells[0].polygon.to_edges()[0];
    let cell0 = &net.cells[0];
    assert!(find_edge_neighbor(&net, cell0, &edge).is_err());
}

#[test]
fn test_find_edge_neighbor_missing_far_side() {
    let mut net = network_from_mesh(0, 0.0);
    let removed = net.cells.pop().unwrap();
    let edge = removed.polygon.to_edges()[0];
    // The surviving cell on that edge has no cell on the far side.
    let surviving = net
        .cells
        .iter()
        .position(|c| c.polygon.contains_edge(edge.a, edge.b))
        .unwrap();
    let cell = &net.cells[surviving];
    assert!(find_edge_neighbor(&net, cell, &edge).is_err());
}

#[test]
fn test_init_mesh() {
    let polygons = icoshedron(1);
    let values: Vec<u64> = (0..60).map(|i| (i as f64 * 0.25).to_bits()).collect();
    let net = init_mesh(&polygons, &values).unwrap();
    assert_eq!(net.cells.len(), 60);
    for i in 0..60 {
        assert!(net.cells[i].polygon == polygons[i]);
        assert_eq!(net.cells[i].value, values[i]);
    }
    // The constructed network inherits the mesh's closedness.
    assert!(net.check_mesh_closed());
}

#[test]
fn test_init_mesh_rejects_invalid_value() {
    let polygons = icoshedron(0);
    let mut values: Vec<u64> = vec![0.5f64.to_bits(); 20];
    values[7] = (-3.0f64).to_bits();
    assert!(init_mesh(&polygons, &values).is_err());
}

#[test]
fn test_rebuild_with_values() {
    let net = network_from_mesh(0, 1.0);
    let values: Vec<u64> = (0..20).map(|i| (i as f64 * 0.5).to_bits()).collect();
    let next = rebuild_with_values(&net, &values).unwrap();
    // The cell count is preserved, as are the polygons, in order.
    assert_eq!(next.cells.len(), net.cells.len());
    for i in 0..20 {
        assert!(next.cells[i].polygon == net.cells[i].polygon);
        assert_eq!(next.cells[i].value, values[i]);
    }
    // The step kept every polygon, so the mesh is still closed.
    assert!(next.check_mesh_closed());
}

#[test]
fn test_rebuild_with_values_rejects_negative() {
    let net = network_from_mesh(0, 1.0);
    let mut values: Vec<u64> = vec![1.0f64.to_bits(); 20];
    values[13] = (-0.25f64).to_bits();
    assert!(rebuild_with_values(&net, &values).is_err());
}

#[test]
fn test_rebuild_with_values_rejects_nan() {
    let net = network_from_mesh(0, 1.0);
    let mut values: Vec<u64> = vec![1.0f64.to_bits(); 20];
    values[4] = f64::NAN.to_bits();
    assert!(rebuild_with_values(&net, &values).is_err());
}
