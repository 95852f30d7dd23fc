//! Discrete decision logic of the flux solver.
//!
//! The solver's real-valued work (quadrature, flux sums, the candidate
//! timesteps) is evaluated by the driver; what is decided from those
//! values is done here, over the IEEE-754 bit patterns of non-negative
//! doubles.  For such patterns (zero, normal, subnormal and infinity,
//! sign bit clear) the unsigned order of the `u64` encodings coincides
//! with the numeric order of the encoded doubles, so the comparisons
//! below mirror the float comparisons exactly.

use vstd::prelude::*;

use crate::coords::{cyclic_eq, Edge, Polygon};
use crate::grid::{
    cells_with_edge, network_polys, valid_value, GridCell, GridNetwork, MAX_FINITE_VALUE_BITS,
};
use crate::meshgen::polys_of;

verus! {

/// Bit pattern of positive infinity: the supremum of the non-negative
/// non-NaN encodings.  A zero coupling coefficient makes its candidate
/// timestep infinite, hence non-binding.
pub const INFINITY_VALUE_BITS: u64 = 0x7FF0_0000_0000_0000;

/// Bit pattern of `1.0`: the default timestep when no regime binds.
pub const ONE_VALUE_BITS: u64 = 0x3FF0_0000_0000_0000;

/// The sign bit of a double's encoding.
pub const SIGN_VALUE_BIT: u64 = 0x8000_0000_0000_0000;

/// `bits` encodes a non-negative double, infinity allowed.
pub open spec fn candidate_value(bits: u64) -> bool {
    bits <= INFINITY_VALUE_BITS
}

/// The encoded double is negative: its sign bit is set.
pub open spec fn value_is_negative(bits: u64) -> bool {
    bits >= SIGN_VALUE_BIT
}

/// The encoding of the double's absolute value: the sign bit cleared.
pub open spec fn value_magnitude(bits: u64) -> u64 {
    if bits >= SIGN_VALUE_BIT {
        (bits - SIGN_VALUE_BIT) as u64
    } else {
        bits
    }
}

/// Which stability constraint binds the chosen timestep.  Each variant
/// carries the selected timestep's encoding.
#[allow(non_camel_case_types)]
#[derive(Clone, Copy, Debug, PartialEq, Eq, Structural)]
pub enum CFL_Limiter {
    AdvectionLimited(u64),
    DiffusionLimited(u64),
    SourceLimited(u64),
    NoLimit(u64),
}

/// Select the binding CFL regime: the minimum of the three candidate
/// stable timesteps (advection-, diffusion- and source-limited, a
/// non-binding candidate encoded as infinity), tagged with its regime.
/// On a tied minimum the advection regime is preferred, then diffusion.
/// Only when all three candidates are infinite does no regime bind, and
/// the default unit timestep is returned.
pub fn select_timestep(adv: u64, diff: u64, source: u64) -> (r: CFL_Limiter)
    requires
        candidate_value(adv),
        candidate_value(diff),
        candidate_value(source),
    ensures
        r == (if adv == INFINITY_VALUE_BITS && diff == INFINITY_VALUE_BITS && source
            == INFINITY_VALUE_BITS {
            CFL_Limiter::NoLimit(ONE_VALUE_BITS)
        } else if adv <= diff && adv <= source {
            CFL_Limiter::AdvectionLimited(adv)
        } else if diff <= source {
            CFL_Limiter::DiffusionLimited(diff)
        } else {
            CFL_Limiter::SourceLimited(source)
        }),
{
    if adv == INFINITY_VALUE_BITS && diff == INFINITY_VALUE_BITS && source
        == INFINITY_VALUE_BITS {
        CFL_Limiter::NoLimit(ONE_VALUE_BITS)
    } else if adv <= diff && adv <= source {
        CFL_Limiter::AdvectionLimited(adv)
    } else if diff <= source {
        CFL_Limiter::DiffusionLimited(diff)
    } else {
        CFL_Limiter::SourceLimited(source)
    }
}

/// Outcome of the energy-balance diagnostic.  Each variant carries the
/// encoding of the (signed) imbalance as a percentage of the incident
/// energy.
#[derive(Clone, Copy, Debug, PartialEq, Eq, Structural)]
pub enum EnergyBalance {
    Balanced(u64),
    ExcessIncident(u64),
    ExcessThermal(u64),
}

/// Classify the signed imbalance percentage: balanced when its magnitude
/// is below one percent, otherwise excess incident or excess thermal
/// energy by its sign.  Advisory only; never alters simulation state.
pub fn classify_energy_balance(excess_pct: u64) -> (r: EnergyBalance)
    requires
        candidate_value(value_magnitude(excess_pct)),
    ensures
        r == (if value_magnitude(excess_pct) < ONE_VALUE_BITS {
            EnergyBalance::Balanced(excess_pct)
        } else if !value_is_negative(excess_pct) {
            EnergyBalance::ExcessIncident(excess_pct)
        } else {
            EnergyBalance::ExcessThermal(excess_pct)
        }),
{
    let negative: bool = excess_pct >= SIGN_VALUE_BIT;
    let magnitude: u64 = if negative {
        excess_pct - SIGN_VALUE_BIT
    } else {
        excess_pct
    };
    if magnitude < ONE_VALUE_BITS {
        EnergyBalance::Balanced(excess_pct)
    } else if !negative {
        EnergyBalance::ExcessIncident(excess_pct)
    } else {
        EnergyBalance::ExcessThermal(excess_pct)
    }
}

/// The unique cell on the far side of one of `cell`'s boundary edges.
///
/// The candidates are the stored cells whose boundary contains the edge.
/// More than two candidates is a malformed mesh and a hard failure; so is
/// an edge with no cell on the far side.  With exactly two candidates the
/// one not equal to `cell` is returned.
pub fn find_edge_neighbor<'a>(network: &'a GridNetwork, cell: &GridCell, edge: &Edge) -> (r:
    Result<&'a GridCell, &'static str>)
    ensures
        ({
            let cands = cells_with_edge(network.cells@, edge.a, edge.b);
            if cands.len() == 0 || cands.len() > 2 {
                r is Err
            } else if cyclic_eq(cands[0].polygon@, cell.polygon@) {
                if cands.len() == 2 {
                    r matches Ok(c) && *c == cands[1]
                } else {
                    r is Err
                }
            } else {
                r matches Ok(c) && *c == cands[0]
            }
        }),
{
    let cands: Vec<&GridCell> = network.query_edge(edge);
    if cands.len() > 2 {
        return Err("edge separates more than two cells");
    }
    if cands.len() == 0 {
        return Err("edge does not border any cell");
    }
    let first: &GridCell = cands[0];
    if *first == *cell {
        if cands.len() == 2 {
            Ok(cands[1])
        } else {
            Err("edge has no cell on its far side")
        }
    } else {
        Ok(first)
    }
}

/// The topology constructor: wrap polygons and their initial values
/// into a cell network, cell by cell in order.  A value that does not
/// encode a non-negative finite double is rejected, never clamped.
pub fn init_mesh(polygons: &Vec<Polygon>, values: &Vec<u64>) -> (r: Result<
    GridNetwork,
    &'static str,
>)
    requires
        values@.len() == polygons@.len(),
    ensures
        r is Ok <==> (forall|i: int| 0 <= i < values@.len() ==> valid_value(#[trigger] values@[i])),
        r matches Ok(net) ==> {
            &&& net.cells@.len() == polygons@.len()
            &&& forall|i: int|
                0 <= i < net.cells@.len() ==> (#[trigger] net.cells@[i]).polygon@ == polygons@[i]@
                    && net.cells@[i].value == values@[i]
            &&& network_polys(net.cells@) == polys_of(polygons@)
        },
{
    let n: usize = polygons.len();
    let mut cells: Vec<GridCell> = Vec::new();
    let mut i: usize = 0;
    while i < n
        invariant
            n == polygons@.len(),
            values@.len() == n,
            i <= n,
            cells@.len() == i,
            forall|j: int| 0 <= j < i ==> valid_value(#[trigger] values@[j]),
            forall|j: int|
                0 <= j < i ==> (#[trigger] cells@[j]).polygon@ == polygons@[j]@ && cells@[j].value
                    == values@[j],
        decreases n - i,
    {
        let value: u64 = values[i];
        if value > MAX_FINITE_VALUE_BITS {
            return Err("cell value must be a non-negative finite number");
        }
        cells.push(GridCell { polygon: polygons[i].clone(), value });
        i = i + 1;
    }
    proof {
        assert(network_polys(cells@) =~= polys_of(polygons@));
    }
    Ok(GridNetwork { cells })
}

/// Assemble the next mesh generation: the same polygons, in the same
/// order, carrying the freshly computed values.  A value that does not
/// encode a non-negative finite double aborts the whole step, so a
/// partially updated mesh is never observable.
pub fn rebuild_with_values(network: &GridNetwork, values: &Vec<u64>) -> (r: Result<
    GridNetwork,
    &'static str,
>)
    requires
        values@.len() == network.cells@.len(),
    ensures
        r is Ok <==> (forall|i: int| 0 <= i < values@.len() ==> valid_value(#[trigger] values@[i])),
        r matches Ok(next) ==> {
            &&& next.cells@.len() == network.cells@.len()
            &&& forall|i: int|
                0 <= i < next.cells@.len() ==> (#[trigger] next.cells@[i]).polygon@
                    == network.cells@[i].polygon@ && next.cells@[i].value == values@[i]
        },
{
    let n: usize = network.cells.len();
    let mut cells: Vec<GridCell> = Vec::new();
    let mut i: usize = 0;
    while i < n
        invariant
            n == network.cells@.len(),
            values@.len() == n,
            i <= n,
            cells@.len() == i,
            forall|j: int| 0 <= j < i ==> valid_value(#[trigger] values@[j]),
            forall|j: int|
                0 <= j < i ==> (#[trigger] cells@[j]).polygon@ == network.cells@[j].polygon@
                    && cells@[j].value == values@[j],
        decreases n - i,
    {
        let value: u64 = values[i];
        if value > MAX_FINITE_VALUE_BITS {
            return Err("negative temperature in cell update");
        }
        cells.push(GridCell { polygon: network.cells[i].polygon.clone(), value });
        i = i + 1;
    }
    Ok(GridNetwork { cells })
}

} // verus!
