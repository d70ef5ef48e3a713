use vstd::prelude::*;

verus! {

/// Numerator of the kg-CO₂e factor per gallon-per-hour and millisecond: the
/// CO₂ factor with the radiative-index multiplier of 3 and the life-cycle
/// factor of 1.68 applied.
pub const CO2E_KG_NUM: u64 = 30_143_976_912;

/// Denominator of the kg-CO₂e factor.
pub const CO2E_KG_DEN: u64 = 2_250_000_000_000_000;

/// Returns the total CO₂e emissions in whole kg of a private jet with a
/// given consumption (in gallons per hour) of Jet-A fuel flying for a given
/// time: consumption · hours · 3.78541 · 0.8 · 3.16 · 3.0 · 1.68, rounded
/// down.
pub fn leg_co2e_kg(consumption: u32, duration_ms: u64) -> (r: u64)
    requires
        consumption <= 1_000_000,
        duration_ms <= 2_000_000_000_000_000,
    ensures
        r == (consumption * duration_ms * CO2E_KG_NUM) / (CO2E_KG_DEN as int),
{
    proof {
        assert(consumption as int * duration_ms as int <= 2_000_000_000_000_000_000_000)
            by (nonlinear_arith)
            requires
                consumption <= 1_000_000,
                duration_ms <= 2_000_000_000_000_000,
        ;
    }
    let a: u128 = consumption as u128 * duration_ms as u128;
    proof {
        assert(a * (CO2E_KG_NUM as int) <= 2_000_000_000_000_000_000_000 * (CO2E_KG_NUM as int))
            by (nonlinear_arith)
            requires
                a <= 2_000_000_000_000_000_000_000,
        ;
    }
    let n: u128 = a * CO2E_KG_NUM as u128;
    (n / CO2E_KG_DEN as u128) as u64
}

/// Returns the emissions attributed to one person, at an occupancy factor
/// of 0.23, rounded down.
pub fn leg_per_person(emissions: u64) -> (r: u64)
    ensures
        r == (emissions * 23) / 100,
{
    (emissions as u128 * 23 / 100) as u64
}

} // verus!
