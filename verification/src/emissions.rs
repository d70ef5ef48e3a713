use vstd::prelude::*;

verus! {

/// Numerator of the kg-CO₂ factor per gallon-per-hour and millisecond:
/// gallons to litres, litres to kg of Jet-A, kg of fuel to kg of CO₂,
/// over a common denominator with the hour-to-millisecond conversion.
pub const CO2_KG_NUM: u64 = 59_809_478;

/// Denominator of the kg-CO₂ factor.
pub const CO2_KG_DEN: u64 = 22_500_000_000_000;

/// Returns the total CO₂ emissions in whole kg of a private jet with a
/// given consumption (in gallons per hour) of Jet-A fuel flying for a given
/// time: consumption · hours · 3.78541 · 0.8 · 3.16, rounded down.
pub fn leg_co2_kg(consumption: u32, duration_ms: u64) -> (r: u64)
    requires
        consumption <= 1_000_000,
        duration_ms <= 2_000_000_000_000_000,
    ensures
        r == (consumption * duration_ms * CO2_KG_NUM) / (CO2_KG_DEN as int),
{
    proof {
        assert(consumption as int * duration_ms as int <= 2_000_000_000_000_000_000_000)
            by (nonlinear_arith)
            requires
                consumption <= 1_000_000,
                duration_ms <= 2_000_000_000_000_000,
        ;
    }
    let a: u128 = consumption as u128 * duration_ms as u128;
    proof {
        assert(a * (CO2_KG_NUM as int) <= 2_000_000_000_000_000_000_000 * (CO2_KG_NUM as int))
            by (nonlinear_arith)
            requires
                a <= 2_000_000_000_000_000_000_000,
        ;
    }
    let n: u128 = a * CO2_KG_NUM as u128;
    (n / CO2_KG_DEN as u128) as u64
}

} // verus!
