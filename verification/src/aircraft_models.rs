use vstd::prelude::*;

use crate::keyed::{dedup_by_key, spec_has_key};

verus! {

/// In-memory representation of an aircraft model.
#[derive(Debug, Clone)]
pub struct AircraftModel {
    /// the model (e.g. `BEECH 400 Beechjet`)
    pub model: String,
    /// the consumption in gallons per hour
    pub gph: u32,
    /// the source that identifies it as a private jet
    pub source: String,
    /// the date of when the source was retrieved
    pub date: String,
}

/// Builds the private-jet model table keyed by model name from loaded
/// rows; a repeated model keeps the last row.
pub fn load_private_jet_models(rows: Vec<AircraftModel>) -> (r: Vec<(String, AircraftModel)>)
    ensures
        forall|i: int, j: int| 0 <= i < j < r@.len() ==> r@[i].0@ != r@[j].0@,
        forall|i: int|
            0 <= i < r@.len() ==> (#[trigger] r@[i]).0@ == r@[i].1.model@ && exists|j: int|
                0 <= j < rows@.len() && r@[i].1 == rows@[j],
        forall|j: int| 0 <= j < rows@.len() ==> spec_has_key(r@, (#[trigger] rows@[j]).model@),
{
    let mut rest = rows;
    let mut pairs: Vec<(String, AircraftModel)> = Vec::new();
    let ghost rows0 = rest@;
    while rest.len() > 0
        invariant
            rows0.skip(rows0.len() - rest@.len()) =~= rest@,
            pairs@.len() + rest@.len() == rows0.len(),
            forall|i: int|
                0 <= i < pairs@.len() ==> (#[trigger] pairs@[i]).0@ == pairs@[i].1.model@
                    && pairs@[i].1 == rows0[i],
        decreases rest@.len(),
    {
        let ghost done = pairs@.len() as int;
        let row = rest.remove(0);
        proof {
            assert(row == rows0[done]);
            assert(rows0.skip(done).skip(1) =~= rows0.skip(done + 1));
        }
        let key = row.model.clone();
        pairs.push((key, row));
    }
    let ghost pairs1 = pairs@;
    let r = dedup_by_key(pairs);
    proof {
        assert forall|j: int|
            0 <= j < rows0.len() implies spec_has_key(r@, (#[trigger] rows0[j]).model@) by {
            assert(spec_has_key(r@, pairs1[j].0@));
        }
        assert forall|i: int|
            0 <= i < r@.len() implies (#[trigger] r@[i]).0@ == r@[i].1.model@ && exists|
                j: int,
            | 0 <= j < rows0.len() && r@[i].1 == rows0[j] by {
            let j = choose|j: int|
                0 <= j < pairs1.len() && #[trigger] r@[i] == pairs1[j] && (forall|l: int|
                    j < l < pairs1.len() ==> (#[trigger] pairs1[l]).0@ != pairs1[j].0@);
            assert(r@[i].1 == rows0[j]);
        }
    }
    r
}

} // verus!
