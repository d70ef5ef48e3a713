use vstd::prelude::*;

use crate::keyed::{dedup_by_key, spec_has_key};

verus! {

/// The in-memory representation of an aircraft.
#[derive(Debug, Clone)]
pub struct Aircraft {
    pub tail_number: String,
    pub model: String,
    pub owner: String,
    pub source: String,
    pub date: String,
}

/// Builds the aircraft table keyed by tail number from loaded rows; a
/// repeated tail number keeps the last row.
pub fn load_aircrafts(rows: Vec<Aircraft>) -> (r: Vec<(String, Aircraft)>)
    ensures
        forall|i: int, j: int| 0 <= i < j < r@.len() ==> r@[i].0@ != r@[j].0@,
        forall|i: int|
            0 <= i < r@.len() ==> (#[trigger] r@[i]).0@ == r@[i].1.tail_number@ && exists|j: int|
                0 <= j < rows@.len() && r@[i].1 == rows@[j] && (forall|l: int|
                    j < l < rows@.len() ==> (#[trigger] rows@[l]).tail_number@ != r@[i].0@),
        forall|j: int| 0 <= j < rows@.len() ==> spec_has_key(r@, (#[trigger] rows@[j]).tail_number@),
{
    let mut rest = rows;
    let mut pairs: Vec<(String, Aircraft)> = Vec::new();
    let ghost rows0 = rest@;
    while rest.len() > 0
        invariant
            rows0.skip(rows0.len() - rest@.len()) =~= rest@,
            pairs@.len() + rest@.len() == rows0.len(),
            forall|i: int|
                0 <= i < pairs@.len() ==> (#[trigger] pairs@[i]).0@ == pairs@[i].1.tail_number@
                    && pairs@[i].1 == rows0[i],
        decreases rest@.len(),
    {
        let ghost done = pairs@.len() as int;
        let row = rest.remove(0);
        proof {
            assert(row == rows0[done]);
            assert(rows0.skip(done).skip(1) =~= rows0.skip(done + 1));
        }
        let key = row.tail_number.clone();
        pairs.push((key, row));
    }
    let ghost pairs1 = pairs@;
    let r = dedup_by_key(pairs);
    proof {
        assert forall|j: int|
            0 <= j < rows0.len() implies spec_has_key(r@, (#[trigger] rows0[j]).tail_number@) by {
            assert(spec_has_key(r@, pairs1[j].0@));
        }
        assert forall|i: int|
            0 <= i < r@.len() implies (#[trigger] r@[i]).0@ == r@[i].1.tail_number@ && exists|
                j: int,
            | 0 <= j < rows0.len() && r@[i].1 == rows0[j] && (forall|l: int|
                j < l < rows0.len() ==> (#[trigger] rows0[l]).tail_number@ != r@[i].0@) by {
            let j = choose|j: int|
                0 <= j < pairs1.len() && #[trigger] r@[i] == pairs1[j] && (forall|l: int|
                    j < l < pairs1.len() ==> (#[trigger] pairs1[l]).0@ != pairs1[j].0@);
            assert(r@[i].1 == rows0[j]);
            assert(r@[i].0@ == pairs1[j].0@);
            assert forall|l: int|
                j < l < rows0.len() implies (#[trigger] rows0[l]).tail_number@ != r@[i].0@ by {
                assert(pairs1[l].0@ != pairs1[j].0@);
                assert(pairs1[l].0@ == pairs1[l].1.tail_number@ && pairs1[l].1 == rows0[l]);
            }
        }
    }
    r
}

} // verus!
