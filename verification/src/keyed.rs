use vstd::prelude::*;

use crate::text::str_eq;

verus! {

/// Whether some pair in `s` carries the key `k`.
pub open spec fn spec_has_key<R>(s: Seq<(String, R)>, k: Seq<char>) -> bool {
    exists|i: int| 0 <= i < s.len() && (#[trigger] s[i]).0@ == k
}

/// No later pair of `pairs` carries the key of `pairs[j]`.
pub open spec fn spec_is_last_occurrence<R>(pairs: Seq<(String, R)>, j: int) -> bool {
    forall|l: int| j < l < pairs.len() ==> (#[trigger] pairs[l]).0@ != pairs[j].0@
}

/// `e` is the pair of the last occurrence of its key in `pairs`.
pub open spec fn spec_from_last_occurrence<R>(pairs: Seq<(String, R)>, e: (String, R)) -> bool {
    exists|j: int|
        0 <= j < pairs.len() && e == #[trigger] pairs[j] && spec_is_last_occurrence(pairs, j)
}

/// Keeps, for every key, the pair of its last occurrence; the result's
/// keys are unique. This is the in-memory shape of a table loaded from
/// rows, where a repeated key overwrites the earlier row.
pub fn dedup_by_key<R>(pairs: Vec<(String, R)>) -> (r: Vec<(String, R)>)
    ensures
        forall|i: int, j: int| 0 <= i < j < r@.len() ==> r@[i].0@ != r@[j].0@,
        forall|i: int| 0 <= i < r@.len() ==> spec_from_last_occurrence(pairs@, #[trigger] r@[i]),
        forall|j: int| 0 <= j < pairs@.len() ==> spec_has_key(r@, (#[trigger] pairs@[j]).0@),
{
    let ghost pairs0 = pairs@;
    let mut rest = pairs;
    let mut out: Vec<(String, R)> = Vec::new();
    proof {
        assert(pairs0.take(pairs0.len() as int) =~= pairs0);
    }
    while rest.len() > 0
        invariant
            rest@.len() <= pairs0.len(),
            rest@ == pairs0.take(rest@.len() as int),
            forall|i: int, j: int| 0 <= i < j < out@.len() ==> out@[i].0@ != out@[j].0@,
            forall|i: int|
                0 <= i < out@.len() ==> spec_from_last_occurrence(pairs0, #[trigger] out@[i]),
            forall|j: int|
                rest@.len() <= j < pairs0.len() ==> spec_has_key(out@, (#[trigger] pairs0[j]).0@),
        decreases rest@.len(),
    {
        let ghost m = rest@.len() as int;
        let pair = rest.pop().unwrap();
        proof {
            assert(rest@ =~= pairs0.take(m - 1));
            assert(pair == pairs0[m - 1]);
        }
        let mut found = false;
        let mut i: usize = 0;
        while i < out.len()
            invariant
                i <= out@.len(),
                found ==> spec_has_key(out@, pair.0@),
                !found ==> forall|k: int| 0 <= k < i ==> (#[trigger] out@[k]).0@ != pair.0@,
            decreases out@.len() - i,
        {
            if str_eq(out[i].0.as_str(), pair.0.as_str()) {
                found = true;
                proof {
                    assert(out@[i as int].0@ == pair.0@);
                }
            }
            i = i + 1;
        }
        if !found {
            // no later occurrence of this key exists, so this is the last one
            proof {
                assert forall|l: int| m - 1 < l < pairs0.len() implies (#[trigger] pairs0[l]).0@
                    != pairs0[m - 1].0@ by {
                    if pairs0[l].0@ == pairs0[m - 1].0@ {
                        assert(spec_has_key(out@, pairs0[l].0@));
                    }
                }
            }
            let ghost out0 = out@;
            out.push(pair);
            proof {
                assert(out@.drop_last() =~= out0);
                assert(spec_is_last_occurrence(pairs0, m - 1));
                assert(out@.last() == pairs0[m - 1]);
                assert(spec_from_last_occurrence(pairs0, out@.last()));
                assert forall|i: int|
                    0 <= i < out@.len() implies spec_from_last_occurrence(
                    pairs0,
                    #[trigger] out@[i],
                ) by {
                    if i < out@.len() - 1 {
                        assert(out@[i] == out0[i]);
                    }
                }
                assert forall|j: int|
                    m - 1 <= j < pairs0.len() implies spec_has_key(
                    out@,
                    (#[trigger] pairs0[j]).0@,
                ) by {
                    if j == m - 1 {
                        assert(out@[out@.len() - 1].0@ == pairs0[j].0@);
                    } else {
                        assert(spec_has_key(out0, pairs0[j].0@));
                        let w = choose|w: int| 0 <= w < out0.len() && (#[trigger] out0[w]).0@
                            == pairs0[j].0@;
                        assert(out@[w].0@ == pairs0[j].0@);
                    }
                }
            }
        } else {
            proof {
                assert forall|j: int|
                    m - 1 <= j < pairs0.len() implies spec_has_key(
                    out@,
                    (#[trigger] pairs0[j]).0@,
                ) by {
                    if j == m - 1 {
                        assert(spec_has_key(out@, pair.0@));
                    }
                }
            }
        }
    }
    proof {
        assert(pairs0.take(0) =~= Seq::<(String, R)>::empty());
    }
    out
}

} // verus!
