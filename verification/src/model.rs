use vstd::prelude::*;

use crate::text::str_eq;

verus! {

/// In-memory representation of an aircraft model whose primary use is to
/// be a private jet.
#[derive(Debug, Clone)]
pub struct AircraftModel {
    /// the model (e.g. `BEECH 400 Beechjet`)
    pub model: String,
    /// the consumption in gallons per hour
    pub gph: u32,
    /// the source that identifies it as a private jet
    pub source: String,
    /// the date of when the source was retrieved
    pub date: String,
}

/// How many rows name the model `m`.
pub open spec fn spec_model_count(rows: Seq<AircraftModel>, m: Seq<char>) -> int
    decreases rows.len(),
{
    if rows.len() == 0 {
        0
    } else {
        spec_model_count(rows.drop_last(), m) + if rows.last().model@ == m {
            1int
        } else {
            0int
        }
    }
}

/// The sum of the gallons-per-hour of the rows that name the model `m`.
pub open spec fn spec_gph_sum(rows: Seq<AircraftModel>, m: Seq<char>) -> int
    decreases rows.len(),
{
    if rows.len() == 0 {
        0
    } else {
        spec_gph_sum(rows.drop_last(), m) + if rows.last().model@ == m {
            rows.last().gph as int
        } else {
            0int
        }
    }
}

/// The `;`-joined sources of the rows that name model `m`, in row order.
pub open spec fn spec_join_sources(rows: Seq<AircraftModel>, m: Seq<char>) -> Seq<char>
    decreases rows.len(),
{
    if rows.len() == 0 {
        Seq::empty()
    } else {
        let init = spec_join_sources(rows.drop_last(), m);
        if rows.last().model@ == m {
            if spec_model_count(rows.drop_last(), m) == 0 {
                rows.last().source@
            } else {
                init + seq![';'] + rows.last().source@
            }
        } else {
            init
        }
    }
}

/// The `;`-joined retrieval dates of the rows that name model `m`, in row
/// order.
pub open spec fn spec_join_dates(rows: Seq<AircraftModel>, m: Seq<char>) -> Seq<char>
    decreases rows.len(),
{
    if rows.len() == 0 {
        Seq::empty()
    } else {
        let init = spec_join_dates(rows.drop_last(), m);
        if rows.last().model@ == m {
            if spec_model_count(rows.drop_last(), m) == 0 {
                rows.last().date@
            } else {
                init + seq![';'] + rows.last().date@
            }
        } else {
            init
        }
    }
}

proof fn lemma_count_nonneg(rows: Seq<AircraftModel>, m: Seq<char>)
    ensures
        0 <= spec_model_count(rows, m) <= rows.len(),
        0 <= spec_gph_sum(rows, m),
        spec_gph_sum(rows, m) <= spec_model_count(rows, m) * (u32::MAX as int),
    decreases rows.len(),
{
    if rows.len() > 0 {
        lemma_count_nonneg(rows.drop_last(), m);
    }
}

/// Returns the set of all private-jet models, one entry per model name:
/// when the source rows list a model more than once, the effective
/// gallons-per-hour is the integer mean across the entries, and the
/// sources and dates are `;`-joined in row order.
#[verifier::spinoff_prover]
#[verifier::rlimit(100)]
pub fn load_private_jet_models(rows: Vec<AircraftModel>) -> (r: Vec<AircraftModel>)
    requires
        rows@.len() <= 1_000_000_000,
    ensures
        forall|i: int, j: int| 0 <= i < j < r@.len() ==> r@[i].model@ != r@[j].model@,
        forall|i: int|
            0 <= i < r@.len() ==> spec_model_count(rows@, (#[trigger] r@[i]).model@) > 0 && r@[
                i].gph == spec_gph_sum(rows@, r@[i].model@) / spec_model_count(
                rows@,
                r@[i].model@,
            ),
        forall|i: int|
            0 <= i < r@.len() ==> (#[trigger] r@[i]).source@ == spec_join_sources(
                rows@,
                r@[i].model@,
            ) && r@[i].date@ == spec_join_dates(rows@, r@[i].model@),
        forall|j: int|
            0 <= j < rows@.len() ==> exists|i: int|
                0 <= i < r@.len() && (#[trigger] rows@[j]).model@ == (#[trigger] r@[i]).model@,
{
    let ghost rows0 = rows@;
    let mut rest = rows;
    let mut out: Vec<AircraftModel> = Vec::new();
    let mut sums: Vec<u64> = Vec::new();
    let mut counts: Vec<u64> = Vec::new();
    let mut done: usize = 0;
    proof {
        assert(rows0.take(0) =~= Seq::<AircraftModel>::empty());
    }
    while rest.len() > 0
        invariant
            done + rest@.len() == rows0.len(),
            rows0.len() <= 1_000_000_000,
            rest@ =~= rows0.skip(done as int),
            out@.len() == sums@.len() == counts@.len(),
            forall|i: int, j: int| 0 <= i < j < out@.len() ==> out@[i].model@ != out@[j].model@,
            forall|i: int|
                0 <= i < out@.len() ==> {
                    &&& counts@[i] == spec_model_count(rows0.take(done as int), (
                    #[trigger] out@[i]).model@)
                    &&& sums@[i] == spec_gph_sum(rows0.take(done as int), out@[i].model@)
                    &&& counts@[i] > 0
                },
            forall|i: int|
                0 <= i < out@.len() ==> (#[trigger] out@[i]).source@ == spec_join_sources(
                    rows0.take(done as int),
                    out@[i].model@,
                ) && out@[i].date@ == spec_join_dates(rows0.take(done as int), out@[i].model@),
            forall|j: int|
                0 <= j < done ==> exists|i: int|
                    0 <= i < out@.len() && (#[trigger] rows0[j]).model@ == (
                    #[trigger] out@[i]).model@,
            sums@.len() <= done,
        decreases rest@.len(),
    {
        let row = rest.remove(0);
        let ghost rowg = row;
        proof {
            assert(row == rows0[done as int]);
            assert(rows0.skip(done as int).skip(1) =~= rows0.skip(done as int + 1));
            assert(rows0.take(done as int + 1).drop_last() =~= rows0.take(done as int));
            assert(rows0.take(done as int + 1).last() == row);
        }
        let mut found: Option<usize> = None;
        let mut i: usize = 0;
        while i < out.len()
            invariant
                out@.len() == sums@.len() == counts@.len(),
                i <= out@.len(),
                match found {
                    Some(k) => k < out@.len() && out@[k as int].model@ == rowg.model@,
                    None => forall|k: int| 0 <= k < i ==> (#[trigger] out@[k]).model@ != rowg.model@,
                },
                row == rowg,
            ensures
                match found {
                    Some(k) => k < out@.len() && out@[k as int].model@ == rowg.model@,
                    None => forall|k: int|
                        0 <= k < out@.len() ==> (#[trigger] out@[k]).model@ != rowg.model@,
                },
            decreases out@.len() - i,
        {
            if str_eq(out[i].model.as_str(), row.model.as_str()) {
                found = Some(i);
                proof {
                    assert(out@[i as int].model@ == row.model@);
                }
                break ;
            }
            i = i + 1;
        }
        let ghost sums0 = sums@;
        let ghost counts0 = counts@;
        match found {
            Some(k) => {
                proof {
                    lemma_count_nonneg(rows0.take(done as int), rowg.model@);
                    assert(counts0[k as int] <= rows0.take(done as int).len());
                    assert(sums0[k as int] <= counts0[k as int] * (u32::MAX as int));
                    assert(counts0[k as int] * (u32::MAX as int) <= 1_000_000_000 * (
                    u32::MAX as int)) by (nonlinear_arith)
                        requires
                            counts0[k as int] <= 1_000_000_000,
                    ;
                }
                let s = sums[k];
                sums[k] = s + row.gph as u64;
                let c = counts[k];
                counts[k] = c + 1;
                let ghost outpre = out@;
                let mut s2 = out[k].source.clone();
                s2.append(";");
                s2.append(row.source.as_str());
                let mut d2 = out[k].date.clone();
                d2.append(";");
                d2.append(row.date.as_str());
                let upd = AircraftModel {
                    model: out[k].model.clone(),
                    gph: out[k].gph,
                    source: s2,
                    date: d2,
                };
                out[k] = upd;
                proof {
                    reveal_strlit(";");
                    assert(out@ =~= outpre.update(k as int, upd));
                    assert(out@[k as int].model@ == rowg.model@);
                    assert forall|i2: int|
                        0 <= i2 < out@.len() implies {
                        &&& counts@[i2] == spec_model_count(rows0.take(done as int + 1), (
                        #[trigger] out@[i2]).model@)
                        &&& sums@[i2] == spec_gph_sum(rows0.take(done as int + 1), out@[i2].model@)
                        &&& counts@[i2] > 0
                    } by {
                        if i2 != k {
                            assert(out@[i2] == outpre[i2]);
                            assert(out@[i2].model@ != rowg.model@);
                        }
                    }
                    assert forall|i2: int|
                        0 <= i2 < out@.len() implies (#[trigger] out@[i2]).source@
                        == spec_join_sources(rows0.take(done as int + 1), out@[i2].model@)
                        && out@[i2].date@ == spec_join_dates(
                        rows0.take(done as int + 1),
                        out@[i2].model@,
                    ) by {
                        if i2 == k {
                            assert(spec_model_count(rows0.take(done as int), rowg.model@) > 0);
                            assert(out@[i2].source@ =~= spec_join_sources(
                                rows0.take(done as int),
                                rowg.model@,
                            ) + seq![';'] + rowg.source@);
                            assert(out@[i2].date@ =~= spec_join_dates(
                                rows0.take(done as int),
                                rowg.model@,
                            ) + seq![';'] + rowg.date@);
                        } else {
                            assert(out@[i2] == outpre[i2]);
                            assert(out@[i2].model@ != rowg.model@);
                        }
                    }
                    assert forall|j: int|
                        0 <= j < done + 1 implies exists|i2: int|
                        0 <= i2 < out@.len() && (#[trigger] rows0[j]).model@ == (
                        #[trigger] out@[i2]).model@ by {
                        if j == done {
                            assert(out@[k as int].model@ == rows0[j].model@);
                        } else {
                            let w = choose|w: int|
                                0 <= w < outpre.len() && (#[trigger] rows0[j]).model@ == (
                                #[trigger] outpre[w]).model@;
                            assert(out@[w].model@ == outpre[w].model@);
                        }
                    }
                }
            },
            None => {
                let g = row.gph;
                let ghost outpre = out@;
                out.push(row);
                sums.push(g as u64);
                counts.push(1);
                proof {
                    assert(out@.drop_last() =~= outpre);
                    assert forall|i2: int|
                        0 <= i2 < out@.len() implies {
                        &&& counts@[i2] == spec_model_count(rows0.take(done as int + 1), (
                        #[trigger] out@[i2]).model@)
                        &&& sums@[i2] == spec_gph_sum(rows0.take(done as int + 1), out@[i2].model@)
                        &&& counts@[i2] > 0
                    } by {
                        if i2 < out@.len() - 1 {
                            assert(out@[i2] == out@.drop_last()[i2]);
                            assert(out@[i2].model@ != rowg.model@);
                        } else {
                            lemma_count_nonneg(rows0.take(done as int), rowg.model@);
                            assert(spec_model_count(rows0.take(done as int), rowg.model@) == 0) by {
                                assert forall|j: int|
                                    0 <= j < rows0.take(done as int).len() implies (
                                #[trigger] rows0.take(done as int)[j]).model@ != rowg.model@ by {
                                    assert(rows0.take(done as int)[j] == rows0[j]);
                                    let w = choose|w: int|
                                        0 <= w < outpre.len() && (#[trigger] rows0[j]).model@ == (
                                        #[trigger] outpre[w]).model@;
                                    assert(outpre[w].model@ != rowg.model@);
                                }
                                lemma_absent_count(rows0.take(done as int), rowg.model@);
                            }
                            assert(out@[i2] == rowg);
                        }
                    }
                    assert forall|i2: int|
                        0 <= i2 < out@.len() implies (#[trigger] out@[i2]).source@
                        == spec_join_sources(rows0.take(done as int + 1), out@[i2].model@)
                        && out@[i2].date@ == spec_join_dates(
                        rows0.take(done as int + 1),
                        out@[i2].model@,
                    ) by {
                        if i2 < out@.len() - 1 {
                            assert(out@[i2] == out@.drop_last()[i2]);
                            assert(out@[i2].model@ != rowg.model@);
                        } else {
                            assert(spec_model_count(rows0.take(done as int), rowg.model@) == 0)
                                by {
                                assert forall|j: int|
                                    0 <= j < rows0.take(done as int).len() implies (
                                #[trigger] rows0.take(done as int)[j]).model@ != rowg.model@ by {
                                    assert(rows0.take(done as int)[j] == rows0[j]);
                                    let w = choose|w: int|
                                        0 <= w < outpre.len() && (#[trigger] rows0[j]).model@ == (
                                        #[trigger] outpre[w]).model@;
                                    assert(outpre[w].model@ != rowg.model@);
                                }
                                lemma_absent_count(rows0.take(done as int), rowg.model@);
                            }
                            assert(out@[i2] == rowg);
                        }
                    }
                    assert forall|j: int|
                        0 <= j < done + 1 implies exists|i2: int|
                        0 <= i2 < out@.len() && (#[trigger] rows0[j]).model@ == (
                        #[trigger] out@[i2]).model@ by {
                        if j == done {
                            assert(out@[out@.len() - 1].model@ == rows0[j].model@);
                        } else {
                            let w = choose|w: int|
                                0 <= w < outpre.len() && (#[trigger] rows0[j]).model@ == (
                                #[trigger] outpre[w]).model@;
                            assert(out@[w].model@ == rows0[j].model@);
                        }
                    }
                }
            },
        }
        done = done + 1;
    }
    proof {
        assert(rows0.take(rows0.len() as int) =~= rows0);
    }
    // replace each entry's gph by the mean over its rows
    let mut k: usize = 0;
    let ghost out1 = out@;
    proof {
        assert forall|j: int|
            0 <= j < rows0.len() implies exists|i: int|
            0 <= i < out1.len() && (#[trigger] rows0[j]).model@ == (#[trigger] out1[i]).model@ by {
            let w = choose|w: int|
                0 <= w < out@.len() && (#[trigger] rows0[j]).model@ == (
                #[trigger] out@[w]).model@;
            assert(out1[w].model@ == rows0[j].model@);
        }
    }
    while k < out.len()
        invariant
            out@.len() == sums@.len() == counts@.len() == out1.len(),
            forall|i: int|
                0 <= i < out1.len() ==> {
                    &&& counts@[i] == spec_model_count(rows0, (#[trigger] out1[i]).model@)
                    &&& sums@[i] == spec_gph_sum(rows0, out1[i].model@)
                    &&& counts@[i] > 0
                },
            forall|i: int| 0 <= i < out1.len() ==> (#[trigger] out@[i]).model@ == out1[i].model@,
            forall|i: int, j: int| 0 <= i < j < out1.len() ==> out1[i].model@ != out1[j].model@,
            forall|i: int|
                0 <= i < out1.len() ==> (#[trigger] out@[i]).source@ == spec_join_sources(
                    rows0,
                    out1[i].model@,
                ) && out@[i].date@ == spec_join_dates(rows0, out1[i].model@),
            forall|i: int|
                0 <= i < k ==> (#[trigger] out@[i]).gph == spec_gph_sum(rows0, out1[i].model@)
                    / spec_model_count(rows0, out1[i].model@),
        decreases out@.len() - k,
    {
        let s = sums[k];
        let c = counts[k];
        proof {
            lemma_count_nonneg(rows0, out1[k as int].model@);
            assert(s / c <= u32::MAX) by (nonlinear_arith)
                requires
                    c > 0,
                    s <= c * (u32::MAX as int),
            ;
        }
        let mean = (s / c) as u32;
        let ghost outb = out@;
        let entry = AircraftModel {
            model: out[k].model.clone(),
            gph: mean,
            source: out[k].source.clone(),
            date: out[k].date.clone(),
        };
        out[k] = entry;
        proof {
            assert(out@ =~= outb.update(k as int, entry));
        }
        k = k + 1;
    }
    proof {
        assert forall|j: int|
            0 <= j < rows@.len() implies exists|i: int|
            0 <= i < out@.len() && (#[trigger] rows@[j]).model@ == (#[trigger] out@[i]).model@ by {
            assert(rows@[j] == rows0[j]);
            let i = choose|i: int|
                0 <= i < out1.len() && (#[trigger] rows0[j]).model@ == (#[trigger] out1[i]).model@;
            assert(out@[i].model@ == out1[i].model@);
            assert(rows@[j].model@ == out@[i].model@);
        }
    }
    out
}

/// When no row carries model `m`, the count of `m` is zero.
proof fn lemma_absent_count(rows: Seq<AircraftModel>, m: Seq<char>)
    requires
        forall|j: int| 0 <= j < rows.len() ==> (#[trigger] rows[j]).model@ != m,
    ensures
        spec_model_count(rows, m) == 0,
    decreases rows.len(),
{
    if rows.len() > 0 {
        assert(forall|j: int|
            0 <= j < rows.drop_last().len() ==> (#[trigger] rows.drop_last()[j]).model@ != m);
        lemma_absent_count(rows.drop_last(), m);
        assert(rows.last() == rows[rows.len() - 1]);
    }
}

impl AircraftModel {
    /// A copy with the same fields.
    pub fn clone_model(&self) -> (r: AircraftModel)
        ensures
            r == *self,
    {
        AircraftModel {
            model: self.model.clone(),
            gph: self.gph,
            source: self.source.clone(),
            date: self.date.clone(),
        }
    }
}

} // verus!
