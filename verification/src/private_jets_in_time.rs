use vstd::prelude::*;

use crate::aircraft::Aircraft;
use crate::date::Date;
use crate::model::AircraftModel;
use crate::text::str_eq;

verus! {

/// The distance in days between two dates.
pub open spec fn spec_day_dist(a: Date, t: Date) -> int {
    let d = a.spec_day_number() - t.spec_day_number();
    if d < 0 {
        -d
    } else {
        d
    }
}

/// `c` is a date of `dates` closest to `target`, ties broken by taking the
/// later date.
pub open spec fn spec_is_closest(dates: Seq<Date>, target: Date, c: Date) -> bool {
    &&& dates.contains(c)
    &&& forall|j: int|
        0 <= j < dates.len() ==> spec_day_dist(#[trigger] dates[j], target) > spec_day_dist(
            c,
            target,
        ) || (spec_day_dist(dates[j], target) == spec_day_dist(c, target) && dates[j].ord()
            <= c.ord())
}

/// Returns the date of `dates` closest to `target` by days, ties broken by
/// taking the later date.
pub fn closest_date(dates: &Vec<Date>, target: Date) -> (r: Date)
    requires
        dates@.len() > 0,
        forall|j: int| 0 <= j < dates@.len() ==> (#[trigger] dates@[j]).valid(),
        target.valid(),
    ensures
        spec_is_closest(dates@, target, r),
{
    let tn = target.day_number();
    let mut best = dates[0];
    let mut best_dist = dist_days(dates[0].day_number(), tn);
    proof {
        assert(dates@.contains(dates@[0]));
    }
    let mut j: usize = 1;
    while j < dates.len()
        invariant
            dates@.len() > 0,
            forall|x: int| 0 <= x < dates@.len() ==> (#[trigger] dates@[x]).valid(),
            target.valid(),
            tn == target.spec_day_number(),
            1 <= j <= dates@.len(),
            dates@.contains(best),
            best.valid(),
            best_dist == spec_day_dist(best, target),
            forall|x: int|
                0 <= x < j ==> spec_day_dist(#[trigger] dates@[x], target) > spec_day_dist(
                    best,
                    target,
                ) || (spec_day_dist(dates@[x], target) == spec_day_dist(best, target) && dates@[
                    x].ord() <= best.ord()),
        decreases dates@.len() - j,
    {
        let d = dates[j];
        let dd = dist_days(d.day_number(), tn);
        let take_new = dd < best_dist || (dd == best_dist && best.lt(&d));
        if take_new {
            best = d;
            best_dist = dd;
            proof {
                assert(dates@.contains(dates@[j as int]));
            }
        }
        j = j + 1;
    }
    best
}

/// The absolute difference of two day numbers.
fn dist_days(a: u32, t: u32) -> (r: u32)
    ensures
        r == if a >= t {
            a - t
        } else {
            t - a
        },
{
    if a >= t {
        a - t
    } else {
        t - a
    }
}

/// The aircraft is in scope for a country filter: either no filter is
/// requested or the aircraft's country is exactly the requested one.
pub open spec fn spec_country_ok(a: Aircraft, country: Option<Seq<char>>) -> bool {
    match country {
        None => true,
        Some(c) => a.country matches Some(ac) && ac@ == c,
    }
}

/// The first day of month `m` of `year`.
pub open spec fn month_at(year: i32, m: int) -> Date {
    Date { year: year, month: m as u8, day: 1 }
}

/// One row of the time-varying jet set: the aircraft of a month, with its
/// model entry.
pub struct RequiredTask {
    pub icao_number: String,
    pub month: Date,
    pub aircraft: Aircraft,
    pub model: AircraftModel,
}

/// Every condition a task of the result satisfies: its month is the first
/// of a month of a requested year strictly before the first of the current
/// month, the aircraft is drawn from the snapshot closest to that month,
/// the country filter holds, and the model entry is the table entry of the
/// aircraft's model.
pub open spec fn spec_task_in_scope(
    snapshots: Seq<(Date, Vec<Aircraft>)>,
    models: Seq<AircraftModel>,
    country: Option<Seq<char>>,
    years: Seq<i32>,
    now_month: Date,
    t: RequiredTask,
) -> bool {
    &&& years.contains(t.month.year)
    &&& 1 <= t.month.month <= 12
    &&& t.month.day == 1
    &&& t.month.ord() < now_month.ord()
    &&& exists|s: int|
        0 <= s < snapshots.len() && spec_is_closest(
            snapshots.map_values(|p: (Date, Vec<Aircraft>)| p.0),
            t.month,
            (#[trigger] snapshots[s]).0,
        ) && snapshots[s].1@.contains(t.aircraft)
    &&& t.icao_number@ == t.aircraft.icao_number@
    &&& spec_country_ok(t.aircraft, country)
    &&& models.contains(t.model)
    &&& t.model.model@ == t.aircraft.model@
}

/// Returns the time-varying jet set: for every month of the requested
/// years that lies strictly before the current month, the aircraft of the
/// registry snapshot closest to that month whose model is in the model
/// table, optionally restricted to one country. Every returned task is in
/// scope, and every in-scope aircraft of every such month is returned.
#[verifier::spinoff_prover]
#[verifier::rlimit(100)]
pub fn private_jets_in_month(
    years: &Vec<i32>,
    maybe_country: Option<&str>,
    snapshots: &Vec<(Date, Vec<Aircraft>)>,
    models: &Vec<AircraftModel>,
    today: Date,
) -> (r: Vec<RequiredTask>)
    requires
        snapshots@.len() > 0,
        forall|j: int| 0 <= j < snapshots@.len() ==> (#[trigger] snapshots@[j]).0.valid(),
        forall|i: int, j: int|
            0 <= i < j < snapshots@.len() ==> snapshots@[i].0 != snapshots@[j].0,
        today.valid(),
        forall|j: int| 0 <= j < years@.len() ==> 1 <= #[trigger] years@[j] <= 9999,
    ensures
        forall|i: int|
            0 <= i < r@.len() ==> spec_task_in_scope(
                snapshots@,
                models@,
                match maybe_country {
                    Some(c) => Some(c@),
                    None => None,
                },
                years@,
                today.spec_first_of_month(),
                #[trigger] r@[i],
            ),
        forall|y: int, m: int, s: int, k: int|
            #![trigger month_at(years@[y], m), snapshots@[s].1@[k]]
            {
                &&& 0 <= y < years@.len()
                &&& 1 <= m <= 12
                &&& 0 <= s < snapshots@.len()
                &&& 0 <= k < snapshots@[s].1@.len()
                &&& month_at(years@[y], m).ord() < today.spec_first_of_month().ord()
                &&& spec_is_closest(
                    snapshots@.map_values(|p: (Date, Vec<Aircraft>)| p.0),
                    month_at(years@[y], m),
                    snapshots@[s].0,
                )
                &&& spec_country_ok(
                    snapshots@[s].1@[k],
                    match maybe_country {
                        Some(c) => Some(c@),
                        None => None,
                    },
                )
                &&& exists|w: int|
                    0 <= w < models@.len() && (#[trigger] models@[w]).model@ == snapshots@[
                        s].1@[k].model@
            } ==> exists|i: int|
                0 <= i < r@.len() && (#[trigger] r@[i]).month == month_at(years@[y], m) && r@[
                    i].aircraft == snapshots@[s].1@[k],
{
    let ghost countryv: Option<Seq<char>> = match maybe_country {
        Some(c) => Some(c@),
        None => None,
    };
    let now_month = today.first_of_month();
    let ghost snap_dates = snapshots@.map_values(|p: (Date, Vec<Aircraft>)| p.0);
    let mut dates: Vec<Date> = Vec::new();
    let mut si: usize = 0;
    while si < snapshots.len()
        invariant
            si <= snapshots@.len(),
            snap_dates == snapshots@.map_values(|p: (Date, Vec<Aircraft>)| p.0),
            forall|j: int| 0 <= j < snapshots@.len() ==> (#[trigger] snapshots@[j]).0.valid(),
            dates@ =~= snap_dates.take(si as int),
        decreases snapshots@.len() - si,
    {
        dates.push(snapshots[si].0);
        proof {
            assert(dates@ =~= snap_dates.take(si as int + 1));
        }
        si = si + 1;
    }
    proof {
        assert(dates@ =~= snap_dates);
    }
    let mut r: Vec<RequiredTask> = Vec::new();
    let mut y: usize = 0;
    while y < years.len()
        invariant
            y <= years@.len(),
            snapshots@.len() > 0,
            forall|j: int| 0 <= j < snapshots@.len() ==> (#[trigger] snapshots@[j]).0.valid(),
            forall|i: int, j: int|
                0 <= i < j < snapshots@.len() ==> snapshots@[i].0 != snapshots@[j].0,
            forall|j: int| 0 <= j < years@.len() ==> 1 <= #[trigger] years@[j] <= 9999,
            today.valid(),
            now_month == today.spec_first_of_month(),
            dates@ == snap_dates,
            snap_dates == snapshots@.map_values(|p: (Date, Vec<Aircraft>)| p.0),
            countryv == (match maybe_country {
                Some(c) => Some(c@),
                None => None,
            }),
            forall|i: int|
                0 <= i < r@.len() ==> spec_task_in_scope(
                    snapshots@,
                    models@,
                    countryv,
                    years@,
                    now_month,
                    #[trigger] r@[i],
                ),
            forall|yy: int, m: int, s: int, k: int|
                #![trigger month_at(years@[yy], m), snapshots@[s].1@[k]]
                {
                    &&& 0 <= yy < y
                    &&& 1 <= m <= 12
                    &&& 0 <= s < snapshots@.len()
                    &&& 0 <= k < snapshots@[s].1@.len()
                    &&& month_at(years@[yy], m).ord() < now_month.ord()
                    &&& spec_is_closest(snap_dates, month_at(years@[yy], m), snapshots@[s].0)
                    &&& spec_country_ok(snapshots@[s].1@[k], countryv)
                    &&& exists|w: int|
                        0 <= w < models@.len() && (#[trigger] models@[w]).model@ == snapshots@[
                            s].1@[k].model@
                } ==> exists|i: int|
                    0 <= i < r@.len() && (#[trigger] r@[i]).month == month_at(years@[yy], m)
                        && r@[i].aircraft == snapshots@[s].1@[k],
        decreases years@.len() - y,
    {
        let year = years[y];
        let mut m: u8 = 1;
        while m <= 12
            invariant
                1 <= m <= 13,
                y < years@.len(),
                year == years@[y as int],
                1 <= year <= 9999,
                snapshots@.len() > 0,
                forall|j: int| 0 <= j < snapshots@.len() ==> (#[trigger] snapshots@[j]).0.valid(),
                forall|i: int, j: int|
                    0 <= i < j < snapshots@.len() ==> snapshots@[i].0 != snapshots@[j].0,
                forall|j: int| 0 <= j < years@.len() ==> 1 <= #[trigger] years@[j] <= 9999,
                today.valid(),
                now_month == today.spec_first_of_month(),
                dates@ == snap_dates,
                snap_dates == snapshots@.map_values(|p: (Date, Vec<Aircraft>)| p.0),
                countryv == (match maybe_country {
                    Some(c) => Some(c@),
                    None => None,
                }),
                forall|i: int|
                    0 <= i < r@.len() ==> spec_task_in_scope(
                        snapshots@,
                        models@,
                        countryv,
                        years@,
                        now_month,
                        #[trigger] r@[i],
                    ),
                forall|yy: int, mm: int, s: int, k: int|
                    #![trigger month_at(years@[yy], mm), snapshots@[s].1@[k]]
                    {
                        &&& 0 <= yy < y + 1
                        &&& 1 <= mm <= 12
                        &&& (yy < y || mm < m)
                        &&& 0 <= s < snapshots@.len()
                        &&& 0 <= k < snapshots@[s].1@.len()
                        &&& month_at(years@[yy], mm).ord() < now_month.ord()
                        &&& spec_is_closest(snap_dates, month_at(years@[yy], mm), snapshots@[s].0)
                        &&& spec_country_ok(snapshots@[s].1@[k], countryv)
                        &&& exists|w: int|
                            0 <= w < models@.len() && (#[trigger] models@[w]).model@ == snapshots@[
                                s].1@[k].model@
                    } ==> exists|i: int|
                        0 <= i < r@.len() && (#[trigger] r@[i]).month == month_at(years@[yy], mm)
                            && r@[i].aircraft == snapshots@[s].1@[k],
            decreases 13 - m,
        {
            let month = Date { year, month: m, day: 1 };
            if month.lt(&now_month) {
                let snap_date = closest_date(&dates, month);
                let mut s: usize = 0;
                let mut snap_idx: Option<usize> = None;
                while s < snapshots.len()
                    invariant
                        s <= snapshots@.len(),
                        dates@ == snap_dates,
                        snap_dates == snapshots@.map_values(|p: (Date, Vec<Aircraft>)| p.0),
                        match snap_idx {
                            Some(w) => w < snapshots@.len() && snapshots@[w as int].0 == snap_date,
                            None => forall|w: int|
                                0 <= w < s ==> (#[trigger] snapshots@[w]).0 != snap_date,
                        },
                    ensures
                        match snap_idx {
                            Some(w) => w < snapshots@.len() && snapshots@[w as int].0 == snap_date,
                            None => true,
                        },
                        snap_idx is Some || forall|w: int|
                            0 <= w < snapshots@.len() ==> (#[trigger] snapshots@[w]).0
                                != snap_date,
                    decreases snapshots@.len() - s,
                {
                    if snapshots[s].0 == snap_date {
                        snap_idx = Some(s);
                        proof {
                            assert(snapshots@[s as int].0 == snap_date);
                        }
                        break ;
                    }
                    s = s + 1;
                }
                proof {
                    assert(snap_dates.contains(snap_date));
                    if snap_idx is None {
                        let w = choose|w: int|
                            0 <= w < snap_dates.len() && snap_dates[w] == snap_date;
                        assert(snapshots@[w].0 == snap_date);
                        assert(false);
                    }
                }
                let si2 = match snap_idx {
                    Some(w) => w,
                    None => 0,
                };
                let ghost r0 = r@;
                add_month_tasks(&mut r, snapshots, si2, models, maybe_country, month);
                proof {
                    assert(spec_is_closest(snap_dates, month, snapshots@[si2 as int].0));
                    assert(years@.contains(years@[y as int]));
                    assert forall|i: int|
                        0 <= i < r@.len() implies spec_task_in_scope(
                        snapshots@,
                        models@,
                        countryv,
                        years@,
                        now_month,
                        #[trigger] r@[i],
                    ) by {
                        if i >= r0.len() {
                            assert(r@[i].month == month);
                            assert(snapshots@[si2 as int].1@.contains(r@[i].aircraft));
                            assert(spec_is_closest(
                                snapshots@.map_values(|p: (Date, Vec<Aircraft>)| p.0),
                                r@[i].month,
                                snapshots@[si2 as int].0,
                            ));
                        } else {
                            assert(r@[i] == r0[i]);
                        }
                    }
                    assert forall|yy: int, mm: int, s2: int, k2: int|
                        #![trigger month_at(years@[yy], mm), snapshots@[s2].1@[k2]]
                        {
                            &&& 0 <= yy < y + 1
                            &&& 1 <= mm <= 12
                            &&& (yy < y || mm < m + 1)
                            &&& 0 <= s2 < snapshots@.len()
                            &&& 0 <= k2 < snapshots@[s2].1@.len()
                            &&& month_at(years@[yy], mm).ord() < now_month.ord()
                            &&& spec_is_closest(
                                snap_dates,
                                month_at(years@[yy], mm),
                                snapshots@[s2].0,
                            )
                            &&& spec_country_ok(snapshots@[s2].1@[k2], countryv)
                            &&& exists|w: int|
                                0 <= w < models@.len() && (#[trigger] models@[w]).model@
                                    == snapshots@[s2].1@[k2].model@
                        } implies exists|i: int|
                        0 <= i < r@.len() && (#[trigger] r@[i]).month == month_at(years@[yy], mm)
                            && r@[i].aircraft == snapshots@[s2].1@[k2] by {
                        let mdate = month_at(years@[yy], mm);
                        if yy == y && mm == m {
                            assert(mdate == month);
                            // the closest date is unique, so this snapshot is the chosen one
                            assert(snap_dates[s2] == snapshots@[s2].0);
                            assert(spec_day_dist(snapshots@[s2].0, month) == spec_day_dist(
                                snapshots@[si2 as int].0,
                                month,
                            ));
                            assert(snapshots@[s2].0.ord() == snapshots@[si2 as int].0.ord());
                            assert(snapshots@[s2].0 == snapshots@[si2 as int].0);
                            assert(s2 == si2);
                            let i = choose|i: int|
                                0 <= i < r@.len() && (#[trigger] r@[i]).month == month && r@[
                                    i].aircraft == snapshots@[si2 as int].1@[k2];
                            assert(r@[i].month == mdate);
                        } else {
                            let i = choose|i: int|
                                0 <= i < r0.len() && (#[trigger] r0[i]).month == mdate && r0[
                                    i].aircraft == snapshots@[s2].1@[k2];
                            assert(r@[i] == r0[i]);
                        }
                    }
                }
            }
            m = m + 1;
        }
        y = y + 1;
    }
    r
}

/// Appends the in-scope aircraft of snapshot `si` for `month` to `out`.
#[verifier::spinoff_prover]
#[verifier::rlimit(100)]
fn add_month_tasks(
    out: &mut Vec<RequiredTask>,
    snapshots: &Vec<(Date, Vec<Aircraft>)>,
    si: usize,
    models: &Vec<AircraftModel>,
    maybe_country: Option<&str>,
    month: Date,
)
    requires
        si < snapshots@.len(),
    ensures
        final(out)@.len() >= old(out)@.len(),
        forall|i: int| 0 <= i < old(out)@.len() ==> final(out)@[i] == old(out)@[i],
        forall|i: int|
            old(out)@.len() <= i < final(out)@.len() ==> {
                &&& (#[trigger] final(out)@[i]).month == month
                &&& snapshots@[si as int].1@.contains(final(out)@[i].aircraft)
                &&& final(out)@[i].icao_number@ == final(out)@[i].aircraft.icao_number@
                &&& spec_country_ok(
                    final(out)@[i].aircraft,
                    match maybe_country {
                        Some(c) => Some(c@),
                        None => None,
                    },
                )
                &&& models@.contains(final(out)@[i].model)
                &&& final(out)@[i].model.model@ == final(out)@[i].aircraft.model@
            },
        forall|k: int|
            {
                &&& 0 <= k < snapshots@[si as int].1@.len()
                &&& spec_country_ok(
                    #[trigger] snapshots@[si as int].1@[k],
                    match maybe_country {
                        Some(c) => Some(c@),
                        None => None,
                    },
                )
                &&& exists|w: int|
                    0 <= w < models@.len() && (#[trigger] models@[w]).model@ == snapshots@[
                        si as int].1@[k].model@
            } ==> exists|i: int|
                0 <= i < final(out)@.len() && (#[trigger] final(out)@[i]).month == month
                    && final(out)@[i].aircraft == snapshots@[si as int].1@[k],
{
    let list = &snapshots[si].1;
    let mut k: usize = 0;
    while k < list.len()
        invariant
            si < snapshots@.len(),
            list@ == snapshots@[si as int].1@,
            k <= list@.len(),
            out@.len() >= old(out)@.len(),
            forall|i: int| 0 <= i < old(out)@.len() ==> out@[i] == old(out)@[i],
            forall|i: int|
                old(out)@.len() <= i < out@.len() ==> {
                    &&& (#[trigger] out@[i]).month == month
                    &&& snapshots@[si as int].1@.contains(out@[i].aircraft)
                    &&& out@[i].icao_number@ == out@[i].aircraft.icao_number@
                    &&& spec_country_ok(
                        out@[i].aircraft,
                        match maybe_country {
                            Some(c) => Some(c@),
                            None => None,
                        },
                    )
                    &&& models@.contains(out@[i].model)
                    &&& out@[i].model.model@ == out@[i].aircraft.model@
                },
            forall|x: int|
                {
                    &&& 0 <= x < k
                    &&& spec_country_ok(
                        #[trigger] snapshots@[si as int].1@[x],
                        match maybe_country {
                            Some(c) => Some(c@),
                            None => None,
                        },
                    )
                    &&& exists|w: int|
                        0 <= w < models@.len() && (#[trigger] models@[w]).model@ == snapshots@[
                            si as int].1@[x].model@
                } ==> exists|i: int|
                    0 <= i < out@.len() && (#[trigger] out@[i]).month == month && out@[i].aircraft
                        == snapshots@[si as int].1@[x],
        decreases list@.len() - k,
    {
        let a = &list[k];
        let country_ok = match maybe_country {
            Some(c) => {
                match &a.country {
                    Some(ac) => str_eq(ac.as_str(), c),
                    None => false,
                }
            },
            None => true,
        };
        if country_ok {
            // look the model up in the table
            let mut w: usize = 0;
            let mut found: Option<usize> = None;
            while w < models.len()
                invariant
                    w <= models@.len(),
                    si < snapshots@.len(),
                    list@ == snapshots@[si as int].1@,
                    k < list@.len(),
                    a.model@ == list@[k as int].model@,
                    match found {
                        Some(f) => f < models@.len() && models@[f as int].model@ == list@[
                            k as int].model@,
                        None => forall|x: int|
                            0 <= x < w ==> (#[trigger] models@[x]).model@ != list@[k as int].model@,
                    },
                ensures
                    match found {
                        Some(f) => f < models@.len() && models@[f as int].model@ == list@[
                            k as int].model@,
                        None => forall|x: int|
                            0 <= x < models@.len() ==> (#[trigger] models@[x]).model@ != list@[
                                k as int].model@,
                    },
                decreases models@.len() - w,
            {
                if str_eq(models[w].model.as_str(), a.model.as_str()) {
                    proof {
                        assert(models@[w as int].model@ == list@[k as int].model@);
                    }
                    found = Some(w);
                    break ;
                }
                w = w + 1;
            }
            match found {
                Some(f) => {
                    let ghost out0 = out@;
                    let task = RequiredTask {
                        icao_number: a.icao_number.clone(),
                        month,
                        aircraft: a.clone_aircraft(),
                        model: models[f].clone_model(),
                    };
                    out.push(task);
                    proof {
                        assert(out@.drop_last() =~= out0);
                        assert(out@.last().aircraft == list@[k as int]);
                        assert(snapshots@[si as int].1@.contains(list@[k as int]));
                        assert(models@.contains(models@[f as int]));
                    }
                },
                None => {},
            }
        }
        k = k + 1;
    }
}

} // verus!
