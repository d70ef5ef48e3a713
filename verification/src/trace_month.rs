use vstd::prelude::*;

use crate::codec::{decode_positions, encode_positions, spec_all_encodable, spec_enc_positions,
    spec_json_positions};
use crate::date::Date;
use crate::fs::{BlobStorageProvider, CacheAction};
use crate::serde::{month_to_part, spec_month_part};
use crate::text::{
    find_char, parse_digits, spec_all_digits, spec_digits_val, str_eq, str_starts_with, substring,
};
use crate::Position;

verus! {

/// A pair that a month-partition blob name can encode: a first-of-month
/// date with a four-digit year, and an icao text free of `/`.
pub open spec fn spec_pk_wf(ic: Seq<char>, dd: Date) -> bool {
    &&& dd.valid()
    &&& dd.day == 1
    &&& 1000 <= dd.year
    &&& forall|j: int| 0 <= j < ic.len() ==> ic[j] != '/'
}

/// The blob name under which the positions of `icao` during the month of
/// `date` are stored.
pub open spec fn spec_pk_blob_name(icao: Seq<char>, date: Date) -> Seq<char> {
    "position/icao_number="@ + icao + "/month="@ + spec_month_part(date) + "/data.json"@
}

/// Returns the month-partition blob name for `(icao, date)`.
pub fn pk_to_blob_name(icao: &str, date: Date) -> (r: String)
    requires
        date.valid(),
    ensures
        r@ == spec_pk_blob_name(icao@, date),
{
    let mut s = "position/icao_number=".to_owned();
    s.append(icao);
    s.append("/month=");
    s.append(month_to_part(date).as_str());
    s.append("/data.json");
    proof {
        assert(s@ =~= spec_pk_blob_name(icao@, date));
    }
    s
}

/// Reads `(icao, month)` back out of a month-partition blob name, or
/// returns `None` when the name is not of that shape.
///
/// Together with [`pk_to_blob_name`] this is the hive-path round-trip law:
/// for every icao text without `/` and every first-of-month date with a
/// four-digit year, decoding the encoded name yields the pair back.
#[verifier::spinoff_prover]
#[verifier::rlimit(100)]
pub fn blob_name_to_pk(blob: &str) -> (r: Option<(String, Date)>)
    ensures
        r matches Some(p) ==> {
            &&& blob@ == spec_pk_blob_name(p.0@, p.1)
            &&& p.1.valid()
            &&& p.1.day == 1
            &&& 1000 <= p.1.year
            &&& forall|j: int| 0 <= j < p.0@.len() ==> p.0@[j] != '/'
        },
        forall|ic: Seq<char>, dd: Date|
            spec_pk_wf(ic, dd) && blob@ == #[trigger] spec_pk_blob_name(ic, dd)
                ==> (r matches Some(p) && p.0@ == ic && p.1 == dd),
{
    broadcast use vstd::seq_lib::group_seq_properties;

    proof {
        reveal_strlit("position/icao_number=");
        reveal_strlit("/month=");
        reveal_strlit("/data.json");
        reveal_strlit("-");
    }
    let n = blob.unicode_len();
    proof {
        assert forall|ic: Seq<char>, dd: Date| spec_pk_wf(ic, dd) && blob@ == #[trigger] spec_pk_blob_name(ic, dd) implies {
            &&& blob@.len() == 45 + ic.len()
            &&& blob@.subrange(0, 21) == "position/icao_number="@
            &&& blob@.subrange(21, 21 + ic.len() as int) == ic
            &&& blob@.subrange(21 + ic.len() as int, 28 + ic.len() as int) == "/month="@
            &&& blob@.subrange(28 + ic.len() as int, 32 + ic.len() as int) == crate::text::spec_dec(
                dd.year as int,
            )
            &&& blob@[32 + ic.len() as int] == '-'
            &&& blob@.subrange(33 + ic.len() as int, 35 + ic.len() as int) == crate::text::spec_pad2(
                dd.month as int,
            )
            &&& blob@.subrange(35 + ic.len() as int, 45 + ic.len() as int) == "/data.json"@
        } by {
            crate::text::lemma_dec_len4(dd.year as int);
            assert(spec_month_part(dd).len() == 7);
            assert(blob@.subrange(0, 21) =~= "position/icao_number="@);
            assert(blob@.subrange(21, 21 + ic.len() as int) =~= ic);
            assert(blob@.subrange(21 + ic.len() as int, 28 + ic.len() as int) =~= "/month="@);
            assert(blob@.subrange(28 + ic.len() as int, 32 + ic.len() as int) =~= crate::text::spec_dec(
                dd.year as int,
            ));
            assert(blob@.subrange(33 + ic.len() as int, 35 + ic.len() as int) =~= crate::text::spec_pad2(
                dd.month as int,
            ));
            assert(blob@.subrange(35 + ic.len() as int, 45 + ic.len() as int) =~= "/data.json"@);
        }
    }
    if !str_starts_with(blob, "position/icao_number=") {
        return None;
    }
    if n < 45 {
        return None;
    }
    let e = find_char(blob, 21, '/');
    if n - e != 24 {
        proof {
            assert forall|ic: Seq<char>, dd: Date| spec_pk_wf(ic, dd) && blob@ == #[trigger] spec_pk_blob_name(ic, dd) implies false by {
                assert(blob@[21 + ic.len() as int] == '/');
                assert forall|j: int| 21 <= j < 21 + ic.len() as int implies blob@[j] != '/' by {
                    assert(blob@[j] == ic[j - 21]);
                }
                assert(e == 21 + ic.len() as int);
            }
        }
        return None;
    }
    let month_kw = substring(blob, e, e + 7);
    if !str_eq(month_kw.as_str(), "/month=") {
        proof {
            assert forall|ic: Seq<char>, dd: Date| spec_pk_wf(ic, dd) && blob@ == #[trigger] spec_pk_blob_name(ic, dd) implies false by {
                assert(blob@[21 + ic.len() as int] == '/');
                assert forall|j: int| 21 <= j < 21 + ic.len() as int implies blob@[j] != '/' by {
                    assert(blob@[j] == ic[j - 21]);
                }
                assert(e == 21 + ic.len() as int);
                assert(month_kw@ =~= "/month="@);
            }
        }
        return None;
    }
    // year digits
    let y0 = blob.get_char(e + 7);
    let y1 = blob.get_char(e + 8);
    let y2 = blob.get_char(e + 9);
    let y3 = blob.get_char(e + 10);
    if y0 < '0' || y0 > '9' || y1 < '0' || y1 > '9' || y2 < '0' || y2 > '9' || y3 < '0' || y3
        > '9' {
        proof {
            assert forall|ic: Seq<char>, dd: Date| spec_pk_wf(ic, dd) && blob@ == #[trigger] spec_pk_blob_name(ic, dd) implies false by {
                assert(blob@[21 + ic.len() as int] == '/');
                assert forall|j: int| 21 <= j < 21 + ic.len() as int implies blob@[j] != '/' by {
                    assert(blob@[j] == ic[j - 21]);
                }
                assert(e == 21 + ic.len() as int);
                crate::text::lemma_dec_digits(dd.year as int);
                assert(blob@[e + 7] == crate::text::spec_dec(dd.year as int)[0]);
                assert(blob@[e + 8] == crate::text::spec_dec(dd.year as int)[1]);
                assert(blob@[e + 9] == crate::text::spec_dec(dd.year as int)[2]);
                assert(blob@[e + 10] == crate::text::spec_dec(dd.year as int)[3]);
            }
        }
        return None;
    }
    proof {
        assert(blob@.subrange(e + 7, e + 11) =~= seq![y0, y1, y2, y3]);
        assert(spec_all_digits(blob@.subrange(e + 7, e + 11)));
    }
    let year = parse_digits(blob, e + 7, e + 11);
    proof {
        crate::text::lemma_digits_val_bound(blob@.subrange(e + 7, e + 11));
        assert(crate::text::pow10(4) == 10000) by {
            assert(crate::text::pow10(0) == 1);
            assert(crate::text::pow10(1) == 10);
            assert(crate::text::pow10(2) == 100);
            assert(crate::text::pow10(3) == 1000);
        }
    }
    // separator
    if blob.get_char(e + 11) != '-' {
        proof {
            assert forall|ic: Seq<char>, dd: Date| spec_pk_wf(ic, dd) && blob@ == #[trigger] spec_pk_blob_name(ic, dd) implies false by {
                assert(blob@[21 + ic.len() as int] == '/');
                assert forall|j: int| 21 <= j < 21 + ic.len() as int implies blob@[j] != '/' by {
                    assert(blob@[j] == ic[j - 21]);
                }
                assert(e == 21 + ic.len() as int);
            }
        }
        return None;
    }
    // month digits
    let m0 = blob.get_char(e + 12);
    let m1 = blob.get_char(e + 13);
    if m0 < '0' || m0 > '9' || m1 < '0' || m1 > '9' {
        proof {
            assert forall|ic: Seq<char>, dd: Date| spec_pk_wf(ic, dd) && blob@ == #[trigger] spec_pk_blob_name(ic, dd) implies false by {
                assert(blob@[21 + ic.len() as int] == '/');
                assert forall|j: int| 21 <= j < 21 + ic.len() as int implies blob@[j] != '/' by {
                    assert(blob@[j] == ic[j - 21]);
                }
                assert(e == 21 + ic.len() as int);
                assert(blob@[e + 12] == crate::text::spec_pad2(dd.month as int)[0]);
                assert(blob@[e + 13] == crate::text::spec_pad2(dd.month as int)[1]);
                crate::text::lemma_pad2_digits(dd.month as int);
            }
        }
        return None;
    }
    proof {
        assert(blob@.subrange(e + 12, e + 14) =~= seq![m0, m1]);
        assert(spec_all_digits(blob@.subrange(e + 12, e + 14)));
    }
    let month = parse_digits(blob, e + 12, e + 14);
    let tail = substring(blob, e + 14, n);
    if !str_eq(tail.as_str(), "/data.json") {
        proof {
            assert forall|ic: Seq<char>, dd: Date| spec_pk_wf(ic, dd) && blob@ == #[trigger] spec_pk_blob_name(ic, dd) implies false by {
                assert(blob@[21 + ic.len() as int] == '/');
                assert forall|j: int| 21 <= j < 21 + ic.len() as int implies blob@[j] != '/' by {
                    assert(blob@[j] == ic[j - 21]);
                }
                assert(e == 21 + ic.len() as int);
                assert(tail@ =~= "/data.json"@);
            }
        }
        return None;
    }
    if year < 1000 || month < 1 || month > 12 {
        proof {
            assert forall|ic: Seq<char>, dd: Date| spec_pk_wf(ic, dd) && blob@ == #[trigger] spec_pk_blob_name(ic, dd) implies false by {
                assert(blob@[21 + ic.len() as int] == '/');
                assert forall|j: int| 21 <= j < 21 + ic.len() as int implies blob@[j] != '/' by {
                    assert(blob@[j] == ic[j - 21]);
                }
                assert(e == 21 + ic.len() as int);
                crate::text::lemma_dec_digits(dd.year as int);
                assert(blob@.subrange(e + 7, e + 11) =~= crate::text::spec_dec(dd.year as int));
                crate::text::lemma_pad2_digits(dd.month as int);
                assert(blob@.subrange(e + 12, e + 14) =~= crate::text::spec_pad2(dd.month as int));
            }
        }
        return None;
    }
    let icao = substring(blob, 21, e);
    let date = Date { year: year as i32, month: month as u8, day: 1 };
    proof {
        // soundness: the name is the encoding of what was read back
        crate::text::lemma_digits4_canonical(blob@.subrange(e + 7, e + 11));
        crate::text::lemma_dec_is_pad4(year as int);
        crate::text::lemma_digits2_canonical(blob@.subrange(e + 12, e + 14));
        assert(blob@ =~= spec_pk_blob_name(icao@, date));
        assert forall|j: int| 0 <= j < icao@.len() implies icao@[j] != '/' by {
            assert(icao@[j] == blob@[21 + j]);
        }
        // completeness: a well-formed input reads back to itself
        assert forall|ic: Seq<char>, dd: Date| spec_pk_wf(ic, dd) && blob@ == #[trigger] spec_pk_blob_name(ic, dd) implies icao@ == ic
            && date == dd by {
            assert(blob@[21 + ic.len() as int] == '/');
            assert forall|j: int| 21 <= j < 21 + ic.len() as int implies blob@[j] != '/' by {
                assert(blob@[j] == ic[j - 21]);
            }
            assert(e == 21 + ic.len() as int);
            assert(icao@ =~= ic);
            crate::text::lemma_dec_digits(dd.year as int);
            assert(blob@.subrange(e + 7, e + 11) =~= crate::text::spec_dec(dd.year as int));
            crate::text::lemma_pad2_digits(dd.month as int);
            assert(blob@.subrange(e + 12, e + 14) =~= crate::text::spec_pad2(dd.month as int));
        }
    }
    Some((icao, date))
}

/// The first day of the month after the month of `m`.
pub open spec fn spec_next_month(m: Date) -> Date {
    if m.month == 12 {
        Date { year: (m.year + 1) as i32, month: 1u8, day: 1u8 }
    } else {
        Date { year: m.year, month: (m.month + 1) as u8, day: 1u8 }
    }
}

/// Returns the first day of the next month.
pub fn first_of_next_month(month: &Date) -> (r: Date)
    requires
        month.valid(),
        month.year < 9999,
    ensures
        r.valid(),
        r.day == 1,
        r == spec_next_month(*month),
        r.ord() > month.ord(),
{
    if month.month == 12 {
        Date { year: month.year + 1, month: 1, day: 1 }
    } else {
        Date { year: month.year, month: month.month + 1, day: 1 }
    }
}

/// The positions are ordered by timestamp, earliest first.
pub open spec fn spec_sorted(s: Seq<Position>) -> bool {
    forall|i: int, j: int|
        0 <= i < j < s.len() ==> (#[trigger] s[i]).datetime_ms <= (#[trigger] s[j]).datetime_ms
}

/// Sorts positions by timestamp. The order of positions with equal
/// timestamps is not specified.
pub fn sort_positions(positions: Vec<Position>) -> (r: Vec<Position>)
    ensures
        spec_sorted(r@),
        r@.to_multiset() == positions@.to_multiset(),
        r@.len() == positions@.len(),
{
    let mut rest = positions;
    let mut r: Vec<Position> = Vec::new();
    proof {
        r@.to_multiset_ensures();
        assert forall|x: Position| r@.to_multiset().count(x) == 0 by {
            if r@.to_multiset().count(x) > 0 {
                assert(r@.contains(x));
            }
        }
        assert(r@.to_multiset().add(rest@.to_multiset()) =~= positions@.to_multiset());
    }
    while rest.len() > 0
        invariant
            r@.to_multiset().add(rest@.to_multiset()) =~= positions@.to_multiset(),
            r@.len() + rest@.len() == positions@.len(),
            spec_sorted(r@),
            forall|a: int, b: int|
                0 <= a < r@.len() && 0 <= b < rest@.len() ==> (#[trigger] r@[a]).datetime_ms
                    <= (#[trigger] rest@[b]).datetime_ms,
        decreases rest@.len(),
    {
        let mut min_idx: usize = 0;
        let mut j: usize = 1;
        while j < rest.len()
            invariant
                rest@.len() > 0,
                min_idx < j <= rest@.len(),
                forall|b: int|
                    0 <= b < j ==> rest@[min_idx as int].datetime_ms <= (
                    #[trigger] rest@[b]).datetime_ms,
            decreases rest@.len() - j,
        {
            if rest[j].datetime_ms < rest[min_idx].datetime_ms {
                min_idx = j;
            }
            j = j + 1;
        }
        let ghost rest0 = rest@;
        let p = rest.remove(min_idx);
        let ghost r0 = r@;
        r.push(p);
        proof {
            rest0.to_multiset_ensures();
            r0.to_multiset_ensures();
            assert(rest@ =~= rest0.remove(min_idx as int));
            assert(rest0.remove(min_idx as int).to_multiset() =~= rest0.to_multiset().remove(
                rest0[min_idx as int],
            ));
            assert(p == rest0[min_idx as int]);
            assert(r@ =~= r0.push(p));
            assert(r0.push(p).to_multiset() =~= r0.to_multiset().insert(p));
            assert(rest0.contains(p));
            assert(rest0.to_multiset().contains(p));
            assert(r@.to_multiset().add(rest@.to_multiset()) =~= positions@.to_multiset());
            assert forall|b: int|
                0 <= b < rest@.len() implies p.datetime_ms <= (
            #[trigger] rest@[b]).datetime_ms by {
                if b < min_idx {
                    assert(rest@[b] == rest0[b]);
                } else {
                    assert(rest@[b] == rest0[b + 1]);
                }
            }
        }
    }
    proof {
        rest@.to_multiset_ensures();
        assert forall|x: Position| rest@.to_multiset().count(x) == 0 by {
            if rest@.to_multiset().count(x) > 0 {
                assert(rest@.contains(x));
            }
        }
        assert(r@.to_multiset() =~= positions@.to_multiset());
    }
    r
}

/// Milliseconds since the Unix epoch at 00:00 UTC of `d`.
pub fn date_to_unix_ms(d: &Date) -> (r: i64)
    requires
        d.valid(),
    ensures
        r == (d.spec_day_number() - 719468) * 86400000,
{
    let dn = d.day_number();
    (dn as i64 - 719468) * 86400000
}

/// Whether the positions are ordered by timestamp.
pub fn is_sorted(ps: &Vec<Position>) -> (r: bool)
    ensures
        r == spec_sorted(ps@),
{
    let mut i: usize = 1;
    if ps.len() == 0 {
        return true;
    }
    while i < ps.len()
        invariant
            1 <= i <= ps@.len(),
            ps@.len() > 0,
            spec_sorted(ps@.take(i as int)),
            forall|k: int|
                0 <= k < i ==> (#[trigger] ps@[k]).datetime_ms <= ps@[i - 1].datetime_ms,
        decreases ps@.len() - i,
    {
        if ps[i].datetime_ms < ps[i - 1].datetime_ms {
            return false;
        }
        i = i + 1;
    }
    proof {
        assert(ps@.take(ps@.len() as int) =~= ps@);
    }
    true
}

/// Whether all fields of the position fit the canonical record widths.
pub fn is_encodable(p: &Position) -> (r: bool)
    ensures
        r == crate::codec::spec_encodable(*p),
{
    crate::serde::RFC3339_MS_MIN <= p.datetime_ms && p.datetime_ms
        <= crate::serde::RFC3339_MS_MAX && -1_000_000_000 < p.latitude_udeg && p.latitude_udeg
        < 1_000_000_000 && -1_000_000_000 < p.longitude_udeg && p.longitude_udeg < 1_000_000_000
        && (match p.altitude_ft {
        Some(a) => -10_000_000 < a && a < 10_000_000,
        None => true,
    })
}

/// `ds` is the full run of days from `from` (inclusive) to `to`
/// (exclusive), in ascending order: it starts at `from`, steps by one day,
/// and stops exactly when `to` is reached.
pub open spec fn spec_day_run(from: Date, to: Date, ds: Seq<Date>) -> bool {
    &&& (ds.len() == 0 <==> from.ord() >= to.ord())
    &&& ds.len() > 0 ==> ds[0] == from
    &&& forall|i: int| 0 <= i < ds.len() ==> from.ord() <= (#[trigger] ds[i]).ord() < to.ord()
    &&& forall|i: int| 0 <= i < ds.len() - 1 ==> #[trigger] ds[i + 1] == ds[i].spec_next_day()
    &&& ds.len() > 0 ==> ds.last().spec_next_day().ord() >= to.ord()
}

/// The concatenation of the sequences, in order.
pub open spec fn spec_concat(vs: Seq<Seq<Position>>) -> Seq<Position>
    decreases vs.len(),
{
    if vs.len() == 0 {
        Seq::empty()
    } else {
        spec_concat(vs.drop_last()) + vs.last()
    }
}

/// `v` is a position list that `fetch_day` can return on day `d`.
pub open spec fn spec_fetch_yields<F: Fn(Date) -> Result<Vec<Position>, String>>(
    fetch_day: F,
    d: Date,
    v: Seq<Position>,
) -> bool {
    exists|w: Vec<Position>| #[trigger] call_ensures(fetch_day, (d,), Ok(w)) && w@ == v
}

/// Each `vs[i]` is a position list that `fetch_day` can return on day
/// `ds[i]`.
pub open spec fn spec_fetched_days<F: Fn(Date) -> Result<Vec<Position>, String>>(
    fetch_day: F,
    ds: Seq<Date>,
    vs: Seq<Seq<Position>>,
) -> bool {
    &&& vs.len() == ds.len()
    &&& forall|i: int| 0 <= i < ds.len() ==> spec_fetch_yields(fetch_day, #[trigger] ds[i], vs[i])
}

/// What a successful month fetch leaves behind. On a hit the stored blob
/// is the canonical encoding of the result and the store is unchanged. On
/// a miss the result is, up to the sort, the concatenation of one fetched
/// position list per day of the month, and the canonical bytes are written
/// back exactly when the month is fully past and the store accepts writes.
pub open spec fn spec_month_fetch_ok<F: Fn(Date) -> Result<Vec<Position>, String>>(
    pre: Map<Seq<char>, Seq<u8>>,
    post: Map<Seq<char>, Seq<u8>>,
    can_put: bool,
    icao: Seq<char>,
    month: Date,
    today: Date,
    fetch_day: F,
    ps: Seq<Position>,
) -> bool {
    let key = spec_pk_blob_name(icao, month);
    &&& spec_sorted(ps)
    &&& spec_all_encodable(ps)
    &&& if pre.contains_key(key) {
        post == pre && spec_json_positions(pre[key]) == Some(ps)
    } else {
        &&& exists|ds: Seq<Date>, vs: Seq<Seq<Position>>|
            #![trigger spec_day_run(month, spec_next_month(month), ds), spec_fetched_days(fetch_day, ds, vs)]
            {
                &&& spec_day_run(month, spec_next_month(month), ds)
                &&& spec_fetched_days(fetch_day, ds, vs)
                &&& ps.to_multiset() == spec_concat(vs).to_multiset()
            }
        &&& post == if spec_next_month(month).ord() < today.ord() && can_put {
            pre.insert(key, spec_enc_positions(ps))
        } else {
            pre
        }
    }
}

/// Returns the positions of an aircraft at a given month, ordered by
/// timestamp. On a cache hit the stored month blob is decoded; on a miss
/// every day of the month is fetched through `fetch_day`, the days are
/// flattened and sorted, and the canonical bytes are written back when the
/// caching rule allows it (the month is complete and the store accepts
/// writes).
pub fn month_positions<T: BlobStorageProvider, F: Fn(Date) -> Result<Vec<Position>, String>>(
    icao_number: &str,
    month: Date,
    client: &mut T,
    fetch_day: F,
    today: Date,
) -> (r: Result<Vec<Position>, String>)
    requires
        month.valid(),
        month.day == 1,
        month.year < 9999,
        today.in_bounds() || today.valid(),
        forall|d: Date| #[trigger] call_requires(fetch_day, (d,)),
    ensures
        final(client).spec_can_put() == old(client).spec_can_put(),
        r matches Ok(ps) ==> spec_sorted(ps@) && spec_all_encodable(ps@),
        r matches Ok(ps) ==> (old(client).blobs().contains_key(
            spec_pk_blob_name(icao_number@, month),
        ) ==> final(client).blobs() == old(client).blobs() && spec_json_positions(
            old(client).blobs()[spec_pk_blob_name(icao_number@, month)],
        ) == Some(ps@)),
        r matches Ok(ps) ==> spec_month_fetch_ok(
            old(client).blobs(),
            final(client).blobs(),
            old(client).spec_can_put(),
            icao_number@,
            month,
            today,
            fetch_day,
            ps@,
        ),
        r matches Err(_) ==> final(client).blobs() == old(client).blobs(),
{
    let blob_name = pk_to_blob_name(icao_number, month);
    let to = first_of_next_month(&month);
    let action = CacheAction::from_date(&to, &today);
    match client.maybe_get(blob_name.as_str()) {
        Err(e) => Err(e),
        Ok(Some(bytes)) => {
            match decode_positions(&bytes) {
                Some(ps) => {
                    if is_sorted(&ps) {
                        proof {
                            assert(spec_month_fetch_ok(
                                old(client).blobs(),
                                client.blobs(),
                                old(client).spec_can_put(),
                                icao_number@,
                                month,
                                today,
                                fetch_day,
                                ps@,
                            ));
                        }
                        Ok(ps)
                    } else {
                        Err("stored month blob is not sorted".to_owned())
                    }
                },
                None => Err("stored month blob is malformed".to_owned()),
            }
        },
        Ok(None) => {
            let days = crate::date::date_range(month, to);
            let mut all: Vec<Position> = Vec::new();
            let ghost mut vs: Seq<Seq<Position>> = Seq::empty();
            let mut i: usize = 0;
            proof {
                assert(days@.take(0) =~= Seq::<Date>::empty());
                assert(all@ =~= spec_concat(vs));
            }
            while i < days.len()
                invariant
                    forall|d: Date| #[trigger] call_requires(fetch_day, (d,)),
                    forall|k: int| 0 <= k < days@.len() ==> (#[trigger] days@[k]).valid(),
                    i <= days@.len(),
                    vs.len() == i,
                    spec_fetched_days(fetch_day, days@.take(i as int), vs),
                    all@ == spec_concat(vs),
                decreases days@.len() - i,
            {
                let ghost all0 = all@;
                let ghost vs0 = vs;
                match fetch_day(days[i]) {
                    Ok(mut ps) => {
                        let ghost fetched = ps;
                        all.append(&mut ps);
                        proof {
                            vs = vs0.push(fetched@);
                            assert(call_ensures(fetch_day, (days@[i as int],), Ok(fetched)));
                            assert(vs.drop_last() =~= vs0);
                            assert(vs.last() == fetched@);
                            assert(all@ =~= all0 + fetched@);
                            assert(all@ =~= spec_concat(vs));
                            let ghost dsn = days@.take(i as int + 1);
                            assert forall|x: int|
                                0 <= x < dsn.len() implies spec_fetch_yields(
                                fetch_day,
                                #[trigger] dsn[x],
                                vs[x],
                            ) by {
                                if x < i {
                                    assert(dsn[x] == days@.take(i as int)[x]);
                                    assert(spec_fetch_yields(
                                        fetch_day,
                                        days@.take(i as int)[x],
                                        vs0[x],
                                    ));
                                    assert(vs[x] == vs0[x]);
                                } else {
                                    assert(dsn[x] == days@[i as int]);
                                    assert(call_ensures(fetch_day, (dsn[x],), Ok(fetched))
                                        && fetched@ == vs[x]);
                                }
                            }
                            assert(spec_fetched_days(fetch_day, dsn, vs));
                        }
                    },
                    Err(e) => {
                        return Err(e);
                    },
                }
                i = i + 1;
            }
            proof {
                assert(days@.take(days@.len() as int) =~= days@);
                assert(spec_fetched_days(fetch_day, days@, vs));
            }
            let mut j: usize = 0;
            while j < all.len()
                invariant
                    j <= all@.len(),
                    forall|k: int|
                        0 <= k < j ==> crate::codec::spec_encodable(#[trigger] all@[k]),
                decreases all@.len() - j,
            {
                if !is_encodable(&all[j]) {
                    return Err("a fetched position is out of range".to_owned());
                }
                j = j + 1;
            }
            let ghost all1 = all@;
            let sorted = sort_positions(all);
            proof {
                assert forall|k: int|
                    0 <= k < sorted@.len() implies crate::codec::spec_encodable(
                    #[trigger] sorted@[k],
                ) by {
                    sorted@.to_multiset_ensures();
                    all1.to_multiset_ensures();
                    assert(sorted@.contains(sorted@[k]));
                    assert(sorted@.to_multiset().count(sorted@[k]) > 0);
                    assert(all1.to_multiset().count(sorted@[k]) > 0);
                    assert(all1.contains(sorted@[k]));
                    let x = choose|x: int| 0 <= x < all1.len() && all1[x] == sorted@[k];
                    assert(crate::codec::spec_encodable(all1[x]));
                }
                assert(spec_day_run(month, spec_next_month(month), days@));
                assert(sorted@.to_multiset() == spec_concat(vs).to_multiset());
            }
            let bytes = encode_positions(&sorted);
            if !matches!(action, CacheAction::ReadFetch) && client.can_put() {
                match client.put(blob_name.as_str(), &bytes) {
                    Ok(_) => {
                        proof {
                            assert(spec_month_fetch_ok(
                                old(client).blobs(),
                                client.blobs(),
                                old(client).spec_can_put(),
                                icao_number@,
                                month,
                                today,
                                fetch_day,
                                sorted@,
                            ));
                        }
                        Ok(sorted)
                    },
                    Err(e) => Err(e),
                }
            } else {
                proof {
                    assert(spec_month_fetch_ok(
                        old(client).blobs(),
                        client.blobs(),
                        old(client).spec_can_put(),
                        icao_number@,
                        month,
                        today,
                        fetch_day,
                        sorted@,
                    ));
                }
                Ok(sorted)
            }
        },
    }
}

/// `ms` is the full run of first-of-month dates from `first` (inclusive)
/// to `to` (exclusive), in ascending order.
pub open spec fn spec_month_run(first: Date, to: Date, ms: Seq<Date>) -> bool {
    &&& (ms.len() == 0 <==> first.ord() >= to.ord())
    &&& ms.len() > 0 ==> ms[0] == first
    &&& forall|i: int| 0 <= i < ms.len() ==> (#[trigger] ms[i]).ord() < to.ord()
    &&& forall|i: int| 0 <= i < ms.len() - 1 ==> #[trigger] ms[i + 1] == spec_next_month(ms[i])
    &&& ms.len() > 0 ==> spec_next_month(ms.last()).ord() >= to.ord()
}

/// One month fetch per entry of `ms`, in order, threading the store: the
/// store states are `bs` (one more than fetches, first before, last
/// after), and the per-month results are `rs`.
pub open spec fn spec_months_chain<F: Fn(Date) -> Result<Vec<Position>, String>>(
    bs: Seq<Map<Seq<char>, Seq<u8>>>,
    can_put: bool,
    icao: Seq<char>,
    ms: Seq<Date>,
    rs: Seq<Seq<Position>>,
    today: Date,
    fetch_day: F,
) -> bool {
    &&& bs.len() == ms.len() + 1
    &&& rs.len() == ms.len()
    &&& forall|i: int|
        0 <= i < ms.len() ==> spec_month_fetch_ok(
            bs[i],
            bs[i + 1],
            can_put,
            icao,
            #[trigger] ms[i],
            today,
            fetch_day,
            rs[i],
        )
}

/// The positions of `s` whose timestamp lies in `[lo, hi)` milliseconds.
pub open spec fn spec_in_range(s: Seq<Position>, lo: int, hi: int) -> Seq<Position> {
    s.filter(|p: Position| lo <= p.datetime_ms < hi)
}

/// The per-month results of `rs`, each filtered to `[lo, hi)`, laid end to
/// end.
pub open spec fn spec_concat_in_range(rs: Seq<Seq<Position>>, lo: int, hi: int) -> Seq<Position> {
    spec_concat(rs.map_values(|s: Seq<Position>| spec_in_range(s, lo, hi)))
}

/// Returns the positions of an aircraft between two dates, ordered by
/// timestamp: the union of the month partitions of the range, filtered to
/// the half-open date range `[from, to)`. The result is, up to the sort,
/// the concatenation of one month fetch per month of the range, each
/// filtered to the range.
#[verifier::spinoff_prover]
#[verifier::rlimit(100)]
pub fn aircraft_positions<T: BlobStorageProvider, F: Fn(Date) -> Result<Vec<Position>, String>>(
    from: Date,
    to: Date,
    icao_number: &str,
    client: &mut T,
    fetch_day: F,
    today: Date,
) -> (r: Result<Vec<Position>, String>)
    requires
        from.valid(),
        to.valid(),
        to.year <= 9998,
        today.in_bounds() || today.valid(),
        forall|d: Date| #[trigger] call_requires(fetch_day, (d,)),
    ensures
        final(client).spec_can_put() == old(client).spec_can_put(),
        r matches Ok(ps) ==> spec_sorted(ps@) && spec_all_encodable(ps@) && forall|k: int|
            0 <= k < ps@.len() ==> (from.spec_day_number() - 719468) * 86400000 <= (
            #[trigger] ps@[k]).datetime_ms < (to.spec_day_number() - 719468) * 86400000,
        r matches Ok(ps) ==> exists|ms: Seq<Date>, rs: Seq<Seq<Position>>, bs: Seq<
            Map<Seq<char>, Seq<u8>>,
        >|
            #![trigger spec_months_chain(bs, old(client).spec_can_put(), icao_number@, ms, rs, today, &fetch_day)]
            {
                &&& spec_month_run(from.spec_first_of_month(), to, ms)
                &&& spec_months_chain(
                    bs,
                    old(client).spec_can_put(),
                    icao_number@,
                    ms,
                    rs,
                    today,
                    &fetch_day,
                )
                &&& bs[0] == old(client).blobs()
                &&& bs.last() == final(client).blobs()
                &&& ps@.to_multiset() == spec_concat_in_range(
                    rs,
                    (from.spec_day_number() - 719468) * 86400000,
                    (to.spec_day_number() - 719468) * 86400000,
                ).to_multiset()
            },
{
    let from_ms = date_to_unix_ms(&from);
    let to_ms = date_to_unix_ms(&to);
    let ghost pre0 = old(client).blobs();
    let ghost cp0 = old(client).spec_can_put();
    let mut month = from.first_of_month();
    let mut kept: Vec<Position> = Vec::new();
    let ghost mut ms: Seq<Date> = Seq::empty();
    let ghost mut rs: Seq<Seq<Position>> = Seq::empty();
    let ghost mut bs: Seq<Map<Seq<char>, Seq<u8>>> = seq![pre0];
    proof {
        assert(rs.map_values(|s: Seq<Position>| spec_in_range(s, from_ms as int, to_ms as int))
            =~= Seq::<Seq<Position>>::empty());
        assert(kept@ =~= spec_concat_in_range(rs, from_ms as int, to_ms as int));
    }
    while month.lt(&to)
        invariant
            forall|d: Date| #[trigger] call_requires(fetch_day, (d,)),
            today.in_bounds() || today.valid(),
            from.valid(),
            to.valid(),
            to.year <= 9998,
            month.valid(),
            month.day == 1,
            client.spec_can_put() == cp0,
            cp0 == old(client).spec_can_put(),
            pre0 == old(client).blobs(),
            from_ms == (from.spec_day_number() - 719468) * 86400000,
            to_ms == (to.spec_day_number() - 719468) * 86400000,
            rs.len() == ms.len(),
            ms.len() == 0 ==> month == from.spec_first_of_month(),
            ms.len() > 0 ==> ms[0] == from.spec_first_of_month(),
            forall|i: int| 0 <= i < ms.len() ==> (#[trigger] ms[i]).ord() < to.ord(),
            forall|i: int| 0 <= i < ms.len() - 1 ==> #[trigger] ms[i + 1] == spec_next_month(ms[i]),
            ms.len() > 0 ==> month == spec_next_month(ms.last()),
            spec_months_chain(bs, cp0, icao_number@, ms, rs, today, &fetch_day),
            bs[0] == pre0,
            bs.last() == client.blobs(),
            kept@ == spec_concat_in_range(rs, from_ms as int, to_ms as int),
            forall|k: int|
                0 <= k < kept@.len() ==> from_ms <= (#[trigger] kept@[k]).datetime_ms < to_ms,
            forall|k: int| 0 <= k < kept@.len() ==> crate::codec::spec_encodable(#[trigger] kept@[k]),
        decreases to.year * 12 + to.month - month.year * 12 - month.month + 1,
    {
        let ghost month0 = month;
        let ghost mid = client.blobs();
        let ghost ms0 = ms;
        let ghost rs0 = rs;
        proof {
            assert(month.year <= 9998);
        }
        let ps = match month_positions(icao_number, month, client, &fetch_day, today) {
            Ok(ps) => ps,
            Err(e) => {
                return Err(e);
            },
        };
        let ghost kept_outer = kept@;
        let mut k: usize = 0;
        proof {
            assert(ps@.take(0) =~= Seq::<Position>::empty());
            reveal(Seq::filter);
            assert(kept@ =~= kept_outer + spec_in_range(ps@.take(0), from_ms as int, to_ms as int));
        }
        while k < ps.len()
            invariant
                forall|x: int| 0 <= x < ps@.len() ==> crate::codec::spec_encodable(#[trigger] ps@[x]),
                from_ms == (from.spec_day_number() - 719468) * 86400000,
                to_ms == (to.spec_day_number() - 719468) * 86400000,
                forall|x: int|
                    0 <= x < kept@.len() ==> from_ms <= (#[trigger] kept@[x]).datetime_ms < to_ms,
                forall|x: int|
                    0 <= x < kept@.len() ==> crate::codec::spec_encodable(#[trigger] kept@[x]),
                k <= ps@.len(),
                kept@ == kept_outer + spec_in_range(ps@.take(k as int), from_ms as int, to_ms as int),
            decreases ps@.len() - k,
        {
            let ghost keptb = kept@;
            let p = ps[k];
            if from_ms <= p.datetime_ms && p.datetime_ms < to_ms {
                kept.push(p);
            }
            proof {
                reveal(Seq::filter);
                assert(ps@.take(k as int + 1).drop_last() =~= ps@.take(k as int));
                assert(ps@.take(k as int + 1).last() == p);
                if from_ms <= p.datetime_ms < to_ms {
                    assert(spec_in_range(ps@.take(k as int + 1), from_ms as int, to_ms as int)
                        =~= spec_in_range(ps@.take(k as int), from_ms as int, to_ms as int).push(
                        p,
                    ));
                    assert(kept@ =~= keptb.push(p));
                } else {
                    assert(spec_in_range(ps@.take(k as int + 1), from_ms as int, to_ms as int)
                        =~= spec_in_range(ps@.take(k as int), from_ms as int, to_ms as int));
                }
                assert(kept@ =~= kept_outer + spec_in_range(
                    ps@.take(k as int + 1),
                    from_ms as int,
                    to_ms as int,
                ));
            }
            k = k + 1;
        }
        proof {
            assert(ps@.take(ps@.len() as int) =~= ps@);
            let ghost bs0 = bs;
            ms = ms0.push(month0);
            rs = rs0.push(ps@);
            bs = bs0.push(client.blobs());
            assert(spec_month_fetch_ok(
                mid,
                client.blobs(),
                cp0,
                icao_number@,
                month0,
                today,
                &fetch_day,
                ps@,
            ));
            assert(bs0.last() == mid);
            assert forall|i: int|
                0 <= i < ms.len() implies spec_month_fetch_ok(
                bs[i],
                bs[i + 1],
                cp0,
                icao_number@,
                #[trigger] ms[i],
                today,
                &fetch_day,
                rs[i],
            ) by {
                if i < ms0.len() {
                    assert(ms[i] == ms0[i] && rs[i] == rs0[i] && bs[i] == bs0[i] && bs[i + 1]
                        == bs0[i + 1]);
                } else {
                    assert(ms[i] == month0 && rs[i] == ps@ && bs[i] == mid && bs[i + 1]
                        == client.blobs());
                }
            }
            assert(spec_months_chain(bs, cp0, icao_number@, ms, rs, today, &fetch_day));
            let ghost f = |s: Seq<Position>| spec_in_range(s, from_ms as int, to_ms as int);
            assert(rs.map_values(f).drop_last() =~= rs0.map_values(f));
            assert(rs.map_values(f).last() == spec_in_range(ps@, from_ms as int, to_ms as int));
            assert(kept@ =~= spec_concat(rs0.map_values(f)) + spec_in_range(
                ps@,
                from_ms as int,
                to_ms as int,
            ));
            assert(kept@ =~= spec_concat(rs.map_values(f)));
        }
        month = first_of_next_month(&month);
        proof {
            assert(month.year * 12 + month.month == month0.year * 12 + month0.month + 1);
            assert(month0.year * 12 + month0.month <= to.year * 12 + to.month);
        }
    }
    let ghost kept0 = kept@;
    let sorted = sort_positions(kept);
    proof {
        assert forall|k: int|
            0 <= k < sorted@.len() implies crate::codec::spec_encodable(#[trigger] sorted@[k])
            && from_ms <= sorted@[k].datetime_ms < to_ms by {
            sorted@.to_multiset_ensures();
            kept0.to_multiset_ensures();
            assert(sorted@.contains(sorted@[k]));
            assert(sorted@.to_multiset().count(sorted@[k]) > 0);
            assert(kept0.to_multiset().count(sorted@[k]) > 0);
            assert(kept0.contains(sorted@[k]));
            let x = choose|x: int| 0 <= x < kept0.len() && kept0[x] == sorted@[k];
            assert(crate::codec::spec_encodable(kept0[x]));
            assert(from_ms <= kept0[x].datetime_ms < to_ms);
        }
        assert(spec_month_run(from.spec_first_of_month(), to, ms));
        assert(spec_months_chain(bs, cp0, icao_number@, ms, rs, today, &fetch_day));
        assert(sorted@.to_multiset() == spec_concat_in_range(
            rs,
            from_ms as int,
            to_ms as int,
        ).to_multiset());
    }
    Ok(sorted)
}

/// Returns the positions of an aircraft at a given month from the store.
/// Use [`list_months_positions`] to list which exist.
pub fn get_month_positions<T: BlobStorageProvider>(
    icao_number: &str,
    month: Date,
    client: &T,
) -> (r: Result<Vec<Position>, String>)
    requires
        month.valid(),
        month.day == 1,
    ensures
        r matches Ok(ps) ==> {
            &&& client.blobs().contains_key(spec_pk_blob_name(icao_number@, month))
            &&& spec_json_positions(client.blobs()[spec_pk_blob_name(icao_number@, month)])
                == Some(ps@)
            &&& spec_all_encodable(ps@)
            &&& spec_sorted(ps@)
        },
{
    let blob_name = pk_to_blob_name(icao_number, month);
    match client.maybe_get(blob_name.as_str()) {
        Err(e) => Err(e),
        Ok(None) => {
            let mut e = blob_name;
            e.append(" does not exist");
            Err(e)
        },
        Ok(Some(bytes)) => {
            match decode_positions(&bytes) {
                Some(ps) => {
                    if is_sorted(&ps) {
                        Ok(ps)
                    } else {
                        Err("stored month blob is not sorted".to_owned())
                    }
                },
                None => Err("stored month blob is malformed".to_owned()),
            }
        },
    }
}

/// Every month-partition name starts with the partition root.
proof fn lemma_pk_name_prefix(ic: Seq<char>, dd: Date)
    ensures
        "position/"@.is_prefix_of(spec_pk_blob_name(ic, dd)),
{
    broadcast use vstd::seq_lib::group_seq_properties;

    reveal_strlit("position/");
    reveal_strlit("position/icao_number=");
    assert(spec_pk_blob_name(ic, dd).take(9) =~= "position/"@);
}

/// Returns the `(icao, month)` pairs whose month partitions exist in the
/// store: every pair's partition exists, and every well-formed pair whose
/// partition exists is returned. Names under the partition root that are
/// not month partitions are passed over.
pub fn list_months_positions<T: BlobStorageProvider>(client: &T) -> (r: Result<
    Vec<(String, Date)>,
    String,
>)
    ensures
        r matches Ok(pairs) ==> forall|i: int|
            0 <= i < pairs@.len() ==> client.blobs().contains_key(
                spec_pk_blob_name((#[trigger] pairs@[i]).0@, pairs@[i].1),
            ) && pairs@[i].1.valid(),
        r matches Ok(pairs) ==> forall|ic: Seq<char>, dd: Date|
            spec_pk_wf(ic, dd) && client.blobs().contains_key(
                #[trigger] spec_pk_blob_name(ic, dd),
            ) ==> crate::etl_legs::spec_pair_in(pairs@, ic, dd),
{
    let keys = match client.list("position/") {
        Ok(keys) => keys,
        Err(e) => {
            return Err(e);
        },
    };
    let mut pairs: Vec<(String, Date)> = Vec::new();
    let mut i: usize = 0;
    while i < keys.len()
        invariant
            i <= keys@.len(),
            forall|j: int|
                0 <= j < keys@.len() ==> client.blobs().contains_key((#[trigger] keys@[j])@),
            forall|j: int|
                0 <= j < pairs@.len() ==> client.blobs().contains_key(
                    spec_pk_blob_name((#[trigger] pairs@[j]).0@, pairs@[j].1),
                ) && pairs@[j].1.valid(),
            forall|x: int, ic: Seq<char>, dd: Date|
                0 <= x < i && spec_pk_wf(ic, dd) && (#[trigger] keys@[x])@
                    == #[trigger] spec_pk_blob_name(ic, dd) ==> crate::etl_legs::spec_pair_in(
                    pairs@,
                    ic,
                    dd,
                ),
        decreases keys@.len() - i,
    {
        let ghost pairs0 = pairs@;
        match blob_name_to_pk(keys[i].as_str()) {
            Some(pair) => {
                pairs.push(pair);
            },
            None => {},
        }
        proof {
            assert forall|x: int, ic: Seq<char>, dd: Date|
                0 <= x < i + 1 && spec_pk_wf(ic, dd) && (#[trigger] keys@[x])@
                    == #[trigger] spec_pk_blob_name(ic, dd) implies crate::etl_legs::spec_pair_in(
                pairs@,
                ic,
                dd,
            ) by {
                if x < i {
                    assert(crate::etl_legs::spec_pair_in(pairs0, ic, dd));
                    let w = choose|w: int|
                        0 <= w < pairs0.len() && (#[trigger] pairs0[w]).0@ == ic && pairs0[w].1
                            == dd;
                    assert((pairs@[w]).0@ == ic && pairs@[w].1 == dd);
                } else {
                    assert(pairs@.last().0@ == ic && pairs@.last().1 == dd);
                    assert((pairs@[pairs@.len() - 1]).0@ == ic && pairs@[pairs@.len() - 1].1
                        == dd);
                }
            }
        }
        i = i + 1;
    }
    proof {
        assert forall|ic: Seq<char>, dd: Date|
            spec_pk_wf(ic, dd) && client.blobs().contains_key(
                #[trigger] spec_pk_blob_name(ic, dd),
            ) implies crate::etl_legs::spec_pair_in(pairs@, ic, dd) by {
            lemma_pk_name_prefix(ic, dd);
            assert(crate::fs::names_contain(keys@, spec_pk_blob_name(ic, dd)));
            let x = choose|x: int|
                0 <= x < keys@.len() && (#[trigger] keys@[x])@ == spec_pk_blob_name(ic, dd);
        }
    }
    Ok(pairs)
}

} // verus!
