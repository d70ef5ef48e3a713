use vstd::prelude::*;

use crate::date::{date_from_day_number, Date};
use crate::text::{
    find_char, pad2, pad3, pad4, parse_digits, spec_all_digits, spec_dec, spec_digits_val,
    spec_find, spec_pad2, spec_pad3, spec_pad4, substring, u64_to_dec,
};

verus! {

/// The least millisecond instant whose civil date lies in the supported
/// years.
pub const RFC3339_MS_MIN: i64 = -62_135_596_800_000;

/// The greatest millisecond instant whose civil date lies in the supported
/// years.
pub const RFC3339_MS_MAX: i64 = 253_402_300_799_999;

/// The RFC 3339 text of the instant `ms` milliseconds after the Unix
/// epoch: the civil date, `T`, the time of day to the millisecond, `Z`.
pub open spec fn spec_rfc3339(ms: int) -> Seq<char> {
    let d = crate::date::spec_date_of_day_number(ms / 86400000 + 719468);
    let rem = ms % 86400000;
    spec_pad4(d.year as int) + seq!['-'] + spec_pad2(d.month as int) + seq!['-'] + spec_pad2(
        d.day as int,
    ) + seq!['T'] + spec_pad2(rem / 3600000) + seq![':'] + spec_pad2(rem / 60000 % 60) + seq![':']
        + spec_pad2(rem / 1000 % 60) + seq!['.'] + spec_pad3(rem % 1000) + seq!['Z']
}

/// Writes the instant `ms` milliseconds after the Unix epoch in RFC 3339
/// notation, to the millisecond, in UTC.
pub fn rfc3339(ms: i64) -> (r: String)
    requires
        RFC3339_MS_MIN <= ms <= RFC3339_MS_MAX,
    ensures
        r@ == spec_rfc3339(ms as int),
{
    // shift to a non-negative count of milliseconds since year 1, so that
    // machine division is the Euclidean division of the spec
    let shift = (ms - RFC3339_MS_MIN) as u64;
    let q = shift / 86400000;
    let rem = shift % 86400000;
    proof {
        assert(shift == ms - RFC3339_MS_MIN as int);
        assert(ms as int == 86400000 * (q as int - 719162) + rem as int);
        vstd::arithmetic::div_mod::lemma_fundamental_div_mod_converse(
            ms as int,
            86400000,
            q as int - 719162,
            rem as int,
        );
    }
    let n = q + 306;
    proof {
        assert(n == ms as int / 86400000 + 719468);
        assert((Date { year: 1, month: 1, day: 1 }).spec_day_number() == 306);
        assert((Date { year: 9999, month: 12, day: 31 }).spec_day_number() == 3652364);
        assert(n <= 3652364);
    }
    let d = date_from_day_number(n as u32);
    let h = rem / 3600000;
    let mi = rem / 60000 % 60;
    let se = rem / 1000 % 60;
    let mil = rem % 1000;
    let mut s = pad4(d.year as u32);
    s.append("-");
    s.append(pad2(d.month).as_str());
    s.append("-");
    s.append(pad2(d.day).as_str());
    s.append("T");
    s.append(pad2(h as u8).as_str());
    s.append(":");
    s.append(pad2(mi as u8).as_str());
    s.append(":");
    s.append(pad2(se as u8).as_str());
    s.append(".");
    s.append(pad3(mil as u16).as_str());
    s.append("Z");
    proof {
        reveal_strlit("-");
        reveal_strlit("T");
        reveal_strlit(":");
        reveal_strlit(".");
        reveal_strlit("Z");
        assert(s@ =~= spec_rfc3339(ms as int));
    }
    s
}

/// The ISO 8601 notation of the month of `date` ("2023-01").
pub open spec fn spec_month_part(date: Date) -> Seq<char> {
    spec_dec(date.year as int) + seq!['-'] + spec_pad2(date.month as int)
}

/// Returns the ISO 8601 representation of a month ("2023-01").
pub fn month_to_part(date: Date) -> (r: String)
    requires
        date.valid(),
    ensures
        r@ == spec_month_part(date),
{
    let mut s = u64_to_dec(date.year as u64);
    s.append("-");
    s.append(pad2(date.month).as_str());
    proof {
        reveal_strlit("-");
        assert(s@ =~= spec_month_part(date));
    }
    s
}

/// The millisecond instant written in a canonical RFC 3339 text
/// ("2023-10-01T01:02:03.456Z"), or `None` when the text is not of that
/// exact shape or does not name an existing date and time.
pub open spec fn spec_parse_rfc3339(s: Seq<char>) -> Option<int> {
    if s.len() == 24 && s[4] == '-' && s[7] == '-' && s[10] == 'T' && s[13] == ':' && s[16] == ':'
        && s[19] == '.' && s[23] == 'Z' && spec_all_digits(s.subrange(0, 4)) && spec_all_digits(
        s.subrange(5, 7),
    ) && spec_all_digits(s.subrange(8, 10)) && spec_all_digits(s.subrange(11, 13))
        && spec_all_digits(s.subrange(14, 16)) && spec_all_digits(s.subrange(17, 19))
        && spec_all_digits(s.subrange(20, 23)) {
        let y = spec_digits_val(s.subrange(0, 4));
        let mo = spec_digits_val(s.subrange(5, 7));
        let dy = spec_digits_val(s.subrange(8, 10));
        let h = spec_digits_val(s.subrange(11, 13));
        let mi = spec_digits_val(s.subrange(14, 16));
        let se = spec_digits_val(s.subrange(17, 19));
        let mil = spec_digits_val(s.subrange(20, 23));
        if 1 <= y && 1 <= mo <= 12 && 1 <= dy <= crate::date::spec_days_in_month(y, mo) && h <= 23
            && mi <= 59 && se <= 59 {
            Some(
                ((Date { year: y as i32, month: mo as u8, day: dy as u8 }).spec_day_number()
                    - 719468) * 86400000 + h * 3600000 + mi * 60000 + se * 1000 + mil,
            )
        } else {
            None
        }
    } else {
        None
    }
}

/// Reads a canonical RFC 3339 text back into its millisecond instant.
#[verifier::spinoff_prover]
#[verifier::rlimit(100)]
pub fn parse_rfc3339(s: &str) -> (r: Option<i64>)
    ensures
        match r {
            Some(v) => spec_parse_rfc3339(s@) == Some(v as int) && RFC3339_MS_MIN <= v
                <= RFC3339_MS_MAX,
            None => spec_parse_rfc3339(s@) is None,
        },
{
    let n = s.unicode_len();
    if n != 24 {
        return None;
    }
    if s.get_char(4) != '-' || s.get_char(7) != '-' || s.get_char(10) != 'T' || s.get_char(13)
        != ':' || s.get_char(16) != ':' || s.get_char(19) != '.' || s.get_char(23) != 'Z' {
        return None;
    }
    let mut i: usize = 0;
    while i < 24
        invariant
            i <= 24,
            s@.len() == 24,
            forall|j: int|
                0 <= j < i && j != 4 && j != 7 && j != 10 && j != 13 && j != 16 && j != 19 && j
                    != 23 ==> crate::text::spec_is_digit(#[trigger] s@[j]),
        decreases 24 - i,
    {
        if i != 4 && i != 7 && i != 10 && i != 13 && i != 16 && i != 19 && i != 23 {
            let c = s.get_char(i);
            if c < '0' || c > '9' {
                proof {
                    assert(!crate::text::spec_is_digit(s@[i as int]));
                    if i < 4 {
                        assert(s@.subrange(0, 4)[i as int] == s@[i as int]);
                    } else if i < 7 {
                        assert(s@.subrange(5, 7)[i - 5] == s@[i as int]);
                    } else if i < 10 {
                        assert(s@.subrange(8, 10)[i - 8] == s@[i as int]);
                    } else if i < 13 {
                        assert(s@.subrange(11, 13)[i - 11] == s@[i as int]);
                    } else if i < 16 {
                        assert(s@.subrange(14, 16)[i - 14] == s@[i as int]);
                    } else if i < 19 {
                        assert(s@.subrange(17, 19)[i - 17] == s@[i as int]);
                    } else {
                        assert(s@.subrange(20, 23)[i - 20] == s@[i as int]);
                    }
                }
                return None;
            }
        }
        i = i + 1;
    }
    proof {
        assert forall|k: int| 0 <= k < 4 implies crate::text::spec_is_digit(
            #[trigger] s@.subrange(0, 4)[k],
        ) by {
            assert(s@.subrange(0, 4)[k] == s@[k]);
        }
        assert forall|k: int| 0 <= k < 2 implies crate::text::spec_is_digit(
            #[trigger] s@.subrange(5, 7)[k],
        ) && crate::text::spec_is_digit(#[trigger] s@.subrange(8, 10)[k])
            && crate::text::spec_is_digit(#[trigger] s@.subrange(11, 13)[k])
            && crate::text::spec_is_digit(#[trigger] s@.subrange(14, 16)[k])
            && crate::text::spec_is_digit(#[trigger] s@.subrange(17, 19)[k]) by {
            assert(s@.subrange(5, 7)[k] == s@[k + 5]);
            assert(s@.subrange(8, 10)[k] == s@[k + 8]);
            assert(s@.subrange(11, 13)[k] == s@[k + 11]);
            assert(s@.subrange(14, 16)[k] == s@[k + 14]);
            assert(s@.subrange(17, 19)[k] == s@[k + 17]);
        }
        assert forall|k: int| 0 <= k < 3 implies crate::text::spec_is_digit(
            #[trigger] s@.subrange(20, 23)[k],
        ) by {
            assert(s@.subrange(20, 23)[k] == s@[k + 20]);
        }
    }
    let y = parse_digits(s, 0, 4);
    let mo = parse_digits(s, 5, 7);
    let dy = parse_digits(s, 8, 10);
    let h = parse_digits(s, 11, 13);
    let mi = parse_digits(s, 14, 16);
    let se = parse_digits(s, 17, 19);
    let mil = parse_digits(s, 20, 23);
    proof {
        crate::text::lemma_digits_val_bound(s@.subrange(0, 4));
        crate::text::lemma_digits_val_bound(s@.subrange(5, 7));
        crate::text::lemma_digits_val_bound(s@.subrange(8, 10));
        crate::text::lemma_digits_val_bound(s@.subrange(11, 13));
        crate::text::lemma_digits_val_bound(s@.subrange(14, 16));
        crate::text::lemma_digits_val_bound(s@.subrange(17, 19));
        crate::text::lemma_digits_val_bound(s@.subrange(20, 23));
        assert(crate::text::pow10(4) == 10000 && crate::text::pow10(2) == 100
            && crate::text::pow10(3) == 1000) by {
            assert(crate::text::pow10(0) == 1);
            assert(crate::text::pow10(1) == 10);
            assert(crate::text::pow10(2) == 100);
            assert(crate::text::pow10(3) == 1000);
        }
    }
    if y < 1 || mo < 1 || mo > 12 {
        return None;
    }
    let d = Date { year: y as i32, month: mo as u8, day: dy as u8 };
    if dy < 1 || dy > crate::date::days_in_month(y as i32, mo as u8) as u32 || h > 23 || mi > 59
        || se > 59 {
        return None;
    }
    let dn = d.day_number();
    proof {
        crate::date::lemma_day_number_bounds(d);
    }
    let v: i64 = (dn as i64 - 719468) * 86400000 + (h as i64) * 3600000 + (mi as i64) * 60000 + (
    se as i64) * 1000 + mil as i64;
    Some(v)
}

/// The text holds a month in ISO 8601 notation at its start: four year
/// digits, a separator, two month digits that name a month, and a year from
/// 1 on.
pub open spec fn spec_month_text(s: Seq<char>) -> bool {
    &&& s.len() >= 7
    &&& spec_all_digits(s.subrange(0, 4))
    &&& spec_all_digits(s.subrange(5, 7))
    &&& 1 <= spec_digits_val(s.subrange(0, 4))
    &&& 1 <= spec_digits_val(s.subrange(5, 7)) <= 12
}

/// Parses a "2022-01" to a date at first of month.
pub fn parse_month(date: &str) -> (r: Date)
    requires
        spec_month_text(date@),
    ensures
        r.year == spec_digits_val(date@.subrange(0, 4)),
        r.month == spec_digits_val(date@.subrange(5, 7)),
        r.day == 1,
        r.valid(),
{
    let year = parse_digits(date, 0, 4);
    let month = parse_digits(date, 5, 7);
    proof {
        crate::text::lemma_digits_val_bound(date@.subrange(0, 4));
        crate::text::lemma_pow10_mono(4, 4);
        assert(crate::text::pow10(4) == 10000) by {
            assert(crate::text::pow10(0) == 1);
            assert(crate::text::pow10(1) == 10);
            assert(crate::text::pow10(2) == 100);
            assert(crate::text::pow10(3) == 1000);
        }
    }
    Date { year: year as i32, month: month as u8, day: 1 }
}

/// The key/value pairs written in a hive-style text: `k1=v1/k2=v2/`.
pub open spec fn spec_hive(s: Seq<char>) -> Seq<(Seq<char>, Seq<char>)>
    decreases s.len(),
{
    if s.len() == 0 {
        Seq::empty()
    } else {
        let e = spec_find(s, '=');
        let v = spec_find(s.skip(e + 1), '/');
        if 0 <= e && e < s.len() && 0 <= v && e + 1 + v < s.len() {
            seq![(s.take(e), s.skip(e + 1).take(v))] + spec_hive(s.skip(e + v + 2))
        } else {
            Seq::empty()
        }
    }
}

/// The text is a well-formed hive path fragment: key/value pairs separated
/// by `=`, each pair closed by `/`.
pub open spec fn spec_hive_wf(s: Seq<char>) -> bool
    decreases s.len(),
{
    if s.len() == 0 {
        true
    } else {
        let e = spec_find(s, '=');
        let v = spec_find(s.skip(e + 1), '/');
        &&& 0 <= e
        &&& e < s.len()
        &&& 0 <= v
        &&& e + 1 + v < s.len()
        &&& spec_hive_wf(s.skip(e + v + 2))
    }
}

/// The views of a vector of owned string pairs.
pub open spec fn pairs_view(s: Seq<(String, String)>) -> Seq<(Seq<char>, Seq<char>)> {
    s.map_values(|p: (String, String)| (p.0@, p.1@))
}

/// Reads the partition keys of a hive-style path fragment, in order.
pub fn hive_to_map(blob: &str) -> (r: Vec<(String, String)>)
    requires
        spec_hive_wf(blob@),
    ensures
        pairs_view(r@) == spec_hive(blob@),
{
    let n = blob.unicode_len();
    let mut r: Vec<(String, String)> = Vec::new();
    let mut pos: usize = 0;
    proof {
        assert(blob@.skip(0) =~= blob@);
        assert(pairs_view(r@) =~= Seq::<(Seq<char>, Seq<char>)>::empty());
    }
    while pos < n
        invariant
            n == blob@.len(),
            pos <= n,
            spec_hive_wf(blob@.skip(pos as int)),
            spec_hive(blob@) =~= pairs_view(r@) + spec_hive(blob@.skip(pos as int)),
        decreases n - pos,
    {
        let ghost rest = blob@.skip(pos as int);
        let e = find_char(blob, pos, '=');
        proof {
            assert(spec_find(rest, '=') == e - pos);
            assert(e < n);
        }
        let v = find_char(blob, e + 1, '/');
        proof {
            assert(rest.skip((e - pos) + 1) =~= blob@.skip(e as int + 1));
            assert(spec_find(rest.skip((e - pos) + 1), '/') == v - (e + 1));
            assert(v < n);
            assert(rest.take(e - pos) =~= blob@.subrange(pos as int, e as int));
            assert(rest.skip((e - pos) + 1).take(v - (e + 1)) =~= blob@.subrange(
                e as int + 1,
                v as int,
            ));
            assert(rest.skip((e - pos) + (v - (e + 1)) + 2) =~= blob@.skip(v as int + 1));
        }
        let key = substring(blob, pos, e);
        let value = substring(blob, e + 1, v);
        r.push((key, value));
        proof {
            assert(pairs_view(r@) =~= pairs_view(r@.drop_last()).push(
                (r@.last().0@, r@.last().1@),
            ));
            assert(spec_hive(rest) == seq![(rest.take(e - pos), rest.skip((e - pos) + 1).take(
                v - (e + 1),
            ))] + spec_hive(blob@.skip(v as int + 1)));
            assert(spec_hive(blob@) =~= pairs_view(r@) + spec_hive(blob@.skip(v as int + 1)));
        }
        pos = v + 1;
    }
    proof {
        assert(blob@.skip(n as int) =~= Seq::<char>::empty());
        assert(pairs_view(r@) =~= spec_hive(blob@));
    }
    r
}

} // verus!
