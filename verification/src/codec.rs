use vstd::prelude::*;

use crate::text::{spec_dec, spec_fixed6, spec_i64_dec, spec_pad2, spec_pad3, spec_pad4,
    spec_pad6};
use crate::Position;

verus! {

/// The fields a position record can carry: an instant within the
/// supported civil years, coordinates within a degree of the poles and
/// the antimeridian wrap, and an altitude below ten million feet.
pub open spec fn spec_encodable(p: Position) -> bool {
    &&& crate::serde::RFC3339_MS_MIN <= p.datetime_ms <= crate::serde::RFC3339_MS_MAX
    &&& -1_000_000_000 < p.latitude_udeg < 1_000_000_000
    &&& -1_000_000_000 < p.longitude_udeg < 1_000_000_000
    &&& match p.altitude_ft {
        Some(a) => -10_000_000 < a < 10_000_000,
        None => true,
    }
}

pub open spec fn spec_all_encodable(ps: Seq<Position>) -> bool {
    forall|i: int| 0 <= i < ps.len() ==> spec_encodable(#[trigger] ps[i])
}

/// The canonical JSON object of one position: the RFC 3339 instant, the
/// coordinates in degrees with six fractional digits, and the altitude in
/// whole feet, omitted on the ground.
pub open spec fn spec_position_json(p: Position) -> Seq<char> {
    "{\"datetime\":\""@ + crate::serde::spec_rfc3339(p.datetime_ms as int) + "\",\"latitude\":"@
        + spec_fixed6(p.latitude_udeg as int) + ",\"longitude\":"@ + spec_fixed6(
        p.longitude_udeg as int,
    ) + (match p.altitude_ft {
        Some(a) => ",\"altitude\":"@ + spec_i64_dec(a as int),
        None => Seq::<char>::empty(),
    }) + "}"@
}

/// The comma-separated canonical records of the positions.
pub open spec fn spec_records_json(ps: Seq<Position>) -> Seq<char>
    decreases ps.len(),
{
    if ps.len() == 0 {
        Seq::empty()
    } else if ps.len() == 1 {
        spec_position_json(ps[0])
    } else {
        spec_records_json(ps.drop_last()) + seq![','] + spec_position_json(ps.last())
    }
}

/// The canonical JSON array of the positions.
pub open spec fn spec_positions_json(ps: Seq<Position>) -> Seq<char> {
    seq!['['] + spec_records_json(ps) + seq![']']
}

/// The canonical bytes of a month blob: the JSON array, which is ASCII.
pub open spec fn spec_enc_positions(ps: Seq<Position>) -> Seq<u8> {
    spec_positions_json(ps).map_values(|c: char| c as u8)
}

/// Joining ASCII texts yields an ASCII text.
proof fn lemma_ascii_concat(a: Seq<char>, b: Seq<char>)
    requires
        vstd::utf8::is_ascii_chars(a),
        vstd::utf8::is_ascii_chars(b),
    ensures
        vstd::utf8::is_ascii_chars(a + b),
{
    assert forall|i: int| 0 <= i < (a + b).len() implies '\0' <= #[trigger] (a + b)[i]
        <= '\u{7f}' by {
        if i < a.len() {
            assert((a + b)[i] == a[i]);
        } else {
            assert((a + b)[i] == b[i - a.len()]);
        }
    }
}

/// The decimal notation is ASCII.
proof fn lemma_ascii_dec(n: int)
    requires
        n >= 0,
    ensures
        vstd::utf8::is_ascii_chars(spec_dec(n)),
{
    crate::text::lemma_dec_digits(n);
    assert forall|i: int| 0 <= i < spec_dec(n).len() implies '\0' <= #[trigger] spec_dec(n)[i]
        <= '\u{7f}' by {
        assert(crate::text::spec_is_digit(spec_dec(n)[i]));
    }
}

/// The fixed-point notation is ASCII.
proof fn lemma_ascii_fixed6(v: int)
    ensures
        vstd::utf8::is_ascii_chars(spec_fixed6(v)),
{
    if v < 0 {
        lemma_ascii_dec((-v) / 1000000);
        lemma_ascii_concat(seq!['-'], spec_dec((-v) / 1000000));
        lemma_ascii_concat(seq!['-'] + spec_dec((-v) / 1000000), seq!['.']);
        lemma_ascii_concat(seq!['-'] + spec_dec((-v) / 1000000) + seq!['.'], spec_pad6((-v)
                % 1000000));
    } else {
        lemma_ascii_dec(v / 1000000);
        lemma_ascii_concat(spec_dec(v / 1000000), seq!['.']);
        lemma_ascii_concat(spec_dec(v / 1000000) + seq!['.'], spec_pad6(v % 1000000));
    }
}

/// The signed decimal notation is ASCII.
proof fn lemma_ascii_i64_dec(n: int)
    ensures
        vstd::utf8::is_ascii_chars(spec_i64_dec(n)),
{
    if n < 0 {
        lemma_ascii_dec(-n);
        lemma_ascii_concat(seq!['-'], spec_dec(-n));
    } else {
        lemma_ascii_dec(n);
    }
}

/// The RFC 3339 notation is ASCII.
proof fn lemma_ascii_rfc3339(ms: int)
    ensures
        vstd::utf8::is_ascii_chars(crate::serde::spec_rfc3339(ms)),
{
    let d = crate::date::spec_date_of_day_number(ms / 86400000 + 719468);
    let rem = ms % 86400000;
    let p1 = spec_pad4(d.year as int);
    let p2 = p1 + seq!['-'];
    let p3 = p2 + spec_pad2(d.month as int);
    let p4 = p3 + seq!['-'];
    let p5 = p4 + spec_pad2(d.day as int);
    let p6 = p5 + seq!['T'];
    let p7 = p6 + spec_pad2(rem / 3600000);
    let p8 = p7 + seq![':'];
    let p9 = p8 + spec_pad2(rem / 60000 % 60);
    let p10 = p9 + seq![':'];
    let p11 = p10 + spec_pad2(rem / 1000 % 60);
    let p12 = p11 + seq!['.'];
    let p13 = p12 + spec_pad3(rem % 1000);
    lemma_ascii_concat(p1, seq!['-']);
    lemma_ascii_concat(p2, spec_pad2(d.month as int));
    lemma_ascii_concat(p3, seq!['-']);
    lemma_ascii_concat(p4, spec_pad2(d.day as int));
    lemma_ascii_concat(p5, seq!['T']);
    lemma_ascii_concat(p6, spec_pad2(rem / 3600000));
    lemma_ascii_concat(p7, seq![':']);
    lemma_ascii_concat(p8, spec_pad2(rem / 60000 % 60));
    lemma_ascii_concat(p9, seq![':']);
    lemma_ascii_concat(p10, spec_pad2(rem / 1000 % 60));
    lemma_ascii_concat(p11, seq!['.']);
    lemma_ascii_concat(p12, spec_pad3(rem % 1000));
    lemma_ascii_concat(p13, seq!['Z']);
    assert(crate::serde::spec_rfc3339(ms) == p13 + seq!['Z']);
}

/// The canonical record of a position is ASCII.
proof fn lemma_ascii_position_json(p: Position)
    ensures
        vstd::utf8::is_ascii_chars(spec_position_json(p)),
{
    reveal_strlit("{\"datetime\":\"");
    reveal_strlit("\",\"latitude\":");
    reveal_strlit(",\"longitude\":");
    reveal_strlit(",\"altitude\":");
    reveal_strlit("}");
    assert(vstd::utf8::is_ascii_chars("{\"datetime\":\""@));
    assert(vstd::utf8::is_ascii_chars("\",\"latitude\":"@));
    assert(vstd::utf8::is_ascii_chars(",\"longitude\":"@));
    assert(vstd::utf8::is_ascii_chars(",\"altitude\":"@));
    assert(vstd::utf8::is_ascii_chars("}"@));
    lemma_ascii_rfc3339(p.datetime_ms as int);
    lemma_ascii_fixed6(p.latitude_udeg as int);
    lemma_ascii_fixed6(p.longitude_udeg as int);
    lemma_ascii_concat("{\"datetime\":\""@, crate::serde::spec_rfc3339(p.datetime_ms as int));
    let a = "{\"datetime\":\""@ + crate::serde::spec_rfc3339(p.datetime_ms as int);
    lemma_ascii_concat(a, "\",\"latitude\":"@);
    let b = a + "\",\"latitude\":"@;
    lemma_ascii_concat(b, spec_fixed6(p.latitude_udeg as int));
    let c = b + spec_fixed6(p.latitude_udeg as int);
    lemma_ascii_concat(c, ",\"longitude\":"@);
    let d = c + ",\"longitude\":"@;
    lemma_ascii_concat(d, spec_fixed6(p.longitude_udeg as int));
    let e = d + spec_fixed6(p.longitude_udeg as int);
    match p.altitude_ft {
        Some(alt) => {
            lemma_ascii_i64_dec(alt as int);
            lemma_ascii_concat(",\"altitude\":"@, spec_i64_dec(alt as int));
            lemma_ascii_concat(e, ",\"altitude\":"@ + spec_i64_dec(alt as int));
            lemma_ascii_concat(e + (",\"altitude\":"@ + spec_i64_dec(alt as int)), "}"@);
        },
        None => {
            assert(e + Seq::<char>::empty() =~= e);
            lemma_ascii_concat(e, Seq::<char>::empty());
            lemma_ascii_concat(e + Seq::<char>::empty(), "}"@);
        },
    }
}

/// Writes the canonical record of one position.
fn position_json(p: &Position) -> (r: String)
    requires
        spec_encodable(*p),
    ensures
        r@ == spec_position_json(*p),
{
    let mut s = "{\"datetime\":\"".to_owned();
    s.append(crate::serde::rfc3339(p.datetime_ms).as_str());
    s.append("\",\"latitude\":");
    s.append(crate::text::i64_to_fixed6(p.latitude_udeg).as_str());
    s.append(",\"longitude\":");
    s.append(crate::text::i64_to_fixed6(p.longitude_udeg).as_str());
    match p.altitude_ft {
        Some(a) => {
            s.append(",\"altitude\":");
            s.append(crate::text::i64_to_dec(a).as_str());
        },
        None => {},
    }
    s.append("}");
    proof {
        assert(s@ =~= spec_position_json(*p));
    }
    s
}

/// Writes the canonical month blob of the positions: a JSON array with
/// one object per position.
pub fn encode_positions(ps: &Vec<Position>) -> (r: Vec<u8>)
    requires
        spec_all_encodable(ps@),
    ensures
        r@ == spec_enc_positions(ps@),
{
    let mut s = "[".to_owned();
    let mut i: usize = 0;
    proof {
        reveal_strlit("[");
        assert(ps@.take(0) =~= Seq::<Position>::empty());
        assert(s@ =~= seq!['['] + spec_records_json(ps@.take(0)));
    }
    while i < ps.len()
        invariant
            spec_all_encodable(ps@),
            i <= ps@.len(),
            s@ == seq!['['] + spec_records_json(ps@.take(i as int)),
        decreases ps@.len() - i,
    {
        if i > 0 {
            s.append(",");
        }
        s.append(position_json(&ps[i]).as_str());
        proof {
            reveal_strlit(",");
            assert(ps@.take(i as int + 1).drop_last() =~= ps@.take(i as int));
            assert(ps@.take(i as int + 1).last() == ps@[i as int]);
            if i == 0 {
                assert(ps@.take(1)[0] == ps@[0]);
                assert(s@ =~= seq!['['] + spec_records_json(ps@.take(1)));
            } else {
                assert(s@ =~= seq!['['] + spec_records_json(ps@.take(i as int + 1)));
            }
        }
        i = i + 1;
    }
    s.append("]");
    proof {
        reveal_strlit("]");
        assert(ps@.take(ps@.len() as int) =~= ps@);
        assert(s@ =~= spec_positions_json(ps@));
        reveal_strlit("[");
        assert(vstd::utf8::is_ascii_chars("["@));
        assert(vstd::utf8::is_ascii_chars("]"@));
        assert(vstd::utf8::is_ascii_chars(seq!['['])) by {
            assert(seq!['['][0] == '[');
        }
        assert(vstd::utf8::is_ascii_chars(spec_records_json(ps@))) by {
            lemma_ascii_records(ps@);
        }
        lemma_ascii_concat(seq!['['], spec_records_json(ps@));
        lemma_ascii_concat(seq!['['] + spec_records_json(ps@), seq![']']);
        assert(vstd::utf8::is_ascii_chars(seq![']'])) by {
            assert(seq![']'][0] == ']');
        }
        assert(vstd::utf8::is_ascii_chars(s@));
        vstd::utf8::is_ascii_chars_encode_utf8(s@);
    }
    let b = s.as_str().as_bytes_vec();
    proof {
        assert(b@ =~= spec_enc_positions(ps@));
    }
    b
}

/// The canonical records of any positions are ASCII.
proof fn lemma_ascii_records(ps: Seq<Position>)
    ensures
        vstd::utf8::is_ascii_chars(spec_records_json(ps)),
    decreases ps.len(),
{
    if ps.len() == 0 {
    } else if ps.len() == 1 {
        lemma_ascii_position_json(ps[0]);
    } else {
        lemma_ascii_records(ps.drop_last());
        lemma_ascii_position_json(ps.last());
        assert(vstd::utf8::is_ascii_chars(seq![','])) by {
            assert(seq![','][0] == ',');
        }
        lemma_ascii_concat(spec_records_json(ps.drop_last()), seq![',']);
        lemma_ascii_concat(
            spec_records_json(ps.drop_last()) + seq![','],
            spec_position_json(ps.last()),
        );
    }
}

/// The view of one parsed record: the field texts as the JSON held them.
pub struct PositionDocV {
    pub datetime: Seq<char>,
    pub latitude: Seq<char>,
    pub longitude: Seq<char>,
    pub altitude: Option<Seq<char>>,
}

/// One parsed record of a month blob: the `datetime` string and the
/// number texts of the coordinates and the optional altitude.
pub struct PositionDoc {
    pub datetime: String,
    pub latitude: String,
    pub longitude: String,
    pub altitude: Option<String>,
}

impl PositionDoc {
    pub open spec fn view_v(self) -> PositionDocV {
        PositionDocV {
            datetime: self.datetime@,
            latitude: self.latitude@,
            longitude: self.longitude@,
            altitude: match self.altitude {
                Some(a) => Some(a@),
                None => None,
            },
        }
    }
}

/// The views of a list of parsed records.
pub open spec fn docs_view(ds: Seq<PositionDoc>) -> Seq<PositionDocV> {
    ds.map_values(|d: PositionDoc| d.view_v())
}

/// The records written in a month blob, or `None` when the bytes are not
/// a JSON array of objects with a `datetime` string, numeric coordinates
/// and an optional numeric altitude. What JSON parsing yields takes pages
/// to state, so the result carries a name: it is a function of the bytes
/// alone.
pub uninterp spec fn positions_doc_of(data: Seq<u8>) -> Option<Seq<PositionDocV>>;

/// Reads a month blob into its records.
///
/// Relies on `serde_json::from_slice`: the payload parses as JSON with an
/// array of objects at the top, a string under `datetime` and numbers
/// under `latitude` and `longitude`, exactly when the result is `Some`;
/// with arbitrary-precision numbers each number is carried as its source
/// text, a missing `altitude` as `None`.
#[verifier::external_body]
pub fn parse_positions_json(data: &Vec<u8>) -> (r: Option<Vec<PositionDoc>>)
    ensures
        match r {
            Some(ds) => positions_doc_of(data@) == Some(docs_view(ds@)),
            None => positions_doc_of(data@) is None,
        },
{
    let v: serde_json::Value = serde_json::from_slice(data).ok()?;
    let num = |c: &serde_json::Value| match c { serde_json::Value::Number(x) => Some(x.to_string()), _ => None };
    let rec = |r: &serde_json::Value| Some(PositionDoc {
        datetime: match r.get("datetime")? { serde_json::Value::String(t) => t.clone(), _ => return None },
        latitude: num(r.get("latitude")?)?,
        longitude: num(r.get("longitude")?)?,
        altitude: match r.get("altitude") { Some(a) => Some(num(a)?), None => None },
    });
    match v { serde_json::Value::Array(a) => a.iter().map(rec).collect(), _ => None }
}

/// The position one parsed record carries, or `None` when a field text
/// does not parse or a value lies outside the encodable ranges.
pub open spec fn spec_doc_position(d: PositionDocV) -> Option<Position> {
    let t = crate::serde::spec_parse_rfc3339(d.datetime);
    let la = crate::icao_to_trace::spec_parse_scaled(d.latitude, 6);
    let lo = crate::icao_to_trace::spec_parse_scaled(d.longitude, 6);
    let al = match d.altitude {
        Some(a) => match crate::icao_to_trace::spec_parse_scaled(a, 0) {
            Some(v) => Some(Some(v)),
            None => None,
        },
        None => Some(None),
    };
    match (t, la, lo, al) {
        (Some(tv), Some(lav), Some(lov), Some(alv)) => {
            let p = Position {
                datetime_ms: tv as i64,
                latitude_udeg: lav as i64,
                longitude_udeg: lov as i64,
                altitude_ft: match alv {
                    Some(v) => Some(v as i64),
                    None => None,
                },
            };
            if crate::serde::RFC3339_MS_MIN <= tv <= crate::serde::RFC3339_MS_MAX
                && -1_000_000_000 < lav < 1_000_000_000 && -1_000_000_000 < lov < 1_000_000_000
                && (match alv {
                Some(v) => -10_000_000 < v < 10_000_000,
                None => true,
            }) {
                Some(p)
            } else {
                None
            }
        },
        _ => None,
    }
}

/// The positions of the parsed records, or `None` when any record fails.
pub open spec fn spec_positions_from_docs(ds: Seq<PositionDocV>) -> Option<Seq<Position>>
    decreases ds.len(),
{
    if ds.len() == 0 {
        Some(Seq::empty())
    } else {
        match (spec_positions_from_docs(ds.drop_last()), spec_doc_position(ds.last())) {
            (Some(ps), Some(p)) => Some(ps.push(p)),
            _ => None,
        }
    }
}

/// The positions written in a month blob: the parsed records, each read
/// into a position, or `None` when the bytes do not parse.
pub open spec fn spec_json_positions(data: Seq<u8>) -> Option<Seq<Position>> {
    match positions_doc_of(data) {
        Some(ds) => spec_positions_from_docs(ds),
        None => None,
    }
}

/// Reads one parsed record into a position.
fn doc_position(d: &PositionDoc) -> (r: Option<Position>)
    ensures
        r == spec_doc_position(d.view_v()),
        r matches Some(p) ==> spec_encodable(p),
{
    let t = match crate::serde::parse_rfc3339(d.datetime.as_str()) {
        Some(v) => v,
        None => {
            return None;
        },
    };
    let la = match crate::icao_to_trace::parse_scaled(d.latitude.as_str(), 6) {
        Some(v) => v,
        None => {
            return None;
        },
    };
    let lo = match crate::icao_to_trace::parse_scaled(d.longitude.as_str(), 6) {
        Some(v) => v,
        None => {
            return None;
        },
    };
    let al: Option<i64> = match &d.altitude {
        Some(a) => {
            match crate::icao_to_trace::parse_scaled(a.as_str(), 0) {
                Some(v) => Some(v),
                None => {
                    return None;
                },
            }
        },
        None => None,
    };
    let ok = -1_000_000_000 < la && la < 1_000_000_000 && -1_000_000_000 < lo && lo
        < 1_000_000_000 && (match al {
        Some(v) => -10_000_000 < v && v < 10_000_000,
        None => true,
    });
    if ok {
        Some(Position { datetime_ms: t, latitude_udeg: la, longitude_udeg: lo, altitude_ft: al })
    } else {
        None
    }
}

/// A failing record fails the whole list.
proof fn lemma_docs_none(ds: Seq<PositionDocV>, i: int)
    requires
        0 <= i < ds.len(),
        spec_doc_position(ds[i]) is None,
    ensures
        spec_positions_from_docs(ds) is None,
    decreases ds.len(),
{
    if i < ds.len() - 1 {
        lemma_docs_none(ds.drop_last(), i);
    }
}

/// Reads a month blob back into positions: the JSON records, each parsed
/// into a position. Returns `None` when the bytes are not such an array
/// or any record does not parse into an encodable position.
#[verifier::spinoff_prover]
#[verifier::rlimit(100)]
pub fn decode_positions(bytes: &Vec<u8>) -> (r: Option<Vec<Position>>)
    ensures
        match r {
            Some(ps) => spec_json_positions(bytes@) == Some(ps@) && spec_all_encodable(ps@),
            None => spec_json_positions(bytes@) is None,
        },
{
    let docs = match parse_positions_json(bytes) {
        Some(d) => d,
        None => {
            return None;
        },
    };
    let ghost dv = docs_view(docs@);
    let mut ps: Vec<Position> = Vec::new();
    let mut i: usize = 0;
    proof {
        assert(dv.take(0) =~= Seq::<PositionDocV>::empty());
        assert(spec_positions_from_docs(dv.take(0)) == Some(ps@));
    }
    while i < docs.len()
        invariant
            dv == docs_view(docs@),
            i <= docs@.len(),
            dv.len() == docs@.len(),
            positions_doc_of(bytes@) == Some(dv),
            spec_positions_from_docs(dv.take(i as int)) == Some(ps@),
            spec_all_encodable(ps@),
        decreases docs@.len() - i,
    {
        proof {
            assert(dv.take(i as int + 1).drop_last() =~= dv.take(i as int));
            assert(dv.take(i as int + 1).last() == dv[i as int]);
            assert(dv[i as int] == docs@[i as int].view_v());
        }
        match doc_position(&docs[i]) {
            Some(p) => {
                let ghost ps0 = ps@;
                ps.push(p);
                proof {
                    assert(ps@ =~= ps0.push(p));
                }
            },
            None => {
                proof {
                    lemma_docs_none(dv, i as int);
                }
                return None;
            },
        }
        i = i + 1;
    }
    proof {
        assert(dv.take(dv.len() as int) =~= dv);
    }
    Some(ps)
}

} // verus!
