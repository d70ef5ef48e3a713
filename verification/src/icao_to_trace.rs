use vstd::prelude::*;

use crate::date::Date;
use crate::text::{
    find_char, pad2, pad4, parse_digits_u64, pow10, spec_all_digits, spec_digits_val, spec_find,
    spec_is_digit, u64_to_dec,
};
use crate::Position;
use rand::Rng;
use serde_json::Value;

verus! {

/// The last two characters of an icao number.
pub fn last_2(icao: &str) -> (r: String)
    requires
        icao@.len() >= 2,
    ensures
        r@ == icao@.subrange(icao@.len() - 2, icao@.len() as int),
{
    let n = icao.unicode_len();
    crate::text::substring(icao, n - 2, n)
}

/// The provider URL of the trace of `icao` on `date`.
pub open spec fn spec_trace_url(icao: Seq<char>, date: Date) -> Seq<char> {
    "https://globe.adsbexchange.com/globe_history/"@ + crate::text::spec_pad4(date.year as int)
        + "/"@ + crate::text::spec_pad2(date.month as int) + "/"@ + crate::text::spec_pad2(
        date.day as int,
    ) + "/traces/"@ + icao.subrange(icao.len() - 2, icao.len() as int) + "/trace_full_"@ + icao
        + ".json"@
}

/// Builds the provider URL for the trace of `icao` on `date`.
pub fn to_url(icao: &str, date: &Date) -> (r: String)
    requires
        icao@.len() >= 2,
        date.valid(),
    ensures
        r@ == spec_trace_url(icao@, *date),
{
    let mut s = "https://globe.adsbexchange.com/globe_history/".to_owned();
    s.append(pad4(date.year as u32).as_str());
    s.append("/");
    s.append(pad2(date.month).as_str());
    s.append("/");
    s.append(pad2(date.day).as_str());
    s.append("/traces/");
    s.append(last_2(icao).as_str());
    s.append("/trace_full_");
    s.append(icao);
    s.append(".json");
    proof {
        assert(s@ =~= spec_trace_url(icao@, *date));
    }
    s
}

/// The blob name under which the raw provider payload for `(icao, date)` is
/// cached.
pub open spec fn spec_trace_blob_name(icao: Seq<char>, date: Date) -> Seq<char> {
    "globe_history/"@ + crate::text::spec_pad4(date.year as int) + "-"@
        + crate::text::spec_pad2(date.month as int) + "-"@ + crate::text::spec_pad2(
        date.day as int,
    ) + "/trace_full_"@ + icao + ".json"@
}

/// Returns the day-trace cache blob name for `(icao, date)`.
pub fn cache_file_path(icao: &str, date: &Date) -> (r: String)
    requires
        date.valid(),
    ensures
        r@ == spec_trace_blob_name(icao@, *date),
{
    let mut s = "globe_history/".to_owned();
    s.append(pad4(date.year as u32).as_str());
    s.append("-");
    s.append(pad2(date.month).as_str());
    s.append("-");
    s.append(pad2(date.day).as_str());
    s.append("/trace_full_");
    s.append(icao);
    s.append(".json");
    proof {
        assert(s@ =~= spec_trace_blob_name(icao@, *date));
    }
    s
}

/// Milliseconds since the Unix epoch, as the system clock reports it.
///
/// Relies on `std::time::SystemTime::now` and `duration_since`: the wall
/// clock read at the call, of which nothing is promised.
#[verifier::external_body]
pub fn now_unix_ms() -> (r: u64) {
    std::time::SystemTime::now()
        .duration_since(std::time::SystemTime::UNIX_EPOCH)
        .map(|d| d.as_millis() as u64)
        .unwrap_or(0)
}

/// The character is an ASCII letter or digit.
pub open spec fn spec_is_alnum(c: char) -> bool {
    ('A' <= c <= 'Z') || ('a' <= c <= 'z') || ('0' <= c <= '9')
}

/// Thirteen characters drawn uniformly from the ASCII letters and digits.
///
/// Relies on `rand::distributions::Alphanumeric` sampled through
/// `rand::thread_rng`: each draw is one byte of a 62-character set of
/// ASCII letters and digits; nothing else is promised of a random value.
#[verifier::external_body]
pub fn random_alphanumeric_13() -> (r: String)
    ensures
        r@.len() == 13,
        forall|i: int| 0 <= i < r@.len() ==> spec_is_alnum(#[trigger] r@[i]),
{
    std::iter::repeat(())
        .map(|_| rand::thread_rng().sample(rand::distributions::Alphanumeric))
        .take(13)
        .map(|x| x as char)
        .collect()
}

/// Synthesizes the provider session cookie: the clock plus two days in
/// milliseconds, an underscore, and thirteen random characters. Whatever
/// the clock and the randomness yield, the text is the decimal digits of
/// some machine word, an underscore and thirteen ASCII letters or digits.
pub fn adsbx_sid() -> (r: String)
    ensures
        r@.len() >= 15,
        exists|t: int, suffix: Seq<char>|
            #![trigger crate::text::spec_dec(t).add(suffix)]
            {
                &&& 0 <= t < 0x1_0000_0000_0000_0000
                &&& suffix.len() == 13
                &&& (forall|i: int| 0 <= i < suffix.len() ==> spec_is_alnum(#[trigger] suffix[i]))
                &&& r@ == crate::text::spec_dec(t) + "_"@ + suffix
            },
{
    let time = now_unix_ms() as u128 + 1728 * 100000;
    let ms = (time % 0x1_0000_0000_0000_0000) as u64;
    let mut s = u64_to_dec(ms);
    proof {
        crate::text::lemma_dec_digits(ms as int);
    }
    s.append("_");
    let rnd = random_alphanumeric_13();
    s.append(rnd.as_str());
    proof {
        reveal_strlit("_");
        assert(s@ =~= crate::text::spec_dec(ms as int) + "_"@ + rnd@);
        assert(crate::text::spec_dec(ms as int).add(rnd@).len() >= 13);
    }
    s
}

/// The bytes of the payload that stands in for a missing day: an empty
/// trace, so that unknown aircraft-days read as empty rather than failing.
pub open spec fn spec_synth_404(icao: Seq<char>) -> Seq<char> {
    "{\"icao\": \""@ + icao + "\", \"noRegData\": true, \"timestamp\": 1697155200.000, \"trace\": []}"@
}

/// Classifies a provider response: a 200 passes its body through, a 404
/// becomes the synthesized empty trace, and any other status is an error.
pub fn classify_response(status: u16, body: Vec<u8>, icao: &str) -> (r: Result<Vec<u8>, String>)
    requires
        icao.is_ascii(),
    ensures
        status == 200 ==> (r matches Ok(b) && b@ == body@),
        status == 404 ==> (r matches Ok(b) && b@ == spec_synth_404(icao@).map_values(
            |c: char| c as u8,
        )),
        status != 200 && status != 404 ==> r is Err,
{
    broadcast use vstd::string::group_string_axioms;

    if status == 200 {
        Ok(body)
    } else if status == 404 {
        let mut s = "{\"icao\": \"".to_owned();
        s.append(icao);
        s.append("\", \"noRegData\": true, \"timestamp\": 1697155200.000, \"trace\": []}");
        proof {
            reveal_strlit("{\"icao\": \"");
            reveal_strlit("\", \"noRegData\": true, \"timestamp\": 1697155200.000, \"trace\": []}");
            assert(s@ =~= spec_synth_404(icao@));
            assert(vstd::utf8::is_ascii_chars("{\"icao\": \""@));
            assert(vstd::utf8::is_ascii_chars(
                "\", \"noRegData\": true, \"timestamp\": 1697155200.000, \"trace\": []}"@,
            ));
            assert forall|i: int| 0 <= i < s@.len() implies '\0' <= #[trigger] s@[i]
                <= '\u{7f}' by {
                let a = "{\"icao\": \""@;
                let b2 = "\", \"noRegData\": true, \"timestamp\": 1697155200.000, \"trace\": []}"@;
                if i < a.len() {
                    assert(s@[i] == a[i]);
                } else if i < a.len() + icao@.len() {
                    assert(s@[i] == icao@[i - a.len()]);
                } else {
                    assert(s@[i] == b2[i - a.len() - icao@.len()]);
                }
            }
            assert(vstd::utf8::is_ascii_chars(s@));
            vstd::utf8::is_ascii_chars_encode_utf8(s@);
        }
        let b = s.as_str().as_bytes_vec();
        proof {
            assert(b@ =~= spec_synth_404(icao@).map_values(|c: char| c as u8));
        }
        Ok(b)
    } else {
        let mut e = "the provider answered with an unexpected status for ".to_owned();
        e.append(icao);
        Err(e)
    }
}

/// A scalar cell of a trace row, as the view of [`Scalar`]: the text of a
/// number, a text, or anything else.
pub enum ScalarV {
    Num(Seq<char>),
    Text(Seq<char>),
    Other,
}

/// A scalar cell of a trace row: the decimal text of a JSON number, a JSON
/// string, or anything else.
pub enum Scalar {
    Num(String),
    Text(String),
    Other,
}

impl Scalar {
    pub open spec fn view_v(self) -> ScalarV {
        match self {
            Scalar::Num(s) => ScalarV::Num(s@),
            Scalar::Text(s) => ScalarV::Text(s@),
            Scalar::Other => ScalarV::Other,
        }
    }
}

/// The view of a trace row.
pub open spec fn row_view(row: Seq<Scalar>) -> Seq<ScalarV> {
    row.map_values(|c: Scalar| c.view_v())
}

/// The view of a list of trace rows.
pub open spec fn rows_view(rows: Seq<Vec<Scalar>>) -> Seq<Seq<ScalarV>> {
    rows.map_values(|r: Vec<Scalar>| row_view(r@))
}

/// The view of a provider trace document.
pub struct TraceDocV {
    pub timestamp: Seq<char>,
    pub rows: Seq<Seq<ScalarV>>,
}

/// A provider trace document: the timestamp number text and the rows of
/// the `trace` array.
pub struct TraceDoc {
    pub timestamp: String,
    pub rows: Vec<Vec<Scalar>>,
}

impl TraceDoc {
    pub open spec fn view_v(self) -> TraceDocV {
        TraceDocV { timestamp: self.timestamp@, rows: rows_view(self.rows@) }
    }
}

/// The trace document written in a provider payload, or `None` when the
/// bytes are not a JSON object with a numeric `timestamp` and a `trace`
/// array. What JSON parsing yields takes pages to state, so the result
/// carries a name: it is a function of the bytes alone.
pub uninterp spec fn trace_doc_of(data: Seq<u8>) -> Option<TraceDocV>;

/// Reads a provider payload into a trace document.
///
/// Relies on `serde_json::from_slice`: the payload parses as JSON with an
/// object at the top, a number under `timestamp` and an array under
/// `trace`, exactly when the result is `Some`; numbers are carried as
/// their decimal text, strings as themselves, rows that are not arrays as
/// empty rows.
#[verifier::external_body]
pub fn parse_trace_json(data: &Vec<u8>) -> (r: Option<TraceDoc>)
    ensures
        match r {
            Some(d) => trace_doc_of(data@) == Some(d.view_v()),
            None => trace_doc_of(data@) is None,
        },
{
    let v: Value = serde_json::from_slice(data).ok()?;
    let (timestamp, arr) = match (v.get("timestamp")?, v.get("trace")?) {
        (Value::Number(n), Value::Array(a)) => (n.to_string(), a),
        _ => return None,
    };
    let cell = |c: &Value| match c {
        Value::Number(n) => Scalar::Num(n.to_string()),
        Value::String(t) => Scalar::Text(t.clone()),
        _ => Scalar::Other,
    };
    let row = |r: &Value| match r {
        Value::Array(cs) => cs.iter().map(&cell).collect(),
        _ => Vec::new(),
    };
    Some(TraceDoc { timestamp, rows: arr.iter().map(&row).collect() })
}

/// The value of the first `k` fractional digits, scaled to `10^k` per unit.
pub open spec fn spec_frac_val(fp: Seq<char>, k: nat) -> int
    decreases k,
{
    if k == 0 {
        0
    } else if fp.len() == 0 {
        0
    } else {
        crate::text::digit_val(fp[0]) * pow10((k - 1) as nat) + spec_frac_val(
            fp.skip(1),
            (k - 1) as nat,
        )
    }
}

/// The number written in decimal notation with an optional sign and an
/// optional fractional part, scaled by `10^k` and truncated: `None` when
/// the text is not such a notation or its integer part exceeds twelve
/// digits.
pub open spec fn spec_parse_scaled(sq: Seq<char>, k: nat) -> Option<int> {
    let neg = sq.len() > 0 && sq[0] == '-';
    let body = if neg {
        sq.skip(1)
    } else {
        sq
    };
    let dot = spec_find(body, '.');
    let ip = body.take(dot);
    let fp = if dot < body.len() {
        body.skip(dot + 1)
    } else {
        Seq::empty()
    };
    if ip.len() == 0 || ip.len() > 12 || !spec_all_digits(ip) || !spec_all_digits(fp) {
        None
    } else {
        let v = spec_digits_val(ip) * pow10(k) + spec_frac_val(fp, k);
        Some(
            if neg {
                -v
            } else {
                v
            },
        )
    }
}

/// Ten to the `k`-th, for small `k`.
fn exec_pow10(k: u32) -> (r: u64)
    requires
        k <= 6,
    ensures
        r == pow10(k as nat),
{
    proof {
        assert(pow10(0) == 1);
        assert(pow10(1) == 10);
        assert(pow10(2) == 100);
        assert(pow10(3) == 1000);
        assert(pow10(4) == 10000);
        assert(pow10(5) == 100_000);
        assert(pow10(6) == 1_000_000);
    }
    if k == 0 {
        1
    } else if k == 1 {
        10
    } else if k == 2 {
        100
    } else if k == 3 {
        1000
    } else if k == 4 {
        10000
    } else if k == 5 {
        100_000
    } else {
        1_000_000
    }
}

/// Reads a decimal number text, scaled by `10^k` and truncated.
#[verifier::spinoff_prover]
#[verifier::rlimit(100)]
pub fn parse_scaled(s: &str, k: u32) -> (r: Option<i64>)
    requires
        k <= 6,
    ensures
        match r {
            Some(v) => spec_parse_scaled(s@, k as nat) == Some(v as int) && -(pow10(12) * pow10(
                k as nat,
            )) < v < pow10(12) * pow10(k as nat),
            None => spec_parse_scaled(s@, k as nat) is None,
        },
{
    let n = s.unicode_len();
    let ghost sq = s@;
    let neg = n > 0 && s.get_char(0) == '-';
    let start: usize = if neg {
        1
    } else {
        0
    };
    let ghost body = if neg {
        sq.skip(1)
    } else {
        sq
    };
    proof {
        if neg {
            assert(body =~= sq.skip(1));
        } else {
            assert(body =~= sq);
        }
        assert(sq.skip(start as int) =~= body);
    }
    let dot_abs = find_char(s, start, '.');
    proof {
        assert(spec_find(body, '.') == dot_abs - start);
    }
    let ghost dot = dot_abs - start;
    let ghost ip = body.take(dot);
    proof {
        assert(ip =~= sq.subrange(start as int, dot_abs as int));
    }
    if dot_abs == start || dot_abs - start > 12 {
        return None;
    }
    // integer part digits
    let mut i: usize = start;
    while i < dot_abs
        invariant
            start <= i <= dot_abs <= n,
            n == sq.len(),
            sq == s@,
            neg == (sq.len() > 0 && sq[0] == '-'),
            start == (if neg { 1int } else { 0int }),
            body == (if neg { sq.skip(1) } else { sq }),
            dot == dot_abs - start,
            dot == spec_find(body, '.'),
            dot_abs <= n,
            ip == body.take(dot),
            ip == sq.subrange(start as int, dot_abs as int),
            forall|j: int| 0 <= j < i - start ==> spec_is_digit(#[trigger] ip[j]),
        decreases dot_abs - i,
    {
        let c = s.get_char(i);
        if c < '0' || c > '9' {
            proof {
                assert(ip[i - start] == sq[i as int]);
                assert(!spec_is_digit(ip[i - start]));
            }
            return None;
        }
        proof {
            assert(ip[i - start] == sq[i as int]);
        }
        i = i + 1;
    }
    proof {
        assert(spec_all_digits(ip));
    }
    let ipv = parse_digits_u64(s, start, dot_abs);
    proof {
        crate::text::lemma_digits_val_bound(ip);
        crate::text::lemma_pow10_mono(ip.len(), 12);
        assert(pow10(12) == 1_000_000_000_000) by {
            assert(pow10(0) == 1);
            assert(pow10(1) == 10);
            assert(pow10(2) == 100);
            assert(pow10(3) == 1000);
            assert(pow10(4) == 10000);
            assert(pow10(5) == 100_000);
            assert(pow10(6) == 1_000_000);
            assert(pow10(7) == 10_000_000);
            assert(pow10(8) == 100_000_000);
            assert(pow10(9) == 1_000_000_000);
            assert(pow10(10) == 10_000_000_000);
            assert(pow10(11) == 100_000_000_000);
        }
    }
    // fractional part
    let ghost fp = if dot < body.len() {
        body.skip(dot + 1)
    } else {
        Seq::empty()
    };
    let frac_start = dot_abs + 1;
    proof {
        if dot < body.len() {
            assert(fp =~= sq.subrange(frac_start as int, n as int));
        }
    }
    let mut j: usize = frac_start;
    while j < n
        invariant
            frac_start <= j || j == frac_start,
            frac_start <= n + 1,
            n == sq.len(),
            sq == s@,
            neg == (sq.len() > 0 && sq[0] == '-'),
            start == (if neg { 1int } else { 0int }),
            body == (if neg { sq.skip(1) } else { sq }),
            dot == dot_abs - start,
            dot == spec_find(body, '.'),
            dot_abs <= n,
            ip == body.take(dot),
            dot_abs + 1 == frac_start,
            fp == (if dot < body.len() { body.skip(dot + 1) } else { Seq::empty() }),
            dot < body.len() ==> fp == sq.subrange(frac_start as int, n as int),
            frac_start <= n ==> dot < body.len(),
            forall|x: int| 0 <= x < j - frac_start ==> spec_is_digit(#[trigger] fp[x]),
        decreases n - j,
    {
        let c = s.get_char(j);
        if c < '0' || c > '9' {
            proof {
                assert(fp[j - frac_start] == sq[j as int]);
                assert(!spec_is_digit(fp[j - frac_start]));
            }
            return None;
        }
        proof {
            assert(fp[j - frac_start] == sq[j as int]);
        }
        j = j + 1;
    }
    proof {
        if dot >= body.len() {
            assert(fp =~= Seq::<char>::empty());
        }
        assert(spec_all_digits(fp));
    }
    // frac value over exactly k digits, zero-padded
    proof {
        assert(fp.skip(0) =~= fp);
        crate::text::lemma_pow10_mono(0, k as nat);
    }
    let mut fv: u64 = 0;
    let mut t: u32 = 0;
    while t < k
        invariant
            t <= k <= 6,
            n == sq.len(),
            sq == s@,
            dot_abs <= n,
            dot_abs + 1 == frac_start,
            fp == (if dot < body.len() { body.skip(dot + 1) } else { Seq::empty() }),
            dot < body.len() ==> fp == sq.subrange(frac_start as int, n as int),
            dot == dot_abs - start,
            start == (if neg { 1int } else { 0int }),
            body == (if neg { sq.skip(1) } else { sq }),
            spec_all_digits(fp),
            fv < pow10(t as nat),
            (t as int) <= fp.len() ==> spec_frac_val(fp, k as nat) == fv * pow10((k - t) as nat)
                + spec_frac_val(fp.skip(t as int), (k - t) as nat),
            (t as int) > fp.len() ==> spec_frac_val(fp, k as nat) == fv * pow10((k - t) as nat),
            frac_start <= n ==> dot < body.len(),
            fp.len() == (if frac_start <= n { n - frac_start } else { 0 }),
        decreases k - t,
    {
        proof {
            assert(pow10((k - t) as nat) == 10 * pow10((k - t - 1) as nat));
            crate::text::lemma_pow10_mono(0, (k - t - 1) as nat);
            crate::text::lemma_pow10_mono(t as nat, 6);
            assert(pow10(6) == 1_000_000) by {
                assert(pow10(0) == 1);
                assert(pow10(1) == 10);
                assert(pow10(2) == 100);
                assert(pow10(3) == 1000);
                assert(pow10(4) == 10000);
                assert(pow10(5) == 100_000);
            }
        }
        let d: u64 = if (t as usize) + 1 < n - dot_abs {
            let c = s.get_char(dot_abs + 1 + t as usize);
            proof {
                assert(fp[t as int] == sq[dot_abs + 1 + t as int]);
            }
            (c as u64) - 48
        } else {
            0
        };
        let ghost fv0 = fv as int;
        let ghost p1 = pow10((k - t - 1) as nat);
        fv = fv * 10 + d;
        proof {
            if (t as int) < fp.len() {
                assert(spec_frac_val(fp.skip(t as int), (k - t) as nat) == crate::text::digit_val(
                    fp.skip(t as int)[0],
                ) * p1 + spec_frac_val(fp.skip(t as int).skip(1), (k - t - 1) as nat));
                assert(fp.skip(t as int).skip(1) =~= fp.skip(t as int + 1));
                assert(fp.skip(t as int)[0] == fp[t as int]);
                assert(d == crate::text::digit_val(fp[t as int]));
                assert((fv0 * 10 + d) * p1 == fv0 * (10 * p1) + d * p1) by (nonlinear_arith);
            } else {
                assert(d == 0);
                if (t as int) == fp.len() {
                    assert(spec_frac_val(fp.skip(t as int), (k - t) as nat) == 0);
                }
                assert((fv0 * 10) * p1 == fv0 * (10 * p1)) by (nonlinear_arith);
            }
        }
        t = t + 1;
    }
    proof {
        assert(t == k);
        assert(pow10(0) == 1);
        if (t as int) <= fp.len() {
            assert(spec_frac_val(fp.skip(t as int), (k - t) as nat) == 0);
            assert(spec_frac_val(fp, k as nat) == fv * pow10((k - t) as nat) + 0);
        } else {
            assert(spec_frac_val(fp, k as nat) == fv * pow10((k - t) as nat));
        }
        assert((k - t) as nat == 0nat);
        assert(pow10((k - t) as nat) == 1);
        assert(fv * pow10((k - t) as nat) == fv as int * 1int) by (nonlinear_arith)
            requires
                pow10((k - t) as nat) == 1,
        ;
        assert(spec_frac_val(fp, k as nat) == fv);
    }
    let pk = exec_pow10(k);
    proof {
        crate::text::lemma_pow10_mono(k as nat, 6);
        assert(pow10(6) == 1_000_000) by {
            assert(pow10(0) == 1);
            assert(pow10(1) == 10);
            assert(pow10(2) == 100);
            assert(pow10(3) == 1000);
            assert(pow10(4) == 10000);
            assert(pow10(5) == 100_000);
        }
        crate::text::lemma_pow10_mono(0, k as nat);
        assert(ipv * pk <= 1_000_000_000_000 * 1_000_000) by (nonlinear_arith)
            requires
                0 <= ipv < 1_000_000_000_000,
                0 < pk <= 1_000_000,
        ;
    }
    let v: u64 = ipv * pk + fv;
    proof {
        assert(ipv * pk <= (1_000_000_000_000 - 1) * pk) by (nonlinear_arith)
            requires
                0 <= ipv <= 1_000_000_000_000 - 1,
                pk > 0,
        ;
        assert((1_000_000_000_000 - 1) * pk + pk == 1_000_000_000_000 * pk) by (nonlinear_arith);
        assert(pow10(12) * pow10(k as nat) == 1_000_000_000_000 * pk) by (nonlinear_arith)
            requires
                pow10(12) == 1_000_000_000_000,
                pow10(k as nat) == pk,
        ;
    }
    if neg {
        Some(-(v as i64))
    } else {
        Some(v as i64)
    }
}

/// The timestamp in milliseconds and the rows of a parsed payload: a
/// missing or malformed document reads as an empty trace.
pub open spec fn spec_compute_trace(doc: Option<TraceDocV>) -> (int, Seq<Seq<ScalarV>>) {
    match doc {
        None => (0, Seq::empty()),
        Some(d) => match spec_parse_scaled(d.timestamp, 0) {
            Some(v) => (v * 1000, d.rows),
            None => (0, Seq::empty()),
        },
    }
}

/// Splits a parsed payload into the trace timestamp, in milliseconds
/// truncated to whole seconds, and the trace rows. A missing or malformed
/// document yields an empty trace.
pub fn compute_trace(doc: Option<TraceDoc>) -> (r: (i64, Vec<Vec<Scalar>>))
    ensures
        ({
            let (ts, rows) = spec_compute_trace(
                match doc {
                    Some(d) => Some(d.view_v()),
                    None => None,
                },
            );
            r.0 == ts && rows_view(r.1@) == rows
        }),
        -1_000_000_000_000_000_000 < r.0 < 1_000_000_000_000_000_000,
{
    match doc {
        None => {
            let r: Vec<Vec<Scalar>> = Vec::new();
            proof {
                assert(rows_view(r@) =~= Seq::<Seq<ScalarV>>::empty());
            }
            (0, r)
        },
        Some(d) => {
            match parse_scaled(d.timestamp.as_str(), 0) {
                Some(v) => {
                    proof {
                        assert(pow10(0) == 1);
                        assert(pow10(12) == 1_000_000_000_000) by {
                            assert(pow10(0) == 1);
                            assert(pow10(1) == 10);
                            assert(pow10(2) == 100);
                            assert(pow10(3) == 1000);
                            assert(pow10(4) == 10000);
                            assert(pow10(5) == 100_000);
                            assert(pow10(6) == 1_000_000);
                            assert(pow10(7) == 10_000_000);
                            assert(pow10(8) == 100_000_000);
                            assert(pow10(9) == 1_000_000_000);
                            assert(pow10(10) == 10_000_000_000);
                            assert(pow10(11) == 100_000_000_000);
                        }
                    }
                    (v * 1000, d.rows)
                },
                None => {
                    let r: Vec<Vec<Scalar>> = Vec::new();
                    proof {
                        assert(rows_view(r@) =~= Seq::<Seq<ScalarV>>::empty());
                    }
                    (0, r)
                },
            }
        },
    }
}

/// The position a trace row describes, or `None` when the row is to be
/// dropped: too short, a non-numeric coordinate, an altitude that is
/// neither a number nor the text `ground`, or a value out of the range the
/// library can hold.
pub open spec fn spec_row_position(start_ms: int, row: Seq<ScalarV>) -> Option<Position> {
    if row.len() < 4 {
        None
    } else {
        match (row[0], row[1], row[2]) {
            (ScalarV::Num(ts), ScalarV::Num(las), ScalarV::Num(los)) => {
                match (
                    spec_parse_scaled(ts, 3),
                    spec_parse_scaled(las, 6),
                    spec_parse_scaled(los, 6),
                ) {
                    (Some(off), Some(lat), Some(lon)) => {
                        let alt = match row[3] {
                            ScalarV::Text(g) => if g == "ground"@ {
                                Some(None::<int>)
                            } else {
                                None
                            },
                            ScalarV::Num(a) => match spec_parse_scaled(a, 0) {
                                Some(av) => Some(Some(av)),
                                None => None,
                            },
                            ScalarV::Other => None,
                        };
                        match alt {
                            None => None,
                            Some(altv) => {
                                let t = start_ms + off;
                                let ok = {
                                    &&& crate::serde::RFC3339_MS_MIN <= t
                                        <= crate::serde::RFC3339_MS_MAX
                                    &&& -1_000_000_000 < lat < 1_000_000_000
                                    &&& -1_000_000_000 < lon < 1_000_000_000
                                    &&& match altv {
                                        Some(av) => -10_000_000 < av < 10_000_000,
                                        None => true,
                                    }
                                };
                                if ok {
                                    Some(
                                        Position {
                                            datetime_ms: t as i64,
                                            latitude_udeg: lat as i64,
                                            longitude_udeg: lon as i64,
                                            altitude_ft: match altv {
                                                Some(av) => Some(av as i64),
                                                None => None,
                                            },
                                        },
                                    )
                                } else {
                                    None
                                }
                            },
                        }
                    },
                    _ => None,
                }
            },
            _ => None,
        }
    }
}

/// The positions of the rows that decode, in row order.
pub open spec fn spec_positions_of(start_ms: int, rows: Seq<Seq<ScalarV>>) -> Seq<Position>
    decreases rows.len(),
{
    if rows.len() == 0 {
        Seq::empty()
    } else {
        spec_positions_of(start_ms, rows.drop_last()) + match spec_row_position(
            start_ms,
            rows.last(),
        ) {
            Some(p) => seq![p],
            None => Seq::empty(),
        }
    }
}

/// Decodes one trace row relative to the trace timestamp.
pub fn row_position(start_ms: i64, row: &Vec<Scalar>) -> (r: Option<Position>)
    requires
        -1_000_000_000_000_000_000 < start_ms < 1_000_000_000_000_000_000,
    ensures
        r == spec_row_position(start_ms as int, row_view(row@)),
{
    let ghost rv = row_view(row@);
    proof {
        assert(rv.len() == row@.len());
        assert forall|i: int| 0 <= i < row@.len() implies rv[i] == row@[i].view_v() by {}
    }
    if row.len() < 4 {
        return None;
    }
    let ts = match &row[0] {
        Scalar::Num(t) => t,
        _ => {
            return None;
        },
    };
    let las = match &row[1] {
        Scalar::Num(t) => t,
        _ => {
            return None;
        },
    };
    let los = match &row[2] {
        Scalar::Num(t) => t,
        _ => {
            return None;
        },
    };
    let off = match parse_scaled(ts.as_str(), 3) {
        Some(v) => v,
        None => {
            return None;
        },
    };
    let lat = match parse_scaled(las.as_str(), 6) {
        Some(v) => v,
        None => {
            return None;
        },
    };
    let lon = match parse_scaled(los.as_str(), 6) {
        Some(v) => v,
        None => {
            return None;
        },
    };
    let alt: Option<i64> = match &row[3] {
        Scalar::Text(g) => {
            if crate::text::str_eq(g.as_str(), "ground") {
                None
            } else {
                return None;
            }
        },
        Scalar::Num(a) => {
            match parse_scaled(a.as_str(), 0) {
                Some(av) => Some(av),
                None => {
                    return None;
                },
            }
        },
        Scalar::Other => {
            return None;
        },
    };
    let t: i128 = start_ms as i128 + off as i128;
    let ok = crate::serde::RFC3339_MS_MIN as i128 <= t && t <= crate::serde::RFC3339_MS_MAX as i128
        && -1_000_000_000 < lat && lat < 1_000_000_000 && -1_000_000_000 < lon && lon
        < 1_000_000_000 && (match alt {
        Some(av) => -10_000_000 < av && av < 10_000_000,
        None => true,
    });
    if ok {
        Some(
            Position {
                datetime_ms: t as i64,
                latitude_udeg: lat,
                longitude_udeg: lon,
                altitude_ft: alt,
            },
        )
    } else {
        None
    }
}

/// Decodes the rows of a trace into positions, dropping the rows that do
/// not decode.
pub fn compute_positions(start_ms: i64, rows: &Vec<Vec<Scalar>>) -> (r: Vec<Position>)
    requires
        -1_000_000_000_000_000_000 < start_ms < 1_000_000_000_000_000_000,
    ensures
        r@ == spec_positions_of(start_ms as int, rows_view(rows@)),
        crate::codec::spec_all_encodable(r@),
{
    broadcast use vstd::seq_lib::group_seq_properties;

    let ghost rv = rows_view(rows@);
    let mut r: Vec<Position> = Vec::new();
    let mut i: usize = 0;
    proof {
        assert(rv.take(0) =~= Seq::<Seq<ScalarV>>::empty());
        assert(r@ =~= spec_positions_of(start_ms as int, rv.take(0)));
    }
    while i < rows.len()
        invariant
            -1_000_000_000_000_000_000 < start_ms < 1_000_000_000_000_000_000,
            rv == rows_view(rows@),
            i <= rows@.len(),
            rv.len() == rows@.len(),
            r@ == spec_positions_of(start_ms as int, rv.take(i as int)),
            crate::codec::spec_all_encodable(r@),
        decreases rows@.len() - i,
    {
        proof {
            assert(rv.take(i as int + 1).drop_last() =~= rv.take(i as int));
            assert(rv.take(i as int + 1).last() == rv[i as int]);
            assert(rv[i as int] == row_view(rows@[i as int]@));
        }
        let ghost r0 = r@;
        match row_position(start_ms, &rows[i]) {
            Some(p) => {
                r.push(p);
                proof {
                    assert(r@ =~= r0 + seq![p]);
                }
            },
            None => {
                proof {
                    assert(r@ =~= r0 + Seq::<Position>::empty());
                }
            },
        }
        i = i + 1;
    }
    proof {
        assert(rv.take(rows@.len() as int) =~= rv);
    }
    r
}

/// The positions written in a raw provider payload: the decoded rows of
/// the parsed document, relative to its timestamp.
pub open spec fn spec_positions_from_bytes(data: Seq<u8>) -> Seq<Position> {
    let (ts, rows) = spec_compute_trace(trace_doc_of(data));
    spec_positions_of(ts, rows)
}

/// Returns the positions of `icao_number` on the day `date`: the raw
/// provider payload, cached under its day blob name with the rule for
/// data derived from `date`, decoded into positions. `fetch` performs the
/// provider call on a cache miss.
pub fn positions<T: crate::fs::BlobStorageProvider, F: FnOnce() -> Result<Vec<u8>, String>>(
    icao_number: &str,
    date: Date,
    client: &mut T,
    fetch: F,
    today: Date,
) -> (r: Result<Vec<Position>, String>)
    requires
        date.valid(),
        today.in_bounds() || today.valid(),
        call_requires(fetch, ()),
    ensures
        final(client).spec_can_put() == old(client).spec_can_put(),
        r matches Ok(ps) ==> crate::codec::spec_all_encodable(ps@),
        old(client).blobs().contains_key(spec_trace_blob_name(icao_number@, date))
            ==> final(client).blobs() == old(client).blobs() && (r matches Ok(ps)
            ==> ps@ == spec_positions_from_bytes(
                old(client).blobs()[spec_trace_blob_name(icao_number@, date)],
            )),
        r matches Ok(ps) ==> exists|data: Vec<u8>|
            {
                &&& #[trigger] crate::fs::cached_ok(
                    old(client).blobs(),
                    final(client).blobs(),
                    old(client).spec_can_put(),
                    spec_trace_blob_name(icao_number@, date),
                    fetch,
                    crate::fs::spec_date_action(date, today),
                    data,
                )
                &&& ps@ == spec_positions_from_bytes(data@)
            },
        r matches Err(_) ==> final(client).blobs() == old(client).blobs(),
{
    let blob_name = cache_file_path(icao_number, &date);
    let action = crate::fs::CacheAction::from_date(&date, &today);
    let bytes = match crate::fs::cached(blob_name.as_str(), fetch, client, action) {
        Ok(b) => b,
        Err(e) => {
            return Err(e);
        },
    };
    let doc = parse_trace_json(&bytes);
    let (start, rows) = compute_trace(doc);
    let ps = compute_positions(start, &rows);
    proof {
        assert(ps@ == spec_positions_from_bytes(bytes@));
    }
    Ok(ps)
}

} // verus!
