use vstd::prelude::*;

verus! {

/// The numeric value of a hexadecimal digit character, or 16 for any other
/// character.
pub open spec fn spec_hex_digit_val(c: char) -> int {
    if '0' <= c <= '9' {
        c as int - '0' as int
    } else if 'a' <= c <= 'f' {
        c as int - 'a' as int + 10
    } else if 'A' <= c <= 'F' {
        c as int - 'A' as int + 10
    } else {
        16
    }
}

pub open spec fn spec_is_hex_digit(c: char) -> bool {
    spec_hex_digit_val(c) < 16
}

/// The text is a non-empty hexadecimal number that fits 32 bits.
pub open spec fn spec_hex_u32_ok(s: Seq<char>) -> bool {
    &&& s.len() > 0
    &&& forall|i: int| 0 <= i < s.len() ==> spec_is_hex_digit(#[trigger] s[i])
    &&& spec_hex_val(s) <= u32::MAX
}

/// The value of a sequence of hexadecimal digits, most significant first.
pub open spec fn spec_hex_val(s: Seq<char>) -> int
    decreases s.len(),
{
    if s.len() == 0 {
        0
    } else {
        spec_hex_val(s.drop_last()) * 16 + spec_hex_digit_val(s.last())
    }
}

/// Reads a hexadecimal number, or returns `None` when the text is empty,
/// holds a non-hexadecimal character, or does not fit 32 bits.
pub fn parse_hex_u32(s: &str) -> (r: Option<u32>)
    ensures
        match r {
            Some(v) => {
                &&& s@.len() > 0
                &&& forall|i: int| 0 <= i < s@.len() ==> spec_is_hex_digit(#[trigger] s@[i])
                &&& v == spec_hex_val(s@)
            },
            None => s@.len() == 0 || (exists|i: int|
                0 <= i < s@.len() && !spec_is_hex_digit(#[trigger] s@[i])) || spec_hex_val(s@)
                > u32::MAX,
        },
{
    let n = s.unicode_len();
    if n == 0 {
        return None;
    }
    let mut v: u64 = 0;
    let mut i: usize = 0;
    proof {
        assert(s@.take(0) =~= Seq::<char>::empty());
    }
    while i < n
        invariant
            n == s@.len(),
            i <= n,
            forall|j: int| 0 <= j < i ==> spec_is_hex_digit(#[trigger] s@[j]),
            v == spec_hex_val(s@.take(i as int)),
            v <= u32::MAX,
        decreases n - i,
    {
        let c = s.get_char(i);
        let d: u64 = if c >= '0' && c <= '9' {
            c as u64 - 48
        } else if c >= 'a' && c <= 'f' {
            c as u64 - 97 + 10
        } else if c >= 'A' && c <= 'F' {
            c as u64 - 65 + 10
        } else {
            proof {
                assert(!spec_is_hex_digit(s@[i as int]));
            }
            return None;
        };
        proof {
            assert(s@.take(i as int + 1).drop_last() =~= s@.take(i as int));
            assert(s@.take(i as int + 1).last() == c);
            assert(d == spec_hex_digit_val(c));
        }
        v = v * 16 + d;
        if v > u32::MAX as u64 {
            proof {
                lemma_hex_val_monotone(s@, i as int + 1);
            }
            return None;
        }
        i = i + 1;
    }
    proof {
        assert(s@.take(n as int) =~= s@);
    }
    Some(v as u32)
}

/// A longer prefix never has a smaller value: every digit weight is
/// non-negative.
proof fn lemma_hex_val_monotone(s: Seq<char>, i: int)
    requires
        0 <= i <= s.len(),
    ensures
        spec_hex_val(s) >= spec_hex_val(s.take(i)),
    decreases s.len() - i,
{
    if i == s.len() {
        assert(s.take(i) =~= s);
    } else {
        lemma_hex_val_monotone(s, i + 1);
        assert(s.take(i + 1).drop_last() =~= s.take(i));
        assert(s.take(i + 1).last() == s[i]);
        assert(spec_hex_val(s.take(i)) >= 0) by {
            lemma_hex_val_nonneg(s.take(i));
        }
        assert(spec_hex_val(s.take(i + 1)) >= spec_hex_val(s.take(i)));
    }
}

proof fn lemma_hex_val_nonneg(s: Seq<char>)
    ensures
        spec_hex_val(s) >= 0,
    decreases s.len(),
{
    if s.len() > 0 {
        lemma_hex_val_nonneg(s.drop_last());
    }
}

/// A contiguous range of 24-bit transponder addresses allotted to one
/// country.
pub struct IcaoRange {
    pub country: String,
    pub start: u32,
    pub end: u32,
}

impl IcaoRange {
    /// Whether `icao_number` lies in this range.
    pub fn contains(&self, icao_number: u32) -> (r: bool)
        ensures
            r == (self.start <= icao_number <= self.end),
    {
        icao_number >= self.start && icao_number <= self.end
    }
}

/// The allotment of transponder address ranges to countries, in ISO 3166
/// names.
pub struct CountryIcaoRanges {
    pub ranges: Vec<IcaoRange>,
}

impl CountryIcaoRanges {
    /// Returns a new table over the given ranges.
    pub fn new(ranges: Vec<IcaoRange>) -> (r: CountryIcaoRanges)
        ensures
            r.ranges == ranges,
    {
        CountryIcaoRanges { ranges }
    }

    /// Returns the country (ISO 3166) of the icao number, or `None` when no
    /// range holds it. Errors exactly when the text is not a hexadecimal
    /// number of 32 bits or fewer.
    pub fn country(&self, icao_number: &str) -> (r: Result<Option<String>, String>)
        ensures
            match r {
                Ok(Some(c)) => exists|j: int|
                    0 <= j < self.ranges@.len() && (#[trigger] self.ranges@[j]).start
                        <= spec_hex_val(icao_number@) <= self.ranges@[j].end && c@ == self.ranges@[
                        j].country@,
                Ok(None) => forall|j: int|
                    0 <= j < self.ranges@.len() ==> !((#[trigger] self.ranges@[j]).start
                        <= spec_hex_val(icao_number@) <= self.ranges@[j].end),
                Err(_) => icao_number@.len() == 0 || (exists|i: int|
                    0 <= i < icao_number@.len() && !spec_is_hex_digit(
                        #[trigger] icao_number@[i],
                    )) || spec_hex_val(icao_number@) > u32::MAX,
            },
            (icao_number@.len() == 0 || (exists|i: int|
                0 <= i < icao_number@.len() && !spec_is_hex_digit(#[trigger] icao_number@[i]))
                || spec_hex_val(icao_number@) > u32::MAX) ==> r is Err,
    {
        let value = match parse_hex_u32(icao_number) {
            Some(v) => v,
            None => {
                let mut e = icao_number.to_owned();
                e.append(" is not in hex format");
                return Err(e);
            },
        };
        proof {
            assert(icao_number@.len() > 0);
            assert forall|i: int| 0 <= i < icao_number@.len() implies spec_is_hex_digit(
                #[trigger] icao_number@[i],
            ) by {}
            assert(spec_hex_val(icao_number@) <= u32::MAX);
        }
        let mut j: usize = 0;
        while j < self.ranges.len()
            invariant
                j <= self.ranges@.len(),
                value == spec_hex_val(icao_number@),
                icao_number@.len() > 0,
                forall|i: int| 0 <= i < icao_number@.len() ==> spec_is_hex_digit(#[trigger] icao_number@[i]),
                spec_hex_val(icao_number@) <= u32::MAX,
                forall|k: int|
                    0 <= k < j ==> !((#[trigger] self.ranges@[k]).start <= value
                        <= self.ranges@[k].end),
            decreases self.ranges@.len() - j,
        {
            if self.ranges[j].contains(value) {
                return Ok(Some(self.ranges[j].country.clone()));
            }
            j = j + 1;
        }
        Ok(None)
    }
}

} // verus!
