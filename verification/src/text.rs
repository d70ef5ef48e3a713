use vstd::prelude::*;

verus! {

/// The decimal digit character for `d`.
pub open spec fn digit_char(d: int) -> char {
    if d == 0 {
        '0'
    } else if d == 1 {
        '1'
    } else if d == 2 {
        '2'
    } else if d == 3 {
        '3'
    } else if d == 4 {
        '4'
    } else if d == 5 {
        '5'
    } else if d == 6 {
        '6'
    } else if d == 7 {
        '7'
    } else if d == 8 {
        '8'
    } else {
        '9'
    }
}

pub open spec fn spec_is_digit(c: char) -> bool {
    '0' <= c <= '9'
}

/// The numeric value of a digit character.
pub open spec fn digit_val(c: char) -> int {
    c as int - '0' as int
}

/// A one-character string slice holding the digit `d`.
pub fn digit_str(d: u64) -> (r: &'static str)
    requires
        d < 10,
    ensures
        r@ =~= seq![digit_char(d as int)],
{
    proof {
        reveal_strlit("0");
        reveal_strlit("1");
        reveal_strlit("2");
        reveal_strlit("3");
        reveal_strlit("4");
        reveal_strlit("5");
        reveal_strlit("6");
        reveal_strlit("7");
        reveal_strlit("8");
        reveal_strlit("9");
    }
    if d == 0 {
        "0"
    } else if d == 1 {
        "1"
    } else if d == 2 {
        "2"
    } else if d == 3 {
        "3"
    } else if d == 4 {
        "4"
    } else if d == 5 {
        "5"
    } else if d == 6 {
        "6"
    } else if d == 7 {
        "7"
    } else if d == 8 {
        "8"
    } else {
        "9"
    }
}

/// The decimal notation of `n`, without leading zeroes.
pub open spec fn spec_dec(n: int) -> Seq<char>
    decreases n,
{
    if n < 10 {
        seq![digit_char(n)]
    } else {
        spec_dec(n / 10).push(digit_char(n % 10))
    }
}

/// Writes `n` in decimal notation.
pub fn u64_to_dec(n: u64) -> (r: String)
    ensures
        r@ == spec_dec(n as int),
    decreases n,
{
    if n < 10 {
        digit_str(n).to_owned()
    } else {
        let mut s = u64_to_dec(n / 10);
        s.append(digit_str(n % 10));
        proof {
            assert(s@ =~= spec_dec(n as int));
        }
        s
    }
}

/// `n` written with two digits, zero-padded.
pub open spec fn spec_pad2(n: int) -> Seq<char> {
    seq![digit_char(n / 10), digit_char(n % 10)]
}

/// Writes `n` with two digits, zero-padded.
pub fn pad2(n: u8) -> (r: String)
    requires
        n < 100,
    ensures
        r@ == spec_pad2(n as int),
{
    let mut s = digit_str((n / 10) as u64).to_owned();
    s.append(digit_str((n % 10) as u64));
    proof {
        assert(s@ =~= spec_pad2(n as int));
    }
    s
}

/// `a` comes no later than `b` in lexicographic character order.
pub open spec fn spec_str_le(a: Seq<char>, b: Seq<char>) -> bool
    decreases a.len(),
{
    if a.len() == 0 {
        true
    } else if b.len() == 0 {
        false
    } else if a[0] != b[0] {
        a[0] < b[0]
    } else {
        spec_str_le(a.skip(1), b.skip(1))
    }
}

/// One of two texts comes no later than the other.
pub proof fn lemma_str_le_total(a: Seq<char>, b: Seq<char>)
    ensures
        spec_str_le(a, b) || spec_str_le(b, a),
    decreases a.len(),
{
    if a.len() > 0 && b.len() > 0 && a[0] == b[0] {
        lemma_str_le_total(a.skip(1), b.skip(1));
    }
}

/// Lexicographic order chains.
pub proof fn lemma_str_le_trans(a: Seq<char>, b: Seq<char>, c: Seq<char>)
    requires
        spec_str_le(a, b),
        spec_str_le(b, c),
    ensures
        spec_str_le(a, c),
    decreases a.len(),
{
    if a.len() > 0 && b.len() > 0 && c.len() > 0 && a[0] == b[0] && b[0] == c[0] {
        lemma_str_le_trans(a.skip(1), b.skip(1), c.skip(1));
    }
}

/// Compares two texts in lexicographic character order.
pub fn str_le(a: &str, b: &str) -> (r: bool)
    ensures
        r == spec_str_le(a@, b@),
{
    let na = a.unicode_len();
    let nb = b.unicode_len();
    let mut i: usize = 0;
    proof {
        assert(a@.skip(0) =~= a@);
        assert(b@.skip(0) =~= b@);
    }
    while i < na && i < nb
        invariant
            i <= na,
            i <= nb,
            na == a@.len(),
            nb == b@.len(),
            spec_str_le(a@, b@) == spec_str_le(a@.skip(i as int), b@.skip(i as int)),
        decreases na - i,
    {
        let ca = a.get_char(i);
        let cb = b.get_char(i);
        proof {
            assert(a@.skip(i as int)[0] == ca);
            assert(b@.skip(i as int)[0] == cb);
            assert(a@.skip(i as int).skip(1) =~= a@.skip(i as int + 1));
            assert(b@.skip(i as int).skip(1) =~= b@.skip(i as int + 1));
        }
        if ca != cb {
            return ca < cb;
        }
        i = i + 1;
    }
    proof {
        if na <= nb {
            assert(a@.skip(i as int).len() == 0);
        } else {
            assert(b@.skip(i as int).len() == 0);
            assert(a@.skip(i as int).len() > 0);
        }
    }
    na <= nb
}

/// `n` written with three digits, zero-padded.
pub open spec fn spec_pad3(n: int) -> Seq<char> {
    seq![digit_char(n / 100), digit_char(n / 10 % 10), digit_char(n % 10)]
}

/// Writes `n` with three digits, zero-padded.
pub fn pad3(n: u16) -> (r: String)
    requires
        n < 1000,
    ensures
        r@ == spec_pad3(n as int),
{
    let mut s = digit_str((n / 100) as u64).to_owned();
    s.append(digit_str((n / 10 % 10) as u64));
    s.append(digit_str((n % 10) as u64));
    proof {
        assert(s@ =~= spec_pad3(n as int));
    }
    s
}

/// `n` written with six digits, zero-padded.
pub open spec fn spec_pad6(n: int) -> Seq<char> {
    seq![
        digit_char(n / 100000),
        digit_char(n / 10000 % 10),
        digit_char(n / 1000 % 10),
        digit_char(n / 100 % 10),
        digit_char(n / 10 % 10),
        digit_char(n % 10),
    ]
}

/// Writes `n` with six digits, zero-padded.
pub fn pad6(n: u32) -> (r: String)
    requires
        n < 1000000,
    ensures
        r@ == spec_pad6(n as int),
{
    let mut s = digit_str((n / 100000) as u64).to_owned();
    s.append(digit_str((n / 10000 % 10) as u64));
    s.append(digit_str((n / 1000 % 10) as u64));
    s.append(digit_str((n / 100 % 10) as u64));
    s.append(digit_str((n / 10 % 10) as u64));
    s.append(digit_str((n % 10) as u64));
    proof {
        assert(s@ =~= spec_pad6(n as int));
    }
    s
}

/// The text of a non-negative value scaled by one million, written with
/// six fractional digits: the whole part in decimal, a point, and the
/// zero-padded fraction.
pub open spec fn spec_fixed6(v: int) -> Seq<char> {
    if v < 0 {
        seq!['-'] + spec_dec((-v) / 1000000) + seq!['.'] + spec_pad6((-v) % 1000000)
    } else {
        spec_dec(v / 1000000) + seq!['.'] + spec_pad6(v % 1000000)
    }
}

/// Writes a value scaled by one million with six fractional digits.
pub fn i64_to_fixed6(v: i64) -> (r: String)
    ensures
        r@ == spec_fixed6(v as int),
{
    if v < 0 {
        let a = (-(v as i128)) as u64;
        let mut s = "-".to_owned();
        s.append(u64_to_dec(a / 1000000).as_str());
        s.append(".");
        s.append(pad6((a % 1000000) as u32).as_str());
        proof {
            reveal_strlit("-");
            reveal_strlit(".");
            assert(s@ =~= spec_fixed6(v as int));
        }
        s
    } else {
        let a = v as u64;
        let mut s = u64_to_dec(a / 1000000);
        s.append(".");
        s.append(pad6((a % 1000000) as u32).as_str());
        proof {
            reveal_strlit(".");
            assert(s@ =~= spec_fixed6(v as int));
        }
        s
    }
}

/// Writes a non-negative value scaled by one million with six fractional
/// digits.
pub fn u64_to_fixed6(v: u64) -> (r: String)
    ensures
        r@ == spec_fixed6(v as int),
{
    let mut s = u64_to_dec(v / 1000000);
    s.append(".");
    s.append(pad6((v % 1000000) as u32).as_str());
    proof {
        reveal_strlit(".");
        assert(s@ =~= spec_fixed6(v as int));
    }
    s
}

/// `n` written with four digits, zero-padded.
pub open spec fn spec_pad4(n: int) -> Seq<char> {
    seq![
        digit_char(n / 1000),
        digit_char(n / 100 % 10),
        digit_char(n / 10 % 10),
        digit_char(n % 10),
    ]
}

/// Writes `n` with four digits, zero-padded.
pub fn pad4(n: u32) -> (r: String)
    requires
        n < 10000,
    ensures
        r@ == spec_pad4(n as int),
{
    let mut s = digit_str((n / 1000) as u64).to_owned();
    s.append(digit_str((n / 100 % 10) as u64));
    s.append(digit_str((n / 10 % 10) as u64));
    s.append(digit_str((n % 10) as u64));
    proof {
        assert(s@ =~= spec_pad4(n as int));
    }
    s
}

/// The decimal notation of a signed number: a minus sign for a negative
/// value, then the digits of the magnitude.
pub open spec fn spec_i64_dec(n: int) -> Seq<char> {
    if n < 0 {
        seq!['-'] + spec_dec(-n)
    } else {
        spec_dec(n)
    }
}

/// Writes a signed number in decimal notation.
pub fn i64_to_dec(n: i64) -> (r: String)
    ensures
        r@ == spec_i64_dec(n as int),
{
    if n < 0 {
        let mut s = "-".to_owned();
        s.append(u64_to_dec((-(n as i128)) as u64).as_str());
        proof {
            reveal_strlit("-");
            assert(s@ =~= spec_i64_dec(n as int));
        }
        s
    } else {
        u64_to_dec(n as u64)
    }
}

/// Converts an ASCII string to its bytes, or `None` when it is not ASCII.
pub fn ascii_string_to_bytes(s: &String) -> (r: Option<Vec<u8>>)
    ensures
        match r {
            Some(b) => b@ == s@.map_values(|c: char| c as u8) && vstd::utf8::is_ascii_chars(s@),
            None => !vstd::utf8::is_ascii_chars(s@),
        },
{
    broadcast use vstd::string::group_string_axioms;

    if s.as_str().is_ascii() {
        let b = s.as_str().as_bytes_vec();
        proof {
            vstd::utf8::is_ascii_chars_encode_utf8(s@);
            assert(b@ =~= s@.map_values(|c: char| c as u8));
        }
        Some(b)
    } else {
        None
    }
}

/// The value of a sequence of decimal digits, most significant first.
pub open spec fn spec_digits_val(s: Seq<char>) -> int
    decreases s.len(),
{
    if s.len() == 0 {
        0
    } else {
        spec_digits_val(s.drop_last()) * 10 + digit_val(s.last())
    }
}

pub open spec fn spec_all_digits(s: Seq<char>) -> bool {
    forall|i: int| 0 <= i < s.len() ==> spec_is_digit(#[trigger] s[i])
}

/// The `n`-th power of ten.
pub open spec fn pow10(n: nat) -> int
    decreases n,
{
    if n == 0 {
        1
    } else {
        10 * pow10((n - 1) as nat)
    }
}

/// Powers of ten grow with the exponent.
pub proof fn lemma_pow10_mono(a: nat, b: nat)
    requires
        a <= b,
    ensures
        0 < pow10(a) <= pow10(b),
    decreases b,
{
    if b == 0 {
    } else if a == b {
        lemma_pow10_mono((a - 1) as nat, (b - 1) as nat);
    } else {
        lemma_pow10_mono(a, (b - 1) as nat);
    }
}

/// A sequence of `n` digits holds a value below the `n`-th power of ten.
pub proof fn lemma_digits_val_bound(s: Seq<char>)
    requires
        spec_all_digits(s),
    ensures
        0 <= spec_digits_val(s) < pow10(s.len()),
    decreases s.len(),
{
    if s.len() == 0 {
    } else {
        assert(spec_all_digits(s.drop_last()));
        lemma_digits_val_bound(s.drop_last());
        assert(0 <= digit_val(s.last()) <= 9);
    }
}

/// Reads the decimal number written in `s` between `from` (inclusive) and
/// `to` (exclusive).
pub fn parse_digits(s: &str, from: usize, to: usize) -> (r: u32)
    requires
        from <= to <= s@.len(),
        to - from <= 9,
        spec_all_digits(s@.subrange(from as int, to as int)),
    ensures
        r == spec_digits_val(s@.subrange(from as int, to as int)),
{
    let ghost digits = s@.subrange(from as int, to as int);
    let mut r: u32 = 0;
    let mut i: usize = from;
    proof {
        assert(digits.take(0) =~= Seq::<char>::empty());
    }
    while i < to
        invariant
            from <= i <= to <= s@.len(),
            to - from <= 9,
            digits == s@.subrange(from as int, to as int),
            spec_all_digits(digits),
            r == spec_digits_val(digits.take(i - from)),
        decreases to - i,
    {
        let c = s.get_char(i);
        proof {
            assert(digits[i - from] == s@[i as int]);
            assert(spec_is_digit(c));
            assert('0' as int == 48 && '9' as int == 57);
            assert(digits.take(i + 1 - from).drop_last() =~= digits.take(i - from));
            assert(digits.take(i + 1 - from).last() == c);
            assert(spec_all_digits(digits.take(i - from)));
            lemma_digits_val_bound(digits.take(i - from));
            lemma_pow10_mono((i - from) as nat, 8);
            assert(pow10(8) == 100_000_000) by {
                assert(pow10(0) == 1);
                assert(pow10(1) == 10);
                assert(pow10(2) == 100);
                assert(pow10(3) == 1000);
                assert(pow10(4) == 10000);
                assert(pow10(5) == 100_000);
                assert(pow10(6) == 1_000_000);
                assert(pow10(7) == 10_000_000);
            }
        }
        let d = (c as u32) - 48;
        r = r * 10 + d;
        i = i + 1;
    }
    proof {
        assert(digits.take(to - from) =~= digits);
    }
    r
}

/// Reads the decimal number of up to twelve digits written in `s` between
/// `from` (inclusive) and `to` (exclusive).
pub fn parse_digits_u64(s: &str, from: usize, to: usize) -> (r: u64)
    requires
        from <= to <= s@.len(),
        to - from <= 12,
        spec_all_digits(s@.subrange(from as int, to as int)),
    ensures
        r == spec_digits_val(s@.subrange(from as int, to as int)),
{
    let ghost digits = s@.subrange(from as int, to as int);
    let mut r: u64 = 0;
    let mut i: usize = from;
    proof {
        assert(digits.take(0) =~= Seq::<char>::empty());
    }
    while i < to
        invariant
            from <= i <= to <= s@.len(),
            to - from <= 12,
            digits == s@.subrange(from as int, to as int),
            spec_all_digits(digits),
            r == spec_digits_val(digits.take(i - from)),
        decreases to - i,
    {
        let c = s.get_char(i);
        proof {
            assert(digits[i - from] == s@[i as int]);
            assert(spec_is_digit(c));
            assert('0' as int == 48 && '9' as int == 57);
            assert(digits.take(i + 1 - from).drop_last() =~= digits.take(i - from));
            assert(digits.take(i + 1 - from).last() == c);
            assert(spec_all_digits(digits.take(i - from)));
            lemma_digits_val_bound(digits.take(i - from));
            lemma_pow10_mono((i - from) as nat, 11);
            assert(pow10(11) == 100_000_000_000) by {
                assert(pow10(0) == 1);
                assert(pow10(1) == 10);
                assert(pow10(2) == 100);
                assert(pow10(3) == 1000);
                assert(pow10(4) == 10000);
                assert(pow10(5) == 100_000);
                assert(pow10(6) == 1_000_000);
                assert(pow10(7) == 10_000_000);
                assert(pow10(8) == 100_000_000);
                assert(pow10(9) == 1_000_000_000);
                assert(pow10(10) == 10_000_000_000);
            }
        }
        let d = (c as u64) - 48;
        r = r * 10 + d;
        i = i + 1;
    }
    proof {
        assert(digits.take(to - from) =~= digits);
    }
    r
}

/// Writing a digit and reading it back are inverse.
pub proof fn lemma_digit_char_val(d: int)
    requires
        0 <= d <= 9,
    ensures
        spec_is_digit(digit_char(d)),
        digit_val(digit_char(d)) == d,
{
}

/// Decimal notation consists of digits and reads back to the number.
pub proof fn lemma_dec_digits(n: int)
    requires
        0 <= n,
    ensures
        spec_all_digits(spec_dec(n)),
        spec_digits_val(spec_dec(n)) == n,
        spec_dec(n).len() >= 1,
    decreases n,
{
    if n < 10 {
        lemma_digit_char_val(n);
        assert(seq![digit_char(n)].drop_last() =~= Seq::<char>::empty());
        assert(spec_digits_val(Seq::<char>::empty()) == 0);
        assert(spec_digits_val(spec_dec(n)) == n);
    } else {
        lemma_dec_digits(n / 10);
        lemma_digit_char_val(n % 10);
        assert(spec_dec(n).drop_last() =~= spec_dec(n / 10));
        assert forall|i: int| 0 <= i < spec_dec(n).len() implies spec_is_digit(
            #[trigger] spec_dec(n)[i],
        ) by {
            if i < spec_dec(n).len() - 1 {
                assert(spec_dec(n)[i] == spec_dec(n / 10)[i]);
            }
        }
    }
}

/// A number between 1000 and 9999 takes four digits.
pub proof fn lemma_dec_len4(n: int)
    requires
        1000 <= n <= 9999,
    ensures
        spec_dec(n).len() == 4,
{
    assert(spec_dec(n).len() == spec_dec(n / 10).len() + 1);
    assert(spec_dec(n / 10).len() == spec_dec(n / 10 / 10).len() + 1);
    assert(spec_dec(n / 10 / 10).len() == spec_dec(n / 10 / 10 / 10).len() + 1);
    assert(n / 10 / 10 / 10 < 10);
    assert(spec_dec(n / 10 / 10 / 10).len() == 1);
}

/// Two-digit notation consists of digits and reads back to the number.
pub proof fn lemma_pad2_digits(m: int)
    requires
        0 <= m < 100,
    ensures
        spec_all_digits(spec_pad2(m)),
        spec_digits_val(spec_pad2(m)) == m,
{
    lemma_digit_char_val(m / 10);
    lemma_digit_char_val(m % 10);
    let a = digit_char(m / 10);
    let b = digit_char(m % 10);
    assert(seq![a, b].drop_last() =~= seq![a]);
    assert(seq![a].drop_last() =~= Seq::<char>::empty());
    assert(spec_digits_val(Seq::<char>::empty()) == 0);
    assert(spec_digits_val(seq![a]) == digit_val(a));
    assert(spec_digits_val(seq![a, b]) == digit_val(a) * 10 + digit_val(b));
}

/// Four-digit notation consists of digits and reads back to the number.
pub proof fn lemma_pad4_digits(m: int)
    requires
        0 <= m < 10000,
    ensures
        spec_all_digits(spec_pad4(m)),
        spec_digits_val(spec_pad4(m)) == m,
{
    lemma_digit_char_val(m / 1000);
    lemma_digit_char_val(m / 100 % 10);
    lemma_digit_char_val(m / 10 % 10);
    lemma_digit_char_val(m % 10);
    let a = digit_char(m / 1000);
    let b = digit_char(m / 100 % 10);
    let c = digit_char(m / 10 % 10);
    let d = digit_char(m % 10);
    assert(seq![a, b, c, d].drop_last() =~= seq![a, b, c]);
    assert(seq![a, b, c].drop_last() =~= seq![a, b]);
    assert(seq![a, b].drop_last() =~= seq![a]);
    assert(seq![a].drop_last() =~= Seq::<char>::empty());
    assert(spec_digits_val(Seq::<char>::empty()) == 0);
    assert(spec_digits_val(seq![a]) == digit_val(a));
    assert(spec_digits_val(seq![a, b]) == digit_val(a) * 10 + digit_val(b));
    assert(spec_digits_val(seq![a, b, c]) == (digit_val(a) * 10 + digit_val(b)) * 10 + digit_val(
        c,
    ));
    assert(spec_digits_val(seq![a, b, c, d]) == ((digit_val(a) * 10 + digit_val(b)) * 10
        + digit_val(c)) * 10 + digit_val(d));
}

/// A digit character is the digit of its value.
pub proof fn lemma_digit_roundtrip(c: char)
    requires
        spec_is_digit(c),
    ensures
        digit_char(digit_val(c)) == c,
{
}

/// Two digit characters form the two-digit notation of their value.
pub proof fn lemma_digits2_canonical(s: Seq<char>)
    requires
        spec_all_digits(s),
        s.len() == 2,
    ensures
        s == spec_pad2(spec_digits_val(s)),
{
    let v = spec_digits_val(s);
    assert(s.drop_last() =~= seq![s[0]]);
    assert(seq![s[0]].drop_last() =~= Seq::<char>::empty());
    assert(spec_digits_val(Seq::<char>::empty()) == 0);
    assert(spec_digits_val(seq![s[0]]) == digit_val(s[0]));
    assert(s.last() == s[1]);
    assert(v == digit_val(s[0]) * 10 + digit_val(s[1]));
    lemma_digit_roundtrip(s[0]);
    lemma_digit_roundtrip(s[1]);
    assert(v / 10 == digit_val(s[0]) && v % 10 == digit_val(s[1])) by {
        assert(0 <= digit_val(s[1]) <= 9);
        assert(0 <= digit_val(s[0]) <= 9);
    }
    assert(s =~= spec_pad2(v));
}

/// Four digit characters form the four-digit notation of their value.
pub proof fn lemma_digits4_canonical(s: Seq<char>)
    requires
        spec_all_digits(s),
        s.len() == 4,
    ensures
        s == spec_pad4(spec_digits_val(s)),
{
    let v = spec_digits_val(s);
    let a = digit_val(s[0]);
    let b = digit_val(s[1]);
    let c = digit_val(s[2]);
    let d = digit_val(s[3]);
    assert(s.drop_last() =~= seq![s[0], s[1], s[2]]);
    assert(seq![s[0], s[1], s[2]].drop_last() =~= seq![s[0], s[1]]);
    assert(seq![s[0], s[1]].drop_last() =~= seq![s[0]]);
    assert(seq![s[0]].drop_last() =~= Seq::<char>::empty());
    assert(spec_digits_val(Seq::<char>::empty()) == 0);
    assert(spec_digits_val(seq![s[0]]) == a);
    assert(spec_digits_val(seq![s[0], s[1]]) == a * 10 + b);
    assert(spec_digits_val(seq![s[0], s[1], s[2]]) == (a * 10 + b) * 10 + c);
    assert(s.last() == s[3]);
    assert(v == ((a * 10 + b) * 10 + c) * 10 + d);
    lemma_digit_roundtrip(s[0]);
    lemma_digit_roundtrip(s[1]);
    lemma_digit_roundtrip(s[2]);
    lemma_digit_roundtrip(s[3]);
    assert(0 <= a <= 9 && 0 <= b <= 9 && 0 <= c <= 9 && 0 <= d <= 9);
    assert(v % 10 == d && v / 10 % 10 == c && v / 100 % 10 == b && v / 1000 == a) by {
        assert(v / 10 == (a * 10 + b) * 10 + c);
        assert(v / 100 == a * 10 + b) by {
            assert(v / 100 == v / 10 / 10);
        }
        assert(v / 1000 == a) by {
            assert(v / 1000 == v / 100 / 10);
        }
    }
    assert(s =~= spec_pad4(v));
}

/// For a number of four digits, plain decimal notation is the four-digit
/// zero-padded notation.
pub proof fn lemma_dec_is_pad4(n: int)
    requires
        1000 <= n <= 9999,
    ensures
        spec_dec(n) == spec_pad4(n),
{
    lemma_dec_digits(n);
    lemma_dec_len4(n);
    lemma_digits4_canonical(spec_dec(n));
}

/// Whether two string slices hold the same characters.
pub fn str_eq(a: &str, b: &str) -> (r: bool)
    ensures
        r == (a@ == b@),
{
    let an = a.unicode_len();
    let bn = b.unicode_len();
    if an != bn {
        proof {
            assert(a@ != b@);
        }
        return false;
    }
    let mut i: usize = 0;
    while i < an
        invariant
            an == a@.len(),
            bn == b@.len(),
            an == bn,
            i <= an,
            forall|j: int| 0 <= j < i ==> a@[j] == b@[j],
        decreases an - i,
    {
        if a.get_char(i) != b.get_char(i) {
            proof {
                assert(a@[i as int] != b@[i as int]);
            }
            return false;
        }
        i = i + 1;
    }
    proof {
        assert(a@ =~= b@);
    }
    true
}

/// Whether `s` starts with `prefix`.
pub fn str_starts_with(s: &str, prefix: &str) -> (r: bool)
    ensures
        r == prefix@.is_prefix_of(s@),
{
    let sn = s.unicode_len();
    let pn = prefix.unicode_len();
    if pn > sn {
        proof {
            assert(!prefix@.is_prefix_of(s@));
        }
        return false;
    }
    let mut i: usize = 0;
    while i < pn
        invariant
            sn == s@.len(),
            pn == prefix@.len(),
            pn <= sn,
            i <= pn,
            forall|j: int| 0 <= j < i ==> s@[j] == prefix@[j],
        decreases pn - i,
    {
        if s.get_char(i) != prefix.get_char(i) {
            proof {
                assert(s@[i as int] != prefix@[i as int]);
                assert(!prefix@.is_prefix_of(s@));
            }
            return false;
        }
        i = i + 1;
    }
    proof {
        assert(prefix@ =~= s@.subrange(0, pn as int));
    }
    true
}

/// The index of the first occurrence of `c` in `s`, or `s.len()` when `c`
/// does not occur.
pub open spec fn spec_find(s: Seq<char>, c: char) -> int
    decreases s.len(),
{
    if s.len() == 0 {
        0
    } else if s[0] == c {
        0
    } else {
        1 + spec_find(s.skip(1), c)
    }
}

/// Position and range facts about [`spec_find`].
pub proof fn lemma_spec_find(s: Seq<char>, c: char)
    ensures
        0 <= spec_find(s, c) <= s.len(),
        spec_find(s, c) < s.len() ==> s[spec_find(s, c)] == c,
        forall|i: int| 0 <= i < spec_find(s, c) ==> s[i] != c,
    decreases s.len(),
{
    if s.len() == 0 {
    } else if s[0] == c {
    } else {
        lemma_spec_find(s.skip(1), c);
        assert forall|i: int| 0 <= i < spec_find(s, c) implies s[i] != c by {
            if i > 0 {
                assert(s.skip(1)[i - 1] != c);
            }
        }
    }
}

/// When no character of `a` is `c`, searching `a + b` finds the occurrence
/// inside `b`.
pub proof fn lemma_spec_find_concat(a: Seq<char>, b: Seq<char>, c: char)
    requires
        forall|i: int| 0 <= i < a.len() ==> a[i] != c,
    ensures
        spec_find(a + b, c) == a.len() + spec_find(b, c),
    decreases a.len(),
{
    if a.len() == 0 {
        assert(a + b =~= b);
    } else {
        assert((a + b)[0] == a[0]);
        lemma_spec_find_concat(a.skip(1), b, c);
        assert((a + b).skip(1) =~= a.skip(1) + b);
    }
}

/// Returns the index of the first occurrence of `c` in `s` at or after
/// `from`, or `s.len()` when there is none.
pub fn find_char(s: &str, from: usize, c: char) -> (r: usize)
    requires
        from <= s@.len(),
    ensures
        r - from == spec_find(s@.skip(from as int), c),
        from <= r <= s@.len(),
        r < s@.len() ==> s@[r as int] == c,
        forall|i: int| from <= i < r ==> s@[i] != c,
{
    let n = s.unicode_len();
    let mut i: usize = from;
    while i < n
        invariant
            n == s@.len(),
            from <= i <= n,
            forall|j: int| from <= j < i ==> s@[j] != c,
        decreases n - i,
    {
        if s.get_char(i) == c {
            proof {
                lemma_spec_find(s@.skip(from as int), c);
                assert forall|j: int|
                    0 <= j < i - from implies s@.skip(from as int)[j] != c by {
                    assert(s@.skip(from as int)[j] == s@[from + j]);
                }
                assert(s@.skip(from as int)[i - from] == c);
            }
            return i;
        }
        i = i + 1;
    }
    proof {
        lemma_spec_find(s@.skip(from as int), c);
        assert forall|j: int| 0 <= j < n - from implies s@.skip(from as int)[j] != c by {
            assert(s@.skip(from as int)[j] == s@[from + j]);
        }
    }
    n
}

/// The characters of `s` from `from` (inclusive) to `to` (exclusive), as an
/// owned string.
pub fn substring(s: &str, from: usize, to: usize) -> (r: String)
    requires
        from <= to <= s@.len(),
    ensures
        r@ == s@.subrange(from as int, to as int),
{
    s.substring_char(from, to).to_owned()
}

} // verus!
