//! Numbers as text: decimal and hexadecimal notation, written and read.
use vstd::prelude::*;

verus! {

/// The digit for a value below sixteen, in upper case.
pub open spec fn digit(d: int) -> char {
    if d < 10 {
        (48 + d) as char
    } else {
        (55 + d) as char
    }
}

/// The digits of `n` in base `radix`, most significant first.
pub open spec fn numeral(n: int, radix: int) -> Seq<char>
    decreases n,
{
    if n < radix || radix < 2 {
        seq![digit(n)]
    } else {
        proof {
            assert(0 <= n / radix < n) by (nonlinear_arith)
                requires
                    n >= radix,
                    radix >= 2,
            ;
        }
        numeral(n / radix, radix).push(digit(n % radix))
    }
}

/// The decimal digits of `n`.
pub open spec fn decimal(n: int) -> Seq<char> {
    numeral(n, 10)
}

/// `s` with zeros before it up to `width` characters.
pub open spec fn zero_padded(s: Seq<char>, width: int) -> Seq<char>
    decreases width - s.len(),
{
    if s.len() >= width {
        s
    } else {
        zero_padded(seq!['0'] + s, width)
    }
}

/// `n` in decimal, in at least two digits.
pub open spec fn two_digits(n: int) -> Seq<char> {
    zero_padded(decimal(n), 2)
}

/// The value of a digit below sixteen, or `-1`.
pub open spec fn digit_value(c: char) -> int {
    let v = c as u32;
    if 48 <= v <= 57 {
        v - 48
    } else if 65 <= v <= 70 {
        v - 55
    } else if 97 <= v <= 102 {
        v - 87
    } else {
        -1
    }
}

/// Whether `s` is made of digits in base `radix` only.
pub open spec fn all_digits(s: Seq<char>, radix: int) -> bool {
    forall|i: int| 0 <= i < s.len() ==> 0 <= digit_value(#[trigger] s[i]) < radix
}

/// The value that the digits `s` spell in base `radix`.
pub open spec fn spelled(s: Seq<char>, radix: int) -> int
    decreases s.len(),
{
    if s.len() == 0 {
        0
    } else {
        spelled(s.drop_last(), radix) * radix + digit_value(s.last())
    }
}

/// The number that a text without a minus sign stands for: an optional plus
/// sign, then at least one digit, and no more than `max`.
pub open spec fn parsed_unsigned(s: Seq<char>, radix: int, max: int) -> Option<int> {
    let d = if s.len() > 0 && s[0] == '+' {
        s.skip(1)
    } else {
        s
    };
    if d.len() > 0 && all_digits(d, radix) && spelled(d, radix) <= max {
        Some(spelled(d, radix))
    } else {
        None
    }
}

/// The 64-bit signed number that a text stands for: an optional sign, then at
/// least one digit, within the type's range.
pub open spec fn parsed_signed(s: Seq<char>, radix: int) -> Option<int> {
    if s.len() > 0 && s[0] == '-' {
        let d = s.skip(1);
        if d.len() > 0 && all_digits(d, radix) && spelled(d, radix) <= 0x8000_0000_0000_0000 {
            Some(-spelled(d, radix))
        } else {
            None
        }
    } else {
        parsed_unsigned(s, radix, 0x7fff_ffff_ffff_ffff)
    }
}

/// The digit for a value below sixteen.
fn digit_char(d: u8) -> (c: char)
    requires
        d < 16,
    ensures
        c == digit(d as int),
{
    if d < 10 {
        (48 + d) as char
    } else {
        (55 + d) as char
    }
}

/// The digits of `n` in base `radix`.
pub fn write_numeral(n: u64, radix: u64) -> (r: Vec<char>)
    requires
        2 <= radix <= 16,
    ensures
        r@ == numeral(n as int, radix as int),
        r@.len() > 0,
    decreases n,
{
    if n < radix {
        let mut r: Vec<char> = Vec::new();
        r.push(digit_char(n as u8));
        assert(r@ =~= seq![digit(n as int)]);
        r
    } else {
        proof {
            assert(n / radix < n) by (nonlinear_arith)
                requires
                    n >= radix,
                    radix >= 2,
            ;
            assert(n % radix < radix) by (nonlinear_arith)
                requires
                    radix >= 2,
            ;
        }
        let mut r: Vec<char> = write_numeral(n / radix, radix);
        r.push(digit_char((n % radix) as u8));
        r
    }
}

/// `n` in base `radix`, with zeros before it up to `width` characters.
pub fn write_padded(n: u64, radix: u64, width: usize) -> (r: Vec<char>)
    requires
        2 <= radix <= 16,
    ensures
        r@ == zero_padded(numeral(n as int, radix as int), width as int),
{
    let mut r: Vec<char> = write_numeral(n, radix);
    let ghost whole = zero_padded(r@, width as int);
    while r.len() < width
        invariant
            zero_padded(r@, width as int) == whole,
        ensures
            zero_padded(r@, width as int) == whole,
            r@.len() >= width,
        decreases width - r@.len(),
    {
        let ghost before = r@;
        r.insert(0, '0');
        assert(r@ =~= seq!['0'] + before);
    }
    r
}

/// The decimal notation of `n`.
pub fn decimal_string(n: u64) -> (r: String)
    ensures
        r@ == decimal(n as int),
{
    let v: Vec<char> = write_numeral(n, 10);
    crate::text::string_of(v.as_slice())
}

/// The value of a digit below sixteen.
fn digit_of(c: char) -> (r: Option<u64>)
    ensures
        r is None <==> digit_value(c) == -1,
        r matches Some(d) ==> d == digit_value(c) && d < 16,
{
    let v: u32 = c as u32;
    if 48 <= v && v <= 57 {
        Some((v - 48) as u64)
    } else if 65 <= v && v <= 70 {
        Some((v - 55) as u64)
    } else if 97 <= v && v <= 102 {
        Some((v - 87) as u64)
    } else {
        None
    }
}

/// A number that is written out reads back as itself.
pub proof fn a_numeral_spells_its_number(n: int, radix: int)
    requires
        0 <= n,
        2 <= radix <= 16,
    ensures
        numeral(n, radix).len() > 0,
        all_digits(numeral(n, radix), radix),
        spelled(numeral(n, radix), radix) == n,
    decreases n,
{
    let s = numeral(n, radix);
    if n < radix {
        assert(s.drop_last() =~= seq![]);
        assert(spelled(s.drop_last(), radix) == 0);
        assert(0 * radix == 0);
    } else {
        assert(0 <= n / radix < n) by (nonlinear_arith)
            requires
                n >= radix,
                radix >= 2,
        ;
        vstd::arithmetic::div_mod::lemma_fundamental_div_mod(n, radix);
        vstd::arithmetic::div_mod::lemma_mod_bound(n, radix);
        a_numeral_spells_its_number(n / radix, radix);
        assert(s.drop_last() =~= numeral(n / radix, radix));
        assert((n / radix) * radix == radix * (n / radix)) by (nonlinear_arith);
    }
}

/// Digits spell at least what any prefix of them spells.
proof fn lemma_spelled_grows(s: Seq<char>, n: int, radix: int)
    requires
        0 <= n <= s.len(),
        radix >= 2,
        all_digits(s, radix),
    ensures
        0 <= spelled(s.take(n), radix) <= spelled(s, radix),
    decreases s.len(),
{
    if n == s.len() {
        assert(s.take(n) =~= s);
        if s.len() > 0 {
            assert(all_digits(s.drop_last(), radix)) by {
                assert forall|i: int| 0 <= i < s.drop_last().len() implies 0 <= digit_value(
                    #[trigger] s.drop_last()[i],
                ) < radix by {
                    assert(s.drop_last()[i] == s[i]);
                }
            }
            lemma_spelled_grows(s.drop_last(), s.len() - 1, radix);
            assert(s.drop_last().take(s.len() - 1) =~= s.drop_last());
            assert(spelled(s.drop_last(), radix) * radix >= 0) by (nonlinear_arith)
                requires
                    spelled(s.drop_last(), radix) >= 0,
                    radix >= 2,
            ;
        }
    } else {
        let t = s.drop_last();
        assert(all_digits(t, radix)) by {
            assert forall|i: int| 0 <= i < t.len() implies 0 <= digit_value(#[trigger] t[i])
                < radix by {
                assert(t[i] == s[i]);
            }
        }
        lemma_spelled_grows(t, n, radix);
        assert(t.take(n) =~= s.take(n));
        assert(spelled(t, radix) * radix >= spelled(t, radix)) by (nonlinear_arith)
            requires
                spelled(t, radix) >= 0,
                radix >= 2,
        ;
    }
}

/// The value of the digits of `s` from `from` on, if they are digits and it is at most `max`.
fn read_digits(s: &[char], from: usize, radix: u64, max: u64) -> (r: Option<u64>)
    requires
        from <= s@.len(),
        2 <= radix <= 16,
    ensures
        ({
            let d = s@.skip(from as int);
            if d.len() > 0 && all_digits(d, radix as int) && spelled(d, radix as int) <= max {
                r matches Some(v) && v == spelled(d, radix as int)
            } else {
                r is None
            }
        }),
{
    let n: usize = s.len();
    let ghost d = s@.skip(from as int);
    if from == n {
        return None;
    }
    let mut i: usize = from;
    let mut v: u64 = 0;
    assert(d.take(0) =~= seq![]);
    while i < n
        invariant
            n == s@.len(),
            from <= i <= n,
            2 <= radix <= 16,
            d == s@.skip(from as int),
            v == spelled(d.take(i - from), radix as int),
            v <= max,
            forall|j: int| 0 <= j < i - from ==> 0 <= digit_value(#[trigger] d[j]) < radix,
        decreases n - i,
    {
        let k: u64 = match digit_of(s[i]) {
            Some(k) => k,
            None => {
                assert(d[i - from] == s@[i as int]);
                return None;
            },
        };
        assert(d[i - from] == s@[i as int]);
        if k >= radix {
            return None;
        }
        proof {
            let p = d.take(i - from + 1);
            assert(p.drop_last() =~= d.take(i - from));
            assert(spelled(p, radix as int) == v * radix + k);
            assert(v * radix >= 0) by (nonlinear_arith)
                requires
                    v >= 0,
                    radix >= 2,
            ;
            if all_digits(d, radix as int) {
                lemma_spelled_grows(d, i - from + 1, radix as int);
            }
        }
        let scaled: u64 = match v.checked_mul(radix) {
            Some(x) => x,
            None => {
                return None;
            },
        };
        let total: u64 = match scaled.checked_add(k) {
            Some(x) => x,
            None => {
                return None;
            },
        };
        if total > max {
            return None;
        }
        v = total;
        i += 1;
    }
    assert(d.take(n - from) =~= d);
    Some(v)
}

/// Reads a number without a minus sign in base `radix`, at most `max`.
pub fn parse_unsigned(s: &[char], radix: u64, max: u64) -> (r: Option<u64>)
    requires
        2 <= radix <= 16,
    ensures
        r is None <==> parsed_unsigned(s@, radix as int, max as int) is None,
        r matches Some(v) ==> parsed_unsigned(s@, radix as int, max as int) == Some(v as int),
{
    assert(s@.skip(0) =~= s@);
    if s.len() > 0 && s[0] == '+' {
        read_digits(s, 1, radix, max)
    } else {
        read_digits(s, 0, radix, max)
    }
}

/// Reads a decimal `u64`.
pub fn parse_u64(s: &[char]) -> (r: Option<u64>)
    ensures
        r is None <==> parsed_unsigned(s@, 10, u64::MAX as int) is None,
        r matches Some(v) ==> parsed_unsigned(s@, 10, u64::MAX as int) == Some(v as int),
{
    parse_unsigned(s, 10, u64::MAX)
}

/// Reads a decimal `u32`.
pub fn parse_u32(s: &[char]) -> (r: Option<u32>)
    ensures
        r is None <==> parsed_unsigned(s@, 10, u32::MAX as int) is None,
        r matches Some(v) ==> parsed_unsigned(s@, 10, u32::MAX as int) == Some(v as int),
{
    match parse_unsigned(s, 10, 0xffff_ffff) {
        Some(v) => Some(v as u32),
        None => None,
    }
}

/// Reads an `i64` in base `radix`.
pub fn parse_signed(s: &[char], radix: u64) -> (r: Option<i64>)
    requires
        2 <= radix <= 16,
    ensures
        r is None <==> parsed_signed(s@, radix as int) is None,
        r matches Some(v) ==> parsed_signed(s@, radix as int) == Some(v as int),
{
    if s.len() > 0 && s[0] == '-' {
        match read_digits(s, 1, radix, 0x8000_0000_0000_0000) {
            Some(v) => if v == 0x8000_0000_0000_0000 {
                Some(i64::MIN)
            } else {
                Some(-(v as i64))
            },
            None => None,
        }
    } else {
        match parse_unsigned(s, radix, 0x7fff_ffff_ffff_ffff) {
            Some(v) => Some(v as i64),
            None => None,
        }
    }
}

/// A number that was written in digits is read back, with a plus sign or without, and behind a
/// minus sign as its negative.
pub proof fn written_numbers_are_read_back(n: int, radix: int, max: int)
    requires
        0 <= n <= max,
        2 <= radix <= 16,
    ensures
        parsed_unsigned(numeral(n, radix), radix, max) == Some(n),
        parsed_unsigned(seq!['+'] + numeral(n, radix), radix, max) == Some(n),
        n <= 0x7fff_ffff_ffff_ffff ==> parsed_signed(numeral(n, radix), radix) == Some(n)
            && parsed_signed(seq!['-'] + numeral(n, radix), radix) == Some(-n),
        parsed_unsigned(seq!['-'] + numeral(n, radix), radix, max) is None,
        forall|i: int|
            0 <= i < numeral(n, radix).len() ==> 0 <= digit_value(
                #[trigger] numeral(n, radix)[i],
            ) < radix,
{
    let s = numeral(n, radix);
    a_numeral_spells_its_number(n, radix);
    assert(0 <= digit_value(s[0]) < radix);
    assert((seq!['+'] + s).skip(1) =~= s);
    let m = seq!['-'] + s;
    assert(m.skip(1) =~= s);
    assert(m[0] == '-');
    assert(digit_value(m[0]) == -1);
}

} // verus!
