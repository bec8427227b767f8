//! Decimal numerals as character sequences: printing (for the encoder) and
//! parsing (for the decoder), with the round-trip facts relating the two.

use vstd::prelude::*;

verus! {

/// The canonical character for a single decimal digit.
pub open spec fn digit_char(d: int) -> char {
    if d == 0 {
        '0'
    } else if d == 1 {
        '1'
    } else if d == 2 {
        '2'
    } else if d == 3 {
        '3'
    } else if d == 4 {
        '4'
    } else if d == 5 {
        '5'
    } else if d == 6 {
        '6'
    } else if d == 7 {
        '7'
    } else if d == 8 {
        '8'
    } else {
        '9'
    }
}

pub open spec fn is_digit(c: char) -> bool {
    '0' <= c <= '9'
}

/// Numeric value of a digit character.
pub open spec fn digit_val(c: char) -> int
    recommends
        is_digit(c),
{
    c as u32 - 48
}

/// The canonical decimal numeral for a non-negative integer
/// (no sign, no leading zeros; zero itself is "0").
pub open spec fn spec_dec(n: int) -> Seq<char>
    recommends
        n >= 0,
    decreases n,
{
    if n < 10 {
        seq![digit_char(n)]
    } else {
        spec_dec(n / 10).push(digit_char(n % 10))
    }
}

pub open spec fn all_digits(s: Seq<char>) -> bool {
    forall|i: int| 0 <= i < s.len() ==> is_digit(#[trigger] s[i])
}

/// A numeral with an optional leading plus sign stripped, mirroring what the
/// standard integer parsers accept.
pub open spec fn strip_plus(s: Seq<char>) -> Seq<char> {
    if s.len() > 0 && s[0] == '+' {
        s.drop_first()
    } else {
        s
    }
}

/// True when `s` is a well-formed unsigned decimal numeral: an optional
/// leading `+`, then one or more digits and nothing else.
pub open spec fn is_dec_string(s: Seq<char>) -> bool {
    strip_plus(s).len() > 0 && all_digits(strip_plus(s))
}

/// The value of a digit string, most significant digit first.
pub open spec fn dec_val(s: Seq<char>) -> int
    recommends
        all_digits(s),
    decreases s.len(),
{
    if s.len() == 0 {
        0
    } else {
        dec_val(s.drop_last()) * 10 + digit_val(s.last())
    }
}

/// What `str::parse::<u8>` yields on a parameter segment: the value when the
/// segment is a well-formed numeral whose value fits, and nothing otherwise.
pub open spec fn parse_u8_spec(s: Seq<char>) -> Option<u8> {
    if is_dec_string(s) && dec_val(strip_plus(s)) <= 255 {
        Some(dec_val(strip_plus(s)) as u8)
    } else {
        None
    }
}

/// What `str::parse::<u16>` yields on a parameter segment.
pub open spec fn parse_u16_spec(s: Seq<char>) -> Option<u16> {
    if is_dec_string(s) && dec_val(strip_plus(s)) <= 65535 {
        Some(dec_val(strip_plus(s)) as u16)
    } else {
        None
    }
}

/// The canonical numeral consists of digits only and never starts with `+`.
pub proof fn lemma_spec_dec_digits(n: int)
    requires
        n >= 0,
    ensures
        spec_dec(n).len() >= 1,
        all_digits(spec_dec(n)),
    decreases n,
{
    if n >= 10 {
        lemma_spec_dec_digits(n / 10);
        assert forall|i: int| 0 <= i < spec_dec(n).len() implies is_digit(
            #[trigger] spec_dec(n)[i],
        ) by {
            if i < spec_dec(n / 10).len() {
                assert(is_digit(spec_dec(n / 10)[i]));
            }
        }
    }
}

/// Parsing the canonical numeral gives back the number.
pub proof fn lemma_dec_round_trip(n: int)
    requires
        0 <= n,
    ensures
        is_dec_string(spec_dec(n)),
        dec_val(spec_dec(n)) == n,
        strip_plus(spec_dec(n)) == spec_dec(n),
    decreases n,
{
    lemma_spec_dec_digits(n);
    assert(spec_dec(n)[0] != '+');
    if n < 10 {
        let s = spec_dec(n);
        assert(s.drop_last() =~= Seq::<char>::empty());
        assert(dec_val(Seq::<char>::empty()) == 0);
        assert(dec_val(s) == digit_val(digit_char(n)));
    } else {
        lemma_dec_round_trip(n / 10);
        let s = spec_dec(n);
        assert(s.drop_last() =~= spec_dec(n / 10));
        assert(dec_val(s) == dec_val(spec_dec(n / 10)) * 10 + digit_val(digit_char(n % 10)));
        assert(digit_val(digit_char(n % 10)) == n % 10);
    }
}

/// Executable digit test on a character.
pub fn is_digit_exec(c: char) -> (r: bool)
    ensures
        r == is_digit(c),
{
    let u = c as u32;
    48 <= u && u <= 57
}

/// Parse a parameter segment as `str::parse::<u8>` would.
pub fn parse_u8_chars(s: &[char]) -> (r: Option<u8>)
    ensures
        r == parse_u8_spec(s@),
{
    let ghost d = strip_plus(s@);
    let start: usize = if s.len() > 0 && s[0] == '+' {
        1
    } else {
        0
    };
    assert(d =~= s@.skip(start as int));
    if s.len() == start {
        return None;
    }
    let mut acc: u16 = 0;
    let mut over: bool = false;
    let mut i: usize = start;
    while i < s.len()
        invariant
            start <= i <= s.len(),
            d == strip_plus(s@),
            d =~= s@.skip(start as int),
            all_digits(d.take(i - start)),
            !over ==> acc as int == dec_val(d.take(i - start)) && acc <= 255,
            over ==> dec_val(d.take(i - start)) > 255,
        decreases s.len() - i,
    {
        let c = s[i];
        if !is_digit_exec(c) {
            proof {
                assert(d[i - start] == s@.skip(start as int)[i - start]);
                assert(d[i - start] == c);
                assert(!all_digits(d));
                assert(!is_dec_string(s@));
            }
            return None;
        }
        let v = (c as u32 - 48) as u16;
        assert(d.take(i + 1 - start).drop_last() =~= d.take(i - start));
        assert(d.take(i + 1 - start).last() == d[i - start]);
        if over {
            assert(digit_val(d[i - start]) >= 0);
        } else {
            let t: u32 = acc as u32 * 10 + v as u32;
            if t > 255 {
                over = true;
            } else {
                acc = t as u16;
            }
        }
        i += 1;
    }
    assert(d.take(i - start) =~= d);
    if over {
        None
    } else {
        Some(acc as u8)
    }
}

/// Parse a parameter segment as `str::parse::<u16>` would.
pub fn parse_u16_chars(s: &[char]) -> (r: Option<u16>)
    ensures
        r == parse_u16_spec(s@),
{
    let ghost d = strip_plus(s@);
    let start: usize = if s.len() > 0 && s[0] == '+' {
        1
    } else {
        0
    };
    assert(d =~= s@.skip(start as int));
    if s.len() == start {
        return None;
    }
    let mut acc: u16 = 0;
    let mut over: bool = false;
    let mut i: usize = start;
    while i < s.len()
        invariant
            start <= i <= s.len(),
            d == strip_plus(s@),
            d =~= s@.skip(start as int),
            all_digits(d.take(i - start)),
            !over ==> acc as int == dec_val(d.take(i - start)),
            over ==> dec_val(d.take(i - start)) > 65535,
        decreases s.len() - i,
    {
        let c = s[i];
        if !is_digit_exec(c) {
            proof {
                assert(d[i - start] == s@.skip(start as int)[i - start]);
                assert(d[i - start] == c);
                assert(!all_digits(d));
                assert(!is_dec_string(s@));
            }
            return None;
        }
        let v = (c as u32 - 48) as u16;
        assert(d.take(i + 1 - start).drop_last() =~= d.take(i - start));
        assert(d.take(i + 1 - start).last() == d[i - start]);
        if over {
            assert(digit_val(d[i - start]) >= 0);
        } else {
            let t: u32 = acc as u32 * 10 + v as u32;
            if t > 65535 {
                over = true;
            } else {
                acc = t as u16;
            }
        }
        i += 1;
    }
    assert(d.take(i - start) =~= d);
    if over {
        None
    } else {
        Some(acc)
    }
}

} // verus!
