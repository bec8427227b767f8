//! Verified helpers over strings and characters: appending single characters
//! and decimal numerals to a `String`, materializing a `&str` as characters,
//! and comparing or searching character sequences.

use vstd::prelude::*;
use vstd::string::StrSliceExecFns;
use vstd::string::StringExecFns;

use crate::decimal::digit_char;
use crate::decimal::spec_dec;

verus! {

/// Relies on `String::push`: appends exactly the given character.
#[verifier::external_body]
pub fn push_char(s: &mut String, c: char)
    ensures
        final(s)@ == old(s)@.push(c),
{
    s.push(c);
}

/// The character for one decimal digit.
pub fn digit_char_of(d: u8) -> (c: char)
    requires
        d < 10,
    ensures
        c == digit_char(d as int),
{
    match d {
        0 => '0',
        1 => '1',
        2 => '2',
        3 => '3',
        4 => '4',
        5 => '5',
        6 => '6',
        7 => '7',
        8 => '8',
        _ => '9',
    }
}

/// Appends the canonical decimal numeral of `n`.
pub fn push_dec(s: &mut String, n: u16)
    ensures
        final(s)@ == old(s)@ + spec_dec(n as int),
    decreases n,
{
    if n >= 10 {
        push_dec(s, n / 10);
        push_char(s, digit_char_of((n % 10) as u8));
        proof {
            assert(final(s)@ =~= old(s)@ + spec_dec(n as int));
        }
    } else {
        push_char(s, digit_char_of(n as u8));
        proof {
            assert(final(s)@ =~= old(s)@ + spec_dec(n as int));
        }
    }
}

/// The characters of a string slice, in order.
pub fn str_chars(s: &str) -> (r: Vec<char>)
    ensures
        r@ == s@,
{
    let n = s.unicode_len();
    let mut r: Vec<char> = Vec::new();
    let mut i: usize = 0;
    while i < n
        invariant
            0 <= i <= n,
            n == s@.len(),
            r@ =~= s@.take(i as int),
        decreases n - i,
    {
        r.push(s.get_char(i));
        i += 1;
    }
    proof {
        assert(r@ =~= s@);
    }
    r
}

/// Character-wise equality of two string slices.
pub fn str_eq(a: &str, b: &str) -> (r: bool)
    ensures
        r == (a@ == b@),
{
    let na = a.unicode_len();
    let nb = b.unicode_len();
    if na != nb {
        return false;
    }
    let mut i: usize = 0;
    while i < na
        invariant
            0 <= i <= na,
            na == a@.len(),
            na == b@.len(),
            forall|j: int| 0 <= j < i ==> a@[j] == b@[j],
        decreases na - i,
    {
        if a.get_char(i) != b.get_char(i) {
            return false;
        }
        i += 1;
    }
    proof {
        assert(a@ =~= b@);
    }
    true
}

/// True when `n` occurs as a contiguous run inside `h`.
pub open spec fn contains_seq(h: Seq<char>, n: Seq<char>) -> bool {
    exists|i: int| 0 <= i <= h.len() - n.len() && #[trigger] h.subrange(i, i + n.len()) == n
}

/// Substring search, character by character.
pub fn str_contains(hay: &str, needle: &str) -> (r: bool)
    ensures
        r == contains_seq(hay@, needle@),
{
    let nh = hay.unicode_len();
    let nn = needle.unicode_len();
    if nn > nh {
        return false;
    }
    if nn == 0 {
        proof {
            assert(hay@.subrange(0, 0 + needle@.len() as int) =~= needle@);
        }
        return true;
    }
    let mut i: usize = 0;
    while i <= nh - nn
        invariant
            0 <= i <= nh - nn + 1,
            1 <= nn <= nh,
            nh == hay@.len(),
            nn == needle@.len(),
            forall|p: int|
                0 <= p < i ==> #[trigger] hay@.subrange(p, p + nn as int) != needle@,
        decreases nh - i,
    {
        let mut k: usize = 0;
        let mut matched: bool = true;
        while k < nn
            invariant
                0 <= k <= nn,
                0 <= i <= nh - nn,
                nh == hay@.len(),
                nn == needle@.len(),
                matched ==> forall|q: int| 0 <= q < k ==> hay@[i + q] == needle@[q],
                !matched ==> hay@.subrange(i as int, i + nn as int) != needle@,
            decreases nn - k,
        {
            if hay.get_char(i + k) != needle.get_char(k) {
                proof {
                    assert(hay@.subrange(i as int, i + nn as int)[k as int] != needle@[k as int]);
                }
                matched = false;
                k = nn;
            } else {
                k += 1;
            }
        }
        if matched {
            proof {
                assert(hay@.subrange(i as int, i + nn as int) =~= needle@);
            }
            return true;
        }
        i += 1;
    }
    proof {
        assert forall|p: int| 0 <= p <= hay@.len() - needle@.len() implies #[trigger] hay@.subrange(
            p,
            p + needle@.len(),
        ) != needle@ by {
            assert(p < i);
            assert(hay@.subrange(p, p + nn as int) != needle@);
        }
    }
    false
}

} // verus!
