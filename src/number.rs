//! Numbers as the reports print them: unsigned and signed integers, plain
//! decimal fractions, and the decimal text of an integer.

use vstd::prelude::*;
use crate::text::{copy_range, find_char, find_char_in};

verus! {

pub open spec fn is_digit(c: char) -> bool {
    '0' <= c && c <= '9'
}

pub open spec fn all_digits(s: Seq<char>) -> bool {
    forall|i: int| 0 <= i < s.len() ==> is_digit(#[trigger] s[i])
}

pub open spec fn digit_value(c: char) -> int {
    (c as u32) as int - ('0' as u32) as int
}

/// The number that the decimal digits `s` spell.
pub open spec fn digits_value(s: Seq<char>) -> int
    decreases s.len(),
{
    if s.len() == 0 {
        0
    } else {
        digits_value(s.drop_last()) * 10 + digit_value(s.last())
    }
}

/// `s` without one leading `+`.
pub open spec fn unsigned_body(s: Seq<char>) -> Seq<char> {
    if s.len() > 0 && s[0] == '+' {
        s.skip(1)
    } else {
        s
    }
}

/// What `from_str` of an unsigned integer type with largest value `max`
/// gives: an optional `+`, then at least one decimal digit, and no more.
pub open spec fn parse_unsigned(s: Seq<char>, max: int) -> Option<int> {
    let b = unsigned_body(s);
    if b.len() > 0 && all_digits(b) && digits_value(b) <= max {
        Some(digits_value(b))
    } else {
        None
    }
}

/// What `i32::from_str` gives: an optional sign, then at least one decimal digit.
pub open spec fn parse_i32(s: Seq<char>) -> Option<int> {
    if s.len() > 0 && s[0] == '-' {
        let b = s.skip(1);
        if b.len() > 0 && all_digits(b) && digits_value(b) <= 0x8000_0000 {
            Some(-digits_value(b))
        } else {
            None
        }
    } else {
        parse_unsigned(s, 0x7fff_ffff)
    }
}

pub proof fn lemma_digits_value_nonneg(s: Seq<char>)
    requires
        all_digits(s),
    ensures
        digits_value(s) >= 0,
    decreases s.len(),
{
    if s.len() > 0 {
        assert(all_digits(s.drop_last())) by {
            assert forall|i: int| 0 <= i < s.drop_last().len() implies is_digit(
                #[trigger] s.drop_last()[i],
            ) by {
                assert(is_digit(s[i]));
            }
        }
        lemma_digits_value_nonneg(s.drop_last());
        assert(is_digit(s[s.len() - 1]));
    }
}

/// A digit string is worth at least as much as any of its prefixes.
pub proof fn lemma_digits_value_prefix(s: Seq<char>, j: int)
    requires
        all_digits(s),
        0 <= j <= s.len(),
    ensures
        digits_value(s.take(j)) <= digits_value(s),
    decreases s.len() - j,
{
    if j < s.len() {
        lemma_digits_value_prefix(s, j + 1);
        assert(s.take(j + 1).drop_last() =~= s.take(j));
        assert(is_digit(s[j]));
        assert(all_digits(s.take(j))) by {
            assert forall|i: int| 0 <= i < s.take(j).len() implies is_digit(
                #[trigger] s.take(j)[i],
            ) by {
                assert(is_digit(s[i]));
            }
        }
        lemma_digits_value_nonneg(s.take(j));
    } else {
        assert(s.take(j) =~= s);
    }
}

/// The value of the digits `v[lo..hi]` if all are digits and it is at most `max`.
pub fn read_digits(v: &Vec<char>, lo: usize, hi: usize, max: u64) -> (r: Option<u64>)
    requires
        lo <= hi <= v.len(),
    ensures
        match r {
            Some(n) => all_digits(v@.subrange(lo as int, hi as int)) && digits_value(
                v@.subrange(lo as int, hi as int),
            ) == n as int && n <= max,
            None => !(all_digits(v@.subrange(lo as int, hi as int)) && digits_value(
                v@.subrange(lo as int, hi as int),
            ) <= max),
        },
{
    let ghost s = v@.subrange(lo as int, hi as int);
    let mut acc: u64 = 0;
    let mut j = lo;
    assert(s.take(0) =~= Seq::<char>::empty());
    while j < hi
        invariant
            lo <= j <= hi <= v.len(),
            s == v@.subrange(lo as int, hi as int),
            all_digits(s.take(j - lo)),
            acc as int == digits_value(s.take(j - lo)),
            acc <= max,
        decreases hi - j,
    {
        let c = v[j];
        if !('0' <= c && c <= '9') {
            assert(s[j - lo] == c);
            return None;
        }
        let d = (c as u32 - '0' as u32) as u64;
        let next: u128 = acc as u128 * 10 + d as u128;
        assert(s.take(j - lo + 1).drop_last() =~= s.take(j - lo));
        assert(s.take(j - lo + 1).last() == c);
        assert(all_digits(s.take(j - lo + 1))) by {
            assert forall|i: int| 0 <= i < s.take(j - lo + 1).len() implies is_digit(
                #[trigger] s.take(j - lo + 1)[i],
            ) by {
                if i < j - lo {
                    assert(s.take(j - lo + 1)[i] == s.take(j - lo)[i]);
                }
            }
        }
        if next > max as u128 {
            proof {
                if all_digits(s) {
                    lemma_digits_value_prefix(s, j - lo + 1);
                }
            }
            return None;
        }
        acc = next as u64;
        j += 1;
    }
    assert(s.take(hi - lo) =~= s);
    Some(acc)
}

/// `from_str` of an unsigned integer type with largest value `max`, on `v[lo..hi]`.
pub fn read_unsigned(v: &Vec<char>, lo: usize, hi: usize, max: u64) -> (r: Option<u64>)
    requires
        lo <= hi <= v.len(),
    ensures
        match r {
            Some(n) => parse_unsigned(v@.subrange(lo as int, hi as int), max as int) == Some(
                n as int,
            ),
            None => parse_unsigned(v@.subrange(lo as int, hi as int), max as int) is None,
        },
{
    let ghost s = v@.subrange(lo as int, hi as int);
    let start = if lo < hi && v[lo] == '+' {
        lo + 1
    } else {
        lo
    };
    assert(unsigned_body(s) =~= v@.subrange(start as int, hi as int));
    if start == hi {
        return None;
    }
    read_digits(v, start, hi, max)
}

/// `i32::from_str` on `v[lo..hi]`.
pub fn read_i32(v: &Vec<char>, lo: usize, hi: usize) -> (r: Option<i32>)
    requires
        lo <= hi <= v.len(),
    ensures
        match r {
            Some(n) => parse_i32(v@.subrange(lo as int, hi as int)) == Some(n as int),
            None => parse_i32(v@.subrange(lo as int, hi as int)) is None,
        },
{
    let ghost s = v@.subrange(lo as int, hi as int);
    if lo < hi && v[lo] == '-' {
        assert(s.skip(1) =~= v@.subrange(lo + 1, hi as int));
        if lo + 1 == hi {
            return None;
        }
        match read_digits(v, lo + 1, hi, 0x8000_0000) {
            Some(n) => Some((0 - n as i64) as i32),
            None => None,
        }
    } else {
        match read_unsigned(v, lo, hi, 0x7fff_ffff) {
            Some(n) => Some(n as i32),
            None => None,
        }
    }
}

/// A non-negative decimal fraction, worth `digits / 10^scale`, kept exactly
/// as the report wrote it.
#[derive(Clone, Copy, PartialEq, Eq, Structural, Debug)]
pub struct Decimal {
    pub digits: u64,
    pub scale: u32,
}

impl Decimal {
    pub open spec fn zero_spec() -> Decimal {
        Decimal { digits: 0, scale: 0 }
    }

    /// The value zero.
    #[verifier::when_used_as_spec(zero_spec)]
    pub fn zero() -> (r: Decimal)
        ensures
            r == Decimal::zero_spec(),
    {
        Decimal { digits: 0, scale: 0 }
    }
}

/// The part of `b` before its first `.` (all of it if there is none).
pub open spec fn whole_part(b: Seq<char>) -> Seq<char> {
    if find_char(b, '.', 0) >= 0 {
        b.take(find_char(b, '.', 0))
    } else {
        b
    }
}

/// The part of `b` after its first `.` (nothing if there is none).
pub open spec fn fraction_part(b: Seq<char>) -> Seq<char> {
    if find_char(b, '.', 0) >= 0 {
        b.skip(find_char(b, '.', 0) + 1)
    } else {
        Seq::empty()
    }
}

/// A plain decimal literal: an optional `+`, digits, and optionally a `.`
/// followed by digits, with at least one digit in all; its digits must fit
/// in a `u64`. This is narrower than what `f32::from_str` reads: no minus
/// sign, no exponent, no `inf` or `NaN`, and at most 19 or 20 digits in all
/// (whatever fits in a `u64`). The value is kept exactly, without rounding.
pub open spec fn parse_decimal(s: Seq<char>) -> Option<Decimal> {
    let b = unsigned_body(s);
    let all = whole_part(b) + fraction_part(b);
    if all.len() > 0 && all_digits(all) && digits_value(all) <= u64::MAX && fraction_part(b).len()
        <= u32::MAX {
        Some(Decimal { digits: digits_value(all) as u64, scale: fraction_part(b).len() as u32 })
    } else {
        None
    }
}

/// `parse_decimal` of `v[lo..hi]`.
pub fn read_decimal(v: &Vec<char>, lo: usize, hi: usize) -> (r: Option<Decimal>)
    requires
        lo <= hi <= v.len(),
    ensures
        r == parse_decimal(v@.subrange(lo as int, hi as int)),
{
    let ghost s = v@.subrange(lo as int, hi as int);
    let start = if lo < hi && v[lo] == '+' {
        lo + 1
    } else {
        lo
    };
    let ghost b = v@.subrange(start as int, hi as int);
    assert(unsigned_body(s) =~= b);
    let (w_end, f_start) = match find_char_in(v, start, hi, '.') {
        Some(d) => (start + d, start + d + 1),
        None => (hi, hi),
    };
    let mut all = copy_range(v, start, w_end);
    let mut k = f_start;
    let ghost whole = all@;
    assert(whole == whole_part(b));
    while k < hi
        invariant
            f_start <= k <= hi <= v.len(),
            all@ == whole + v@.subrange(f_start as int, k as int),
        decreases hi - k,
    {
        all.push(v[k]);
        k += 1;
        assert(all@ =~= whole + v@.subrange(f_start as int, k as int));
    }
    assert(v@.subrange(f_start as int, hi as int) =~= fraction_part(b));
    let scale = hi - f_start;
    if all.len() == 0 || scale > 0xffff_ffff {
        return None;
    }
    match read_digits(&all, 0, all.len(), 0xffff_ffff_ffff_ffff) {
        Some(n) => {
            assert(all@.subrange(0, all@.len() as int) =~= all@);
            Some(Decimal { digits: n, scale: scale as u32 })
        },
        None => {
            assert(all@.subrange(0, all@.len() as int) =~= all@);
            None
        },
    }
}

pub open spec fn digit_char(d: int) -> char {
    if d == 0 {
        '0'
    } else if d == 1 {
        '1'
    } else if d == 2 {
        '2'
    } else if d == 3 {
        '3'
    } else if d == 4 {
        '4'
    } else if d == 5 {
        '5'
    } else if d == 6 {
        '6'
    } else if d == 7 {
        '7'
    } else if d == 8 {
        '8'
    } else {
        '9'
    }
}

fn make_digit(d: u64) -> (r: char)
    requires
        d < 10,
    ensures
        r == digit_char(d as int),
{
    if d == 0 {
        '0'
    } else if d == 1 {
        '1'
    } else if d == 2 {
        '2'
    } else if d == 3 {
        '3'
    } else if d == 4 {
        '4'
    } else if d == 5 {
        '5'
    } else if d == 6 {
        '6'
    } else if d == 7 {
        '7'
    } else if d == 8 {
        '8'
    } else {
        '9'
    }
}

/// The decimal text of `n`, without leading zeros (`u64`'s `Display`).
pub open spec fn dec_text(n: nat) -> Seq<char>
    decreases n,
{
    if n < 10 {
        seq![digit_char(n as int)]
    } else {
        dec_text(n / 10).push(digit_char((n % 10) as int))
    }
}

/// The decimal text of `n`.
pub fn decimal_text(n: u64) -> (r: Vec<char>)
    ensures
        r@ == dec_text(n as nat),
{
    let mut m = n;
    let mut acc: Vec<char> = Vec::new();
    while m >= 10
        invariant
            dec_text(n as nat) == dec_text(m as nat) + acc@,
        decreases m,
    {
        let c = make_digit(m % 10);
        let ghost old_acc = acc@;
        acc.insert(0, c);
        assert(dec_text(m as nat) == dec_text((m / 10) as nat).push(c));
        assert(dec_text(m as nat) + old_acc =~= dec_text((m / 10) as nat) + acc@);
        m = m / 10;
    }
    let mut r: Vec<char> = Vec::new();
    r.push(make_digit(m));
    let mut i: usize = 0;
    while i < acc.len()
        invariant
            i <= acc.len(),
            r@ == seq![digit_char(m as int)] + acc@.take(i as int),
        decreases acc.len() - i,
    {
        r.push(acc[i]);
        i += 1;
        assert(r@ =~= seq![digit_char(m as int)] + acc@.take(i as int));
    }
    assert(acc@.take(acc.len() as int) =~= acc@);
    r
}

impl Decimal {
    /// Reads a plain decimal literal such as `0.45`, `60` or `+.5`.
    pub fn parse(text: &str) -> (r: Option<Decimal>)
        ensures
            r == parse_decimal(text@),
    {
        let v = crate::text::chars_of(text);
        proof {
            assert(v@.subrange(0, v@.len() as int) =~= v@);
        }
        read_decimal(&v, 0, v.len())
    }
}

/// The decimal text of a number is made of digits and spells that number.
pub proof fn lemma_dec_text_digits(n: nat)
    ensures
        dec_text(n).len() > 0,
        all_digits(dec_text(n)),
        digits_value(dec_text(n)) == n,
    decreases n,
{
    if n < 10 {
        let s = dec_text(n);
        assert(s.drop_last() =~= Seq::<char>::empty());
        assert(digits_value(Seq::<char>::empty()) == 0);
        assert(s.last() == digit_char(n as int));
        assert(digit_value(digit_char(n as int)) == n);
    } else {
        lemma_dec_text_digits(n / 10);
        let s = dec_text(n / 10);
        let d = digit_char((n % 10) as int);
        assert(dec_text(n) == s.push(d));
        assert(s.push(d).drop_last() =~= s);
        assert(digit_value(d) == n % 10);
        assert(all_digits(s.push(d))) by {
            assert forall|i: int| 0 <= i < s.push(d).len() implies is_digit(#[trigger] s.push(d)[i]) by {
                if i < s.len() {
                    assert(s.push(d)[i] == s[i]);
                }
            }
        }
    }
}

/// `from_str` reads back the decimal text of any number up to `max`.
pub proof fn lemma_parse_dec_text(n: nat, max: int)
    requires
        n <= max,
    ensures
        parse_unsigned(dec_text(n), max) == Some(n as int),
{
    lemma_dec_text_digits(n);
    assert(is_digit(dec_text(n)[0]));
}

} // verus!
