//! Integers as decimal text: how they are written, and how text is read back.

use vstd::prelude::*;

verus! {

/// The byte `0`.
pub const DIGIT_ZERO: u8 = 48;

/// The byte `9`.
pub const DIGIT_NINE: u8 = 57;

/// The byte `-`.
pub const MINUS: u8 = 45;

/// The byte `+`.
pub const PLUS: u8 = 43;

/// Whether `b` is one of the bytes `0` to `9`.
pub open spec fn is_digit(b: u8) -> bool {
    48 <= b <= 57
}

/// Whether every byte of `s` is a decimal digit.
pub open spec fn all_digits(s: Seq<u8>) -> bool {
    forall|j: int| 0 <= j < s.len() ==> is_digit(#[trigger] s[j])
}

/// The decimal digits of `n`, most significant first, without leading zeros.
pub open spec fn digits_of(n: nat) -> Seq<u8>
    decreases n,
{
    if n < 10 {
        seq![(48 + n) as u8]
    } else {
        digits_of(n / 10).push((48 + n % 10) as u8)
    }
}

/// The decimal text of `i`: a minus sign for a negative number, then its digits.
pub open spec fn decimal_of(i: int) -> Seq<u8> {
    if i < 0 {
        seq![45u8] + digits_of((-i) as nat)
    } else {
        digits_of(i as nat)
    }
}

/// The number that a string of decimal digits denotes.
pub open spec fn digits_value(s: Seq<u8>) -> nat
    decreases s.len(),
{
    if s.len() == 0 {
        0
    } else {
        digits_value(s.drop_last()) * 10 + (s.last() - 48) as nat
    }
}

/// Reading an unsigned number of at most `max`: the text is one or more
/// digits and nothing else (leading zeros are accepted).
pub open spec fn parse_unsigned(s: Seq<u8>, max: nat) -> Option<nat> {
    if s.len() > 0 && all_digits(s) && digits_value(s) <= max {
        Some(digits_value(s))
    } else {
        None
    }
}

/// Reading a signed 64-bit number: an optional `+` or `-`, then one or more
/// digits and nothing else; the number must fit.
pub open spec fn parse_signed(s: Seq<u8>) -> Option<int> {
    if s.len() == 0 {
        None
    } else if s[0] == 45 {
        match parse_unsigned(s.skip(1), 0x8000_0000_0000_0000) {
            Some(v) => Some(-(v as int)),
            None => None,
        }
    } else if s[0] == 43 {
        match parse_unsigned(s.skip(1), 0x7fff_ffff_ffff_ffff) {
            Some(v) => Some(v as int),
            None => None,
        }
    } else {
        match parse_unsigned(s, 0x7fff_ffff_ffff_ffff) {
            Some(v) => Some(v as int),
            None => None,
        }
    }
}

/// The digits of a number are digits, and there is at least one.
pub proof fn lemma_digits_of_shape(n: nat)
    ensures
        digits_of(n).len() >= 1,
        all_digits(digits_of(n)),
    decreases n,
{
    if n >= 10 {
        lemma_digits_of_shape(n / 10);
    }
}

/// Reading the digits of a number gives the number back.
pub proof fn lemma_digits_value_of_digits(n: nat)
    ensures
        digits_value(digits_of(n)) == n,
    decreases n,
{
    if n < 10 {
        let s = digits_of(n);
        assert(s.drop_last() =~= Seq::<u8>::empty());
        assert(digits_value(s.drop_last()) == 0);
    } else {
        lemma_digits_value_of_digits(n / 10);
        let s = digits_of(n);
        assert(s.drop_last() =~= digits_of(n / 10));
    }
}

/// A number never denotes less than one of its prefixes.
pub proof fn lemma_digits_value_prefix(s: Seq<u8>, k: int)
    requires
        0 <= k <= s.len(),
        all_digits(s),
    ensures
        digits_value(s.take(k)) <= digits_value(s),
    decreases s.len(),
{
    if k == s.len() {
        assert(s.take(k) =~= s);
    } else {
        lemma_digits_value_prefix(s.drop_last(), k);
        assert(s.drop_last().take(k) =~= s.take(k));
        assert(is_digit(s[s.len() - 1]));
    }
}

/// Reading what was written for an unsigned number gives the number.
pub proof fn lemma_parse_unsigned_digits_of(n: nat, max: nat)
    requires
        n <= max,
    ensures
        parse_unsigned(digits_of(n), max) == Some(n),
{
    lemma_digits_of_shape(n);
    lemma_digits_value_of_digits(n);
}

/// Reading what was written for a signed 64-bit number gives the number.
pub proof fn lemma_parse_signed_decimal_of(i: int)
    requires
        i64::MIN <= i <= i64::MAX,
    ensures
        parse_signed(decimal_of(i)) == Some(i),
{
    if i < 0 {
        let d = digits_of((-i) as nat);
        assert(decimal_of(i).skip(1) =~= d);
        lemma_parse_unsigned_digits_of((-i) as nat, 0x8000_0000_0000_0000);
    } else {
        lemma_digits_of_shape(i as nat);
        assert(is_digit(digits_of(i as nat)[0]));
        lemma_parse_unsigned_digits_of(i as nat, 0x7fff_ffff_ffff_ffff);
    }
}

/// The decimal text of a number holds only digits and, in front, a minus sign.
pub proof fn lemma_decimal_of_bytes(i: int)
    ensures
        decimal_of(i).len() >= 1,
        forall|j: int| 0 <= j < decimal_of(i).len() ==> is_digit(#[trigger] decimal_of(i)[j])
            || decimal_of(i)[j] == 45,
{
    if i < 0 {
        lemma_digits_of_shape((-i) as nat);
    } else {
        lemma_digits_of_shape(i as nat);
    }
}

/// Writes `n` in decimal.
pub fn format_u64(n: u64) -> (r: Vec<u8>)
    ensures
        r@ == digits_of(n as nat),
    decreases n,
{
    if n < 10 {
        let mut v: Vec<u8> = Vec::new();
        v.push(DIGIT_ZERO + (n as u8));
        assert(v@ =~= digits_of(n as nat));
        v
    } else {
        let mut v: Vec<u8> = format_u64(n / 10);
        v.push(DIGIT_ZERO + ((n % 10) as u8));
        v
    }
}

/// Writes `i` in decimal, with a minus sign if it is negative.
pub fn format_i64(i: i64) -> (r: Vec<u8>)
    ensures
        r@ == decimal_of(i as int),
{
    if i < 0 {
        let magnitude: u64 = ((-(i + 1)) as u64) + 1;
        let digits: Vec<u8> = format_u64(magnitude);
        let mut v: Vec<u8> = Vec::new();
        v.push(MINUS);
        let mut k: usize = 0;
        while k < digits.len()
            invariant
                0 <= k <= digits.len(),
                v@ == seq![45u8] + digits@.take(k as int),
            decreases digits.len() - k,
        {
            v.push(digits[k]);
            assert(digits@.take(k + 1) =~= digits@.take(k as int).push(digits@[k as int]));
            assert(v@ =~= seq![45u8] + digits@.take(k + 1));
            k += 1;
        }
        assert(digits@.take(k as int) =~= digits@);
        v
    } else {
        format_u64(i as u64)
    }
}

/// Reads the bytes of `s` from `start` up to `end` as an unsigned decimal
/// number of at most `max`.
pub fn parse_digits(s: &[u8], start: usize, end: usize, max: u64) -> (r: Option<u64>)
    requires
        start <= end <= s@.len(),
    ensures
        r == match parse_unsigned(s@.subrange(start as int, end as int), max as nat) {
            Some(v) => Some(v as u64),
            None => None,
        },
{
    let ghost text = s@.subrange(start as int, end as int);
    if start == end {
        return None;
    }
    let mut acc: u64 = 0;
    let mut i: usize = start;
    assert(text.take(0) =~= Seq::<u8>::empty());
    while i < end
        invariant
            start <= i <= end <= s@.len(),
            text == s@.subrange(start as int, end as int),
            all_digits(text.take(i - start)),
            acc == digits_value(text.take(i - start)),
            acc <= max,
        decreases end - i,
    {
        let b: u8 = s[i];
        assert(text[i - start] == b);
        if b < DIGIT_ZERO || b > DIGIT_NINE {
            assert(!is_digit(text[i - start]));
            return None;
        }
        let d: u64 = (b - DIGIT_ZERO) as u64;
        let ghost next = text.take(i - start + 1);
        assert(next.drop_last() =~= text.take(i - start));
        assert(next.last() == b);
        assert(digits_value(next) == acc * 10 + d);
        if d > max || acc > (max - d) / 10 {
            proof {
                if all_digits(text) {
                    lemma_digits_value_prefix(text, i - start + 1);
                }
            }
            return None;
        }
        acc = acc * 10 + d;
        assert forall|j: int| 0 <= j < next.len() implies is_digit(#[trigger] next[j]) by {
            if j < i - start {
                assert(next[j] == text.take(i - start)[j]);
            }
        }
        i += 1;
    }
    assert(text.take(end - start) =~= text);
    Some(acc)
}

/// Reads the bytes of `s` from `start` up to `end` as a signed 64-bit decimal
/// number.
pub fn parse_i64(s: &[u8], start: usize, end: usize) -> (r: Option<i64>)
    requires
        start <= end <= s@.len(),
    ensures
        r == match parse_signed(s@.subrange(start as int, end as int)) {
            Some(v) => Some(v as i64),
            None => None,
        },
{
    let ghost text = s@.subrange(start as int, end as int);
    if start == end {
        return None;
    }
    let first: u8 = s[start];
    assert(text[0] == first);
    if first == MINUS {
        assert(text.skip(1) =~= s@.subrange(start + 1, end as int));
        match parse_digits(s, start + 1, end, 0x8000_0000_0000_0000) {
            Some(v) => {
                if v == 0x8000_0000_0000_0000 {
                    Some(i64::MIN)
                } else {
                    Some(-(v as i64))
                }
            },
            None => None,
        }
    } else if first == PLUS {
        assert(text.skip(1) =~= s@.subrange(start + 1, end as int));
        match parse_digits(s, start + 1, end, 0x7fff_ffff_ffff_ffff) {
            Some(v) => Some(v as i64),
            None => None,
        }
    } else {
        match parse_digits(s, start, end, 0x7fff_ffff_ffff_ffff) {
            Some(v) => Some(v as i64),
            None => None,
        }
    }
}

} // verus!
