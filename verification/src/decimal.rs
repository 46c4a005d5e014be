//! Unsigned decimal numbers as ASCII text.
//!
//! A number is written as its decimal digits without leading zeros. It is
//! read from an optional `+` followed by at least one decimal digit; leading
//! zeros are accepted, and a value above the limit of the target is refused.

use vstd::prelude::*;

verus! {

/// The digit zero.
pub const ZERO: u8 = 0x30;

/// The plus sign.
pub const PLUS: u8 = 0x2b;

/// `b` is a decimal digit.
pub open spec fn is_digit(b: u8) -> bool {
    ZERO <= b <= ZERO + 9
}

/// Every byte of `s` is a decimal digit.
pub open spec fn all_digits(s: Seq<u8>) -> bool {
    forall|i: int| 0 <= i < s.len() ==> is_digit(#[trigger] s[i])
}

/// The number that a string of decimal digits denotes, most significant
/// digit first.
pub open spec fn value(digits: Seq<u8>) -> nat
    decreases digits.len(),
{
    if digits.len() == 0 {
        0
    } else {
        value(digits.drop_last()) * 10 + (digits.last() - ZERO) as nat
    }
}

/// The decimal digits of `n`, without leading zeros.
pub open spec fn numeral(n: nat) -> Seq<u8>
    decreases n,
{
    if n < 10 {
        seq![(ZERO + n) as u8]
    } else {
        numeral(n / 10).push((ZERO + n % 10) as u8)
    }
}

/// The text without its sign, if it has one.
pub open spec fn unsigned(text: Seq<u8>) -> Seq<u8> {
    if text.len() > 0 && text[0] == PLUS {
        text.drop_first()
    } else {
        text
    }
}

/// The number at most `max` that a text denotes, if it denotes one.
pub open spec fn parse(text: Seq<u8>, max: nat) -> Option<nat> {
    let digits = unsigned(text);
    if digits.len() > 0 && all_digits(digits) && value(digits) <= max {
        Some(value(digits))
    } else {
        None
    }
}

/// A digit string denotes at least what any of its prefixes denotes.
pub proof fn lemma_value_grows(digits: Seq<u8>, k: int)
    requires
        all_digits(digits),
        0 <= k <= digits.len(),
    ensures
        value(digits.take(k)) <= value(digits),
    decreases digits.len(),
{
    if k == digits.len() {
        assert(digits.take(k) =~= digits);
    } else {
        assert(digits.drop_last().take(k) =~= digits.take(k));
        lemma_value_grows(digits.drop_last(), k);
    }
}

/// A numeral is a non-empty string of digits that denotes its number.
pub proof fn lemma_numeral(n: nat)
    ensures
        numeral(n).len() > 0,
        all_digits(numeral(n)),
        value(numeral(n)) == n,
    decreases n,
{
    if n < 10 {
        let s = numeral(n);
        assert(s.drop_last() =~= Seq::<u8>::empty());
        assert(value(s.drop_last()) == 0);
    } else {
        lemma_numeral(n / 10);
        let s = numeral(n);
        assert(s.drop_last() =~= numeral(n / 10));
    }
}

/// Reading a numeral gives its number back, whenever the limit admits it.
pub proof fn lemma_parse_numeral(n: nat, max: nat)
    requires
        n <= max,
    ensures
        parse(numeral(n), max) == Some(n),
{
    lemma_numeral(n);
    assert(numeral(n)[0] != PLUS);
}

/// Reads the number at most `max` that the bytes from `start` up to `end`
/// denote.
pub fn read_number(text: &[u8], start: usize, end: usize, max: usize) -> (r: Option<usize>)
    requires
        start <= end <= text@.len(),
    ensures
        match parse(text@.subrange(start as int, end as int), max as nat) {
            Some(n) => r == Some(n as usize),
            None => r.is_none(),
        },
{
    let ghost whole = text@.subrange(start as int, end as int);
    let mut i = start;
    if i < end && text[i] == PLUS {
        i += 1;
    }
    let ghost digits = unsigned(whole);
    assert(digits =~= text@.subrange(i as int, end as int));
    if i == end {
        return None;
    }
    let first = i;
    let mut acc: usize = 0;
    while i < end
        invariant
            first <= i <= end <= text@.len(),
            digits == text@.subrange(first as int, end as int),
            digits == unsigned(text@.subrange(start as int, end as int)),
            all_digits(digits.take(i - first)),
            acc == value(digits.take(i - first)),
            acc <= max,
        decreases end - i,
    {
        let b = text[i];
        if b < ZERO || b > ZERO + 9 {
            assert(!is_digit(digits[i - first]));
            return None;
        }
        let d = (b - ZERO) as usize;
        proof {
            let longer = digits.take(i - first + 1);
            assert(longer.drop_last() =~= digits.take(i - first));
            assert(longer.last() == b);
            assert(value(longer) == acc * 10 + d);
            assert(all_digits(longer)) by {
                assert forall|k: int| 0 <= k < longer.len() implies is_digit(
                    #[trigger] longer[k],
                ) by {
                    if k < i - first {
                        assert(digits.take(i - first)[k] == longer[k]);
                    }
                }
            }
            if all_digits(digits) {
                lemma_value_grows(digits, i - first + 1);
            }
        }
        if d > max || acc > (max - d) / 10 {
            return None;
        }
        acc = acc * 10 + d;
        i += 1;
    }
    assert(digits.take(i - first) =~= digits);
    Some(acc)
}

/// Appends the numeral of `n`.
pub fn write_number(out: &mut Vec<u8>, n: usize)
    ensures
        final(out)@ == old(out)@ + numeral(n as nat),
    decreases n,
{
    if n >= 10 {
        write_number(out, n / 10);
    }
    out.push(ZERO + (n % 10) as u8);
    assert(out@ =~= old(out)@ + numeral(n as nat));
}

} // verus!
