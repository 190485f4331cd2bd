//! Decimal and octal text of integers: formatting and parsing, as the object
//! and tree formats use them.

use vstd::prelude::*;

verus! {

/// An ASCII decimal digit.
pub open spec fn is_digit(b: u8) -> bool {
    48 <= b <= 57
}

/// An ASCII octal digit.
pub open spec fn is_octal_digit(b: u8) -> bool {
    48 <= b <= 55
}

/// The value of a sequence of digits read in the given base.
pub open spec fn digits_value(s: Seq<u8>, base: nat) -> nat
    decreases s.len(),
{
    if s.len() == 0 {
        0
    } else {
        digits_value(s.drop_last(), base) * base + (s.last() - 48) as nat
    }
}

/// The decimal digits of `n`, most significant first, without leading zeros.
pub open spec fn decimal_digits(n: nat) -> Seq<u8>
    decreases n,
{
    if n < 10 {
        seq![(48 + n) as u8]
    } else {
        decimal_digits(n / 10).push((48 + n % 10) as u8)
    }
}

/// The octal digits of `n`, most significant first, without leading zeros
/// (what `format!("{:o}", n)` writes).
pub open spec fn octal_digits(n: nat) -> Seq<u8>
    decreases n,
{
    if n < 8 {
        seq![(48 + n) as u8]
    } else {
        octal_digits(n / 8).push((48 + n % 8) as u8)
    }
}

/// Every byte is a decimal digit.
pub open spec fn all_digits(d: Seq<u8>) -> bool {
    forall|i: int| 0 <= i < d.len() ==> is_digit(#[trigger] d[i])
}

/// The text with one leading `+` removed, where more follows it.
pub open spec fn strip_plus(s: Seq<u8>) -> Seq<u8> {
    if s.len() > 1 && s[0] == 43 {
        s.drop_first()
    } else {
        s
    }
}

/// What `usize::from_str` gives for the text made of these bytes: an
/// optional `+`, then at least one decimal digit, with a value that fits.
pub open spec fn parse_usize_spec(s: Seq<u8>) -> Option<nat> {
    let d = strip_plus(s);
    if d.len() > 0 && all_digits(d) && digits_value(d, 10) <= usize::MAX {
        Some(digits_value(d, 10))
    } else {
        None
    }
}

pub proof fn lemma_digits_value_prefix(s: Seq<u8>, base: nat, i: int)
    requires
        0 <= i <= s.len(),
        base >= 1,
    ensures
        digits_value(s.take(i), base) <= digits_value(s, base),
    decreases s.len() - i,
{
    if i < s.len() {
        lemma_digits_value_prefix(s, base, i + 1);
        assert(s.take(i + 1).drop_last() =~= s.take(i));
        let a = digits_value(s.take(i), base);
        assert(a * base >= a) by (nonlinear_arith)
            requires
                base >= 1,
        ;
    } else {
        assert(s.take(i) =~= s);
    }
}

/// Parses decimal text as `usize::from_str` does.
pub fn parse_usize(s: &[u8]) -> (r: Option<usize>)
    ensures
        match parse_usize_spec(s@) {
            Some(v) => r == Some(v as usize),
            None => r is None,
        },
{
    let start: usize = if s.len() > 1 && s[0] == 43 {
        1
    } else {
        0
    };
    let ghost d = strip_plus(s@);
    assert(d =~= s@.skip(start as int));
    if start >= s.len() {
        return None;
    }
    let mut v: usize = 0;
    let mut i: usize = start;
    while i < s.len()
        invariant
            start <= i <= s.len(),
            d =~= s@.skip(start as int),
            d == strip_plus(s@),
            d.len() > 0,
            v == digits_value(d.take(i - start), 10),
            forall|j: int| 0 <= j < i - start ==> is_digit(#[trigger] d[j]),
        decreases s.len() - i,
    {
        let c = s[i];
        assert(d[i - start] == c);
        if c < 48 || c > 57 {
            assert(!is_digit(d[i - start]));
            assert(!all_digits(d));
            return None;
        }
        let digit: usize = (c - 48) as usize;
        assert(d.take(i + 1 - start).drop_last() =~= d.take(i - start));
        assert(digits_value(d.take(i + 1 - start), 10) == v * 10 + digit);
        if v > (usize::MAX - digit) / 10 {
            proof {
                assert(v * 10 + digit > usize::MAX) by (nonlinear_arith)
                    requires
                        v > (usize::MAX - digit) / 10,
                        digit <= 9,
                ;
                lemma_digits_value_prefix(d, 10, i + 1 - start);
            }
            return None;
        }
        assert(v * 10 + digit <= usize::MAX) by (nonlinear_arith)
            requires
                v <= (usize::MAX - digit) / 10,
                digit <= 9,
        ;
        v = v * 10 + digit;
        i = i + 1;
    }
    assert(d.take(i - start) =~= d);
    assert(all_digits(d));
    Some(v)
}

pub proof fn lemma_decimal_digits(n: nat)
    ensures
        decimal_digits(n).len() >= 1,
        forall|i: int|
            0 <= i < decimal_digits(n).len() ==> is_digit(#[trigger] decimal_digits(n)[i]),
        digits_value(decimal_digits(n), 10) == n,
        n < 10 ==> decimal_digits(n).len() == 1,
    decreases n,
{
    if n >= 10 {
        lemma_decimal_digits(n / 10);
        assert(decimal_digits(n).drop_last() =~= decimal_digits(n / 10));
        assert(decimal_digits(n).last() == (48 + n % 10) as u8);
        assert(digits_value(decimal_digits(n), 10) == digits_value(decimal_digits(n / 10), 10) * 10
            + n % 10);
    } else {
        assert(decimal_digits(n).drop_last() =~= Seq::<u8>::empty());
        assert(digits_value(Seq::<u8>::empty(), 10) == 0);
    }
}

pub proof fn lemma_octal_digits(n: nat)
    ensures
        octal_digits(n).len() >= 1,
        forall|i: int|
            0 <= i < octal_digits(n).len() ==> is_octal_digit(#[trigger] octal_digits(n)[i]),
        digits_value(octal_digits(n), 8) == n,
    decreases n,
{
    if n >= 8 {
        lemma_octal_digits(n / 8);
        assert(octal_digits(n).drop_last() =~= octal_digits(n / 8));
        assert(octal_digits(n).last() == (48 + n % 8) as u8);
        assert(digits_value(octal_digits(n), 8) == digits_value(octal_digits(n / 8), 8) * 8 + n
            % 8);
    } else {
        assert(octal_digits(n).drop_last() =~= Seq::<u8>::empty());
        assert(digits_value(Seq::<u8>::empty(), 8) == 0);
    }
}

/// `10^k`.
pub open spec fn pow10(k: nat) -> nat
    decreases k,
{
    if k == 0 {
        1
    } else {
        10 * pow10((k - 1) as nat)
    }
}

pub proof fn lemma_decimal_digits_len(n: nat, k: nat)
    requires
        k >= 1,
        n < pow10(k),
    ensures
        decimal_digits(n).len() <= k,
    decreases k,
{
    if n >= 10 {
        assert(k >= 2) by {
            if k == 1 {
                assert(pow10(1) == 10) by {
                    reveal_with_fuel(pow10, 2);
                }
            }
        }
        assert(n / 10 < pow10((k - 1) as nat));
        lemma_decimal_digits_len(n / 10, (k - 1) as nat);
    }
}

/// A `usize` has at most twenty decimal digits.
pub proof fn lemma_usize_decimal_len(n: usize)
    ensures
        decimal_digits(n as nat).len() <= 20,
{
    assert(pow10(20) == 100000000000000000000) by {
        reveal_with_fuel(pow10, 21);
    }
    lemma_decimal_digits_len(n as nat, 20);
}

/// Writes the decimal digits of `n`.
pub fn decimal_bytes(n: u64) -> (r: Vec<u8>)
    ensures
        r@ == decimal_digits(n as nat),
    decreases n,
{
    if n < 10 {
        vec![(48 + n) as u8]
    } else {
        let mut r = decimal_bytes(n / 10);
        r.push((48 + n % 10) as u8);
        r
    }
}

/// Writes the octal digits of `n` (`format!("{:o}", n)`).
pub fn octal_bytes(n: u32) -> (r: Vec<u8>)
    ensures
        r@ == octal_digits(n as nat),
    decreases n,
{
    if n < 8 {
        vec![(48 + n) as u8]
    } else {
        let mut r = octal_bytes(n / 8);
        r.push((48 + n % 8) as u8);
        r
    }
}

} // verus!
