//! Decimal digit strings: rendering unsigned numbers and reading them back.
//!
//! Chunk file names, the configuration document and the block-size option
//! all carry numbers as ASCII digit strings; this module is their common
//! ground.

use vstd::prelude::*;

verus! {

/// `b` is an ASCII decimal digit.
pub open spec fn is_digit(b: u8) -> bool {
    48 <= b <= 57
}

/// Every byte of `s` is an ASCII decimal digit.
pub open spec fn all_digits(s: Seq<u8>) -> bool {
    forall|i: int| 0 <= i < s.len() ==> is_digit(s[i])
}

/// The number a digit string stands for, most significant digit first.
pub open spec fn digits_value(s: Seq<u8>) -> int
    decreases s.len(),
{
    if s.len() == 0 {
        0
    } else {
        digits_value(s.drop_last()) * 10 + (s.last() - 48)
    }
}

/// The shortest decimal rendering of `n`.
pub open spec fn spec_decimal(n: int) -> Seq<u8>
    recommends
        n >= 0,
    decreases n,
{
    if n < 10 {
        seq![(48 + if n >= 0 { n } else { 0 }) as u8]
    } else {
        spec_decimal(n / 10).push((48 + n % 10) as u8)
    }
}

/// Rendering then reading gives the number back; the rendering is pure
/// digits, nonempty, and free of leading zeros unless it is `"0"` itself.
pub proof fn lemma_decimal_value(n: int)
    requires
        n >= 0,
    ensures
        digits_value(spec_decimal(n)) == n,
        spec_decimal(n).len() >= 1,
        all_digits(spec_decimal(n)),
        n >= 1 ==> spec_decimal(n)[0] != 48,
        n == 0 ==> spec_decimal(n) == seq![48u8],
    decreases n,
{
    if n < 10 {
        assert(spec_decimal(n) == seq![(48 + n) as u8]);
        assert(spec_decimal(n).drop_last() =~= Seq::<u8>::empty());
        assert(digits_value(Seq::<u8>::empty()) == 0);
        assert(digits_value(spec_decimal(n)) == 0 * 10 + ((48 + n) as u8 - 48));
    } else {
        lemma_decimal_value(n / 10);
        let s = spec_decimal(n);
        assert(s == spec_decimal(n / 10).push((48 + n % 10) as u8));
        assert(s.len() == spec_decimal(n / 10).len() + 1);
        assert(s.drop_last() =~= spec_decimal(n / 10));
        assert(s.last() == (48 + n % 10) as u8);
        assert(digits_value(s.drop_last()) == n / 10);
        assert(digits_value(s) == (n / 10) * 10 + (n % 10));
        assert(digits_value(s) == n);
        assert(s[0] == spec_decimal(n / 10)[0]);
    }
}

/// The value of a digit string only grows as digits are appended.
pub proof fn lemma_digits_value_prefix_grows(s: Seq<u8>, i: int)
    requires
        0 <= i <= s.len(),
        all_digits(s),
    ensures
        digits_value(s) >= digits_value(s.take(i)),
        digits_value(s) >= 0,
    decreases s.len() - i,
{
    if i == s.len() {
        assert(s.take(i) =~= s);
        lemma_digits_value_nonneg(s);
    } else {
        lemma_digits_value_prefix_grows(s, i + 1);
        assert(s.take(i + 1).drop_last() =~= s.take(i));
        assert(s.take(i + 1).last() == s[i]);
        lemma_digits_value_nonneg(s.take(i));
    }
}

/// A digit string's value is not negative.
pub proof fn lemma_digits_value_nonneg(s: Seq<u8>)
    requires
        all_digits(s),
    ensures
        digits_value(s) >= 0,
    decreases s.len(),
{
    if s.len() > 0 {
        assert(all_digits(s.drop_last()));
        lemma_digits_value_nonneg(s.drop_last());
    }
}

/// Zeros in front of a digit string do not change its value.
pub proof fn lemma_digits_value_zero_pad(zeros: Seq<u8>, s: Seq<u8>)
    requires
        forall|i: int| 0 <= i < zeros.len() ==> zeros[i] == 48,
    ensures
        digits_value(zeros + s) == digits_value(s),
    decreases s.len(),
{
    if s.len() == 0 {
        assert(zeros + s =~= zeros);
        lemma_digits_value_all_zero(zeros);
    } else {
        lemma_digits_value_zero_pad(zeros, s.drop_last());
        assert((zeros + s).drop_last() =~= zeros + s.drop_last());
        assert((zeros + s).last() == s.last());
    }
}

/// A string of zeros stands for zero.
proof fn lemma_digits_value_all_zero(zeros: Seq<u8>)
    requires
        forall|i: int| 0 <= i < zeros.len() ==> zeros[i] == 48,
    ensures
        digits_value(zeros) == 0,
    decreases zeros.len(),
{
    if zeros.len() > 0 {
        lemma_digits_value_all_zero(zeros.drop_last());
    }
}

/// `10^n`, for the small exponents the digit strings here use.
pub open spec fn pow10(n: int) -> int
    decreases n,
{
    if n <= 0 {
        1
    } else {
        10 * pow10(n - 1)
    }
}

/// A number below `10^k` renders in at most `k` digits.
pub proof fn lemma_decimal_len(n: int, k: int)
    requires
        0 <= n,
        1 <= k,
        n < pow10(k),
    ensures
        spec_decimal(n).len() <= k,
    decreases n,
{
    if n < 10 {
    } else {
        assert(pow10(k) == 10 * pow10(k - 1));
        assert(k >= 2) by {
            if k == 1 {
                assert(pow10(1) == 10);
            }
        }
        assert(n <= 10 * pow10(k - 1) - 1);
        assert(10 * pow10(k - 1) - 1 == 10 * (pow10(k - 1) - 1) + 9);
        assert((10 * (pow10(k - 1) - 1) + 9) / 10 == pow10(k - 1) - 1) by {
            vstd::arithmetic::div_mod::lemma_div_multiples_vanish_fancy(pow10(k - 1) - 1, 9, 10);
        }
        assert(n / 10 <= pow10(k - 1) - 1) by {
            vstd::arithmetic::div_mod::lemma_div_is_ordered(n, 10 * pow10(k - 1) - 1, 10);
        }
        lemma_decimal_len(n / 10, k - 1);
        assert(spec_decimal(n) == spec_decimal(n / 10).push((48 + n % 10) as u8));
    }
}

/// The first position at or after `i` that does not hold a digit.
pub open spec fn digits_end(s: Seq<u8>, i: int) -> int
    decreases s.len() - i,
{
    if i < 0 {
        i
    } else if i < s.len() && is_digit(s[i]) {
        digits_end(s, i + 1)
    } else {
        i
    }
}

/// Walks past digits.
pub fn digits_end_exec(s: &[u8], from: usize) -> (r: usize)
    requires
        from <= s@.len(),
    ensures
        r == digits_end(s@, from as int),
        from <= r <= s@.len(),
        forall|k: int| from <= k < r ==> is_digit(s@[k]),
{
    let n = s.len();
    let mut i = from;
    while i < n && 48 <= s[i] && s[i] <= 57
        invariant
            from <= i <= n,
            n == s@.len(),
            digits_end(s@, from as int) == digits_end(s@, i as int),
            forall|k: int| from <= k < i ==> is_digit(s@[k]),
        decreases n - i,
    {
        i += 1;
    }
    i
}

/// A run of digits bounded by a non-digit (or the end) is exactly what
/// `digits_end` walks past.
pub proof fn lemma_digits_end_run(s: Seq<u8>, i: int, j: int)
    requires
        0 <= i <= j <= s.len(),
        forall|k: int| i <= k < j ==> is_digit(s[k]),
        j == s.len() || !is_digit(s[j]),
    ensures
        digits_end(s, i) == j,
    decreases j - i,
{
    if i < j {
        lemma_digits_end_run(s, i + 1, j);
    }
}

/// Renders `n` in decimal.
pub fn to_decimal(n: u64) -> (r: Vec<u8>)
    ensures
        r@ == spec_decimal(n as int),
    decreases n,
{
    if n < 10 {
        let mut v: Vec<u8> = Vec::new();
        v.push(48 + n as u8);
        proof {
            assert(v@ =~= spec_decimal(n as int));
        }
        v
    } else {
        let mut v = to_decimal(n / 10);
        v.push(48 + (n % 10) as u8);
        v
    }
}

/// Reads a digit string as a `u64`: the digits' value, or nothing when the
/// string is empty, holds a non-digit, or its value does not fit.
pub fn parse_u64_digits(s: &[u8]) -> (r: Option<u64>)
    ensures
        match r {
            Some(v) => s@.len() >= 1 && all_digits(s@) && v == digits_value(s@),
            None => s@.len() == 0 || !all_digits(s@) || digits_value(s@) > u64::MAX,
        },
{
    let n = s.len();
    if n == 0 {
        return None;
    }
    let mut acc: u64 = 0;
    let mut i: usize = 0;
    while i < n
        invariant
            n == s@.len(),
            i <= n,
            all_digits(s@.take(i as int)),
            acc == digits_value(s@.take(i as int)),
        decreases n - i,
    {
        let b = s[i];
        if b < 48 || b > 57 {
            return None;
        }
        let d: u64 = (b - 48) as u64;
        proof {
            assert(s@.take(i + 1).drop_last() =~= s@.take(i as int));
            assert(s@.take(i + 1).last() == s@[i as int]);
        }
        if acc > u64::MAX / 10 || (acc == u64::MAX / 10 && d > u64::MAX % 10) {
            proof {
                assert(digits_value(s@.take(i + 1)) == acc * 10 + d);
                assert(digits_value(s@.take(i + 1)) > u64::MAX);
                if all_digits(s@) {
                    lemma_digits_value_prefix_grows(s@, i + 1);
                }
            }
            return None;
        }
        acc = acc * 10 + d;
        i += 1;
    }
    proof {
        assert(s@.take(n as int) =~= s@);
    }
    Some(acc)
}

} // verus!
