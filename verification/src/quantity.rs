//! The symbolic block-size quantity: a decimal integer with an optional
//! unit suffix `K`, `M`, `G` or `T`, each multiplying by 1024, with
//! whitespace tolerated around both parts.

use vstd::prelude::*;

use crate::decimal::{digits_end, digits_end_exec, digits_value, is_digit, parse_u64_digits};
use vstd::string::StringSliceAdditionalSpecFns;

verus! {

/// ASCII whitespace, as trimming removes it.
pub open spec fn is_trim_ws(b: u8) -> bool {
    b == 32 || 9 <= b <= 13
}

/// `s` with leading whitespace removed.
pub open spec fn trim_front(s: Seq<u8>) -> Seq<u8>
    decreases s.len(),
{
    if s.len() > 0 && is_trim_ws(s[0]) {
        trim_front(s.drop_first())
    } else {
        s
    }
}

/// `s` with trailing whitespace removed.
pub open spec fn trim_back(s: Seq<u8>) -> Seq<u8>
    decreases s.len(),
{
    if s.len() > 0 && is_trim_ws(s.last()) {
        trim_back(s.drop_last())
    } else {
        s
    }
}

/// `s` with whitespace removed from both ends.
pub open spec fn trim_of(s: Seq<u8>) -> Seq<u8> {
    trim_back(trim_front(s))
}

/// The exponent a unit suffix stands for: none is 0, and `K`, `M`, `G`,
/// `T` are the powers of 1024 in turn. Anything else is unknown.
pub open spec fn quant_exp(q: Seq<u8>) -> Option<int> {
    if q.len() == 0 {
        Some(0)
    } else if q == seq![75u8] {
        Some(1)
    } else if q == seq![77u8] {
        Some(2)
    } else if q == seq![71u8] {
        Some(3)
    } else if q == seq![84u8] {
        Some(4)
    } else {
        None
    }
}

/// `1024^e`, for the unit suffixes.
pub open spec fn pow1024(e: int) -> int
    decreases e,
{
    if e <= 0 {
        1
    } else {
        1024 * pow1024(e - 1)
    }
}

/// Dropping a leading whitespace run leaves the same trimmed front.
proof fn lemma_trim_front_run(s: Seq<u8>, a: int)
    requires
        0 <= a <= s.len(),
        forall|k: int| 0 <= k < a ==> is_trim_ws(s[k]),
        a == s.len() || !is_trim_ws(s[a]),
    ensures
        trim_front(s) == s.skip(a),
    decreases a,
{
    if a == 0 {
        if s.len() > 0 && is_trim_ws(s[0]) {
            assert(false);
        }
        assert(s.skip(0) =~= s);
    } else {
        assert(is_trim_ws(s[0]));
        lemma_trim_front_run(s.drop_first(), a - 1);
        assert(s.drop_first().skip(a - 1) =~= s.skip(a));
    }
}

/// Dropping a trailing whitespace run leaves the same trimmed back.
proof fn lemma_trim_back_run(s: Seq<u8>, b: int)
    requires
        0 <= b <= s.len(),
        forall|k: int| b <= k < s.len() ==> is_trim_ws(s[k]),
        b == 0 || !is_trim_ws(s[b - 1]),
    ensures
        trim_back(s) == s.take(b),
    decreases s.len() - b,
{
    if b == s.len() {
        if s.len() > 0 && is_trim_ws(s.last()) {
            assert(false);
        }
        assert(s.take(b) =~= s);
    } else {
        assert(is_trim_ws(s.last()));
        lemma_trim_back_run(s.drop_last(), b);
        assert(s.drop_last().take(b) =~= s.take(b));
    }
}

/// `s` trimmed on both ends, as a subslice.
fn trim_exec<'a>(s: &'a [u8]) -> (r: &'a [u8])
    ensures
        r@ == trim_of(s@),
{
    let n = s.len();
    let mut a: usize = 0;
    while a < n && (s[a] == 32 || (9 <= s[a] && s[a] <= 13))
        invariant
            a <= n,
            n == s@.len(),
            forall|k: int| 0 <= k < a ==> is_trim_ws(s@[k]),
        decreases n - a,
    {
        a += 1;
    }
    let mut b: usize = n;
    while b > a && (s[b - 1] == 32 || (9 <= s[b - 1] && s[b - 1] <= 13))
        invariant
            a <= b <= n,
            n == s@.len(),
            forall|k: int| 0 <= k < a ==> is_trim_ws(s@[k]),
            forall|k: int| b <= k < n ==> is_trim_ws(s@[k]),
        decreases b,
    {
        b -= 1;
    }
    let r = vstd::slice::slice_subrange(s, a, b);
    proof {
        lemma_trim_front_run(s@, a as int);
        let t = s@.skip(a as int);
        if b == a {
            // Everything after the front run is whitespace.
            lemma_trim_back_run(t, 0);
        } else {
            lemma_trim_back_run(t, b - a);
        }
        assert(t.take(b - a) =~= s@.subrange(a as int, b as int));
    }
    r
}

/// Reads a decimal integer with an optional `K`/`M`/`G`/`T` suffix, each
/// step multiplying by 1024; whitespace around either part is ignored.
/// The errors name what is wrong: no digits to read, a zero base, an
/// unknown suffix, or a quantity too large to represent.
pub fn convert_symbolic_quantity(s: &str) -> (r: Result<u64, String>)
    ensures
        ({
            let t = trim_of(s.spec_bytes());
            let k = digits_end(t, 0);
            let digits = t.take(k);
            let q = trim_of(t.skip(k));
            match r {
                Ok(v) => k > 0 && 1 <= digits_value(digits) && quant_exp(q) is Some && v
                    == digits_value(digits) * pow1024(quant_exp(q)->Some_0),
                Err(m) => (k == 0 && m@ == "No digits given"@) || (k > 0 && digits_value(digits)
                    > u64::MAX && m@ == "Base out of range"@) || (k > 0 && digits_value(digits) == 0
                    && m@ == "Base may not be zero or negative"@) || (k > 0 && 1 <= digits_value(
                    digits,
                ) <= u64::MAX && quant_exp(q) is None && m@ == "Unkown quantifier"@) || (k > 0 && 1
                    <= digits_value(digits) <= u64::MAX && quant_exp(q) is Some && digits_value(
                    digits,
                ) * pow1024(quant_exp(q)->Some_0) > u64::MAX && m@ == "Base out of range"@),
            }
        }),
{
    let bytes = s.as_bytes();
    let t = trim_exec(bytes);
    let n = t.len();
    let k = digits_end_exec(t, 0);
    if k == 0 {
        return Err("No digits given".to_owned());
    }
    let digits = vstd::slice::slice_subrange(t, 0, k);
    proof {
        assert(digits@ =~= t@.take(k as int));
    }
    let base = match parse_u64_digits(digits) {
        Some(v) => v,
        None => {
            return Err("Base out of range".to_owned());
        },
    };
    if base == 0 {
        return Err("Base may not be zero or negative".to_owned());
    }
    let tail = vstd::slice::slice_subrange(t, k, n);
    proof {
        assert(tail@ =~= t@.skip(k as int));
    }
    let q = trim_exec(tail);
    let exp: u32;
    if q.len() == 0 {
        exp = 0;
    } else if q.len() == 1 && q[0] == 75 {
        proof {
            assert(q@ =~= seq![75u8]);
        }
        exp = 1;
    } else if q.len() == 1 && q[0] == 77 {
        proof {
            assert(q@ =~= seq![77u8]);
        }
        exp = 2;
    } else if q.len() == 1 && q[0] == 71 {
        proof {
            assert(q@ =~= seq![71u8]);
        }
        exp = 3;
    } else if q.len() == 1 && q[0] == 84 {
        proof {
            assert(q@ =~= seq![84u8]);
        }
        exp = 4;
    } else {
        proof {
            if q@.len() == 1 {
                assert(q@ =~= seq![q@[0]]);
            }
        }
        return Err("Unkown quantifier".to_owned());
    }
    let pow: u64 = match exp {
        0 => 1,
        1 => 1024,
        2 => 1024 * 1024,
        3 => 1024 * 1024 * 1024,
        _ => 1024 * 1024 * 1024 * 1024,
    };
    proof {
        assert(pow1024(0) == 1);
        assert(pow1024(1) == 1024);
        assert(pow1024(2) == 1048576);
        assert(pow1024(3) == 1073741824);
        assert(pow1024(4) == 1099511627776);
    }
    let limit = u64::MAX / pow;
    if base > limit {
        proof {
            vstd::arithmetic::div_mod::lemma_fundamental_div_mod(u64::MAX as int, pow as int);
            vstd::arithmetic::div_mod::lemma_mod_bound(u64::MAX as int, pow as int);
            assert(base * pow > u64::MAX) by (nonlinear_arith)
                requires
                    base >= limit + 1,
                    u64::MAX == (pow as int) * (limit as int) + (u64::MAX as int) % (pow as int),
                    (u64::MAX as int) % (pow as int) < pow,
                    pow >= 1,
            ;
        }
        return Err("Base out of range".to_owned());
    }
    proof {
        vstd::arithmetic::div_mod::lemma_fundamental_div_mod(u64::MAX as int, pow as int);
        vstd::arithmetic::div_mod::lemma_mod_bound(u64::MAX as int, pow as int);
        assert(base * pow <= u64::MAX) by (nonlinear_arith)
            requires
                base <= limit,
                u64::MAX == (pow as int) * (limit as int) + (u64::MAX as int) % (pow as int),
                (u64::MAX as int) % (pow as int) >= 0,
                pow >= 1,
        ;
    }
    Ok(base * pow)
}

} // verus!
