//! The configuration document: the small textual record
//! `{"blocksize":N}` that Split mode serves at the mount root and Cat
//! mode requires in the mirror.
//!
//! The document is a bit-exact on-disk interface between the two modes,
//! so both directions live here as verified code: the serializer emits
//! the canonical form, and the parser accepts the record with optional
//! whitespace around its tokens, rejecting anything else — a missing
//! key, a leading zero, a trailing byte, a value that does not fit.

use vstd::prelude::*;

use crate::decimal::{
    all_digits, digits_end, digits_end_exec, digits_value, is_digit, lemma_decimal_value,
    lemma_digits_end_run, parse_u64_digits, spec_decimal,
};
use crate::Config;

verus! {

/// JSON whitespace.
pub open spec fn is_ws(b: u8) -> bool {
    b == 32 || b == 9 || b == 10 || b == 13
}

/// The first position at or after `i` that does not hold whitespace.
pub open spec fn skip_ws(s: Seq<u8>, i: int) -> int
    decreases s.len() - i,
{
    if i < 0 {
        i
    } else if i < s.len() && is_ws(s[i]) {
        skip_ws(s, i + 1)
    } else {
        i
    }
}

/// The quoted key `"blocksize"`.
pub open spec fn key_bytes() -> Seq<u8> {
    seq![34u8, 98u8, 108u8, 111u8, 99u8, 107u8, 115u8, 105u8, 122u8, 101u8, 34u8]
}

/// A JSON integer: digits, nonempty, no leading zero unless it is `0`.
pub open spec fn valid_number(d: Seq<u8>) -> bool {
    d.len() >= 1 && all_digits(d) && (d[0] != 48 || d.len() == 1)
}

/// What the configuration parser accepts, and the block size it reads:
/// optional whitespace around `{`, the quoted key, `:`, a JSON integer
/// that fits a `u64`, and `}`, with nothing after.
pub open spec fn spec_parse_config(s: Seq<u8>) -> Option<u64> {
    let i0 = skip_ws(s, 0);
    if i0 < s.len() && s[i0] == 123 {
        let i1 = skip_ws(s, i0 + 1);
        if i1 + 11 <= s.len() && s.subrange(i1, i1 + 11) == key_bytes() {
            let i2 = skip_ws(s, i1 + 11);
            if i2 < s.len() && s[i2] == 58 {
                let i3 = skip_ws(s, i2 + 1);
                let i4 = digits_end(s, i3);
                if i3 < i4 && valid_number(s.subrange(i3, i4)) {
                    let v = digits_value(s.subrange(i3, i4));
                    let i5 = skip_ws(s, i4);
                    if i5 < s.len() && s[i5] == 125 {
                        let i6 = skip_ws(s, i5 + 1);
                        if i6 == s.len() && v <= u64::MAX {
                            Some(v as u64)
                        } else {
                            None
                        }
                    } else {
                        None
                    }
                } else {
                    None
                }
            } else {
                None
            }
        } else {
            None
        }
    } else {
        None
    }
}

/// The canonical serialized form: `{"blocksize":` the decimal value `}`,
/// with no whitespace.
pub open spec fn spec_config_json(blocksize: u64) -> Seq<u8> {
    seq![123u8] + key_bytes() + seq![58u8] + spec_decimal(blocksize as int) + seq![125u8]
}

/// The quoted key as a value.
fn key_bytes_vec() -> (r: Vec<u8>)
    ensures
        r@ == key_bytes(),
{
    let mut v: Vec<u8> = Vec::new();
    v.push(34);
    v.push(98);
    v.push(108);
    v.push(111);
    v.push(99);
    v.push(107);
    v.push(115);
    v.push(105);
    v.push(122);
    v.push(101);
    v.push(34);
    proof {
        assert(v@ =~= key_bytes());
    }
    v
}

/// Serializes a configuration to its canonical document.
pub fn serialize_config(c: &Config) -> (r: Vec<u8>)
    ensures
        r@ == spec_config_json(c.blocksize),
{
    let mut v: Vec<u8> = Vec::new();
    v.push(123);
    let key = key_bytes_vec();
    let mut i: usize = 0;
    let klen = key.len();
    proof {
        assert(v@ =~= seq![123u8] + key@.take(0));
    }
    while i < klen
        invariant
            i <= klen,
            klen == key@.len(),
            key@ == key_bytes(),
            v@ == seq![123u8] + key@.take(i as int),
        decreases klen - i,
    {
        v.push(key[i]);
        proof {
            assert(key@.take(i + 1) =~= key@.take(i as int).push(key@[i as int]));
            assert(v@ =~= seq![123u8] + key@.take(i + 1));
        }
        i += 1;
    }
    proof {
        assert(key@.take(klen as int) =~= key@);
    }
    v.push(58);
    let ghost head = v@;
    let digits = crate::decimal::to_decimal(c.blocksize);
    let dlen = digits.len();
    let mut j: usize = 0;
    proof {
        assert(v@ =~= head + digits@.take(0));
    }
    while j < dlen
        invariant
            j <= dlen,
            dlen == digits@.len(),
            v@ == head + digits@.take(j as int),
        decreases dlen - j,
    {
        v.push(digits[j]);
        proof {
            assert(digits@.take(j + 1) =~= digits@.take(j as int).push(digits@[j as int]));
            assert(v@ =~= head + digits@.take(j + 1));
        }
        j += 1;
    }
    proof {
        assert(digits@.take(dlen as int) =~= digits@);
    }
    v.push(125);
    proof {
        assert(v@ =~= spec_config_json(c.blocksize));
    }
    v
}

/// Walks past whitespace.
fn skip_ws_exec(s: &[u8], from: usize) -> (r: usize)
    requires
        from <= s@.len(),
    ensures
        r == skip_ws(s@, from as int),
        from <= r <= s@.len(),
{
    let n = s.len();
    let mut i = from;
    while i < n && (s[i] == 32 || s[i] == 9 || s[i] == 10 || s[i] == 13)
        invariant
            from <= i <= n,
            n == s@.len(),
            skip_ws(s@, from as int) == skip_ws(s@, i as int),
        decreases n - i,
    {
        i += 1;
    }
    i
}

/// Parses a configuration document; nothing for anything the grammar
/// rejects.
pub fn parse_config(s: &[u8]) -> (r: Option<Config>)
    ensures
        match r {
            Some(c) => spec_parse_config(s@) == Some(c.blocksize),
            None => spec_parse_config(s@) is None,
        },
{
    let n = s.len();
    let i0 = skip_ws_exec(s, 0);
    if i0 >= n || s[i0] != 123 {
        return None;
    }
    let i1 = skip_ws_exec(s, i0 + 1);
    if n - i1 < 11 {
        return None;
    }
    let key_part = vstd::slice::slice_subrange(s, i1, i1 + 11);
    let key = key_bytes_vec();
    if !crate::index::bytes_eq(key_part, key.as_slice()) {
        return None;
    }
    let i2 = skip_ws_exec(s, i1 + 11);
    if i2 >= n || s[i2] != 58 {
        return None;
    }
    let i3 = skip_ws_exec(s, i2 + 1);
    let i4 = digits_end_exec(s, i3);
    if i4 == i3 {
        return None;
    }
    let d = vstd::slice::slice_subrange(s, i3, i4);
    proof {
        assert(d@ =~= s@.subrange(i3 as int, i4 as int));
    }
    if d.len() > 1 && d[0] == 48 {
        proof {
            assert(!valid_number(s@.subrange(i3 as int, i4 as int)));
        }
        return None;
    }
    let v = match parse_u64_digits(d) {
        Some(v) => v,
        None => {
            // The digits are nonempty and pure digits, so only a value
            // past the largest representable one lands here.
            proof {
                assert(all_digits(d@));
                assert(digits_value(s@.subrange(i3 as int, i4 as int)) > u64::MAX);
            }
            return None;
        },
    };
    let i5 = skip_ws_exec(s, i4);
    if i5 >= n || s[i5] != 125 {
        return None;
    }
    let i6 = skip_ws_exec(s, i5 + 1);
    if i6 != n {
        return None;
    }
    proof {
        assert(valid_number(s@.subrange(i3 as int, i4 as int)));
        assert(spec_parse_config(s@) == Some(v));
    }
    Some(Config { blocksize: v })
}

/// Parsing the canonical document gives the configuration back: what
/// Split writes, Cat reads, exactly.
pub proof fn lemma_config_round_trip(c: Config)
    ensures
        spec_parse_config(spec_config_json(c.blocksize)) == Some(c.blocksize),
{
    let s = spec_config_json(c.blocksize);
    let b = c.blocksize;
    lemma_decimal_value(b as int);
    let d = spec_decimal(b as int);
    let dlen = d.len() as int;
    assert(s.len() == 13 + dlen + 1);
    assert(s[0] == 123u8);
    assert(skip_ws(s, 0) == 0);
    assert(s.subrange(1, 12) =~= key_bytes());
    assert(!is_ws(s[1]));
    assert(skip_ws(s, 1) == 1);
    assert(s[12] == 58u8);
    assert(!is_ws(s[12]));
    assert(skip_ws(s, 12) == 12);
    assert(forall|k: int| 13 <= k < 13 + dlen ==> s[k] == d[k - 13]);
    assert(forall|k: int| 13 <= k < 13 + dlen ==> is_digit(s[k]));
    assert(s[13 + dlen] == 125u8);
    assert(!is_ws(s[13]));
    assert(skip_ws(s, 13) == 13);
    lemma_digits_end_run(s, 13, 13 + dlen);
    assert(digits_end(s, 13) == 13 + dlen);
    assert(s.subrange(13, 13 + dlen) =~= d);
    assert(valid_number(d));
    assert(digits_value(d) == b);
    assert(!is_ws(s[13 + dlen]));
    assert(skip_ws(s, 13 + dlen) == 13 + dlen);
    assert(skip_ws(s, 13 + dlen + 1) == s.len());
    assert(spec_parse_config(s) == Some(b));
}

} // verus!
