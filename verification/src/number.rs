use vstd::prelude::*;

use crate::text::{chars_of, decimal, decimal_string, digit_char, push_char, push_str};

verus! {

/// An ASCII decimal digit.
pub open spec fn is_digit(c: char) -> bool {
    '0' <= c && c <= '9'
}

/// Every character of `s` is a decimal digit.
pub open spec fn all_digits(s: Seq<char>) -> bool {
    forall|i: int| 0 <= i < s.len() ==> is_digit(#[trigger] s[i])
}

/// The value of a run of decimal digits (leading zeros allowed).
pub open spec fn digits_value(s: Seq<char>) -> nat
    decreases s.len(),
{
    if s.len() == 0 {
        0
    } else {
        digits_value(s.drop_last()) * 10 + ((s.last() as int - '0' as int) as nat)
    }
}

/// What `u32::from_str` and the other unsigned parsers read, before the range
/// check: an optional `+`, then one or more decimal digits.
pub open spec fn parse_unsigned_spec(s: Seq<char>) -> Option<nat> {
    let d = if s.len() > 0 && s[0] == '+' { s.drop_first() } else { s };
    if d.len() > 0 && all_digits(d) {
        Some(digits_value(d))
    } else {
        None
    }
}

/// What `i64::from_str` reads, before the range check: an optional `+` or
/// `-`, then one or more decimal digits.
pub open spec fn parse_signed_spec(s: Seq<char>) -> Option<int> {
    if s.len() > 0 && s[0] == '-' {
        let d = s.drop_first();
        if d.len() > 0 && all_digits(d) {
            Some(-(digits_value(d) as int))
        } else {
            None
        }
    } else {
        match parse_unsigned_spec(s) {
            Some(v) => Some(v as int),
            None => None,
        }
    }
}

/// The text `{}` gives an integer: a `-` before the digits of a negative one.
pub open spec fn int_text(n: int) -> Seq<char> {
    if n < 0 {
        seq!['-'] + decimal((-n) as nat)
    } else {
        decimal(n as nat)
    }
}

// ---------------------------------------------------------------------------

proof fn lemma_digit_char_value(d: nat)
    requires
        d < 10,
    ensures
        is_digit(digit_char(d)),
        digit_char(d) as int - '0' as int == d,
{
}

/// The decimal text of `n` is a non-empty run of digits worth `n`.
pub proof fn lemma_decimal_digits(n: nat)
    ensures
        decimal(n).len() > 0,
        all_digits(decimal(n)),
        digits_value(decimal(n)) == n,
    decreases n,
{
    if n < 10 {
        lemma_digit_char_value(n);
        let d = seq![digit_char(n)];
        assert(d.drop_last() =~= Seq::<char>::empty());
        assert(d.last() == digit_char(n));
        assert(digits_value(d) == digits_value(d.drop_last()) * 10 + ((d.last() as int - '0' as int) as nat));
    } else {
        lemma_decimal_digits(n / 10);
        lemma_digit_char_value(n % 10);
        let d = decimal(n);
        assert(d.drop_last() == decimal(n / 10));
        assert(d.last() == digit_char(n % 10));
        assert(digits_value(d) == digits_value(d.drop_last()) * 10 + ((d.last() as int - '0' as int) as nat));
        assert((n / 10) * 10 + n % 10 == n);
        assert forall|i: int| 0 <= i < d.len() implies is_digit(#[trigger] d[i]) by {
            if i < d.len() - 1 {
                assert(d[i] == decimal(n / 10)[i]);
            }
        }
    }
}

proof fn lemma_digits_value_take_monotone(s: Seq<char>, k: int)
    requires
        0 <= k <= s.len(),
    ensures
        digits_value(s.take(k)) <= digits_value(s),
    decreases s.len() - k,
{
    if k < s.len() {
        assert(s.drop_last().take(k) =~= s.take(k));
        lemma_digits_value_take_monotone(s.drop_last(), k);
    } else {
        assert(s.take(k) =~= s);
    }
}

/// Reads the digits `cs[from..]` as long as their value stays at most `bound`.
fn digits_upto(cs: &Vec<char>, from: usize, bound: u128) -> (r: Option<u128>)
    requires
        from <= cs.len(),
        bound <= 0x1_0000_0000_0000_0000,
    ensures
        ({
            let d = cs@.skip(from as int);
            match r {
                Some(v) => d.len() > 0 && all_digits(d) && v == digits_value(d) && v <= bound,
                None => !(d.len() > 0 && all_digits(d) && digits_value(d) <= bound),
            }
        }),
{
    let ghost d = cs@.skip(from as int);
    if from == cs.len() {
        return None;
    }
    let mut acc: u128 = 0;
    let mut k: usize = from;
    while k < cs.len()
        invariant
            from <= k <= cs.len(),
            d == cs@.skip(from as int),
            bound <= 0x1_0000_0000_0000_0000,
            all_digits(d.take(k - from)),
            acc == digits_value(d.take(k - from)),
            acc <= bound,
        decreases cs.len() - k,
    {
        let c = cs[k];
        assert(d[k - from] == c);
        if !('0' <= c && c <= '9') {
            return None;
        }
        let v: u128 = (c as u32 - '0' as u32) as u128;
        assert(d.take(k - from + 1).drop_last() =~= d.take(k - from));
        acc = acc * 10 + v;
        k += 1;
        assert(all_digits(d.take(k - from))) by {
            assert forall|i: int| 0 <= i < k - from implies is_digit(#[trigger] d.take(k - from)[i]) by {
                if i < k - from - 1 {
                    assert(d.take(k - from)[i] == d.take(k - from - 1)[i]);
                }
            }
        }
        if acc > bound {
            proof {
                lemma_digits_value_take_monotone(d, k - from);
            }
            return None;
        }
    }
    assert(d.take(k - from) =~= d);
    Some(acc)
}

/// `u32::from_str`: an optional `+` and decimal digits whose value fits.
pub fn parse_u32(s: &str) -> (r: Option<u32>)
    ensures
        r == match parse_unsigned_spec(s@) {
            Some(v) => if v <= u32::MAX { Some(v as u32) } else { None },
            None => None,
        },
{
    let cs = chars_of(s);
    let from: usize = if cs.len() > 0 && cs[0] == '+' { 1 } else { 0 };
    proof {
        if from == 1 {
            assert(cs@.skip(1) =~= s@.drop_first());
        } else {
            assert(cs@.skip(0) =~= s@);
        }
    }
    match digits_upto(&cs, from, 0xffff_ffff) {
        Some(v) => Some(v as u32),
        None => None,
    }
}

/// `i64::from_str`: an optional sign and decimal digits whose value fits.
pub fn parse_i64(s: &str) -> (r: Option<i64>)
    ensures
        r == match parse_signed_spec(s@) {
            Some(v) => if i64::MIN <= v <= i64::MAX { Some(v as i64) } else { None },
            None => None,
        },
{
    let cs = chars_of(s);
    if cs.len() > 0 && cs[0] == '-' {
        proof {
            assert(cs@.skip(1) =~= s@.drop_first());
        }
        match digits_upto(&cs, 1, 0x8000_0000_0000_0000) {
            Some(v) => {
                if v == 0x8000_0000_0000_0000 {
                    Some(i64::MIN)
                } else {
                    let m = v as i64;
                    Some(-m)
                }
            },
            None => None,
        }
    } else {
        let from: usize = if cs.len() > 0 && cs[0] == '+' { 1 } else { 0 };
        proof {
            if from == 1 {
                assert(cs@.skip(1) =~= s@.drop_first());
            } else {
                assert(cs@.skip(0) =~= s@);
            }
        }
        match digits_upto(&cs, from, 0x7fff_ffff_ffff_ffff) {
            Some(v) => Some(v as i64),
            None => None,
        }
    }
}

/// The decimal text of `n`, with a `-` when negative (`{}` on an `i64`).
pub fn i64_string(n: i64) -> (out: String)
    ensures
        out@ == int_text(n as int),
{
    if n < 0 {
        let magnitude: u64 = ((-(n + 1)) as u64) + 1;
        let digits = decimal_string(magnitude);
        let mut out = String::new();
        push_char(&mut out, '-');
        push_str(&mut out, digits.as_str());
        out
    } else {
        decimal_string(n as u64)
    }
}

/// Reading back what `i64_string` wrote gives the same number.
pub proof fn lemma_i64_text_roundtrip(n: i64)
    ensures
        parse_signed_spec(int_text(n as int)) == Some(n as int),
{
    if n < 0 {
        let m = (-(n as int)) as nat;
        lemma_decimal_digits(m);
        let t = int_text(n as int);
        assert(t.drop_first() =~= decimal(m));
    } else {
        lemma_decimal_digits(n as nat);
        let t = decimal(n as nat);
        assert(t[0] != '+' && t[0] != '-') by {
            assert(is_digit(t[0]));
        }
    }
}

/// Reading back the decimal text of a `u32` gives the same number.
pub proof fn lemma_u32_text_roundtrip(n: u32)
    ensures
        parse_unsigned_spec(decimal(n as nat)) == Some(n as nat),
{
    lemma_decimal_digits(n as nat);
    let t = decimal(n as nat);
    assert(t[0] != '+') by {
        assert(is_digit(t[0]));
    }
}

} // verus!
