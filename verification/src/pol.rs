use vstd::prelude::*;
use vstd::std_specs::bits::u8_leading_zeros;
use vstd::utf8::encode_utf8;

use crate::object::{sha256, sha256_digest};
use crate::text::{decimal, decimal_string, owned, push_char, push_str};

verus! {

broadcast use vstd::std_specs::bits::axiom_u8_leading_zeros;

/// Number of leading zero bits of a byte string, most significant bit first.
pub open spec fn leading_zero_bits(d: Seq<u8>) -> nat
    decreases d.len(),
{
    if d.len() == 0 {
        0
    } else if d[0] == 0 {
        8 + leading_zero_bits(d.drop_first())
    } else {
        u8_leading_zeros(d[0]) as nat
    }
}

/// The text that is hashed for a puzzle answer: `"{challenge}:{nonce}"`.
pub open spec fn pol_text(challenge: Seq<char>, nonce: u64) -> Seq<char> {
    challenge + seq![':'] + decimal(nonce as nat)
}

/// The digest of a puzzle answer.
pub open spec fn pol_digest(challenge: Seq<char>, nonce: u64) -> Seq<u8> {
    sha256_digest(encode_utf8(pol_text(challenge, nonce)))
}

/// Whether `nonce` solves the puzzle `challenge` at `bits` of difficulty:
/// its digest begins with at least `bits` zero bits.
pub open spec fn pol_solved(challenge: Seq<char>, nonce: u64, bits: u32) -> bool {
    bits <= leading_zero_bits(pol_digest(challenge, nonce))
}

/// Whether `digest` begins with at least `bits` zero bits.
pub fn meets_difficulty(digest: &[u8], bits: u32) -> (r: bool)
    ensures
        r == (bits <= leading_zero_bits(digest@)),
{
    let mut remaining = bits;
    let mut k: usize = 0;
    assert(digest@.skip(0) == digest@);
    while k < digest.len()
        invariant
            k <= digest.len(),
            (bits <= leading_zero_bits(digest@)) == (remaining <= leading_zero_bits(digest@.skip(k as int))),
        decreases digest.len() - k,
    {
        if remaining == 0 {
            return true;
        }
        let byte = digest[k];
        let zeros = byte.leading_zeros();
        let cap = if remaining < 8 { remaining } else { 8 };
        proof {
            let rest = digest@.skip(k as int);
            assert(rest[0] == byte);
            assert(rest.drop_first() == digest@.skip(k + 1));
        }
        if zeros >= cap {
            remaining = if remaining >= 8 { remaining - 8 } else { 0 };
        } else {
            return false;
        }
        k += 1;
    }
    remaining == 0
}

/// The digest of `"{challenge}:{nonce}"`.
pub fn digest_for(challenge: &str, nonce: u64) -> (d: Vec<u8>)
    ensures
        d@ == pol_digest(challenge@, nonce),
{
    let mut text = owned(challenge);
    push_char(&mut text, ':');
    let digits = decimal_string(nonce);
    push_str(&mut text, digits.as_str());
    assert(text@ =~= pol_text(challenge@, nonce));
    sha256(text.as_str().as_bytes())
}

/// Whether `nonce` solves the puzzle `challenge` at `bits` of difficulty.
pub fn verify(challenge: &str, nonce: u64, bits: u32) -> (r: bool)
    ensures
        r == pol_solved(challenge@, nonce, bits),
{
    meets_difficulty(digest_for(challenge, nonce).as_slice(), bits)
}

/// The first solving nonce at or after `from`, if any.
fn search(challenge: &str, bits: u32, from: u64) -> (r: Option<u64>)
    ensures
        match r {
            Some(n) => from <= n && pol_solved(challenge@, n, bits)
                && forall|m: u64| from <= m < n ==> !pol_solved(challenge@, m, bits),
            None => forall|m: u64| from <= m ==> !pol_solved(challenge@, m, bits),
        },
{
    let mut nonce = from;
    loop
        invariant
            from <= nonce,
            forall|m: u64| from <= m < nonce ==> !pol_solved(challenge@, m, bits),
        decreases u64::MAX - nonce,
    {
        if verify(challenge, nonce, bits) {
            return Some(nonce);
        }
        if nonce == u64::MAX {
            return None;
        }
        nonce += 1;
    }
}

/// The smallest nonce that solves the puzzle. A solution must exist among the
/// `u64` nonces: the search counts up from zero and stops at the first.
pub fn solve(challenge: &str, bits: u32) -> (n: u64)
    requires
        exists|m: u64| pol_solved(challenge@, m, bits),
    ensures
        pol_solved(challenge@, n, bits),
        forall|m: u64| m < n ==> !pol_solved(challenge@, m, bits),
{
    match search(challenge, bits, 0) {
        Some(n) => n,
        None => {
            proof {
                let m = choose|m: u64| pol_solved(challenge@, m, bits);
                assert(0 <= m);
            }
            0
        },
    }
}

/// The smallest nonce that solves the puzzle, or `None` when no `u64` nonce does.
pub fn try_solve(challenge: &str, bits: u32) -> (r: Option<u64>)
    ensures
        match r {
            Some(n) => pol_solved(challenge@, n, bits)
                && forall|m: u64| m < n ==> !pol_solved(challenge@, m, bits),
            None => forall|m: u64| !pol_solved(challenge@, m, bits),
        },
{
    match search(challenge, bits, 0) {
        Some(_) => Some(solve(challenge, bits)),
        None => None,
    }
}

} // verus!
