//! The answer hasher: derives two distinct secrets from a recovery answer.
//!
//! `passphrase` is the lowercase hex encoding of the Keccak-256 digest of the
//! answer bytes; it keys the symmetric layer of every secret. `verifier` is
//! the hex encoding of the digest of that raw digest (a hash-of-hash); it is
//! stored for equality checks only and never used as a cipher key.

use vstd::prelude::*;
use tiny_keccak::Hasher;

verus! {

/// The Keccak-256 digest of a byte sequence; a pure function of the input
/// bytes alone.
pub uninterp spec fn keccak256_of(input: Seq<u8>) -> Seq<u8>;

/// The lowercase ASCII hex digit for a value below sixteen.
pub open spec fn hex_digit(n: u8) -> u8 {
    if n < 10 {
        (n + 48) as u8
    } else {
        (n + 87) as u8
    }
}

/// Lowercase hex encoding: two ASCII digits for each input byte, high nibble
/// first.
pub open spec fn hex_of(b: Seq<u8>) -> Seq<u8>
    decreases b.len(),
{
    if b.len() == 0 {
        Seq::empty()
    } else {
        seq![hex_digit(b[0] / 16), hex_digit(b[0] % 16)] + hex_of(b.drop_first())
    }
}

/// What `passphrase` returns: the hex of the answer's digest.
pub open spec fn passphrase_spec(answer: Seq<u8>) -> Seq<u8> {
    hex_of(keccak256_of(answer))
}

/// What `verifier` returns: the hex of the digest of the answer's raw digest.
pub open spec fn verifier_spec(answer: Seq<u8>) -> Seq<u8> {
    hex_of(keccak256_of(keccak256_of(answer)))
}

/// Relies on tiny_keccak::Keccak::v256 with Hasher::update and
/// Hasher::finalize: the 32-byte Keccak-256 digest of the input bytes, a
/// function of those bytes alone.
#[verifier::external_body]
fn keccak256(input: &[u8]) -> (r: Vec<u8>)
    ensures
        r@ == keccak256_of(input@),
        r@.len() == 32,
{
    let mut hasher = tiny_keccak::Keccak::v256();
    hasher.update(input);
    let mut digest = [0u8; 32];
    hasher.finalize(&mut digest);
    digest.to_vec()
}

/// Relies on hex::encode: lowercase hex, two digits for each byte with the
/// high nibble first, which is exactly `hex_of`.
#[verifier::external_body]
fn hex_lower(b: &[u8]) -> (r: Vec<u8>)
    ensures
        r@ == hex_of(b@),
{
    hex::encode(b).into_bytes()
}

/// The symmetric-layer passphrase derived from a recovery answer.
pub fn passphrase(answer: &[u8]) -> (r: Vec<u8>)
    ensures
        r@ == passphrase_spec(answer@),
        r@.len() == 64,
{
    let digest = keccak256(answer);
    let r = hex_lower(digest.as_slice());
    proof {
        lemma_hex_len(digest@);
    }
    r
}

/// The stored verification value derived from a recovery answer: the hex of
/// the hash of the raw passphrase digest.
pub fn answer_verifier(answer: &[u8]) -> (r: Vec<u8>)
    ensures
        r@ == verifier_spec(answer@),
        r@.len() == 64,
{
    let digest = keccak256(answer);
    let digest2 = keccak256(digest.as_slice());
    let r = hex_lower(digest2.as_slice());
    proof {
        lemma_hex_len(digest2@);
    }
    r
}

/// Hex encoding doubles the length.
pub proof fn lemma_hex_len(b: Seq<u8>)
    ensures
        hex_of(b).len() == 2 * b.len(),
    decreases b.len(),
{
    if b.len() > 0 {
        lemma_hex_len(b.drop_first());
    }
}

/// Hex encoding is injective: distinct byte sequences have distinct
/// encodings.
pub proof fn lemma_hex_injective(a: Seq<u8>, b: Seq<u8>)
    requires
        hex_of(a) == hex_of(b),
    ensures
        a == b,
    decreases a.len(),
{
    lemma_hex_len(a);
    lemma_hex_len(b);
    if a.len() == 0 {
        assert(a =~= b);
    } else {
        let ha = hex_of(a);
        let hb = hex_of(b);
        assert(ha[0] == hex_digit(a[0] / 16) && ha[1] == hex_digit(a[0] % 16));
        assert(hb[0] == hex_digit(b[0] / 16) && hb[1] == hex_digit(b[0] % 16));
        assert(a[0] / 16 == b[0] / 16 && a[0] % 16 == b[0] % 16);
        assert(a[0] == b[0]) by {
            assert(a[0] == 16 * (a[0] / 16) + a[0] % 16) by (nonlinear_arith);
            assert(b[0] == 16 * (b[0] / 16) + b[0] % 16) by (nonlinear_arith);
        }
        let ta = hex_of(a.drop_first());
        let tb = hex_of(b.drop_first());
        assert forall|i: int| 0 <= i < ta.len() implies ta[i] == tb[i] by {
            assert(ta[i] == ha[i + 2]);
            assert(tb[i] == hb[i + 2]);
        }
        assert(ta =~= tb);
        lemma_hex_injective(a.drop_first(), b.drop_first());
        assert forall|i: int| 0 <= i < a.len() implies a[i] == b[i] by {
            if i > 0 {
                assert(a[i] == a.drop_first()[i - 1]);
                assert(b[i] == b.drop_first()[i - 1]);
            }
        }
        assert(a =~= b);
    }
}

/// Law: the verifier of an answer is the hex encoding of the hash of the raw
/// passphrase digest, and it differs from the passphrase itself whenever
/// hashing the digest a second time changes it (the expected behaviour of a
/// cryptographic hash).
pub proof fn lemma_passphrase_verifier_distinct(answer: Seq<u8>)
    ensures
        verifier_spec(answer) == hex_of(keccak256_of(keccak256_of(answer))),
        keccak256_of(keccak256_of(answer)) != keccak256_of(answer) ==> verifier_spec(answer)
            != passphrase_spec(answer),
{
    if keccak256_of(keccak256_of(answer)) != keccak256_of(answer) && verifier_spec(answer)
        == passphrase_spec(answer) {
        lemma_hex_injective(keccak256_of(keccak256_of(answer)), keccak256_of(answer));
    }
}

} // verus!
