//! The dual-layer secret codec.
//!
//! A secret is asymmetric-encrypted to the vault's identity first and the
//! result symmetric-encrypted under the answer-derived passphrase, so that
//! recovering the plaintext needs both the private key and the answer, and a
//! brute-forced passphrase alone yields only the asymmetric ciphertext.

use vstd::prelude::*;
use crate::errors::VaultError;
use crate::hashing::{passphrase, passphrase_spec};
use crate::service::EncryptionService;

verus! {

/// The dual-layer ciphertext for an identity, plaintext and answer.
pub open spec fn dual_encrypt_spec<E: EncryptionService>(
    e: E,
    identity: Seq<u8>,
    plain: Seq<u8>,
    answer: Seq<u8>,
) -> Seq<u8> {
    e.sym_spec(passphrase_spec(answer), e.asym_spec(identity, plain))
}

/// The plaintext a ciphertext stands for under an answer: defined exactly
/// when the ciphertext is a genuine dual-layer ciphertext made under that
/// answer's passphrase.
pub open spec fn dual_open<E: EncryptionService>(e: E, cipher: Seq<u8>, answer: Seq<u8>) -> Option<
    Seq<u8>,
> {
    if exists|identity: Seq<u8>, plain: Seq<u8>|
        cipher == #[trigger] dual_encrypt_spec(e, identity, plain, answer) {
        let (identity, plain) = choose|identity: Seq<u8>, plain: Seq<u8>|
            cipher == #[trigger] dual_encrypt_spec(e, identity, plain, answer);
        Some(plain)
    } else {
        None
    }
}

/// Law: the dual envelope round-trips — opening a dual-layer ciphertext
/// with the very answer it was made under yields exactly the original
/// plaintext, for every identity, plaintext and answer.
pub proof fn lemma_dual_roundtrip<E: EncryptionService>(
    e: E,
    identity: Seq<u8>,
    plain: Seq<u8>,
    answer: Seq<u8>,
)
    requires
        e.obeys(),
    ensures
        dual_open(e, dual_encrypt_spec(e, identity, plain, answer), answer) == Some(plain),
{
    let c = dual_encrypt_spec(e, identity, plain, answer);
    assert(exists|i2: Seq<u8>, p2: Seq<u8>| c == #[trigger] dual_encrypt_spec(e, i2, p2, answer));
    let (i2, p2) = choose|i2: Seq<u8>, p2: Seq<u8>|
        c == #[trigger] dual_encrypt_spec(e, i2, p2, answer);
    e.sym_injective(
        passphrase_spec(answer),
        e.asym_spec(identity, plain),
        passphrase_spec(answer),
        e.asym_spec(i2, p2),
    );
    e.asym_injective(identity, plain, i2, p2);
}

/// Encrypts one secret through both envelopes: asymmetric to the recipient,
/// then symmetric under the answer's passphrase.
pub fn encrypt_secret<E: EncryptionService>(
    svc: &E,
    recipient: &[u8],
    plain: &[u8],
    answer: &[u8],
) -> (r: Result<Vec<u8>, VaultError>)
    ensures
        r matches Ok(c) ==> c@ == dual_encrypt_spec(*svc, recipient@, plain@, answer@)
            && svc.known_recipient(recipient@),
{
    let c1 = match svc.encrypt_asymmetric(recipient, plain) {
        Ok(c) => c,
        Err(e) => {
            return Err(e);
        },
    };
    let pass = passphrase(answer);
    match svc.encrypt_symmetric(pass.as_slice(), c1.as_slice()) {
        Ok(c2) => Ok(c2),
        Err(e) => Err(e),
    }
}

/// Decrypts one secret: the symmetric layer under the answer-derived
/// passphrase first, then the asymmetric layer.
///
/// A success returns exactly the plaintext the ciphertext was made from; a
/// ciphertext made under an answer with a different passphrase is always
/// rejected. Either layer's failure is reported as `DecryptionFailed` alone,
/// so the caller cannot tell which factor was wrong.
pub fn decrypt_secret<E: EncryptionService>(svc: &E, cipher: &[u8], answer: &[u8]) -> (r: Result<
    Vec<u8>,
    VaultError,
>)
    requires
        svc.obeys(),
    ensures
        r matches Ok(p) ==> dual_open(*svc, cipher@, answer@) == Some(p@),
        r matches Err(er) ==> er == VaultError::DecryptionFailed,
        forall|identity: Seq<u8>, plain: Seq<u8>, other: Seq<u8>|
            cipher@ == #[trigger] dual_encrypt_spec(*svc, identity, plain, other)
                && passphrase_spec(other) != passphrase_spec(answer@) ==> r is Err,
{
    let pass = passphrase(answer);
    let c1 = match svc.decrypt_symmetric(pass.as_slice(), cipher) {
        Ok(c) => c,
        Err(_) => {
            return Err(VaultError::DecryptionFailed);
        },
    };
    let p = match svc.decrypt_asymmetric(c1.as_slice()) {
        Ok(p) => p,
        Err(_) => {
            return Err(VaultError::DecryptionFailed);
        },
    };
    proof {
        let rec = svc.recipient_of(c1@);
        assert(c1@ == svc.asym_spec(rec, p@));
        assert(cipher@ == dual_encrypt_spec(*svc, rec, p@, answer@));
        lemma_dual_roundtrip(*svc, rec, p@, answer@);
        assert forall|identity: Seq<u8>, plain: Seq<u8>, other: Seq<u8>|
            cipher@ == #[trigger] dual_encrypt_spec(*svc, identity, plain, other) implies
            passphrase_spec(other) == passphrase_spec(answer@) by {
            svc.sym_injective(
                passphrase_spec(other),
                svc.asym_spec(identity, plain),
                passphrase_spec(answer@),
                c1@,
            );
        }
    }
    Ok(p)
}

} // verus!
