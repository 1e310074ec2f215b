//! The collaborators the vault engine consumes: an encryption service, a
//! blob store and a version-control service.
//!
//! The engine is written against these capabilities so that an
//! implementation may shell out to external tools, bind a library, or
//! compute in memory; the in-memory reference implementations live in
//! `memory` and are themselves verified against these contracts.

use vstd::prelude::*;
use crate::errors::VaultError;

verus! {

/// The name of one stored blob in a vault directory.
#[derive(Clone, Copy, PartialEq, Eq, Structural, Debug)]
pub enum BlobId {
    /// The identity blob.
    Email,
    /// The recovery-question blob.
    Question,
    /// The stored verifier blob.
    Answer,
    /// The index blob.
    IndexBlob,
    /// The payload blob of the secret with this id.
    Secret(u32),
}

/// The asymmetric/symmetric cipher capability.
///
/// The two `*_spec` functions model the ciphertexts as pure functions of
/// their inputs; `obeys` says the model's injectivity facts hold, which is
/// what the round-trip and wrong-answer arguments rest on. No method
/// promises success: the service decides that (a keyring lookup, a missing
/// tool); the contracts say what a returned value is.
pub trait EncryptionService: Sized {
    /// Whether the injectivity facts below are available for this
    /// implementation.
    spec fn obeys(&self) -> bool;

    /// The recipients the keyring can encrypt to.
    spec fn known_recipient(&self, recipient: Seq<u8>) -> bool;

    /// The asymmetric ciphertext for a recipient and plaintext.
    spec fn asym_spec(&self, recipient: Seq<u8>, plain: Seq<u8>) -> Seq<u8>;

    /// The symmetric ciphertext for a passphrase and plaintext.
    spec fn sym_spec(&self, pass: Seq<u8>, plain: Seq<u8>) -> Seq<u8>;

    /// The recipient a genuine asymmetric ciphertext was made for.
    spec fn recipient_of(&self, cipher: Seq<u8>) -> Seq<u8>;

    /// The plaintext a genuine asymmetric ciphertext was made from; by
    /// injectivity there is at most one.
    spec fn plain_of(&self, cipher: Seq<u8>) -> Seq<u8>;

    /// Equal asymmetric ciphertexts come from one recipient and one
    /// plaintext.
    proof fn asym_injective(&self, r1: Seq<u8>, p1: Seq<u8>, r2: Seq<u8>, p2: Seq<u8>)
        requires
            self.obeys(),
            self.asym_spec(r1, p1) == self.asym_spec(r2, p2),
        ensures
            r1 == r2,
            p1 == p2,
    ;

    /// Equal symmetric ciphertexts come from one passphrase and one
    /// plaintext.
    proof fn sym_injective(&self, k1: Seq<u8>, d1: Seq<u8>, k2: Seq<u8>, d2: Seq<u8>)
        requires
            self.obeys(),
            self.sym_spec(k1, d1) == self.sym_spec(k2, d2),
        ensures
            k1 == k2,
            d1 == d2,
    ;

    /// `recipient_of` and `plain_of` invert `asym_spec`: a genuine
    /// asymmetric ciphertext names its recipient and plaintext.
    proof fn asym_opens(&self, recipient: Seq<u8>, plain: Seq<u8>)
        requires
            self.obeys(),
        ensures
            self.recipient_of(self.asym_spec(recipient, plain)) == recipient,
            self.plain_of(self.asym_spec(recipient, plain)) == plain,
    ;

    /// Whether the recipient is usable; `Ok(true)` exactly for known ones.
    fn check_recipient(&self, recipient: &[u8]) -> (r: Result<bool, VaultError>)
        ensures
            r matches Ok(b) ==> b == self.known_recipient(recipient@),
    ;

    /// Asymmetric encryption to one recipient; a ciphertext comes back only
    /// for a known recipient and is the modeled one.
    fn encrypt_asymmetric(&self, recipient: &[u8], plain: &[u8]) -> (r: Result<Vec<u8>, VaultError>)
        ensures
            r matches Ok(c) ==> c@ == self.asym_spec(recipient@, plain@)
                && self.known_recipient(recipient@),
    ;

    /// Symmetric encryption under a passphrase.
    fn encrypt_symmetric(&self, pass: &[u8], plain: &[u8]) -> (r: Result<Vec<u8>, VaultError>)
        ensures
            r matches Ok(c) ==> c@ == self.sym_spec(pass@, plain@),
    ;

    /// Asymmetric decryption with the held private keys; a returned value
    /// is the plaintext that encrypts to the ciphertext for the ciphertext's
    /// recipient.
    fn decrypt_asymmetric(&self, cipher: &[u8]) -> (r: Result<Vec<u8>, VaultError>)
        ensures
            r matches Ok(p) ==> p@ == self.plain_of(cipher@) && cipher@ == self.asym_spec(
                self.recipient_of(cipher@),
                p@,
            ),
    ;

    /// Symmetric decryption; a value comes back only when the ciphertext
    /// was made under this very passphrase, and is that plaintext.
    fn decrypt_symmetric(&self, pass: &[u8], cipher: &[u8]) -> (r: Result<Vec<u8>, VaultError>)
        ensures
            r matches Ok(p) ==> cipher@ == self.sym_spec(pass@, p@),
    ;
}

/// The two blob maps agree at a name: present in both with equal content,
/// or absent from both.
pub open spec fn agrees_at(a: Map<BlobId, Seq<u8>>, b: Map<BlobId, Seq<u8>>, k: BlobId) -> bool {
    &&& a.contains_key(k) == b.contains_key(k)
    &&& a.contains_key(k) ==> a[k] == b[k]
}

/// The step from `a` to `b` disturbed at most the one named blob.
pub open spec fn disturbs_at_most(
    a: Map<BlobId, Seq<u8>>,
    b: Map<BlobId, Seq<u8>>,
    k: BlobId,
) -> bool {
    forall|k2: BlobId| k2 != k ==> agrees_at(a, b, k2)
}

/// The step from `a` to `b` disturbed at most the two named blobs.
pub open spec fn disturbs_at_most_two(
    a: Map<BlobId, Seq<u8>>,
    b: Map<BlobId, Seq<u8>>,
    k: BlobId,
    k2: BlobId,
) -> bool {
    forall|k3: BlobId| k3 != k && k3 != k2 ==> agrees_at(a, b, k3)
}

/// The store of encrypted blobs, one per name.
pub trait BlobStore: Sized {
    /// The stored blobs: names to contents.
    spec fn contents(&self) -> Map<BlobId, Seq<u8>>;

    /// Reads a blob; `Ok(None)` exactly when the name is absent.
    fn get(&self, id: BlobId) -> (r: Result<Option<Vec<u8>>, VaultError>)
        ensures
            r matches Ok(ob) ==> (ob matches Some(b) ==> self.contents().contains_key(id) && b@
                == self.contents()[id]),
            r matches Ok(ob) ==> (ob is None ==> !self.contents().contains_key(id)),
    ;

    /// Writes a blob, replacing any previous content under the name; a
    /// failed write may leave its own blob in any state but touches no
    /// other.
    fn put(&mut self, id: BlobId, data: &[u8]) -> (r: Result<(), VaultError>)
        ensures
            r is Ok ==> final(self).contents() == old(self).contents().insert(id, data@),
            r is Err ==> disturbs_at_most(old(self).contents(), final(self).contents(), id),
    ;

    /// Removes a blob; removing an absent name succeeds and changes
    /// nothing (the tolerant delete). A failed removal touches no other
    /// blob.
    fn remove(&mut self, id: BlobId) -> (r: Result<(), VaultError>)
        ensures
            r is Ok ==> final(self).contents() == old(self).contents().remove(id),
            r is Err ==> disturbs_at_most(old(self).contents(), final(self).contents(), id),
    ;
}

/// The version-control collaborator the engine hands each mutation to.
/// Nothing is promised of the repository itself.
pub trait VersionControl: Sized {
    /// Stages every change and commits it under the given message.
    fn commit_all(&mut self, message: &[u8]) -> Result<(), VaultError>;

    /// Publishes the committed state.
    fn push(&mut self) -> Result<(), VaultError>;
}

} // verus!
