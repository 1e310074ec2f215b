//! The vault engine: bootstrap, add, list, decrypt and delete, orchestrated
//! over an encryption service, a blob store and a version-control
//! collaborator.
//!
//! On `add` the secret blob is written before the index blob, so an
//! interruption between the two leaves an orphaned file rather than a
//! dangling index reference. Every mutation is handed to the
//! version-control collaborator as one commit after the files are written;
//! a failed commit therefore leaves correct but unversioned files, reported
//! by the commit error surfacing after the store was already updated.

use vstd::prelude::*;
use crate::codec::{decrypt_secret, dual_encrypt_spec, dual_open, encrypt_secret};
use crate::errors::VaultError;
use crate::hashing::{answer_verifier, passphrase_spec, verifier_spec};
use crate::index::{
    append_spec, digit, digits3, index_text, load_index, load_models, next_id_spec, remove_spec,
    search_spec, valid_field, valid_format, wf_models, EntryModel, Index, IndexEntry,
};
use crate::service::{
    agrees_at, disturbs_at_most_two, BlobId, BlobStore, EncryptionService, VersionControl,
};
use crate::util::bytes_eq;

verus! {

/// The identity a store's identity blob decrypts to.
pub open spec fn stored_identity<E: EncryptionService>(e: E, st: Map<BlobId, Seq<u8>>) -> Seq<
    u8,
> {
    e.plain_of(st[BlobId::Email])
}

/// The index entries the store holds: the decrypted, parsed index blob, or
/// the empty sequence when no index blob exists yet (the bootstrap state).
pub open spec fn stored_index<E: EncryptionService>(e: E, st: Map<BlobId, Seq<u8>>) -> Option<
    Seq<EntryModel>,
> {
    if st.contains_key(BlobId::IndexBlob) {
        load_models(e.plain_of(st[BlobId::IndexBlob]))
    } else {
        Some(Seq::empty())
    }
}

/// The vault engine over its three collaborators.
pub struct Vault<E: EncryptionService, S: BlobStore, V: VersionControl> {
    pub cipher: E,
    pub store: S,
    pub vcs: V,
}

/// The unpadded decimal digits of a three-digit-or-smaller value.
pub open spec fn decimal_min_digits(n: u32) -> Seq<u8> {
    if n >= 100 {
        seq![digit(n / 100), digit(n / 10), digit(n)]
    } else if n >= 10 {
        seq![digit(n / 10), digit(n)]
    } else {
        seq![digit(n)]
    }
}

/// The commit message of a mutation: `add: ` with the plain decimal id, or
/// `remove: ` with the three-digit file name, each followed by `.gpg`.
pub open spec fn commit_message_spec(adding: bool, id: u32) -> Seq<u8> {
    if adding {
        seq![97u8, 100u8, 100u8, 58u8, 32u8] + decimal_min_digits(id) + seq![
            46u8,
            103u8,
            112u8,
            103u8,
        ]
    } else {
        seq![114u8, 101u8, 109u8, 111u8, 118u8, 101u8, 58u8, 32u8] + digits3(id) + seq![
            46u8,
            103u8,
            112u8,
            103u8,
        ]
    }
}

/// The commit-message bytes: `add: 7.gpg` with the plain number for an
/// addition, `remove: 007.gpg` with the three-digit file name for a removal.
fn commit_message(adding: bool, id: u32) -> (r: Vec<u8>)
    ensures
        r@ == commit_message_spec(adding, id),
{
    let mut out: Vec<u8> = Vec::new();
    if adding {
        out.push('a' as u8);
        out.push('d' as u8);
        out.push('d' as u8);
    } else {
        out.push('r' as u8);
        out.push('e' as u8);
        out.push('m' as u8);
        out.push('o' as u8);
        out.push('v' as u8);
        out.push('e' as u8);
    }
    out.push(':' as u8);
    out.push(' ' as u8);
    if !adding || id >= 100 {
        out.push((48 + (id / 100) % 10) as u8);
    }
    if !adding || id >= 10 {
        out.push((48 + (id / 10) % 10) as u8);
    }
    out.push((48 + id % 10) as u8);
    out.push('.' as u8);
    out.push('g' as u8);
    out.push('p' as u8);
    out.push('g' as u8);
    proof {
        assert(out@ =~= commit_message_spec(adding, id));
    }
    out
}

impl<E: EncryptionService, S: BlobStore, V: VersionControl> Vault<E, S, V> {
    /// A vault over the given collaborators.
    pub fn new(cipher: E, store: S, vcs: V) -> (r: Vault<E, S, V>)
        ensures
            r.cipher == cipher,
            r.store == store,
            r.vcs == vcs,
    {
        Vault { cipher, store, vcs }
    }

    /// Reads and decrypts the stored identity; `NotFound` when the vault
    /// was never bootstrapped.
    pub fn get_gpg_email(&self) -> (r: Result<Vec<u8>, VaultError>)
        ensures
            !self.store.contents().contains_key(BlobId::Email) ==> r is Err,
            r matches Ok(ident) ==> self.store.contents().contains_key(BlobId::Email) && ident@
                == stored_identity(self.cipher, self.store.contents()),
    {
        let blob = match self.store.get(BlobId::Email) {
            Ok(b) => b,
            Err(e) => {
                return Err(e);
            },
        };
        match blob {
            None => Err(VaultError::NotFound),
            Some(c) => match self.cipher.decrypt_asymmetric(c.as_slice()) {
                Ok(p) => Ok(p),
                Err(e) => Err(e),
            },
        }
    }

    /// Reads and decrypts the stored recovery question; `NotFound` when the
    /// vault was never bootstrapped.
    pub fn get_security_question(&self) -> (r: Result<Vec<u8>, VaultError>)
        ensures
            !self.store.contents().contains_key(BlobId::Question) ==> r is Err,
            r matches Ok(q) ==> self.store.contents().contains_key(BlobId::Question) && q@
                == self.cipher.plain_of(self.store.contents()[BlobId::Question]),
    {
        let blob = match self.store.get(BlobId::Question) {
            Ok(b) => b,
            Err(e) => {
                return Err(e);
            },
        };
        match blob {
            None => Err(VaultError::NotFound),
            Some(c) => match self.cipher.decrypt_asymmetric(c.as_slice()) {
                Ok(p) => Ok(p),
                Err(e) => Err(e),
            },
        }
    }

    /// Bootstraps the vault: verifies the identity is a usable recipient
    /// (`UnknownIdentity` otherwise), then stores the identity, the
    /// question, and the answer's verifier, each asymmetrically encrypted
    /// to the identity. Re-running overwrites silently.
    pub fn add_email_and_question(&mut self, email: &[u8], question: &[u8], answer: &[u8]) -> (r:
        Result<(), VaultError>)
        ensures
            final(self).cipher == old(self).cipher,
            final(self).vcs == old(self).vcs,
            !old(self).cipher.known_recipient(email@) ==> r is Err && final(self).store.contents()
                == old(self).store.contents(),
            r is Err ==> forall|k: BlobId|
                !(k == BlobId::Email || k == BlobId::Question || k == BlobId::Answer)
                    ==> agrees_at(old(self).store.contents(), final(self).store.contents(), k),
            r matches Ok(u) ==> old(self).cipher.known_recipient(email@)
                && final(self).store.contents() == old(self).store.contents().insert(
                BlobId::Email,
                old(self).cipher.asym_spec(email@, email@),
            ).insert(BlobId::Question, old(self).cipher.asym_spec(email@, question@)).insert(
                BlobId::Answer,
                old(self).cipher.asym_spec(email@, verifier_spec(answer@)),
            ),
    {
        match self.cipher.check_recipient(email) {
            Ok(true) => {},
            Ok(false) => {
                return Err(VaultError::UnknownIdentity);
            },
            Err(e) => {
                return Err(e);
            },
        }
        let c_email = match self.cipher.encrypt_asymmetric(email, email) {
            Ok(c) => c,
            Err(e) => {
                return Err(e);
            },
        };
        match self.store.put(BlobId::Email, c_email.as_slice()) {
            Ok(u) => {},
            Err(e) => {
                return Err(e);
            },
        }
        let ghost st1 = self.store.contents();
        let c_question = match self.cipher.encrypt_asymmetric(email, question) {
            Ok(c) => c,
            Err(e) => {
                return Err(e);
            },
        };
        match self.store.put(BlobId::Question, c_question.as_slice()) {
            Ok(u) => {},
            Err(e) => {
                proof {
                    let st0 = old(self).store.contents();
                    let stf = self.store.contents();
                    assert forall|k: BlobId|
                        !(k == BlobId::Email || k == BlobId::Question || k == BlobId::Answer)
                            implies agrees_at(st0, stf, k) by {
                        assert(agrees_at(st0, st1, k));
                        assert(agrees_at(st1, stf, k));
                    }
                }
                return Err(e);
            },
        }
        let ghost st2 = self.store.contents();
        let v = answer_verifier(answer);
        let c_answer = match self.cipher.encrypt_asymmetric(email, v.as_slice()) {
            Ok(c) => c,
            Err(e) => {
                proof {
                    let st0 = old(self).store.contents();
                    assert forall|k: BlobId|
                        !(k == BlobId::Email || k == BlobId::Question || k == BlobId::Answer)
                            implies agrees_at(st0, st2, k) by {
                        assert(agrees_at(st0, st1, k));
                        assert(agrees_at(st1, st2, k));
                    }
                }
                return Err(e);
            },
        };
        match self.store.put(BlobId::Answer, c_answer.as_slice()) {
            Ok(u) => {},
            Err(e) => {
                proof {
                    let st0 = old(self).store.contents();
                    let stf = self.store.contents();
                    assert forall|k: BlobId|
                        !(k == BlobId::Email || k == BlobId::Question || k == BlobId::Answer)
                            implies agrees_at(st0, stf, k) by {
                        assert(agrees_at(st0, st1, k));
                        assert(agrees_at(st1, st2, k));
                        assert(agrees_at(st2, stf, k));
                    }
                }
                return Err(e);
            },
        }
        Ok(())
    }

    /// Decrypts the stored verifier and compares it with the verifier of
    /// the offered answer: `Ok(true)` exactly when they agree, so exactly
    /// for the bootstrap answer's verifier (comparison is byte-exact, hence
    /// case-sensitive).
    pub fn verify_security_question(&self, answer: &[u8]) -> (r: Result<bool, VaultError>)
        requires
            self.cipher.obeys(),
        ensures
            !self.store.contents().contains_key(BlobId::Answer) ==> r is Err,
            r matches Ok(b) ==> self.store.contents().contains_key(BlobId::Answer) && (b
                <==> self.store.contents()[BlobId::Answer] == self.cipher.asym_spec(
                self.cipher.recipient_of(self.store.contents()[BlobId::Answer]),
                verifier_spec(answer@),
            )),
    {
        let blob = match self.store.get(BlobId::Answer) {
            Ok(b) => b,
            Err(e) => {
                return Err(e);
            },
        };
        let c = match blob {
            None => {
                return Err(VaultError::NotFound);
            },
            Some(c) => c,
        };
        let stored = match self.cipher.decrypt_asymmetric(c.as_slice()) {
            Ok(p) => p,
            Err(e) => {
                return Err(e);
            },
        };
        let v = answer_verifier(answer);
        let b = bytes_eq(stored.as_slice(), v.as_slice());
        proof {
            if !b && c@ == self.cipher.asym_spec(
                self.cipher.recipient_of(c@),
                verifier_spec(answer@),
            ) {
                self.cipher.asym_injective(
                    self.cipher.recipient_of(c@),
                    stored@,
                    self.cipher.recipient_of(c@),
                    verifier_spec(answer@),
                );
            }
        }
        Ok(b)
    }

    /// Loads the index from the store: the empty index when no index blob
    /// exists yet, otherwise the decrypted and parsed blob.
    fn load_stored_index(&self) -> (r: Result<Index, VaultError>)
        ensures
            r matches Ok(idx) ==> stored_index(self.cipher, self.store.contents()) == Some(
                idx.models(),
            ) && idx.wf(),
    {
        let blob = match self.store.get(BlobId::IndexBlob) {
            Ok(b) => b,
            Err(e) => {
                return Err(e);
            },
        };
        match blob {
            None => Ok(Index::new()),
            Some(c) => {
                let text = match self.cipher.decrypt_asymmetric(c.as_slice()) {
                    Ok(p) => p,
                    Err(e) => {
                        return Err(e);
                    },
                };
                load_index(text.as_slice())
            },
        }
    }

    /// Adds a secret: appends an index entry under the next id, writes the
    /// dual-layer-encrypted secret blob first and the re-encrypted index
    /// blob second, then commits (and pushes when asked). Returns the new
    /// entry's id.
    pub fn add_secrets(
        &mut self,
        app: &[u8],
        desc: &[u8],
        format: &[u8],
        secrets: &[u8],
        answer: &[u8],
        push_to_cloud: bool,
    ) -> (r: Result<u32, VaultError>)
        requires
            valid_field(app@),
            valid_field(desc@),
            valid_format(format@),
        ensures
            final(self).cipher == old(self).cipher,
            r matches Ok(id) ==> ({
                let e = old(self).cipher;
                let st0 = old(self).store.contents();
                let ident = stored_identity(e, st0);
                &&& st0.contains_key(BlobId::Email)
                &&& stored_index(e, st0) matches Some(pre) && id as int == next_id_spec(pre)
                    && next_id_spec(pre) <= 999 && final(self).store.contents() == st0.insert(
                    BlobId::Secret(id),
                    dual_encrypt_spec(e, ident, secrets@, answer@),
                ).insert(
                    BlobId::IndexBlob,
                    e.asym_spec(ident, index_text(append_spec(pre, app@, desc@, format@))),
                )
            }),
            r is Err ==> ({
                let e = old(self).cipher;
                let st0 = old(self).store.contents();
                let stf = final(self).store.contents();
                &&& stored_index(e, st0) matches Some(pre) ==> disturbs_at_most_two(
                    st0,
                    stf,
                    BlobId::Secret(next_id_spec(pre) as u32),
                    BlobId::IndexBlob,
                )
                &&& !(stored_index(e, st0) is Some) ==> stf == st0
            }),
            r is Err ==> ({
                let e = old(self).cipher;
                let st0 = old(self).store.contents();
                let stf = final(self).store.contents();
                stored_index(e, st0) matches Some(pre) ==> (!agrees_at(st0, stf, BlobId::IndexBlob)
                    ==> stf.contains_key(BlobId::Secret(next_id_spec(pre) as u32))
                    && stf[BlobId::Secret(next_id_spec(pre) as u32)] == dual_encrypt_spec(
                    e,
                    stored_identity(e, st0),
                    secrets@,
                    answer@,
                ))
            }),
    {
        let ghost e0 = self.cipher;
        let ghost st0 = self.store.contents();
        let email = match self.get_gpg_email() {
            Ok(v) => v,
            Err(e) => {
                return Err(e);
            },
        };
        let mut idx = match self.load_stored_index() {
            Ok(i) => i,
            Err(e) => {
                return Err(e);
            },
        };
        let ghost pre0 = idx.models();
        let id = match idx.append(app, desc, format) {
            Ok(id) => id,
            Err(e) => {
                return Err(e);
            },
        };
        let secret_blob = match encrypt_secret(&self.cipher, email.as_slice(), secrets, answer) {
            Ok(c) => c,
            Err(e) => {
                return Err(e);
            },
        };
        let ghost skey = BlobId::Secret(id);
        match self.store.put(BlobId::Secret(id), secret_blob.as_slice()) {
            Ok(u) => {},
            Err(e) => {
                proof {
                    let stf = self.store.contents();
                    assert(agrees_at(st0, stf, BlobId::IndexBlob));
                    assert forall|k3: BlobId| k3 != skey && k3 != BlobId::IndexBlob implies
                        agrees_at(st0, stf, k3) by {}
                    assert(next_id_spec(pre0) as u32 == id);
                }
                return Err(e);
            },
        }
        let ghost st1 = self.store.contents();
        let text = idx.serialize();
        let index_blob = match self.cipher.encrypt_asymmetric(email.as_slice(), text.as_slice()) {
            Ok(c) => c,
            Err(e) => {
                proof {
                    let stf = self.store.contents();
                    assert(agrees_at(st0, stf, BlobId::IndexBlob));
                    assert forall|k3: BlobId| k3 != skey && k3 != BlobId::IndexBlob implies
                        agrees_at(st0, stf, k3) by {}
                    assert(next_id_spec(pre0) as u32 == id);
                }
                return Err(e);
            },
        };
        match self.store.put(BlobId::IndexBlob, index_blob.as_slice()) {
            Ok(u) => {},
            Err(e) => {
                proof {
                    let stf = self.store.contents();
                    assert forall|k3: BlobId| k3 != skey && k3 != BlobId::IndexBlob implies
                        agrees_at(st0, stf, k3) by {
                        assert(agrees_at(st1, stf, k3));
                        assert(agrees_at(st0, st1, k3));
                    }
                    assert(agrees_at(st1, stf, skey));
                    assert(stf.contains_key(skey) && stf[skey] == secret_blob@);
                    assert(next_id_spec(pre0) as u32 == id);
                }
                return Err(e);
            },
        }
        let ghost st2 = self.store.contents();
        let message = commit_message(true, id);
        match self.vcs.commit_all(message.as_slice()) {
            Ok(u) => {},
            Err(e) => {
                proof {
                    assert forall|k3: BlobId| k3 != skey && k3 != BlobId::IndexBlob implies
                        agrees_at(st0, st2, k3) by {}
                    assert(st2.contains_key(skey) && st2[skey] == secret_blob@);
                    assert(next_id_spec(pre0) as u32 == id);
                }
                return Err(e);
            },
        }
        if push_to_cloud {
            match self.vcs.push() {
                Ok(u) => {},
                Err(e) => {
                    proof {
                        assert forall|k3: BlobId| k3 != skey && k3 != BlobId::IndexBlob implies
                            agrees_at(st0, st2, k3) by {}
                        assert(st2.contains_key(skey) && st2[skey] == secret_blob@);
                        assert(next_id_spec(pre0) as u32 == id);
                    }
                    return Err(e);
                },
            }
        }
        Ok(id)
    }

    /// The index entries whose serialized line contains the search string,
    /// most recent first.
    pub fn get_secrets_list(&self, search_str: &[u8]) -> (r: Result<Vec<IndexEntry>, VaultError>)
        ensures
            r matches Ok(items) ==> stored_index(self.cipher, self.store.contents()) matches Some(
                pre,
            ) && items@.map_values(|t: IndexEntry| t@) == search_spec(pre, search_str@),
    {
        let idx = match self.load_stored_index() {
            Ok(i) => i,
            Err(e) => {
                return Err(e);
            },
        };
        Ok(idx.search(search_str))
    }

    /// Decrypts the secret stored under an id; `NotFound` when no blob for
    /// the id exists, `DecryptionFailed` when either envelope rejects — in
    /// particular always under an answer whose passphrase differs from the
    /// one the secret was encrypted with.
    pub fn decrypt_secrets(&self, id: u32, answer: &[u8]) -> (r: Result<Vec<u8>, VaultError>)
        requires
            self.cipher.obeys(),
        ensures
            !self.store.contents().contains_key(BlobId::Secret(id)) ==> r is Err,
            r matches Ok(p) ==> self.store.contents().contains_key(BlobId::Secret(id))
                && dual_open(
                self.cipher,
                self.store.contents()[BlobId::Secret(id)],
                answer@,
            ) == Some(p@),
            forall|identity: Seq<u8>, plain: Seq<u8>, other: Seq<u8>|
                self.store.contents().contains_key(BlobId::Secret(id))
                    && self.store.contents()[BlobId::Secret(id)] == #[trigger] dual_encrypt_spec(
                    self.cipher,
                    identity,
                    plain,
                    other,
                ) && passphrase_spec(other) != passphrase_spec(answer@) ==> !(r is Ok),
    {
        let blob = match self.store.get(BlobId::Secret(id)) {
            Ok(b) => b,
            Err(e) => {
                return Err(e);
            },
        };
        match blob {
            None => Err(VaultError::NotFound),
            Some(c) => decrypt_secret(&self.cipher, c.as_slice(), answer),
        }
    }

    /// Deletes a secret: removes its blob (tolerating an already absent
    /// file), drops its index entry, re-encrypts the index, and commits.
    /// Deleting an id that never existed is a no-op that still succeeds.
    pub fn delete_secrets(&mut self, id: u32) -> (r: Result<(), VaultError>)
        ensures
            final(self).cipher == old(self).cipher,
            r matches Ok(u) ==> ({
                let e = old(self).cipher;
                let st0 = old(self).store.contents();
                &&& st0.contains_key(BlobId::Email)
                &&& stored_index(e, st0) matches Some(pre) && final(self).store.contents()
                    == st0.remove(BlobId::Secret(id)).insert(
                    BlobId::IndexBlob,
                    e.asym_spec(stored_identity(e, st0), index_text(remove_spec(pre, id))),
                )
            }),
            r is Err ==> disturbs_at_most_two(
                old(self).store.contents(),
                final(self).store.contents(),
                BlobId::Secret(id),
                BlobId::IndexBlob,
            ),
            r is Err ==> (!agrees_at(
                old(self).store.contents(),
                final(self).store.contents(),
                BlobId::IndexBlob,
            ) ==> !final(self).store.contents().contains_key(BlobId::Secret(id))),
    {
        let ghost st0 = self.store.contents();
        let ghost skey = BlobId::Secret(id);
        let email = match self.get_gpg_email() {
            Ok(v) => v,
            Err(e) => {
                return Err(e);
            },
        };
        let mut idx = match self.load_stored_index() {
            Ok(i) => i,
            Err(e) => {
                return Err(e);
            },
        };
        idx.remove(id);
        match self.store.remove(BlobId::Secret(id)) {
            Ok(u) => {},
            Err(e) => {
                proof {
                    assert(agrees_at(st0, self.store.contents(), BlobId::IndexBlob));
                }
                return Err(e);
            },
        }
        let ghost st1 = self.store.contents();
        let text = idx.serialize();
        let index_blob = match self.cipher.encrypt_asymmetric(email.as_slice(), text.as_slice()) {
            Ok(c) => c,
            Err(e) => {
                proof {
                    assert(agrees_at(st0, st1, BlobId::IndexBlob));
                    assert forall|k3: BlobId| k3 != skey && k3 != BlobId::IndexBlob implies
                        agrees_at(st0, st1, k3) by {}
                }
                return Err(e);
            },
        };
        match self.store.put(BlobId::IndexBlob, index_blob.as_slice()) {
            Ok(u) => {},
            Err(e) => {
                proof {
                    let stf = self.store.contents();
                    assert forall|k3: BlobId| k3 != skey && k3 != BlobId::IndexBlob implies
                        agrees_at(st0, stf, k3) by {
                        assert(agrees_at(st1, stf, k3));
                        assert(agrees_at(st0, st1, k3));
                    }
                    assert(agrees_at(st1, stf, skey));
                    assert(!stf.contains_key(skey));
                }
                return Err(e);
            },
        }
        let ghost st2 = self.store.contents();
        let message = commit_message(false, id);
        match self.vcs.commit_all(message.as_slice()) {
            Ok(u) => {},
            Err(e) => {
                proof {
                    assert forall|k3: BlobId| k3 != skey && k3 != BlobId::IndexBlob implies
                        agrees_at(st0, st2, k3) by {}
                    assert(!st2.contains_key(skey));
                }
                return Err(e);
            },
        }
        Ok(())
    }
}

/// Law: the stored index reads back exactly what was written — against any
/// store whose index blob is the encryption of a serialized, well-formed
/// entry sequence (as every successful `add_secrets` or `delete_secrets`
/// leaves it), the parser recovers exactly those entries.
pub proof fn lemma_stored_index_reads_back<E: EncryptionService>(
    e: E,
    st: Map<BlobId, Seq<u8>>,
    ident: Seq<u8>,
    ms: Seq<EntryModel>,
)
    requires
        e.obeys(),
        wf_models(ms),
        st.contains_key(BlobId::IndexBlob),
        st[BlobId::IndexBlob] == e.asym_spec(ident, index_text(ms)),
    ensures
        stored_index(e, st) == Some(ms),
{
    e.asym_opens(ident, index_text(ms));
    crate::index::lemma_index_text_round_trip(ms);
}

/// Law: against a verifier blob written for the bootstrap answer (as a
/// successful `add_email_and_question` leaves it), verification answers true
/// exactly for the offered answers whose verifier equals the bootstrap
/// answer's — in particular true for the bootstrap answer itself.
pub proof fn lemma_verify_matches_bootstrap<E: EncryptionService>(
    e: E,
    email: Seq<u8>,
    answer: Seq<u8>,
    offered: Seq<u8>,
    blob: Seq<u8>,
    b: bool,
)
    requires
        e.obeys(),
        blob == e.asym_spec(email, verifier_spec(answer)),
        b == (blob == e.asym_spec(e.recipient_of(blob), verifier_spec(offered))),
    ensures
        b == (verifier_spec(answer) == verifier_spec(offered)),
{
    e.asym_opens(email, verifier_spec(answer));
    if blob == e.asym_spec(e.recipient_of(blob), verifier_spec(offered)) {
        e.asym_injective(
            email,
            verifier_spec(answer),
            e.recipient_of(blob),
            verifier_spec(offered),
        );
    }
}

} // verus!
