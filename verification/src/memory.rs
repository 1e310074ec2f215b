//! Verified in-memory implementations of the vault's collaborators.
//!
//! `MemCipher` is a transparent envelope, not a cipher: it frames the
//! recipient or passphrase together with the payload in a self-delimiting,
//! injective encoding, which is exactly what the engine's proofs need of an
//! encryption service. It offers no secrecy and exists so that the engine
//! can be exercised and its contracts discharged without an external tool.
//! `MemStore` and `MemVcs` keep blobs and commit messages in memory.

use vstd::prelude::*;
use crate::errors::VaultError;
use crate::service::{BlobId, BlobStore, EncryptionService, VersionControl};
use crate::util::{bytes_eq, copy_bytes, extend_bytes};

verus! {

/// The self-delimiting envelope: as many one-bytes as the label is long,
/// one zero byte, the label, then the payload.
pub open spec fn frame(label: Seq<u8>, payload: Seq<u8>) -> Seq<u8> {
    Seq::new(label.len(), |i: int| 1u8) + seq![0u8] + label + payload
}

/// Framing is injective: equal envelopes carry equal labels and payloads.
pub proof fn lemma_frame_injective(l1: Seq<u8>, p1: Seq<u8>, l2: Seq<u8>, p2: Seq<u8>)
    requires
        frame(l1, p1) == frame(l2, p2),
    ensures
        l1 == l2,
        p1 == p2,
{
    let f1 = frame(l1, p1);
    let f2 = frame(l2, p2);
    let n1 = l1.len() as int;
    let n2 = l2.len() as int;
    assert(f1[n1] == 0u8);
    assert(f2[n2] == 0u8);
    if n1 < n2 {
        assert(f2[n1] == 1u8);
        assert(false);
    }
    if n2 < n1 {
        assert(f1[n2] == 1u8);
        assert(false);
    }
    assert forall|i: int| 0 <= i < n1 implies l1[i] == l2[i] by {
        assert(f1[n1 + 1 + i] == l1[i]);
        assert(f2[n2 + 1 + i] == l2[i]);
    }
    assert(l1 =~= l2);
    assert(f1.len() == 2 * n1 + 1 + p1.len());
    assert forall|i: int| 0 <= i < p1.len() implies p1[i] == p2[i] by {
        assert(f1[2 * n1 + 1 + i] == p1[i]);
        assert(f2[2 * n2 + 1 + i] == p2[i]);
    }
    assert(p1 =~= p2);
}

/// Builds the envelope of a label and payload.
fn frame_bytes(label: &[u8], payload: &[u8]) -> (r: Vec<u8>)
    ensures
        r@ == frame(label@, payload@),
{
    let mut out: Vec<u8> = Vec::new();
    let n = label.len();
    let mut i: usize = 0;
    proof {
        assert(out@ =~= Seq::new(0nat, |j: int| 1u8));
    }
    while i < n
        invariant
            i <= n,
            out@ == Seq::new(i as nat, |j: int| 1u8),
        decreases n - i,
    {
        out.push(1u8);
        proof {
            assert(out@ =~= Seq::new((i + 1) as nat, |j: int| 1u8));
        }
        i += 1;
    }
    out.push(0u8);
    extend_bytes(&mut out, label);
    extend_bytes(&mut out, payload);
    proof {
        assert(out@ =~= frame(label@, payload@));
    }
    out
}

/// Takes an envelope apart; a returned pair reassembles to exactly the
/// input.
fn unframe_bytes(c: &[u8]) -> (r: Option<(Vec<u8>, Vec<u8>)>)
    ensures
        r matches Some(lp) ==> c@ == frame(lp.0@, lp.1@),
{
    let n = c.len();
    let mut k: usize = 0;
    while k < n && c[k] == 1u8
        invariant
            k <= n,
            n == c@.len(),
            forall|j: int| 0 <= j < k ==> c@[j] == 1u8,
        decreases n - k,
    {
        k += 1;
    }
    if k == n {
        return None;
    }
    if c[k] != 0u8 {
        return None;
    }
    if n - (k + 1) < k {
        return None;
    }
    let label = vstd::slice::slice_to_vec(vstd::slice::slice_subrange(c, k + 1, k + 1 + k));
    let payload = vstd::slice::slice_to_vec(vstd::slice::slice_subrange(c, k + 1 + k, n));
    proof {
        assert(c@ =~= frame(label@, payload@));
    }
    Some((label, payload))
}

/// The in-memory encryption service: a keyring of recipients and the
/// transparent envelope above as both layers.
pub struct MemCipher {
    pub keyring: Vec<Vec<u8>>,
}

impl MemCipher {
    /// A service whose keyring holds exactly one recipient.
    pub fn with_recipient(recipient: &[u8]) -> (r: MemCipher)
        ensures
            r.known_recipient(recipient@),
            r.obeys(),
    {
        let mut keyring: Vec<Vec<u8>> = Vec::new();
        keyring.push(copy_bytes(recipient));
        let r = MemCipher { keyring };
        proof {
            assert(r.keyring@[0]@ == recipient@);
        }
        r
    }

    /// Whether a recipient is in the keyring.
    fn keyring_holds(&self, recipient: &[u8]) -> (r: bool)
        ensures
            r == self.known_recipient(recipient@),
    {
        let n = self.keyring.len();
        let mut i: usize = 0;
        while i < n
            invariant
                i <= n,
                n == self.keyring@.len(),
                forall|j: int| 0 <= j < i ==> self.keyring@[j]@ != recipient@,
            decreases n - i,
        {
            if bytes_eq(self.keyring[i].as_slice(), recipient) {
                return true;
            }
            i += 1;
        }
        false
    }
}

impl EncryptionService for MemCipher {
    open spec fn obeys(&self) -> bool {
        true
    }

    open spec fn known_recipient(&self, recipient: Seq<u8>) -> bool {
        exists|i: int| 0 <= i < self.keyring@.len() && #[trigger] self.keyring@[i]@ == recipient
    }

    open spec fn asym_spec(&self, recipient: Seq<u8>, plain: Seq<u8>) -> Seq<u8> {
        frame(recipient, plain)
    }

    open spec fn sym_spec(&self, pass: Seq<u8>, plain: Seq<u8>) -> Seq<u8> {
        frame(pass, plain)
    }

    open spec fn recipient_of(&self, cipher: Seq<u8>) -> Seq<u8> {
        (choose|l: Seq<u8>, p: Seq<u8>| cipher == #[trigger] frame(l, p)).0
    }

    open spec fn plain_of(&self, cipher: Seq<u8>) -> Seq<u8> {
        (choose|l: Seq<u8>, p: Seq<u8>| cipher == #[trigger] frame(l, p)).1
    }

    proof fn asym_injective(&self, r1: Seq<u8>, p1: Seq<u8>, r2: Seq<u8>, p2: Seq<u8>) {
        lemma_frame_injective(r1, p1, r2, p2);
    }

    proof fn sym_injective(&self, k1: Seq<u8>, d1: Seq<u8>, k2: Seq<u8>, d2: Seq<u8>) {
        lemma_frame_injective(k1, d1, k2, d2);
    }

    proof fn asym_opens(&self, recipient: Seq<u8>, plain: Seq<u8>) {
        let c = self.asym_spec(recipient, plain);
        assert(c == frame(recipient, plain));
        let lp = choose|l: Seq<u8>, p: Seq<u8>| c == #[trigger] frame(l, p);
        lemma_frame_injective(lp.0, lp.1, recipient, plain);
    }

    fn check_recipient(&self, recipient: &[u8]) -> (r: Result<bool, VaultError>) {
        Ok(self.keyring_holds(recipient))
    }

    fn encrypt_asymmetric(&self, recipient: &[u8], plain: &[u8]) -> (r: Result<Vec<u8>, VaultError>) {
        if self.keyring_holds(recipient) {
            Ok(frame_bytes(recipient, plain))
        } else {
            Err(VaultError::UnknownIdentity)
        }
    }

    fn encrypt_symmetric(&self, pass: &[u8], plain: &[u8]) -> (r: Result<Vec<u8>, VaultError>) {
        Ok(frame_bytes(pass, plain))
    }

    fn decrypt_asymmetric(&self, cipher: &[u8]) -> (r: Result<Vec<u8>, VaultError>) {
        match unframe_bytes(cipher) {
            Some(lp) => {
                let label = lp.0;
                let payload = lp.1;
                if self.keyring_holds(label.as_slice()) {
                    proof {
                        assert(cipher@ == frame(label@, payload@));
                        let lp2 = choose|l: Seq<u8>, p: Seq<u8>| cipher@ == #[trigger] frame(l, p);
                        lemma_frame_injective(lp2.0, lp2.1, label@, payload@);
                        assert(payload@ == self.plain_of(cipher@));
                        assert(cipher@ == self.asym_spec(self.recipient_of(cipher@), payload@));
                    }
                    Ok(payload)
                } else {
                    Err(VaultError::DecryptionFailed)
                }
            },
            None => Err(VaultError::DecryptionFailed),
        }
    }

    fn decrypt_symmetric(&self, pass: &[u8], cipher: &[u8]) -> (r: Result<Vec<u8>, VaultError>) {
        match unframe_bytes(cipher) {
            Some(lp) => {
                let label = lp.0;
                let payload = lp.1;
                if bytes_eq(label.as_slice(), pass) {
                    Ok(payload)
                } else {
                    Err(VaultError::DecryptionFailed)
                }
            },
            None => Err(VaultError::DecryptionFailed),
        }
    }
}

/// The contents an association list stands for; a later pair under the same
/// name overrides an earlier one.
pub open spec fn al_map(s: Seq<(BlobId, Vec<u8>)>) -> Map<BlobId, Seq<u8>>
    decreases s.len(),
{
    if s.len() == 0 {
        Map::empty()
    } else {
        al_map(s.drop_last()).insert(s.last().0, s.last().1@)
    }
}

/// The in-memory blob store.
pub struct MemStore {
    pub entries: Vec<(BlobId, Vec<u8>)>,
}

impl MemStore {
    /// An empty store: the uninitialized vault directory.
    pub fn new() -> (r: MemStore)
        ensures
            r.contents() == Map::<BlobId, Seq<u8>>::empty(),
    {
        let r = MemStore { entries: Vec::new() };
        proof {
            assert(r.entries@ =~= Seq::<(BlobId, Vec<u8>)>::empty());
        }
        r
    }
}

impl BlobStore for MemStore {
    open spec fn contents(&self) -> Map<BlobId, Seq<u8>> {
        al_map(self.entries@)
    }

    fn get(&self, id: BlobId) -> (r: Result<Option<Vec<u8>>, VaultError>) {
        let n = self.entries.len();
        let mut i: usize = n;
        proof {
            assert(self.entries@.take(n as int) =~= self.entries@);
        }
        while i > 0
            invariant
                i <= n,
                n == self.entries@.len(),
                al_map(self.entries@).contains_key(id) == al_map(
                    self.entries@.take(i as int),
                ).contains_key(id),
                al_map(self.entries@).contains_key(id) ==> al_map(self.entries@)[id] == al_map(
                    self.entries@.take(i as int),
                )[id],
            decreases i,
        {
            i -= 1;
            proof {
                let tk1 = self.entries@.take(i + 1);
                assert(tk1.drop_last() =~= self.entries@.take(i as int));
                assert(tk1.last() == self.entries@[i as int]);
            }
            let hit = self.entries[i].0 == id;
            if hit {
                let data = copy_bytes(self.entries[i].1.as_slice());
                return Ok(Some(data));
            }
        }
        proof {
            assert(self.entries@.take(0) =~= Seq::<(BlobId, Vec<u8>)>::empty());
        }
        Ok(None)
    }

    fn put(&mut self, id: BlobId, data: &[u8]) -> (r: Result<(), VaultError>) {
        let ghost pre = self.entries@;
        self.entries.push((id, copy_bytes(data)));
        proof {
            assert(self.entries@.drop_last() =~= pre);
            assert(self.contents() =~= old(self).contents().insert(id, data@));
        }
        Ok(())
    }

    fn remove(&mut self, id: BlobId) -> (r: Result<(), VaultError>) {
        let mut kept: Vec<(BlobId, Vec<u8>)> = Vec::new();
        let n = self.entries.len();
        let mut i: usize = 0;
        proof {
            assert(kept@ =~= Seq::<(BlobId, Vec<u8>)>::empty());
            assert(self.entries@.take(0) =~= Seq::<(BlobId, Vec<u8>)>::empty());
            assert(al_map(kept@) =~= al_map(self.entries@.take(0)).remove(id));
        }
        while i < n
            invariant
                i <= n,
                n == self.entries@.len(),
                self == old(self),
                al_map(kept@) == al_map(old(self).entries@.take(i as int)).remove(id),
            decreases n - i,
        {
            let ghost pre_kept = kept@;
            let hit = self.entries[i].0 == id;
            if !hit {
                let b = copy_bytes(self.entries[i].1.as_slice());
                kept.push((self.entries[i].0, b));
            }
            proof {
                let tk1 = old(self).entries@.take(i + 1);
                assert(tk1.drop_last() =~= old(self).entries@.take(i as int));
                assert(tk1.last() == old(self).entries@[i as int]);
                if !hit {
                    assert(kept@.drop_last() =~= pre_kept);
                    assert(al_map(kept@) =~= al_map(tk1).remove(id));
                } else {
                    assert(al_map(kept@) =~= al_map(tk1).remove(id));
                }
            }
            i += 1;
        }
        proof {
            assert(old(self).entries@.take(n as int) =~= old(self).entries@);
        }
        self.entries = kept;
        proof {
            assert(self.contents() =~= old(self).contents().remove(id));
        }
        Ok(())
    }
}

/// The in-memory version-control collaborator: it records each commit
/// message.
pub struct MemVcs {
    pub commits: Vec<Vec<u8>>,
}

impl MemVcs {
    /// A collaborator with an empty history.
    pub fn new() -> (r: MemVcs) {
        MemVcs { commits: Vec::new() }
    }
}

impl VersionControl for MemVcs {
    fn commit_all(&mut self, message: &[u8]) -> Result<(), VaultError> {
        self.commits.push(copy_bytes(message));
        Ok(())
    }

    fn push(&mut self) -> Result<(), VaultError> {
        Ok(())
    }
}

} // verus!
