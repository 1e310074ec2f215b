use safesecrets::codec::{decrypt_secret, encrypt_secret};
use safesecrets::errors::VaultError;
use safesecrets::memory::MemCipher;

#[test]
fn dual_layer_round_trip() {
    let svc = MemCipher::with_recipient(b"alice@example.com");
    let c = encrypt_secret(&svc, b"alice@example.com", b"top secret", b"Rex").unwrap();
    assert_ne!(c, b"top secret".to_vec());
    assert_eq!(decrypt_secret(&svc, &c, b"Rex"), Ok(b"top secret".to_vec()));
}

#[test]
fn wrong_answer_is_rejected_as_decryption_failure() {
    let svc = MemCipher::with_recipient(b"alice@example.com");
    let c = encrypt_secret(&svc, b"alice@example.com", b"top secret", b"Rex").unwrap();
    assert_eq!(decrypt_secret(&svc, &c, b"rex"), Err(VaultError::DecryptionFailed));
    assert_eq!(decrypt_secret(&svc, &c, b""), Err(VaultError::DecryptionFailed));
}

#[test]
fn encrypting_to_unknown_recipient_fails() {
    let svc = MemCipher::with_recipient(b"alice@example.com");
    assert_eq!(
        encrypt_secret(&svc, b"bob@example.com", b"top secret", b"Rex"),
        Err(VaultError::UnknownIdentity)
    );
}

#[test]
fn garbage_ciphertext_is_rejected() {
    let svc = MemCipher::with_recipient(b"alice@example.com");
    assert_eq!(
        decrypt_secret(&svc, b"not a ciphertext", b"Rex"),
        Err(VaultError::DecryptionFailed)
    );
}
